//! A character DFA whose transitions carry an action code, built from
//! strings: each string becomes a path of states, sharing the prefixes
//! that earlier strings laid down.

use crate::ids::{free_count, lemma_alloc, next_free};
use crate::text::{ascii_lower, ascii_upper, blen, chars_of, to_ascii_lowercase, to_ascii_uppercase, utf8_len};
use std::collections::{HashMap, HashSet};
use vstd::prelude::*;
use vstd::std_specs::iter::IteratorSpec;

verus! {

broadcast use vstd::std_specs::hash::group_hash_axioms;

/// The key under which the transition out of `from` on `c` is stored.
pub open spec fn key_of(from: u16, c: char) -> u64 {
    (from as int * 0x110000 + c as int) as u64
}

proof fn lemma_key_injective(a: u16, c: char, b: u16, d: char)
    ensures
        key_of(a, c) == key_of(b, d) ==> a == b && c == d,
{
    let ci = c as int;
    let di = d as int;
    assert(0 <= a as int * 0x110000 + ci < 0x1_0000_0000_0000) by (nonlinear_arith)
        requires
            0 <= ci < 0x110000,
            a <= 0xffff,
    ;
    assert(0 <= b as int * 0x110000 + di < 0x1_0000_0000_0000) by (nonlinear_arith)
        requires
            0 <= di < 0x110000,
            b <= 0xffff,
    ;
    if key_of(a, c) == key_of(b, d) {
        assert(a == b && ci == di) by (nonlinear_arith)
            requires
                a as int * 0x110000 + ci == b as int * 0x110000 + di,
                0 <= ci < 0x110000,
                0 <= di < 0x110000,
        ;
        assert(c == d) by {
            vstd::utf8::char_u32_cast(c, c as u32);
            vstd::utf8::char_u32_cast(d, d as u32);
        }
    }
}

fn key_exec(from: u16, c: char) -> (r: u64)
    ensures
        r == key_of(from, c),
{
    let ci = c as u32;
    proof {
        assert((from as int) * 0x110000 + (ci as int) < 0x1_0000_0000_0000) by (nonlinear_arith)
            requires
                ci < 0x110000,
                from <= 0xffff,
        ;
    }
    (from as u64) * 0x110000 + (ci as u64)
}

/// The abstract state of the DFA.
pub ghost struct DfaState {
    /// The next state id to try when allocating a state.
    pub sid: u16,
    pub states: Set<u16>,
    /// (state, input) to (next state, action).
    pub trans: Map<(u16, char), (u16, u16)>,
}

impl DfaState {
    /// How many further states can still be allocated.
    pub open spec fn room(self) -> nat {
        free_count(self.states, self.sid as int)
    }

    /// Allocating a state: the first free id at or above `sid`.
    pub open spec fn alloc_state(self) -> Option<(DfaState, u16)> {
        if self.room() > 0 {
            let s = next_free(self.states, self.sid as int) as u16;
            Some((DfaState { sid: s, states: self.states.insert(s), trans: self.trans }, s))
        } else {
            None
        }
    }

    /// Adding a transition on `c` in lower case and, when it differs, in
    /// upper case; none when one of them exists already.
    pub open spec fn add(self, from: u16, to: u16, c: char, action: u16) -> Option<DfaState> {
        let lc = ascii_lower(c);
        let uc = ascii_upper(c);
        if self.trans.contains_key((from, lc)) || (lc != uc && self.trans.contains_key((from, uc))) {
            None
        } else {
            let t = self.trans.insert((from, lc), (to, action));
            Some(
                DfaState {
                    sid: self.sid,
                    states: self.states,
                    trans: if lc != uc {
                        t.insert((from, uc), (to, action))
                    } else {
                        t
                    },
                },
            )
        }
    }

    /// Following the transition on exactly `c`, or adding one to a new
    /// state with `action`.
    pub open spec fn step(self, from: u16, c: char, action: u16) -> Option<(DfaState, u16)> {
        if self.trans.contains_key((from, c)) {
            Some((self, self.trans[(from, c)].0))
        } else {
            match self.alloc_state() {
                Some((d, s)) => Some(
                    (
                        DfaState {
                            sid: d.sid,
                            states: d.states,
                            trans: d.trans.insert((from, c), (s, action)),
                        },
                        s,
                    ),
                ),
                None => None,
            }
        }
    }

    /// Following or adding the path of `s` from `from`, without actions.
    pub open spec fn walk(self, from: u16, s: Seq<char>) -> Option<(DfaState, u16)>
        decreases s.len(),
    {
        if s.len() == 0 {
            Some((self, from))
        } else {
            match self.step(from, s[0], 0) {
                Some((d, n)) => d.walk(n, s.drop_first()),
                None => None,
            }
        }
    }

    /// Adding the path of `input` from `from` to `to`: the characters
    /// before the last are followed or added without actions (as many as
    /// `input` has bytes but one); the last goes to `to` with `action`.
    pub open spec fn add_path(self, from: u16, to: u16, input: Seq<char>, action: u16) -> Option<DfaState> {
        if input.len() == 0 {
            None
        } else {
            let d0 = DfaState { sid: self.sid, states: self.states.insert(from).insert(to), trans: self.trans };
            let n = blen(input) - 1;
            let prefix = input.take(if n < input.len() { n as int } else { input.len() as int });
            match d0.walk(from, prefix) {
                Some((d1, s)) => d1.add(s, to, input.last(), action),
                None => None,
            }
        }
    }

    /// Adding the path of `input` from `from` to a new state.
    pub open spec fn add_path_new(self, from: u16, input: Seq<char>, action: u16) -> Option<(DfaState, u16)> {
        match self.alloc_state() {
            Some((d, to)) => match d.add_path(from, to, input, action) {
                Some(d2) => Some((d2, to)),
                None => None,
            },
            None => None,
        }
    }
}

/// A DFA over characters.
pub struct DFA {
    sid: u16,
    states: HashSet<u16>,
    /// `key_of(from, input)` to (from, input, to, action)
    transitions: HashMap<u64, (u16, char, u16, u16)>,
}

impl View for DFA {
    type V = DfaState;

    closed spec fn view(&self) -> DfaState {
        DfaState {
            sid: self.sid,
            states: self.states@,
            trans: Map::new(
                |k: (u16, char)| self.transitions@.contains_key(key_of(k.0, k.1)),
                |k: (u16, char)|
                    (self.transitions@[key_of(k.0, k.1)].2, self.transitions@[key_of(k.0, k.1)].3),
            ),
        }
    }
}

impl DFA {
    /// Each stored transition sits under its own key.
    pub closed spec fn wf(&self) -> bool {
        forall|k: u64|
            #[trigger] self.transitions@.contains_key(k) ==> key_of(
                self.transitions@[k].0,
                self.transitions@[k].1,
            ) == k
    }

    /// A DFA whose states are the reserved ones, without transitions.
    pub fn new(reserved_states: Vec<u16>) -> (r: DFA)
        ensures
            r.wf(),
            r@.sid == 0,
            r@.states == reserved_states@.to_set(),
            r@.trans == Map::<(u16, char), (u16, u16)>::empty(),
    {
        let mut states: HashSet<u16> = HashSet::new();
        let mut i: usize = 0;
        while i < reserved_states.len()
            invariant
                i <= reserved_states.len(),
                states@ == reserved_states@.take(i as int).to_set(),
            decreases reserved_states.len() - i,
        {
            proof {
                assert(reserved_states@.take(i + 1) == reserved_states@.take(i as int).push(
                    reserved_states@[i as int],
                ));
                reserved_states@.take(i as int).lemma_push_to_set_commute(
                    reserved_states@[i as int],
                );
            }
            states.insert(reserved_states[i]);
            i = i + 1;
        }
        assert(reserved_states@.take(i as int) == reserved_states@);
        let r = DFA { sid: 0, states, transitions: HashMap::new() };
        assert(r@.trans =~= Map::<(u16, char), (u16, u16)>::empty());
        r
    }

    /// Allocates the first free state id at or above the next one to try.
    pub fn insert_new_state(&mut self) -> (r: u16)
        requires
            old(self).wf(),
            old(self)@.alloc_state() is Some,
        ensures
            final(self).wf(),
            (final(self)@, r) == old(self)@.alloc_state()->0,
    {
        let ghost target = next_free(self.states@, self.sid as int);
        proof {
            lemma_alloc(self.states@, self.sid as int);
        }
        while self.states.contains(&self.sid)
            invariant
                self.wf(),
                self.states@ == old(self).states@,
                self.transitions@ == old(self).transitions@,
                old(self).sid <= self.sid <= target,
                target < 0x10000,
                next_free(self.states@, self.sid as int) == target,
                !self.states@.contains(target as u16),
            decreases 0x10000 - self.sid,
        {
            self.sid = self.sid + 1;
        }
        self.states.insert(self.sid);
        proof {
            assert(self@.trans =~= old(self)@.trans);
        }
        self.sid
    }

    fn put(&mut self, from: u16, c: char, to: u16, action: u16)
        requires
            old(self).wf(),
        ensures
            final(self).wf(),
            final(self)@ == (DfaState {
                sid: old(self)@.sid,
                states: old(self)@.states,
                trans: old(self)@.trans.insert((from, c), (to, action)),
            }),
    {
        let k = key_exec(from, c);
        self.transitions.insert(k, (from, c, to, action));
        proof {
            let want = old(self)@.trans.insert((from, c), (to, action));
            assert forall|q: (u16, char)| #[trigger] self@.trans.contains_key(q) == want.contains_key(
                q,
            ) by {
                lemma_key_injective(q.0, q.1, from, c);
            }
            assert forall|q: (u16, char)| #[trigger] self@.trans.contains_key(q) implies self@.trans[q]
                == want[q] by {
                lemma_key_injective(q.0, q.1, from, c);
            }
            assert(self@.trans =~= want);
        }
    }

    fn get(&self, from: u16, c: char) -> (r: Option<(u16, u16)>)
        requires
            self.wf(),
        ensures
            r == (if self@.trans.contains_key((from, c)) {
                Some(self@.trans[(from, c)])
            } else {
                None::<(u16, u16)>
            }),
    {
        match self.transitions.get(&key_exec(from, c)) {
            Some(t) => Some((t.2, t.3)),
            None => None,
        }
    }

    /// Adds the transition from `from` to `to` on `input`, in lower case
    /// and, when it differs, in upper case.
    pub fn add_transition(&mut self, from: u16, to: u16, input: char, action: u16)
        requires
            old(self).wf(),
            old(self)@.add(from, to, input, action) is Some,
        ensures
            final(self).wf(),
            final(self)@ == old(self)@.add(from, to, input, action)->0,
    {
        let lc = to_ascii_lowercase(input);
        let uc = to_ascii_uppercase(input);
        self.put(from, lc, to, action);
        if lc != uc {
            self.put(from, uc, to, action);
        }
    }

    /// The state the transition on exactly `input` leads to, added to a new
    /// state with `action` when there is none.
    pub fn add_transition_to_new_state(&mut self, from: u16, input: char, action: u16) -> (r: u16)
        requires
            old(self).wf(),
            old(self)@.step(from, input, action) is Some,
        ensures
            final(self).wf(),
            (final(self)@, r) == old(self)@.step(from, input, action)->0,
    {
        match self.get(from, input) {
            Some((next, _)) => next,
            None => {
                let next = self.insert_new_state();
                self.put(from, input, next, action);
                next
            },
        }
    }

    fn walk(&mut self, from: u16, input: &Vec<char>, n: usize) -> (r: u16)
        requires
            old(self).wf(),
            n <= input@.len(),
            old(self)@.walk(from, input@.take(n as int)) is Some,
        ensures
            final(self).wf(),
            (final(self)@, r) == old(self)@.walk(from, input@.take(n as int))->0,
    {
        let ghost whole = old(self)@.walk(from, input@.take(n as int));
        let mut state = from;
        let mut i: usize = 0;
        assert(input@.take(n as int).skip(0) =~= input@.take(n as int));
        while i < n
            invariant
                i <= n <= input@.len(),
                self.wf(),
                self@.walk(state, input@.take(n as int).skip(i as int)) == whole,
                whole is Some,
            decreases n - i,
        {
            let ghost rest = input@.take(n as int).skip(i as int);
            assert(rest[0] == input@[i as int]);
            assert(rest.drop_first() =~= input@.take(n as int).skip(i as int + 1));
            state = self.add_transition_to_new_state(state, input[i], 0);
            i = i + 1;
        }
        assert(input@.take(n as int).skip(n as int) =~= Seq::<char>::empty());
        state
    }

    /// Adds the path of `input` from `from` to `to`; `from` and `to` become states.
    pub fn add_transitions(&mut self, from: u16, to: u16, input: &str, action: u16)
        requires
            old(self).wf(),
            old(self)@.add_path(from, to, input@, action) is Some,
        ensures
            final(self).wf(),
            final(self)@ == old(self)@.add_path(from, to, input@, action)->0,
    {
        let chars = chars_of(input);
        if !self.states.contains(&from) {
            self.states.insert(from);
        }
        if !self.states.contains(&to) {
            self.states.insert(to);
        }
        proof {
            assert(self@.states =~= old(self)@.states.insert(from).insert(to));
            assert(self@.trans =~= old(self)@.trans);
        }
        let bytes = utf8_len(input);
        let n: usize = if bytes - 1 < chars.len() as u128 {
            (bytes - 1) as usize
        } else {
            chars.len()
        };
        let state = self.walk(from, &chars, n);
        let last = chars[chars.len() - 1];
        self.add_transition(state, to, last, action);
    }

    /// Adds the path of `input` from `from` to a new state, and returns it.
    pub fn add_transitions_to_new_state(&mut self, from: u16, input: &str, action: u16) -> (r: u16)
        requires
            old(self).wf(),
            old(self)@.add_path_new(from, input@, action) is Some,
        ensures
            final(self).wf(),
            (final(self)@, r) == old(self)@.add_path_new(from, input@, action)->0,
    {
        let to = self.insert_new_state();
        self.add_transitions(from, to, input, action);
        to
    }

    /// The states, each once, in no particular order.
    pub fn iter_states(&self) -> (r: Vec<u16>)
        ensures
            r@.to_set() == self@.states,
            r@.no_duplicates(),
    {
        let mut out: Vec<u16> = Vec::new();
        for s in it: self.states.iter()
            invariant
                out@ == it.seq().take(it.index() as int).map_values(|x: &u16| *x),
                it.seq() == vstd::std_specs::hash::spec_hash_keys_iter(&self.states).remaining(),
        {
            out.push(*s);
        }
        proof {
            let rem = vstd::std_specs::hash::spec_hash_keys_iter(&self.states).remaining();
            assert(rem.take(rem.len() as int) == rem);
            assert(out@ =~= rem.unref());
        }
        out
    }

    /// The transitions as (from, to, input, action), each once, in no
    /// particular order.
    pub fn iter_transitions(&self) -> (r: Vec<(u16, u16, char, u16)>)
        requires
            self.wf(),
        ensures
            forall|t: (u16, u16, char, u16)|
                r@.contains(t) <==> self@.trans.contains_key((t.0, t.2)) && self@.trans[(t.0, t.2)]
                    == (t.1, t.3),
            r@.len() == self@.trans.dom().len(),
    {
        let mut out: Vec<(u16, u16, char, u16)> = Vec::new();
        for kv in it: self.transitions.iter()
            invariant
                out@.len() == it.index(),
                forall|j: int|
                    0 <= j < it.index() ==> #[trigger] out@[j] == (
                        it.seq()[j].1.0,
                        it.seq()[j].1.2,
                        it.seq()[j].1.1,
                        it.seq()[j].1.3,
                    ),
                it.seq() == vstd::std_specs::hash::spec_hash_map_iter(&self.transitions).remaining(),
        {
            let v = kv.1;
            out.push((v.0, v.2, v.1, v.3));
        }
        proof {
            let rem = vstd::std_specs::hash::spec_hash_map_iter(&self.transitions).remaining();
            assert forall|t: (u16, u16, char, u16)|
                out@.contains(t) <==> self@.trans.contains_key((t.0, t.2)) && self@.trans[(t.0, t.2)]
                    == (t.1, t.3) by {
                if out@.contains(t) {
                    let j = choose|j: int| 0 <= j < out@.len() && out@[j] == t;
                    assert(self.transitions@.contains_key(*rem[j].0));
                    assert(self.transitions@[*rem[j].0] == *rem[j].1);
                    lemma_key_injective(t.0, t.2, t.0, t.2);
                }
                if self@.trans.contains_key((t.0, t.2)) && self@.trans[(t.0, t.2)] == (t.1, t.3) {
                    let k = key_of(t.0, t.2);
                    assert(self.transitions@.contains_key(k));
                    let v = self.transitions@[k];
                    assert(rem.contains((&k, &v)));
                    let j = choose|j: int| 0 <= j < rem.len() && rem[j] == (&k, &v);
                    lemma_key_injective(v.0, v.1, t.0, t.2);
                    assert(out@[j] == t);
                }
            }
            lemma_view_dom_len(self);
        }
        out
    }
}

proof fn lemma_view_dom_len(d: &DFA)
    requires
        d.wf(),
    ensures
        d@.trans.dom().len() == d.transitions@.dom().len(),
{
    let f = |q: (u16, char)| key_of(q.0, q.1);
    let g = |k: u64| (d.transitions@[k].0, d.transitions@[k].1);
    let dom = d@.trans.dom();
    let kdom = d.transitions@.dom();
    assert(kdom.finite()) by {
        vstd::std_specs::hash::axiom_hashmap_view_finite_dom(d.transitions);
    }
    assert(dom =~= kdom.map(g)) by {
        assert forall|q: (u16, char)| dom.contains(q) implies kdom.map(g).contains(q) by {
            let k = key_of(q.0, q.1);
            lemma_key_injective(d.transitions@[k].0, d.transitions@[k].1, q.0, q.1);
            assert(g(k) == q);
        }
    }
    kdom.lemma_map_finite(g);
    assert(kdom =~= dom.map(f)) by {
        assert forall|k: u64| kdom.contains(k) implies dom.map(f).contains(k) by {
            let q = (d.transitions@[k].0, d.transitions@[k].1);
            assert(dom.contains(q));
            assert(f(q) == k);
        }
    }
    assert forall|x: (u16, char), y: (u16, char)|
        dom.contains(x) && dom.contains(y) && #[trigger] f(x) == #[trigger] f(y) implies x == y by {
        lemma_key_injective(x.0, x.1, y.0, y.1);
    }
    assert(vstd::relations::injective_on(f, dom));
    vstd::set_lib::lemma_map_size(dom, kdom, f);
}

} // verus!
