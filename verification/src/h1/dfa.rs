//! The HTTP/1.1 DFA and the builder that adds patterns to it.

use crate::h1::{Action, DfaError};
use crate::ids::{free_count, lemma_alloc, next_free};
use crate::text::{
    ascii_lower, ascii_upper, chars_of, take_chars, to_ascii_lowercase, to_ascii_uppercase,
};
use std::collections::{HashMap, HashSet};
use vstd::prelude::*;
use vstd::std_specs::iter::IteratorSpec;

verus! {

broadcast use vstd::std_specs::hash::group_hash_axioms;

/// The number of distinct `char` values a transition key reserves per state.
pub open spec fn char_span() -> int {
    0x110000
}

/// The key under which the transition out of `from` on `c` is stored.
pub open spec fn tkey(from: u16, c: char) -> u64 {
    (from as int * char_span() + c as int) as u64
}

proof fn lemma_tkey_injective(a: u16, c: char, b: u16, d: char)
    ensures
        tkey(a, c) == tkey(b, d) ==> a == b && c == d,
{
    let ci = c as int;
    let di = d as int;
    assert(0 <= ci < 0x110000);
    assert(0 <= di < 0x110000);
    assert(0 <= a as int * 0x110000 + ci < 0x1_0000_0000_0000) by (nonlinear_arith)
        requires
            0 <= ci < 0x110000,
            a <= 0xffff,
    ;
    assert(0 <= b as int * 0x110000 + di < 0x1_0000_0000_0000) by (nonlinear_arith)
        requires
            0 <= di < 0x110000,
            b <= 0xffff,
    ;
    if tkey(a, c) == tkey(b, d) {
        assert(a as int * 0x110000 + ci == b as int * 0x110000 + di);
        assert(a == b && ci == di) by (nonlinear_arith)
            requires
                a as int * 0x110000 + ci == b as int * 0x110000 + di,
                0 <= ci < 0x110000,
                0 <= di < 0x110000,
        ;
        assert(c == d) by {
            vstd::utf8::char_u32_cast(c, c as u32);
            vstd::utf8::char_u32_cast(d, d as u32);
        }
    }
}

fn tkey_exec(from: u16, c: char) -> (r: u64)
    ensures
        r == tkey(from, c),
{
    let ci = c as u32;
    proof {
        assert((from as int) * 0x110000 + (ci as int) < 0x1_0000_0000_0000) by (nonlinear_arith)
            requires
                ci < 0x110000,
                from <= 0xffff,
        ;
    }
    (from as u64) * 0x110000 + (ci as u64)
}

/// The abstract state of a DFA.
pub ghost struct DfaView {
    /// The next state id to try when allocating a state.
    pub sid: u16,
    /// The next free capture id.
    pub cid: u8,
    /// The next free range id.
    pub rid: u8,
    pub states: Set<u16>,
    /// (state, input) to (next state, action).
    pub trans: Map<(u16, char), (u16, Action)>,
}

impl DfaView {
    /// Every transition starts and ends in a state.
    pub open spec fn closed(self) -> bool {
        forall|k: (u16, char)|
            #[trigger] self.trans.contains_key(k) ==> self.states.contains(k.0)
                && self.states.contains(self.trans[k].0)
    }

    /// How many further states can still be allocated.
    pub open spec fn room(self) -> nat {
        free_count(self.states, self.sid as int)
    }

    /// Allocating a state takes the first free id at or above `sid`.
    pub open spec fn alloc_state(self) -> (DfaView, u16) {
        let s = next_free(self.states, self.sid as int) as u16;
        (
            DfaView {
                sid: s,
                cid: self.cid,
                rid: self.rid,
                states: self.states.insert(s),
                trans: self.trans,
            },
            s,
        )
    }

    pub open spec fn with_trans(self, trans: Map<(u16, char), (u16, Action)>) -> DfaView {
        DfaView { sid: self.sid, cid: self.cid, rid: self.rid, states: self.states, trans }
    }

    /// Taking a fresh capture id.
    pub open spec fn new_cid(self) -> (DfaView, u8) {
        (
            DfaView {
                sid: self.sid,
                cid: (self.cid + 1) as u8,
                rid: self.rid,
                states: self.states,
                trans: self.trans,
            },
            self.cid,
        )
    }

    /// Taking a fresh range id.
    pub open spec fn new_rid(self) -> (DfaView, u8) {
        (
            DfaView {
                sid: self.sid,
                cid: self.cid,
                rid: (self.rid + 1) as u8,
                states: self.states,
                trans: self.trans,
            },
            self.rid,
        )
    }

    pub open spec fn get(self, from: u16, c: char) -> Option<(u16, Action)> {
        if self.trans.contains_key((from, c)) {
            Some(self.trans[(from, c)])
        } else {
            None
        }
    }

    /// Inserting a transition stores it under the lower-case input and, if
    /// that differs, under the upper-case input too. The result is the
    /// transition that the first store that found one replaced.
    pub open spec fn ins(self, from: u16, to: u16, c: char, a: Action) -> (
        DfaView,
        Option<(u16, Action)>,
    ) {
        let lc = ascii_lower(c);
        let uc = ascii_upper(c);
        let t1 = self.trans.insert((from, lc), (to, a));
        if self.trans.contains_key((from, lc)) {
            (self.with_trans(t1), self.get(from, lc))
        } else if lc != uc {
            (self.with_trans(t1.insert((from, uc), (to, a))), self.get(from, uc))
        } else {
            (self.with_trans(t1), None)
        }
    }

    /// The state reached from `from` by following `s` exactly.
    pub open spec fn walk(self, from: u16, s: Seq<char>) -> Option<u16>
        decreases s.len(),
    {
        if s.len() == 0 {
            Some(from)
        } else if self.trans.contains_key((from, s[0])) {
            self.walk(self.trans[(from, s[0])].0, s.drop_first())
        } else {
            None
        }
    }

    /// The state reached from `from` by following `s` with every input
    /// taken in lower case.
    pub open spec fn walk_lower(self, from: u16, s: Seq<char>) -> Option<u16>
        decreases s.len(),
    {
        if s.len() == 0 {
            Some(from)
        } else if self.trans.contains_key((from, ascii_lower(s[0]))) {
            self.walk_lower(self.trans[(from, ascii_lower(s[0]))].0, s.drop_first())
        } else {
            None
        }
    }
}

proof fn lemma_ins_closed(d: DfaView, from: u16, to: u16, c: char, a: Action)
    requires
        d.closed(),
        d.states.contains(from),
        d.states.contains(to),
    ensures
        d.ins(from, to, c, a).0.closed(),
        d.ins(from, to, c, a).0.states == d.states,
        d.ins(from, to, c, a).0.sid == d.sid,
        d.ins(from, to, c, a).0.cid == d.cid,
        d.ins(from, to, c, a).0.rid == d.rid,
{
}

proof fn lemma_walk_closed(d: DfaView, from: u16, s: Seq<char>)
    requires
        d.closed(),
        d.states.contains(from),
    ensures
        d.walk(from, s) matches Some(t) ==> d.states.contains(t),
    decreases s.len(),
{
    if s.len() > 0 && d.trans.contains_key((from, s[0])) {
        lemma_walk_closed(d, d.trans[(from, s[0])].0, s.drop_first());
    }
}

/// A character DFA whose transitions carry capture actions.
pub struct Dfa {
    /// The next free state id
    sid: u16,
    /// The next free capture id
    cid: u8,
    /// The next free range id
    rid: u8,
    states: HashSet<u16>,
    /// `tkey(from, input)` to (from, input, to, action)
    transitions: HashMap<u64, (u16, char, u16, Action)>,
}

impl View for Dfa {
    type V = DfaView;

    closed spec fn view(&self) -> DfaView {
        DfaView {
            sid: self.sid,
            cid: self.cid,
            rid: self.rid,
            states: self.states@,
            trans: Map::new(
                |k: (u16, char)| self.transitions@.contains_key(tkey(k.0, k.1)),
                |k: (u16, char)|
                    (self.transitions@[tkey(k.0, k.1)].2, self.transitions@[tkey(k.0, k.1)].3),
            ),
        }
    }
}

impl Dfa {
    /// Each stored transition sits under its own key.
    pub closed spec fn wf(&self) -> bool {
        forall|k: u64|
            #[trigger] self.transitions@.contains_key(k) ==> tkey(
                self.transitions@[k].0,
                self.transitions@[k].1,
            ) == k
    }

    /// Creates a DFA whose states are exactly the reserved ones.
    pub fn new(reserved_states: Vec<u16>) -> (r: Dfa)
        ensures
            r.wf(),
            r@.sid == 0,
            r@.cid == 0,
            r@.rid == 0,
            r@.states == reserved_states@.to_set(),
            r@.trans == Map::<(u16, char), (u16, Action)>::empty(),
    {
        let mut states: HashSet<u16> = HashSet::new();
        let mut i: usize = 0;
        while i < reserved_states.len()
            invariant
                i <= reserved_states.len(),
                states@ == reserved_states@.take(i as int).to_set(),
            decreases reserved_states.len() - i,
        {
            proof {
                assert(reserved_states@.take(i + 1) == reserved_states@.take(i as int).push(
                    reserved_states@[i as int],
                ));
                reserved_states@.take(i as int).lemma_push_to_set_commute(
                    reserved_states@[i as int],
                );
            }
            states.insert(reserved_states[i]);
            i = i + 1;
        }
        assert(reserved_states@.take(i as int) == reserved_states@);
        let r = Dfa { sid: 0, cid: 0, rid: 0, states, transitions: HashMap::new() };
        assert(r@.trans =~= Map::<(u16, char), (u16, Action)>::empty());
        r
    }

    /// Allocates the first free id at or above the next free state id.
    fn insert_state(&mut self) -> (r: u16)
        requires
            old(self).wf(),
            old(self)@.room() > 0,
        ensures
            final(self).wf(),
            (final(self)@, r) == old(self)@.alloc_state(),
            final(self)@.room() + 1 == old(self)@.room(),
    {
        let ghost target = next_free(self.states@, self.sid as int);
        proof {
            lemma_alloc(self.states@, self.sid as int);
        }
        while self.states.contains(&self.sid)
            invariant
                self.wf(),
                self.states@ == old(self).states@,
                self.transitions@ == old(self).transitions@,
                self.cid == old(self).cid,
                self.rid == old(self).rid,
                old(self).sid <= self.sid <= target,
                target < 0x10000,
                next_free(self.states@, self.sid as int) == target,
                !self.states@.contains(target as u16),
            decreases 0x10000 - self.sid,
        {
            self.sid = self.sid + 1;
        }
        self.states.insert(self.sid);
        self.sid
    }

    fn insert_new_capture_start(&mut self) -> (r: u8)
        requires
            old(self).wf(),
            old(self)@.cid < 255,
        ensures
            final(self).wf(),
            (final(self)@, r) == old(self)@.new_cid(),
    {
        let cid = self.cid;
        self.cid = self.cid + 1;
        cid
    }

    fn insert_new_range(&mut self) -> (r: u8)
        requires
            old(self).wf(),
            old(self)@.rid < 255,
        ensures
            final(self).wf(),
            (final(self)@, r) == old(self)@.new_rid(),
    {
        let rid = self.rid;
        self.rid = self.rid + 1;
        rid
    }

    /// Stores one transition under its exact input.
    fn put(&mut self, from: u16, c: char, to: u16, action: Action) -> (r: Option<(u16, Action)>)
        requires
            old(self).wf(),
        ensures
            final(self).wf(),
            final(self)@ == old(self)@.with_trans(old(self)@.trans.insert((from, c), (to, action))),
            r == old(self)@.get(from, c),
    {
        let k = tkey_exec(from, c);
        let prev = self.transitions.insert(k, (from, c, to, action));
        proof {
            assert forall|q: (u16, char)| #[trigger]
                self@.trans.contains_key(q) == old(self)@.trans.insert(
                    (from, c),
                    (to, action),
                ).contains_key(q) by {
                lemma_tkey_injective(q.0, q.1, from, c);
            }
            assert forall|q: (u16, char)| #[trigger] self@.trans.contains_key(q) implies self@.trans[q]
                == old(self)@.trans.insert((from, c), (to, action))[q] by {
                lemma_tkey_injective(q.0, q.1, from, c);
            }
            assert(self@.trans =~= old(self)@.trans.insert((from, c), (to, action)));
        }
        match prev {
            Some(t) => Some((t.2, t.3)),
            None => None,
        }
    }

    /// The transition stored under exactly `(from, c)`.
    fn lookup(&self, from: u16, c: char) -> (r: Option<(u16, Action)>)
        requires
            self.wf(),
        ensures
            r == self@.get(from, c),
    {
        match self.transitions.get(&tkey_exec(from, c)) {
            Some(t) => Some((t.2, t.3)),
            None => None,
        }
    }

    fn has_state(&self, s: u16) -> (r: bool)
        ensures
            r == self@.states.contains(s),
    {
        self.states.contains(&s)
    }

    /// Inserts a transition under the lower-case input and, when it differs,
    /// under the upper-case input. Returns the first transition it replaced.
    pub fn insert_transition(&mut self, from: u16, to: u16, input: char, action: Action) -> (r:
        Option<(u16, Action)>)
        requires
            old(self).wf(),
        ensures
            final(self).wf(),
            (final(self)@, r) == old(self)@.ins(from, to, input, action),
    {
        let lc_input = to_ascii_lowercase(input);
        let uc_input = to_ascii_uppercase(input);

        if let Some(transition) = self.put(from, lc_input, to, action) {
            return Some(transition);
        }
        if lc_input != uc_input {
            if let Some(transition) = self.put(from, uc_input, to, action) {
                return Some(transition);
            }
        }
        None
    }

    /// Starts a new pattern at `from`.
    pub fn start_pattern<'a>(&'a mut self, from: u16) -> (r: DfaBuilder<'a>)
        ensures
            *r.dfa == *old(self),
            *final(self) == *final(r.dfa),
            r.start == from,
            r.sid == from,
            r.cid is None,
            !r.capturing,
    {
        DfaBuilder { dfa: self, start: from, sid: from, cid: None, capturing: false }
    }

    /// How many more states can be allocated.
    pub fn free_states(&self) -> (r: u32)
        ensures
            r == self@.room(),
    {
        let mut count: u32 = 0;
        let mut i: u32 = self.sid as u32;
        while i < 0x10000
            invariant
                self.sid <= i <= 0x10000,
                count <= i - self.sid,
                count + free_count(self.states@, i as int) == free_count(self.states@, self.sid as int),
            decreases 0x10000 - i,
        {
            if !self.states.contains(&(i as u16)) {
                count = count + 1;
            }
            i = i + 1;
        }
        count
    }

    /// The number of range ids handed out so far.
    pub fn num_ranges(&self) -> (r: u8)
        ensures
            r == self@.rid,
    {
        self.rid
    }

    /// The number of capture ids handed out so far.
    pub fn num_captures(&self) -> (r: u8)
        ensures
            r == self@.cid,
    {
        self.cid
    }

    pub fn num_states(&self) -> (r: usize)
        ensures
            r == self@.states.len(),
    {
        self.states.len()
    }

    /// The state reached from `from` on `pattern`, looking every input up
    /// in lower case.
    pub fn get_state(&self, from: u16, pattern: &str) -> (r: Option<u16>)
        requires
            self.wf(),
        ensures
            r == self@.walk_lower(from, pattern@),
    {
        let chars = chars_of(pattern);
        let mut res = from;
        assert(pattern@.skip(0) =~= pattern@);
        let mut i: usize = 0;
        while i < chars.len()
            invariant
                self.wf(),
                i <= chars@.len(),
                chars@ == pattern@,
                self@.walk_lower(from, pattern@) == self@.walk_lower(res, pattern@.skip(i as int)),
            decreases chars.len() - i,
        {
            assert(pattern@.skip(i as int).drop_first() == pattern@.skip(i + 1));
            let lc = to_ascii_lowercase(chars[i]);
            match self.lookup(res, lc) {
                Some(to) => {
                    res = to.0;
                },
                None => {
                    return None;
                },
            }
            i = i + 1;
        }
        assert(pattern@.skip(i as int).len() == 0);
        Some(res)
    }

    /// All states, each once, in no particular order.
    pub fn iter_states(&self) -> (r: Vec<u16>)
        ensures
            r@.to_set() == self@.states,
            r@.no_duplicates(),
    {
        let mut out: Vec<u16> = Vec::new();
        for s in it: self.states.iter()
            invariant
                out@ == it.seq().take(it.index() as int).map_values(|x: &u16| *x),
                it.seq() == vstd::std_specs::hash::spec_hash_keys_iter(&self.states).remaining(),
        {
            out.push(*s);
        }
        proof {
            let rem = vstd::std_specs::hash::spec_hash_keys_iter(&self.states).remaining();
            assert(rem.take(rem.len() as int) == rem);
            assert(out@ =~= rem.unref());
        }
        out
    }

    /// All transitions as (from, to, input, action), each once, in no
    /// particular order.
    pub fn iter_transitions(&self) -> (r: Vec<(u16, u16, char, Action)>)
        requires
            self.wf(),
        ensures
            forall|t: (u16, u16, char, Action)|
                r@.contains(t) <==> self@.get(t.0, t.2) == Some((t.1, t.3)),
            r@.len() == self@.trans.dom().len(),
    {
        let mut out: Vec<(u16, u16, char, Action)> = Vec::new();
        for kv in it: self.transitions.iter()
            invariant
                out@.len() == it.index(),
                forall|j: int|
                    0 <= j < it.index() ==> #[trigger] out@[j] == (
                        it.seq()[j].1.0,
                        it.seq()[j].1.2,
                        it.seq()[j].1.1,
                        it.seq()[j].1.3,
                    ),
                it.seq() == vstd::std_specs::hash::spec_hash_map_iter(&self.transitions).remaining(),
        {
            let v = kv.1;
            out.push((v.0, v.2, v.1, v.3));
        }
        proof {
            let rem = vstd::std_specs::hash::spec_hash_map_iter(&self.transitions).remaining();
            assert forall|t: (u16, u16, char, Action)|
                out@.contains(t) <==> self@.get(t.0, t.2) == Some((t.1, t.3)) by {
                if out@.contains(t) {
                    let j = choose|j: int| 0 <= j < out@.len() && out@[j] == t;
                    assert(self.transitions@.contains_key(*rem[j].0));
                    assert(self.transitions@[*rem[j].0] == *rem[j].1);
                    lemma_tkey_injective(t.0, t.2, t.0, t.2);
                }
                if self@.get(t.0, t.2) == Some((t.1, t.3)) {
                    let k = tkey(t.0, t.2);
                    assert(self.transitions@.contains_key(k));
                    let v = self.transitions@[k];
                    assert(rem.contains((&k, &v)));
                    let j = choose|j: int| 0 <= j < rem.len() && rem[j] == (&k, &v);
                    lemma_tkey_injective(v.0, v.1, t.0, t.2);
                    assert(out@[j] == t);
                }
            }
            lemma_view_dom_len(self);
        }
        out
    }
}

proof fn lemma_view_dom_len(d: &Dfa)
    requires
        d.wf(),
    ensures
        d@.trans.dom().len() == d.transitions@.dom().len(),
{
    let f = |q: (u16, char)| tkey(q.0, q.1);
    let g = |k: u64| (d.transitions@[k].0, d.transitions@[k].1);
    let dom = d@.trans.dom();
    let kdom = d.transitions@.dom();
    assert(kdom.finite()) by {
        vstd::std_specs::hash::axiom_hashmap_view_finite_dom(d.transitions);
    }
    assert(dom =~= kdom.map(g)) by {
        assert forall|q: (u16, char)| dom.contains(q) implies kdom.map(g).contains(q) by {
            let k = tkey(q.0, q.1);
            lemma_tkey_injective(d.transitions@[k].0, d.transitions@[k].1, q.0, q.1);
            assert(g(k) == q);
        }
    }
    kdom.lemma_map_finite(g);
    assert(kdom =~= dom.map(f)) by {
        assert forall|k: u64| kdom.contains(k) implies dom.map(f).contains(k) by {
            let q = (d.transitions@[k].0, d.transitions@[k].1);
            assert(dom.contains(q));
            assert(f(q) == k);
        }
    }
    assert forall|x: (u16, char), y: (u16, char)|
        dom.contains(x) && dom.contains(y) && #[trigger] f(x) == #[trigger] f(y) implies x == y by {
        lemma_tkey_injective(x.0, x.1, y.0, y.1);
    }
    assert(vstd::relations::injective_on(f, dom));
    vstd::set_lib::lemma_map_size(dom, kdom, f);
}

/// The builder's abstract state: the DFA and the pattern cursor.
pub ghost struct Cursor {
    pub dfa: DfaView,
    /// Where the pattern started.
    pub start: u16,
    /// The current state.
    pub sid: u16,
    /// The capture id of the current pattern, once it started capturing.
    pub cid: Option<u8>,
    /// Whether the current pattern captures a range.
    pub capturing: bool,
}

impl Cursor {
    pub open spec fn wf(self) -> bool {
        &&& self.dfa.closed()
        &&& self.dfa.states.contains(self.sid)
        &&& self.dfa.states.contains(self.start)
    }

    pub open spec fn with_dfa(self, dfa: DfaView) -> Cursor {
        Cursor { dfa, start: self.start, sid: self.sid, cid: self.cid, capturing: self.capturing }
    }

    pub open spec fn with_sid(self, sid: u16) -> Cursor {
        Cursor { dfa: self.dfa, start: self.start, sid, cid: self.cid, capturing: self.capturing }
    }

    /// The next input would start the capture.
    pub open spec fn starts_capture(self) -> bool {
        self.capturing && self.cid is None
    }
}

/// What may change between two cursors of the same pattern.
pub open spec fn grows(o: Cursor, n: Cursor) -> bool {
    &&& o.dfa.states.subset_of(n.dfa.states)
    &&& o.dfa.cid <= n.dfa.cid <= o.dfa.cid + 1
    &&& !o.starts_capture() ==> n.dfa.cid == o.dfa.cid
    &&& o.dfa.rid <= n.dfa.rid <= o.dfa.rid + 1
    &&& n.start == o.start
}

/// One input of a pattern followed from state `at`: an existing transition
/// is reused when its action fits, otherwise a new state and transition are
/// added (starting the capture if the pattern is about to).
pub open spec fn step_char(c: Cursor, at: u16, ch: char) -> (Cursor, u16, Option<DfaError>) {
    if c.dfa.trans.contains_key((at, ch)) {
        let to = c.dfa.trans[(at, ch)].0;
        let act = c.dfa.trans[(at, ch)].1;
        match act {
            Action::StartCapture(k) => if c.starts_capture() {
                (
                    Cursor {
                        dfa: c.dfa,
                        start: c.start,
                        sid: c.sid,
                        cid: Some(k),
                        capturing: c.capturing,
                    },
                    to,
                    None,
                )
            } else {
                (c, at, Some(DfaError::ConflictingAction(ch)))
            },
            Action::NoAction => if !c.starts_capture() {
                (c, to, None)
            } else {
                (c, at, Some(DfaError::ConflictingAction(ch)))
            },
            _ => (c, at, Some(DfaError::ConflictingAction(ch))),
        }
    } else {
        let d1 = if c.starts_capture() {
            c.dfa.new_cid().0
        } else {
            c.dfa
        };
        let cid = if c.starts_capture() {
            Some(c.dfa.cid)
        } else {
            c.cid
        };
        let action = if c.starts_capture() {
            Action::StartCapture(c.dfa.cid)
        } else {
            Action::NoAction
        };
        let d2 = d1.alloc_state().0;
        let next = d1.alloc_state().1;
        let d3 = d2.ins(at, next, ch, action).0;
        (
            Cursor { dfa: d3, start: c.start, sid: c.sid, cid, capturing: c.capturing },
            next,
            None,
        )
    }
}

/// The inputs of `s` followed one by one from `at`, stopping at the first error.
pub open spec fn push_seq(c: Cursor, at: u16, s: Seq<char>) -> (Cursor, u16, Option<DfaError>)
    decreases s.len(),
{
    if s.len() == 0 {
        (c, at, None)
    } else {
        let r = step_char(c, at, s[0]);
        if r.2 is Some {
            r
        } else {
            push_seq(r.0, r.1, s.drop_first())
        }
    }
}

/// `push`: the inputs followed from the current state, which moves to the
/// state reached.
pub open spec fn spec_push(c: Cursor, s: Seq<char>) -> (Cursor, Option<DfaError>) {
    let r = push_seq(c, c.sid, s);
    if r.2 is None {
        (r.0.with_sid(r.1), None)
    } else {
        (r.0, r.2)
    }
}

/// `push_optional`: a self loop on `ch` at the current state (after moving
/// to a fresh capturing state if the pattern is about to capture).
pub open spec fn spec_push_optional(c: Cursor, ch: char) -> (Cursor, Option<DfaError>) {
    let r1 = if c.starts_capture() {
        spec_push(c, seq![ch])
    } else {
        (c, None)
    };
    if r1.1 is Some {
        r1
    } else {
        let c1 = r1.0;
        let r2 = c1.dfa.ins(c1.sid, c1.sid, ch, Action::NoAction);
        let c2 = c1.with_dfa(r2.0);
        match r2.1 {
            Some(t) => if t.0 != c1.sid || !(t.1 is NoAction) {
                (c2, Some(DfaError::ConflictingOptional(ch)))
            } else {
                (c2, None)
            },
            None => (c2, None),
        }
    }
}

/// How many leading inputs `end_pattern` pushes before the last one: the
/// byte length of the input minus one, but at most its number of inputs.
pub open spec fn prefix_len(s: Seq<char>) -> int {
    let nb = (vstd::utf8::encode_utf8(s).len() as usize) as int;
    let n = if nb == 0 {
        0
    } else {
        nb - 1
    };
    if n < s.len() {
        n
    } else {
        s.len() as int
    }
}

/// The transition on the last input that `end_pattern` adds, when no target is given:
/// an existing self loop with a compatible action is kept, otherwise a new state.
pub open spec fn end_target(d: DfaView, sid: u16, last: char, action: Action) -> (DfaView, u16) {
    if d.trans.contains_key((sid, last)) && d.trans[(sid, last)].0 == sid && (d.trans[(
    sid,
    last,
    )].1 is NoAction || d.trans[(sid, last)].1 == action) {
        (d, sid)
    } else {
        d.alloc_state()
    }
}

/// How many states `end_pattern` may allocate for its target.
pub open spec fn target_need(to: Option<u16>) -> int {
    if to is None {
        1
    } else {
        0
    }
}

/// `end_pattern`: all inputs but the last pushed, then a transition on the
/// last input to `to` (or to `end_target`) carrying `action`.
pub open spec fn spec_end_pattern(c: Cursor, s: Seq<char>, action: Action, to: Option<u16>) -> (
    Cursor,
    Option<DfaError>,
) {
    let n = prefix_len(s);
    let r1 = if n > 0 {
        spec_push(c, s.take(n))
    } else {
        (c, None)
    };
    if r1.1 is Some {
        r1
    } else {
        let c1 = r1.0;
        let last = s.last();
        let dt = match to {
            Some(t) => (c1.dfa, t),
            None => end_target(c1.dfa, c1.sid, last, action),
        };
        let r3 = dt.0.ins(c1.sid, dt.1, last, action);
        let conflict = match r3.1 {
            Some(t) => t.0 != c1.sid || (!(t.1 is NoAction) && t.1 != action),
            None => false,
        };
        if conflict {
            (c1.with_dfa(r3.0), Some(DfaError::ConflictingTransition(last)))
        } else {
            (Cursor { dfa: r3.0, start: c1.start, sid: dt.1, cid: c1.cid, capturing: c1.capturing }, None)
        }
    }
}

/// `end_capturing`: the capture ends on `s` in a fresh state.
pub open spec fn spec_end_capturing(c: Cursor, s: Seq<char>) -> (Cursor, Option<DfaError>) {
    if !c.capturing || c.cid is None {
        (c, Some(DfaError::NoCaptureId))
    } else {
        let (d1, rid) = c.dfa.new_rid();
        let (d2, to) = d1.alloc_state();
        let r = spec_end_pattern(c.with_dfa(d2), s, Action::EndCapture(c.cid->0, rid), Some(to));
        if r.1 is Some {
            r
        } else {
            (
                Cursor {
                    dfa: r.0.dfa,
                    start: r.0.start,
                    sid: r.0.sid,
                    cid: None,
                    capturing: false,
                },
                None,
            )
        }
    }
}

/// `end_caputuring_and_restart_with`: the capture ends on `s` in the state
/// that `s` reaches from the pattern's start, or else from `restart_from`.
pub open spec fn spec_end_restart(c: Cursor, s: Seq<char>, restart_from: u16) -> (
    Cursor,
    Option<DfaError>,
) {
    if !c.capturing || c.cid is None {
        (c, Some(DfaError::NoCaptureId))
    } else {
        let (d1, rid) = c.dfa.new_rid();
        let c1 = c.with_dfa(d1);
        let action = Action::EndCapture(c.cid->0, rid);
        match d1.walk(c.start, s) {
            Some(t) => spec_end_pattern(c1, s, action, Some(t)),
            None => {
                let r = push_seq(c1, restart_from, s);
                if r.2 is Some {
                    (r.0, r.2)
                } else {
                    spec_end_pattern(r.0, s, action, Some(r.1))
                }
            },
        }
    }
}

/// `done_on`: parsing terminates on `s`.
pub open spec fn spec_done_on(c: Cursor, s: Seq<char>) -> (Cursor, Option<DfaError>) {
    if c.capturing || c.cid is Some {
        (c, Some(DfaError::CaptureNeverEnds))
    } else {
        spec_end_pattern(c, s, Action::Done, None)
    }
}

pub open spec fn as_result(e: Option<DfaError>) -> Result<(), DfaError> {
    match e {
        Some(x) => Err(x),
        None => Ok(()),
    }
}

/// Adds a pattern to a DFA, one step at a time, starting from `start`.
pub struct DfaBuilder<'a> {
    pub dfa: &'a mut Dfa,
    pub start: u16,
    /// The current capture id
    pub cid: Option<u8>,
    /// The current state id
    pub sid: u16,
    /// `true` if the current pattern captures a range
    pub capturing: bool,
}

impl<'a> DfaBuilder<'a> {
    pub open spec fn cur(&self) -> Cursor {
        Cursor {
            dfa: self.dfa@,
            start: self.start,
            sid: self.sid,
            cid: self.cid,
            capturing: self.capturing,
        }
    }

    pub open spec fn wf(&self) -> bool {
        self.dfa.wf() && self.cur().wf()
    }

    proof fn lemma_step_preserves(c: Cursor, at: u16, ch: char)
        requires
            c.wf(),
            c.dfa.states.contains(at),
            c.dfa.room() > 0,
            c.starts_capture() ==> c.dfa.cid < 255,
        ensures
            step_char(c, at, ch).0.wf(),
            step_char(c, at, ch).0.dfa.states.contains(step_char(c, at, ch).1),
            grows(c, step_char(c, at, ch).0),
            step_char(c, at, ch).0.dfa.room() + 1 >= c.dfa.room(),
            step_char(c, at, ch).0.dfa.rid == c.dfa.rid,
            step_char(c, at, ch).0.sid == c.sid,
            step_char(c, at, ch).0.capturing == c.capturing,
            step_char(c, at, ch).0.starts_capture() ==> step_char(c, at, ch).0.dfa.cid
                == c.dfa.cid,
            !c.starts_capture() ==> step_char(c, at, ch).0.cid == c.cid,
    {
        if !c.dfa.trans.contains_key((at, ch)) {
            let d1 = if c.starts_capture() {
                c.dfa.new_cid().0
            } else {
                c.dfa
            };
            lemma_alloc(d1.states, d1.sid as int);
            let d2 = d1.alloc_state().0;
            let next = d1.alloc_state().1;
            let action = if c.starts_capture() {
                Action::StartCapture(c.dfa.cid)
            } else {
                Action::NoAction
            };
            lemma_ins_closed(d2, at, next, ch, action);
        }
    }

    proof fn lemma_push_seq(c: Cursor, at: u16, s: Seq<char>)
        requires
            c.wf(),
            c.dfa.states.contains(at),
            c.dfa.room() >= s.len(),
            c.starts_capture() ==> c.dfa.cid < 255,
        ensures
            push_seq(c, at, s).0.wf(),
            push_seq(c, at, s).0.dfa.states.contains(push_seq(c, at, s).1),
            grows(c, push_seq(c, at, s).0),
            push_seq(c, at, s).0.dfa.room() + s.len() >= c.dfa.room(),
            push_seq(c, at, s).0.dfa.rid == c.dfa.rid,
            push_seq(c, at, s).0.sid == c.sid,
            push_seq(c, at, s).0.capturing == c.capturing,
            push_seq(c, at, s).0.starts_capture() ==> push_seq(c, at, s).0.dfa.cid == c.dfa.cid,
            !c.starts_capture() ==> push_seq(c, at, s).0.cid == c.cid,
        decreases s.len(),
    {
        if s.len() > 0 {
            Self::lemma_step_preserves(c, at, s[0]);
            let r = step_char(c, at, s[0]);
            if r.2 is None {
                Self::lemma_push_seq(r.0, r.1, s.drop_first());
            }
        }
    }

    /// Follows `input` from `sid`, reusing or adding transitions; returns the
    /// state reached.
    #[verifier::rlimit(40)]
    fn push_from(&mut self, sid: u16, input: &Vec<char>) -> (r: Result<u16, DfaError>)
        requires
            old(self).wf(),
            old(self).dfa@.states.contains(sid),
            old(self).dfa@.room() >= input@.len(),
            old(self).cur().starts_capture() ==> old(self).dfa@.cid < 255,
        ensures
            final(self).wf(),
            *final(final(self).dfa) == *final(old(self).dfa),
            final(self).cur() == push_seq(old(self).cur(), sid, input@).0,
            match r {
                Ok(t) => push_seq(old(self).cur(), sid, input@).2 is None && t == push_seq(
                    old(self).cur(),
                    sid,
                    input@,
                ).1,
                Err(e) => push_seq(old(self).cur(), sid, input@).2 == Some(e),
            },
    {
        let ghost c0 = self.cur();
        let mut at = sid;
        let mut i: usize = 0;
        proof {
            Self::lemma_push_seq(c0, sid, input@);
        }
        assert(input@.skip(0) =~= input@);
        while i < input.len()
            invariant
                self.wf(),
                *final(self.dfa) == *final(old(self).dfa),
                c0 == old(self).cur(),
                i <= input@.len(),
                self.dfa@.states.contains(at),
                self.dfa@.room() + i >= c0.dfa.room(),
                c0.dfa.room() >= input@.len(),
                self.cur().starts_capture() ==> self.dfa@.cid < 255,
                push_seq(c0, sid, input@) == push_seq(self.cur(), at, input@.skip(i as int)),
            decreases input.len() - i,
        {
            let ghost ci = self.cur();
            let c = input[i];
            assert(input@.skip(i as int)[0] == c);
            assert(input@.skip(i as int).drop_first() =~= input@.skip(i + 1));
            proof {
                Self::lemma_step_preserves(ci, at, c);
                let st = step_char(ci, at, c);
                assert(push_seq(ci, at, input@.skip(i as int)) == (if st.2 is Some {
                    st
                } else {
                    push_seq(st.0, st.1, input@.skip(i + 1))
                }));
            }
            let start_capture = self.capturing && self.cid.is_none();
            match self.dfa.lookup(at, c) {
                Some((to, act)) => {
                    match act {
                        Action::StartCapture(k) => {
                            if start_capture {
                                self.cid = Some(k);
                                at = to;
                            } else {
                                return Err(DfaError::ConflictingAction(c));
                            }
                        },
                        Action::NoAction => {
                            if !start_capture {
                                at = to;
                            } else {
                                return Err(DfaError::ConflictingAction(c));
                            }
                        },
                        _ => {
                            return Err(DfaError::ConflictingAction(c));
                        },
                    }
                },
                None => {
                    let action = if start_capture {
                        let k = self.dfa.insert_new_capture_start();
                        self.cid = Some(k);
                        Action::StartCapture(k)
                    } else {
                        Action::NoAction
                    };
                    let next = self.dfa.insert_state();
                    self.dfa.insert_transition(at, next, c, action);
                    at = next;
                },
            }
            i = i + 1;
        }
        assert(input@.skip(i as int).len() == 0);
        Ok(at)
    }

    /// Follows `input` from the current state, which moves to the state reached.
    pub fn push(&mut self, input: &str) -> (r: Result<(), DfaError>)
        requires
            old(self).wf(),
            old(self).dfa@.room() >= input@.len(),
            old(self).cur().starts_capture() ==> old(self).dfa@.cid < 255,
        ensures
            final(self).wf(),
            *final(final(self).dfa) == *final(old(self).dfa),
            (final(self).cur(), r) == {
                let x = spec_push(old(self).cur(), input@);
                (x.0, as_result(x.1))
            },
            grows(old(self).cur(), final(self).cur()),
            final(self).dfa@.room() + input@.len() >= old(self).dfa@.room(),
            final(self).dfa@.rid == old(self).dfa@.rid,
            final(self).capturing == old(self).capturing,
            final(self).cur().starts_capture() ==> final(self).dfa@.cid == old(self).dfa@.cid,
            !old(self).cur().starts_capture() ==> final(self).cid == old(self).cid,
    {
        let chars = chars_of(input);
        self.push_chars(&chars)
    }

    fn push_chars(&mut self, chars: &Vec<char>) -> (r: Result<(), DfaError>)
        requires
            old(self).wf(),
            old(self).dfa@.room() >= chars@.len(),
            old(self).cur().starts_capture() ==> old(self).dfa@.cid < 255,
        ensures
            final(self).wf(),
            *final(final(self).dfa) == *final(old(self).dfa),
            (final(self).cur(), r) == {
                let x = spec_push(old(self).cur(), chars@);
                (x.0, as_result(x.1))
            },
            grows(old(self).cur(), final(self).cur()),
            final(self).dfa@.room() + chars@.len() >= old(self).dfa@.room(),
            final(self).dfa@.rid == old(self).dfa@.rid,
            final(self).capturing == old(self).capturing,
            final(self).cur().starts_capture() ==> final(self).dfa@.cid == old(self).dfa@.cid,
            !old(self).cur().starts_capture() ==> final(self).cid == old(self).cid,
    {
        proof {
            Self::lemma_push_seq(self.cur(), self.sid, chars@);
        }
        let sid = self.sid;
        match self.push_from(sid, chars) {
            Ok(t) => {
                self.sid = t;
                Ok(())
            },
            Err(e) => Err(e),
        }
    }

    /// Follows `input` from the current state, which moves to the state reached.
    pub fn push_optional(&mut self, input: char) -> (r: Result<(), DfaError>)
        requires
            old(self).wf(),
            old(self).cur().starts_capture() ==> old(self).dfa@.room() >= 1 && old(self).dfa@.cid
                < 255,
        ensures
            final(self).wf(),
            *final(final(self).dfa) == *final(old(self).dfa),
            (final(self).cur(), r) == {
                let x = spec_push_optional(old(self).cur(), input);
                (x.0, as_result(x.1))
            },
            grows(old(self).cur(), final(self).cur()),
            final(self).dfa@.room() + 1 >= old(self).dfa@.room(),
            final(self).dfa@.rid == old(self).dfa@.rid,
            final(self).capturing == old(self).capturing,
            final(self).cur().starts_capture() ==> final(self).dfa@.cid == old(self).dfa@.cid,
            !old(self).cur().starts_capture() ==> final(self).cid == old(self).cid,
    {
        let start_capture = self.capturing && self.cid.is_none();
        if start_capture {
            let one = vec![input];
            assert(one@ =~= seq![input]);
            self.push_chars(&one)?;
        }
        let sid = self.sid;
        proof {
            lemma_ins_closed(self.dfa@, sid, sid, input, Action::NoAction);
        }
        if let Some((to, action)) = self.dfa.insert_transition(sid, sid, input, Action::NoAction) {
            if to != sid || action.is_some() {
                return Err(DfaError::ConflictingOptional(input));
            }
        }
        Ok(())
    }

    /// The pattern captures from the next input on.
    pub fn start_capturing(&mut self)
        requires
            old(self).wf(),
        ensures
            final(self).wf(),
            *final(final(self).dfa) == *final(old(self).dfa),
            final(self).cur() == (Cursor {
                dfa: old(self).dfa@,
                start: old(self).start,
                sid: old(self).sid,
                cid: old(self).cid,
                capturing: true,
            }),
    {
        self.capturing = true;
    }

    /// All inputs but the last are pushed; the last one leads to `to`
    /// (or to a target chosen by `end_target`) with `action`.
    fn end_pattern(&mut self, input: &str, action: Action, to: Option<u16>) -> (r: Result<(), DfaError>)
        requires
            old(self).wf(),
            input@.len() > 0,
            !old(self).cur().starts_capture(),
            to matches Some(t) ==> old(self).dfa@.states.contains(t),
            old(self).dfa@.room() >= input@.len() + target_need(to),
        ensures
            final(self).wf(),
            *final(final(self).dfa) == *final(old(self).dfa),
            (final(self).cur(), r) == {
                let x = spec_end_pattern(old(self).cur(), input@, action, to);
                (x.0, as_result(x.1))
            },
            grows(old(self).cur(), final(self).cur()),
            final(self).dfa@.room() + input@.len() + target_need(to) >= old(self).dfa@.room(),
            final(self).dfa@.rid == old(self).dfa@.rid,
            final(self).capturing == old(self).capturing,
            final(self).cid == old(self).cid,
    {
        let chars = chars_of(input);
        let nb = input.len();
        let n = if nb == 0 {
            0
        } else {
            nb - 1
        };
        let n = if n < chars.len() {
            n
        } else {
            chars.len()
        };
        assert(n == prefix_len(input@));
        if n > 0 {
            let prefix = take_chars(&chars, n);
            self.push_chars(&prefix)?;
        }
        let last = chars[chars.len() - 1];
        assert(last == input@.last());
        let sid = self.sid;
        let to = match to {
            Some(t) => t,
            None => {
                let keep = match self.dfa.lookup(sid, last) {
                    Some((state, old_action)) => state == sid && (old_action.is_none()
                        || old_action == action),
                    None => false,
                };
                if keep {
                    sid
                } else {
                    proof {
                        lemma_alloc(self.dfa@.states, self.dfa@.sid as int);
                    }
                    self.dfa.insert_state()
                }
            },
        };
        proof {
            lemma_ins_closed(self.dfa@, sid, to, last, action);
        }
        if let Some((state, old_action)) = self.dfa.insert_transition(sid, to, last, action) {
            if state != sid || (old_action.is_some() && old_action != action) {
                return Err(DfaError::ConflictingTransition(last));
            }
        }
        self.sid = to;
        Ok(())
    }

    /// Ends the capture on `input` in a fresh state.
    pub fn end_capturing(&mut self, input: &str) -> (r: Result<(), DfaError>)
        requires
            old(self).wf(),
            old(self).capturing && old(self).cid is Some ==> input@.len() > 0 && old(
                self,
            ).dfa@.rid < 255 && old(self).dfa@.room() >= input@.len() + 1,
        ensures
            final(self).wf(),
            *final(final(self).dfa) == *final(old(self).dfa),
            (final(self).cur(), r) == {
                let x = spec_end_capturing(old(self).cur(), input@);
                (x.0, as_result(x.1))
            },
            grows(old(self).cur(), final(self).cur()),
            final(self).dfa@.room() + input@.len() + 1 >= old(self).dfa@.room(),
    {
        if !self.capturing || self.cid.is_none() {
            return Err(DfaError::NoCaptureId);
        }
        let cid = self.cid.unwrap();
        let rid = self.dfa.insert_new_range();
        proof {
            lemma_alloc(self.dfa@.states, self.dfa@.sid as int);
        }
        let to = self.dfa.insert_state();
        self.end_pattern(input, Action::EndCapture(cid, rid), Some(to))?;
        self.cid = None;
        self.capturing = false;
        Ok(())
    }

    /// Ends the capture on `input`, leading to the state that `input`
    /// reaches from the pattern's start, or else to the state it reaches
    /// from `restart_from`.
    pub fn end_caputuring_and_restart_with(&mut self, input: &str, restart_from: u16) -> (r:
        Result<(), DfaError>)
        requires
            old(self).wf(),
            old(self).capturing && old(self).cid is Some ==> input@.len() > 0 && old(
                self,
            ).dfa@.rid < 255 && old(self).dfa@.room() >= 2 * input@.len() && old(
                self,
            ).dfa@.states.contains(restart_from),
        ensures
            final(self).wf(),
            *final(final(self).dfa) == *final(old(self).dfa),
            (final(self).cur(), r) == {
                let x = spec_end_restart(old(self).cur(), input@, restart_from);
                (x.0, as_result(x.1))
            },
            grows(old(self).cur(), final(self).cur()),
            final(self).dfa@.room() + 2 * input@.len() >= old(self).dfa@.room(),
    {
        if !self.capturing || self.cid.is_none() {
            return Err(DfaError::NoCaptureId);
        }
        let cid = self.cid.unwrap();
        let rid = self.dfa.insert_new_range();
        let chars = chars_of(input);
        proof {
            lemma_walk_closed(self.dfa@, self.start, input@);
        }
        let start = self.start;
        let to = match get_sid(&*self.dfa, start, &chars) {
            Some(sid) => sid,
            None => {
                proof {
                    Self::lemma_push_seq(self.cur(), restart_from, input@);
                }
                self.push_from(restart_from, &chars)?
            },
        };
        self.end_pattern(input, Action::EndCapture(cid, rid), Some(to))
    }

    /// Parsing terminates on `input`.
    pub fn done_on(&mut self, input: &str) -> (r: Result<(), DfaError>)
        requires
            old(self).wf(),
            !old(self).capturing && old(self).cid is None ==> input@.len() > 0 && old(
                self,
            ).dfa@.room() >= input@.len() + 1,
        ensures
            final(self).wf(),
            *final(final(self).dfa) == *final(old(self).dfa),
            (final(self).cur(), r) == {
                let x = spec_done_on(old(self).cur(), input@);
                (x.0, as_result(x.1))
            },
            grows(old(self).cur(), final(self).cur()),
            final(self).dfa@.room() + input@.len() + 1 >= old(self).dfa@.room(),
    {
        if self.capturing || self.cid.is_some() {
            return Err(DfaError::CaptureNeverEnds);
        }
        self.end_pattern(input, Action::Done, None)
    }
}

/// The state that `input` reaches from `start`.
fn get_sid(dfa: &Dfa, start: u16, input: &Vec<char>) -> (r: Option<u16>)
    requires
        dfa.wf(),
    ensures
        r == dfa@.walk(start, input@),
{
    let mut sid = start;
    let mut i: usize = 0;
    assert(input@.skip(0) =~= input@);
    while i < input.len()
        invariant
            dfa.wf(),
            i <= input@.len(),
            dfa@.walk(start, input@) == dfa@.walk(sid, input@.skip(i as int)),
        decreases input.len() - i,
    {
        assert(input@.skip(i as int).drop_first() == input@.skip(i + 1));
        match dfa.lookup(sid, input[i]) {
            Some((to, _)) => {
                sid = to;
            },
            None => {
                return None;
            },
        }
        i = i + 1;
    }
    assert(input@.skip(i as int).len() == 0);
    Some(sid)
}

/// One step of a pattern, as the builder methods take it.
pub ghost enum Op {
    Push(Seq<char>),
    PushOptional(char),
    StartCapturing,
    EndCapturing(Seq<char>),
    EndRestart(Seq<char>, u16),
    DoneOn(Seq<char>),
}

pub open spec fn apply(c: Cursor, op: Op) -> (Cursor, Option<DfaError>) {
    match op {
        Op::Push(s) => spec_push(c, s),
        Op::PushOptional(ch) => spec_push_optional(c, ch),
        Op::StartCapturing => (
            Cursor {
                dfa: c.dfa,
                start: c.start,
                sid: c.sid,
                cid: c.cid,
                capturing: true,
            },
            None,
        ),
        Op::EndCapturing(s) => spec_end_capturing(c, s),
        Op::EndRestart(s, from) => spec_end_restart(c, s, from),
        Op::DoneOn(s) => spec_done_on(c, s),
    }
}

/// The steps applied in order, stopping at the first that fails; the DFA
/// keeps what the failing step had already added.
pub open spec fn run(c: Cursor, ops: Seq<Op>) -> (Cursor, Option<DfaError>)
    decreases ops.len(),
{
    if ops.len() == 0 {
        (c, None)
    } else {
        let r = apply(c, ops[0]);
        if r.1 is Some {
            r
        } else {
            run(r.0, ops.drop_first())
        }
    }
}

/// A pattern's cursor right after `start_pattern(from)`.
pub open spec fn start_cursor(d: DfaView, from: u16) -> Cursor {
    Cursor { dfa: d, start: from, sid: from, cid: None, capturing: false }
}

pub proof fn lemma_run_step(c: Cursor, ops: Seq<Op>, k: int)
    requires
        0 <= k < ops.len(),
    ensures
        run(c, ops.skip(k)) == (if apply(c, ops[k]).1 is Some {
            apply(c, ops[k])
        } else {
            run(apply(c, ops[k]).0, ops.skip(k + 1))
        }),
{
    assert(ops.skip(k).drop_first() =~= ops.skip(k + 1));
    assert(ops.skip(k)[0] == ops[k]);
}

/// Pushing inputs onto a pattern keeps every state the DFA had and keeps
/// every transition between states of the DFA: the states a builder has
/// are the states its transitions join.
pub proof fn law_push_keeps_states(c: Cursor, s: Seq<char>)
    requires
        c.wf(),
        c.dfa.room() >= s.len(),
        c.starts_capture() ==> c.dfa.cid < 255,
    ensures
        spec_push(c, s).0.wf(),
        spec_push(c, s).0.dfa.closed(),
        c.dfa.states.subset_of(spec_push(c, s).0.dfa.states),
{
    DfaBuilder::lemma_push_seq(c, c.sid, s);
}

/// Following one input of a pattern adds exactly one fresh state when the
/// input has no transition yet, and none when an existing transition is
/// taken; so a DFA has its reserved states plus one state per transition
/// its patterns added.
pub proof fn law_step_state_count(c: Cursor, at: u16, ch: char)
    requires
        c.dfa.states.finite(),
        c.dfa.room() > 0,
    ensures
        step_char(c, at, ch).0.dfa.states.finite(),
        step_char(c, at, ch).0.dfa.states.len() == c.dfa.states.len() + if c.dfa.trans.contains_key(
            (at, ch),
        ) {
            0int
        } else {
            1int
        },
{
    if !c.dfa.trans.contains_key((at, ch)) {
        let d1 = if c.starts_capture() {
            c.dfa.new_cid().0
        } else {
            c.dfa
        };
        crate::ids::lemma_alloc(d1.states, d1.sid as int);
    }
}

/// Several patterns added one after another, each from its start state;
/// a pattern that fails keeps what it had added.
pub open spec fn build(d: DfaView, ps: Seq<(u16, Seq<Op>)>) -> DfaView
    decreases ps.len(),
{
    if ps.len() == 0 {
        d
    } else {
        build(run(start_cursor(d, ps[0].0), ps[0].1).0.dfa, ps.drop_first())
    }
}

/// The states of `a` are all states of `b`, and `b` has finitely many if `a` has.
pub open spec fn kept(a: DfaView, b: DfaView) -> bool {
    &&& a.states.subset_of(b.states)
    &&& a.states.finite() ==> b.states.finite()
}

/// Every state a step restarts from is in `states`.
pub open spec fn restarts_in(ops: Seq<Op>, states: Set<u16>) -> bool {
    forall|i: int|
        0 <= i < ops.len() ==> (#[trigger] ops[i] matches Op::EndRestart(_, f) ==> states.contains(f))
}

/// Every pattern starts, and restarts, from a state in `states`.
pub open spec fn patterns_in(ps: Seq<(u16, Seq<Op>)>, states: Set<u16>) -> bool {
    forall|i: int| 0 <= i < ps.len() ==> states.contains(#[trigger] ps[i].0) && restarts_in(ps[i].1, states)
}

proof fn lemma_step_kept(c: Cursor, at: u16, ch: char)
    ensures
        kept(c.dfa, step_char(c, at, ch).0.dfa),
        step_char(c, at, ch).0.sid == c.sid,
        step_char(c, at, ch).0.start == c.start,
        c.wf() && c.dfa.states.contains(at) ==> step_char(c, at, ch).0.wf()
            && step_char(c, at, ch).0.dfa.states.contains(step_char(c, at, ch).1),
{
    if !c.dfa.trans.contains_key((at, ch)) {
        let d1 = if c.starts_capture() {
            c.dfa.new_cid().0
        } else {
            c.dfa
        };
        let d2 = d1.alloc_state().0;
        let next = d1.alloc_state().1;
        let action = if c.starts_capture() {
            Action::StartCapture(c.dfa.cid)
        } else {
            Action::NoAction
        };
        if c.wf() && c.dfa.states.contains(at) {
            lemma_ins_closed(d2, at, next, ch, action);
        }
    }
}

proof fn lemma_push_seq_kept(c: Cursor, at: u16, s: Seq<char>)
    ensures
        kept(c.dfa, push_seq(c, at, s).0.dfa),
        push_seq(c, at, s).0.sid == c.sid,
        push_seq(c, at, s).0.start == c.start,
        c.wf() && c.dfa.states.contains(at) ==> push_seq(c, at, s).0.wf()
            && push_seq(c, at, s).0.dfa.states.contains(push_seq(c, at, s).1),
    decreases s.len(),
{
    if s.len() > 0 {
        lemma_step_kept(c, at, s[0]);
        let r = step_char(c, at, s[0]);
        if r.2 is None {
            lemma_push_seq_kept(r.0, r.1, s.drop_first());
        }
    }
}

proof fn lemma_spec_push_kept(c: Cursor, s: Seq<char>)
    ensures
        kept(c.dfa, spec_push(c, s).0.dfa),
        spec_push(c, s).0.start == c.start,
        c.wf() ==> spec_push(c, s).0.wf(),
{
    lemma_push_seq_kept(c, c.sid, s);
}

proof fn lemma_end_pattern_kept(c: Cursor, s: Seq<char>, action: Action, to: Option<u16>)
    ensures
        kept(c.dfa, spec_end_pattern(c, s, action, to).0.dfa),
        spec_end_pattern(c, s, action, to).0.start == c.start,
        c.wf() && (to matches Some(t) ==> c.dfa.states.contains(t)) ==> spec_end_pattern(
            c,
            s,
            action,
            to,
        ).0.wf(),
{
    let n = prefix_len(s);
    if n > 0 {
        lemma_spec_push_kept(c, s.take(n));
    }
    let r1 = if n > 0 {
        spec_push(c, s.take(n))
    } else {
        (c, None)
    };
    if r1.1 is None {
        let c1 = r1.0;
        let last = s.last();
        let dt = match to {
            Some(t) => (c1.dfa, t),
            None => end_target(c1.dfa, c1.sid, last, action),
        };
        if c.wf() && (to matches Some(t) ==> c.dfa.states.contains(t)) {
            assert(dt.0.closed());
            assert(dt.0.states.contains(c1.sid));
            assert(dt.0.states.contains(dt.1));
            lemma_ins_closed(dt.0, c1.sid, dt.1, last, action);
        }
    }
}

proof fn lemma_apply_kept(c: Cursor, op: Op)
    ensures
        kept(c.dfa, apply(c, op).0.dfa),
        apply(c, op).0.start == c.start,
        c.wf() && (op matches Op::EndRestart(_, f) ==> c.dfa.states.contains(f)) ==> apply(
            c,
            op,
        ).0.wf(),
{
    match op {
        Op::Push(s) => {
            lemma_spec_push_kept(c, s);
        },
        Op::PushOptional(ch) => {
            if c.starts_capture() {
                lemma_spec_push_kept(c, seq![ch]);
            }
            let r1 = if c.starts_capture() {
                spec_push(c, seq![ch])
            } else {
                (c, None)
            };
            if r1.1 is None && c.wf() {
                lemma_ins_closed(r1.0.dfa, r1.0.sid, r1.0.sid, ch, Action::NoAction);
            }
        },
        Op::StartCapturing => {},
        Op::EndCapturing(s) => {
            if c.capturing && c.cid is Some {
                let (d1, rid) = c.dfa.new_rid();
                let (d2, to) = d1.alloc_state();
                lemma_end_pattern_kept(c.with_dfa(d2), s, Action::EndCapture(c.cid->0, rid), Some(to));
            }
        },
        Op::EndRestart(s, from) => {
            if c.capturing && c.cid is Some {
                let (d1, rid) = c.dfa.new_rid();
                let c1 = c.with_dfa(d1);
                let action = Action::EndCapture(c.cid->0, rid);
                if c.wf() {
                    lemma_walk_closed(d1, c.start, s);
                }
                match d1.walk(c.start, s) {
                    Some(t) => {
                        lemma_end_pattern_kept(c1, s, action, Some(t));
                    },
                    None => {
                        lemma_push_seq_kept(c1, from, s);
                        let r = push_seq(c1, from, s);
                        if r.2 is None {
                            lemma_end_pattern_kept(r.0, s, action, Some(r.1));
                        }
                    },
                }
            }
        },
        Op::DoneOn(s) => {
            if !(c.capturing || c.cid is Some) {
                lemma_end_pattern_kept(c, s, Action::Done, None);
            }
        },
    }
}

/// Over any steps of a pattern: the DFA keeps every state it had (so the
/// number of states never decreases), and from a well-formed cursor whose
/// restarts are from states of the DFA, every transition still joins two
/// states and the cursor stays on states, whether the steps succeed or one
/// fails.
pub proof fn law_run_keeps_states(c: Cursor, ops: Seq<Op>)
    ensures
        kept(c.dfa, run(c, ops).0.dfa),
        c.dfa.states.finite() ==> c.dfa.states.len() <= run(c, ops).0.dfa.states.len(),
        c.wf() && restarts_in(ops, c.dfa.states) ==> run(c, ops).0.wf(),
    decreases ops.len(),
{
    if ops.len() > 0 {
        lemma_apply_kept(c, ops[0]);
        let r = apply(c, ops[0]);
        if r.1 is None {
            law_run_keeps_states(r.0, ops.drop_first());
            if restarts_in(ops, c.dfa.states) {
                assert forall|i: int| 0 <= i < ops.drop_first().len() implies (
                #[trigger] ops.drop_first()[i] matches Op::EndRestart(_, f) ==> r.0.dfa.states.contains(f)) by {
                    assert(ops.drop_first()[i] == ops[i + 1]);
                }
            }
        }
        if c.dfa.states.finite() {
            vstd::set_lib::lemma_len_subset(c.dfa.states, run(c, ops).0.dfa.states);
        }
    }
}

/// Over any sequence of patterns: the DFA keeps every state it had, and if
/// every transition joined two states before and every pattern starts and
/// restarts from a state, every transition still joins two states after, so
/// the states listed cover the ends of every transition listed.
pub proof fn law_build_keeps_states(d: DfaView, ps: Seq<(u16, Seq<Op>)>)
    ensures
        kept(d, build(d, ps)),
        d.states.finite() ==> d.states.len() <= build(d, ps).states.len(),
        d.closed() && patterns_in(ps, d.states) ==> build(d, ps).closed(),
    decreases ps.len(),
{
    if ps.len() > 0 {
        let c = start_cursor(d, ps[0].0);
        law_run_keeps_states(c, ps[0].1);
        let d1 = run(c, ps[0].1).0.dfa;
        law_build_keeps_states(d1, ps.drop_first());
        if d.closed() && patterns_in(ps, d.states) {
            assert(d.states.contains(ps[0].0) && restarts_in(ps[0].1, d.states));
            assert(patterns_in(ps.drop_first(), d1.states)) by {
                assert forall|i: int| 0 <= i < ps.drop_first().len() implies d1.states.contains(
                    #[trigger] ps.drop_first()[i].0,
                ) && restarts_in(ps.drop_first()[i].1, d1.states) by {
                    assert(ps.drop_first()[i] == ps[i + 1]);
                    assert(d.states.contains(ps[i + 1].0) && restarts_in(ps[i + 1].1, d.states));
                    assert forall|j: int| 0 <= j < ps[i + 1].1.len() implies (
                    #[trigger] ps[i + 1].1[j] matches Op::EndRestart(_, f) ==> d1.states.contains(f)) by {
                    }
                }
            }
        }
        if d.states.finite() {
            vstd::set_lib::lemma_len_subset(d.states, build(d, ps).states);
        }
    }
}

/// A step that needs an open capture, on a pattern without one, fails
/// with `NoCaptureId` and changes nothing; parsing cannot end inside a
/// capture, and `done_on` there fails with `CaptureNeverEnds` and changes
/// nothing.
pub proof fn law_refused_steps_change_nothing(c: Cursor, s: Seq<char>, from: u16)
    ensures
        !(c.capturing && c.cid is Some) ==> apply(c, Op::EndCapturing(s)) == (c, Some(
            DfaError::NoCaptureId,
        )) && apply(c, Op::EndRestart(s, from)) == (c, Some(DfaError::NoCaptureId)),
        c.capturing || c.cid is Some ==> apply(c, Op::DoneOn(s)) == (c, Some(
            DfaError::CaptureNeverEnds,
        )),
{
}

} // verus!
