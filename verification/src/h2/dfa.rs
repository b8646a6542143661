//! The HTTP/2 DFA: a byte automaton over HPACK-encoded header fields.

use crate::h2::Action;
use crate::ids::{free_count, lemma_alloc, next_free};
use std::collections::{HashMap, HashSet};
use vstd::prelude::*;
use vstd::std_specs::iter::IteratorSpec;

verus! {

broadcast use vstd::std_specs::hash::group_hash_axioms;

/// The key under which the transition out of `from` on `b` is stored.
pub open spec fn bkey(from: u16, b: u8) -> u32 {
    (from as int * 256 + b as int) as u32
}

proof fn lemma_bkey_injective(a: u16, c: u8, b: u16, d: u8)
    ensures
        bkey(a, c) == bkey(b, d) ==> a == b && c == d,
{
    assert(0 <= a as int * 256 + (c as int) < 0x1_0000_0000) by (nonlinear_arith)
        requires
            a <= 0xffff,
            c <= 0xff,
    ;
    assert(0 <= b as int * 256 + (d as int) < 0x1_0000_0000) by (nonlinear_arith)
        requires
            b <= 0xffff,
            d <= 0xff,
    ;
    if bkey(a, c) == bkey(b, d) {
        assert(a == b && c == d) by (nonlinear_arith)
            requires
                a as int * 256 + c as int == b as int * 256 + d as int,
                c <= 0xff,
                d <= 0xff,
        ;
    }
}

fn bkey_exec(from: u16, b: u8) -> (r: u32)
    ensures
        r == bkey(from, b),
{
    (from as u32) * 256 + (b as u32)
}

/// The abstract state of an HTTP/2 DFA.
pub ghost struct DfaView {
    pub sid: u16,
    pub cid: u8,
    pub rid: u8,
    pub states: Set<u16>,
    /// (state, input byte) to (next state, action).
    pub trans: Map<(u16, u8), (u16, Action)>,
}

impl DfaView {
    pub open spec fn closed(self) -> bool {
        forall|k: (u16, u8)|
            #[trigger] self.trans.contains_key(k) ==> self.states.contains(k.0)
                && self.states.contains(self.trans[k].0)
    }

    pub open spec fn room(self) -> nat {
        free_count(self.states, self.sid as int)
    }

    pub open spec fn alloc_state(self) -> (DfaView, u16) {
        let s = next_free(self.states, self.sid as int) as u16;
        (
            DfaView {
                sid: s,
                cid: self.cid,
                rid: self.rid,
                states: self.states.insert(s),
                trans: self.trans,
            },
            s,
        )
    }

    pub open spec fn with_trans(self, trans: Map<(u16, u8), (u16, Action)>) -> DfaView {
        DfaView { sid: self.sid, cid: self.cid, rid: self.rid, states: self.states, trans }
    }

    pub open spec fn new_cid(self) -> (DfaView, u8) {
        (
            DfaView {
                sid: self.sid,
                cid: (self.cid + 1) as u8,
                rid: self.rid,
                states: self.states,
                trans: self.trans,
            },
            self.cid,
        )
    }

    pub open spec fn get(self, from: u16, b: u8) -> Option<(u16, Action)> {
        if self.trans.contains_key((from, b)) {
            Some(self.trans[(from, b)])
        } else {
            None
        }
    }
}

/// A byte DFA whose transitions carry capture actions.
pub struct Dfa {
    /// The next free state id
    sid: u16,
    /// The next free capture id
    cid: u8,
    /// The next free range id
    rid: u8,
    states: HashSet<u16>,
    /// `bkey(from, input)` to (from, input, to, action)
    transitions: HashMap<u32, (u16, u8, u16, Action)>,
}

impl View for Dfa {
    type V = DfaView;

    closed spec fn view(&self) -> DfaView {
        DfaView {
            sid: self.sid,
            cid: self.cid,
            rid: self.rid,
            states: self.states@,
            trans: Map::new(
                |k: (u16, u8)| self.transitions@.contains_key(bkey(k.0, k.1)),
                |k: (u16, u8)|
                    (self.transitions@[bkey(k.0, k.1)].2, self.transitions@[bkey(k.0, k.1)].3),
            ),
        }
    }
}

impl Dfa {
    pub closed spec fn wf(&self) -> bool {
        forall|k: u32|
            #[trigger] self.transitions@.contains_key(k) ==> bkey(
                self.transitions@[k].0,
                self.transitions@[k].1,
            ) == k
    }

    /// Creates a DFA whose states are exactly the reserved ones.
    pub fn new(reserved_states: Vec<u16>) -> (r: Dfa)
        ensures
            r.wf(),
            r@.sid == 0,
            r@.cid == 0,
            r@.rid == 0,
            r@.states == reserved_states@.to_set(),
            r@.trans == Map::<(u16, u8), (u16, Action)>::empty(),
    {
        let mut states: HashSet<u16> = HashSet::new();
        let mut i: usize = 0;
        while i < reserved_states.len()
            invariant
                i <= reserved_states.len(),
                states@ == reserved_states@.take(i as int).to_set(),
            decreases reserved_states.len() - i,
        {
            proof {
                assert(reserved_states@.take(i + 1) == reserved_states@.take(i as int).push(
                    reserved_states@[i as int],
                ));
                reserved_states@.take(i as int).lemma_push_to_set_commute(
                    reserved_states@[i as int],
                );
            }
            states.insert(reserved_states[i]);
            i = i + 1;
        }
        assert(reserved_states@.take(i as int) == reserved_states@);
        let r = Dfa { sid: 0, cid: 0, rid: 0, states, transitions: HashMap::new() };
        assert(r@.trans =~= Map::<(u16, u8), (u16, Action)>::empty());
        r
    }

    fn insert_state(&mut self) -> (r: u16)
        requires
            old(self).wf(),
            old(self)@.room() > 0,
        ensures
            final(self).wf(),
            (final(self)@, r) == old(self)@.alloc_state(),
            final(self)@.room() + 1 == old(self)@.room(),
    {
        let ghost target = next_free(self.states@, self.sid as int);
        proof {
            lemma_alloc(self.states@, self.sid as int);
        }
        while self.states.contains(&self.sid)
            invariant
                self.wf(),
                self.states@ == old(self).states@,
                self.transitions@ == old(self).transitions@,
                self.cid == old(self).cid,
                self.rid == old(self).rid,
                old(self).sid <= self.sid <= target,
                target < 0x10000,
                next_free(self.states@, self.sid as int) == target,
                !self.states@.contains(target as u16),
            decreases 0x10000 - self.sid,
        {
            self.sid = self.sid + 1;
        }
        self.states.insert(self.sid);
        self.sid
    }

    pub(crate) fn insert_new_capture_start(&mut self) -> (r: u8)
        requires
            old(self).wf(),
            old(self)@.cid < 255,
        ensures
            final(self).wf(),
            (final(self)@, r) == old(self)@.new_cid(),
    {
        let cid = self.cid;
        self.cid = self.cid + 1;
        cid
    }

    fn lookup(&self, from: u16, b: u8) -> (r: Option<(u16, Action)>)
        requires
            self.wf(),
        ensures
            r == self@.get(from, b),
    {
        match self.transitions.get(&bkey_exec(from, b)) {
            Some(t) => Some((t.2, t.3)),
            None => None,
        }
    }

    /// Stores the transition out of `from` on `input`; returns the one it replaced.
    pub fn insert_transition(&mut self, from: u16, to: u16, input: u8, action: Action) -> (r:
        Option<(u16, Action)>)
        requires
            old(self).wf(),
        ensures
            final(self).wf(),
            final(self)@ == old(self)@.with_trans(old(self)@.trans.insert((from, input), (to, action))),
            r == old(self)@.get(from, input),
    {
        let k = bkey_exec(from, input);
        let prev = self.transitions.insert(k, (from, input, to, action));
        proof {
            assert forall|q: (u16, u8)| #[trigger]
                self@.trans.contains_key(q) == old(self)@.trans.insert(
                    (from, input),
                    (to, action),
                ).contains_key(q) by {
                lemma_bkey_injective(q.0, q.1, from, input);
            }
            assert forall|q: (u16, u8)| #[trigger] self@.trans.contains_key(q) implies self@.trans[q]
                == old(self)@.trans.insert((from, input), (to, action))[q] by {
                lemma_bkey_injective(q.0, q.1, from, input);
            }
            assert(self@.trans =~= old(self)@.trans.insert((from, input), (to, action)));
        }
        match prev {
            Some(t) => Some((t.2, t.3)),
            None => None,
        }
    }

    /// Starts a new pattern at `from`.
    pub fn start_pattern<'a>(&'a mut self, from: u16) -> (r: DfaBuilder<'a>)
        ensures
            *r.dfa == *old(self),
            *final(self) == *final(r.dfa),
            r.start == from,
            r.sid == from,
            r.prev_trans is None,
            r.cid is None,
    {
        DfaBuilder { dfa: self, start: from, sid: from, prev_trans: None, cid: None }
    }

    /// The number of capture ids handed out so far.
    /// How many more states can be allocated.
    pub fn free_states(&self) -> (r: u32)
        ensures
            r == self@.room(),
    {
        let mut count: u32 = 0;
        let mut i: u32 = self.sid as u32;
        while i < 0x10000
            invariant
                self.sid <= i <= 0x10000,
                count <= i - self.sid,
                count + free_count(self.states@, i as int) == free_count(self.states@, self.sid as int),
            decreases 0x10000 - i,
        {
            if !self.states.contains(&(i as u16)) {
                count = count + 1;
            }
            i = i + 1;
        }
        count
    }

    /// The number of range ids handed out so far.
    pub fn num_ranges(&self) -> (r: u8)
        ensures
            r == self@.rid,
    {
        self.rid
    }

    pub fn num_captures(&self) -> (r: u8)
        ensures
            r == self@.cid,
    {
        self.cid
    }

    pub fn num_states(&self) -> (r: usize)
        ensures
            r == self@.states.len(),
    {
        self.states.len()
    }

    /// All states, each once, in no particular order.
    pub fn iter_states(&self) -> (r: Vec<u16>)
        ensures
            r@.to_set() == self@.states,
            r@.no_duplicates(),
    {
        let mut out: Vec<u16> = Vec::new();
        for s in it: self.states.iter()
            invariant
                out@ == it.seq().take(it.index() as int).map_values(|x: &u16| *x),
                it.seq() == vstd::std_specs::hash::spec_hash_keys_iter(&self.states).remaining(),
        {
            out.push(*s);
        }
        proof {
            let rem = vstd::std_specs::hash::spec_hash_keys_iter(&self.states).remaining();
            assert(rem.take(rem.len() as int) == rem);
            assert(out@ =~= rem.unref());
        }
        out
    }

    /// All transitions as (from, to, input, action), each once, in no
    /// particular order.
    pub fn iter_transitions(&self) -> (r: Vec<(u16, u16, u8, Action)>)
        requires
            self.wf(),
        ensures
            forall|t: (u16, u16, u8, Action)|
                r@.contains(t) <==> self@.get(t.0, t.2) == Some((t.1, t.3)),
            r@.len() == self@.trans.dom().len(),
    {
        let mut out: Vec<(u16, u16, u8, Action)> = Vec::new();
        for kv in it: self.transitions.iter()
            invariant
                out@.len() == it.index(),
                forall|j: int|
                    0 <= j < it.index() ==> #[trigger] out@[j] == (
                        it.seq()[j].1.0,
                        it.seq()[j].1.2,
                        it.seq()[j].1.1,
                        it.seq()[j].1.3,
                    ),
                it.seq() == vstd::std_specs::hash::spec_hash_map_iter(&self.transitions).remaining(),
        {
            let v = kv.1;
            out.push((v.0, v.2, v.1, v.3));
        }
        proof {
            let rem = vstd::std_specs::hash::spec_hash_map_iter(&self.transitions).remaining();
            assert forall|t: (u16, u16, u8, Action)|
                out@.contains(t) <==> self@.get(t.0, t.2) == Some((t.1, t.3)) by {
                if out@.contains(t) {
                    let j = choose|j: int| 0 <= j < out@.len() && out@[j] == t;
                    assert(self.transitions@.contains_key(*rem[j].0));
                    assert(self.transitions@[*rem[j].0] == *rem[j].1);
                }
                if self@.get(t.0, t.2) == Some((t.1, t.3)) {
                    let k = bkey(t.0, t.2);
                    assert(self.transitions@.contains_key(k));
                    let v = self.transitions@[k];
                    assert(rem.contains((&k, &v)));
                    let j = choose|j: int| 0 <= j < rem.len() && rem[j] == (&k, &v);
                    lemma_bkey_injective(v.0, v.1, t.0, t.2);
                    assert(out@[j] == t);
                }
            }
            lemma_view_dom_len(self);
        }
        out
    }
}

proof fn lemma_view_dom_len(d: &Dfa)
    requires
        d.wf(),
    ensures
        d@.trans.dom().len() == d.transitions@.dom().len(),
{
    let f = |q: (u16, u8)| bkey(q.0, q.1);
    let g = |k: u32| (d.transitions@[k].0, d.transitions@[k].1);
    let dom = d@.trans.dom();
    let kdom = d.transitions@.dom();
    assert(kdom.finite()) by {
        vstd::std_specs::hash::axiom_hashmap_view_finite_dom(d.transitions);
    }
    assert(dom =~= kdom.map(g)) by {
        assert forall|q: (u16, u8)| dom.contains(q) implies kdom.map(g).contains(q) by {
            let k = bkey(q.0, q.1);
            lemma_bkey_injective(d.transitions@[k].0, d.transitions@[k].1, q.0, q.1);
            assert(g(k) == q);
        }
    }
    kdom.lemma_map_finite(g);
    assert(kdom =~= dom.map(f)) by {
        assert forall|k: u32| kdom.contains(k) implies dom.map(f).contains(k) by {
            let q = (d.transitions@[k].0, d.transitions@[k].1);
            assert(dom.contains(q));
            assert(f(q) == k);
        }
    }
    assert forall|x: (u16, u8), y: (u16, u8)|
        dom.contains(x) && dom.contains(y) && #[trigger] f(x) == #[trigger] f(y) implies x == y by {
        lemma_bkey_injective(x.0, x.1, y.0, y.1);
    }
    assert(vstd::relations::injective_on(f, dom));
    vstd::set_lib::lemma_map_size(dom, kdom, f);
}

/// The builder's abstract state.
pub ghost struct Cursor {
    pub dfa: DfaView,
    pub start: u16,
    pub sid: u16,
    /// The last transition followed.
    pub prev_trans: Option<(u16, u8)>,
    pub cid: Option<u8>,
}

impl Cursor {
    pub open spec fn wf(self) -> bool {
        &&& self.dfa.closed()
        &&& self.dfa.states.contains(self.sid)
        &&& self.dfa.states.contains(self.start)
    }
}

/// One input byte followed from `at`: an existing transition is reused,
/// otherwise a new state and a transition without action are added.
pub open spec fn step_byte(c: Cursor, at: u16, b: u8) -> (Cursor, u16) {
    let c1 = Cursor {
        dfa: c.dfa,
        start: c.start,
        sid: c.sid,
        prev_trans: Some((at, b)),
        cid: c.cid,
    };
    if c.dfa.trans.contains_key((at, b)) {
        (c1, c.dfa.trans[(at, b)].0)
    } else {
        let (d2, next) = c.dfa.alloc_state();
        (
            Cursor {
                dfa: d2.with_trans(d2.trans.insert((at, b), (next, Action::NoAction))),
                start: c.start,
                sid: c.sid,
                prev_trans: Some((at, b)),
                cid: c.cid,
            },
            next,
        )
    }
}

pub open spec fn push_seq(c: Cursor, at: u16, s: Seq<u8>) -> (Cursor, u16)
    decreases s.len(),
{
    if s.len() == 0 {
        (c, at)
    } else {
        let r = step_byte(c, at, s[0]);
        push_seq(r.0, r.1, s.drop_first())
    }
}

/// `push`: the bytes followed from the current state, which moves to the
/// state reached.
pub open spec fn spec_push(c: Cursor, s: Seq<u8>) -> Cursor {
    let r = push_seq(c, c.sid, s);
    Cursor {
        dfa: r.0.dfa,
        start: r.0.start,
        sid: r.1,
        prev_trans: r.0.prev_trans,
        cid: r.0.cid,
    }
}

/// `capture_field_value`: the last transition followed gets the capture
/// action, with the given capture id or else a fresh one.
pub open spec fn spec_capture(c: Cursor, cid: Option<u8>) -> Cursor {
    let (d1, k) = match cid {
        Some(k) => (c.dfa, k),
        None => c.dfa.new_cid(),
    };
    let key = c.prev_trans->0;
    let d2 = if d1.trans.contains_key(key) {
        d1.with_trans(d1.trans.insert(key, (d1.trans[key].0, Action::CaptureFieldValue(k))))
    } else {
        d1
    };
    Cursor { dfa: d2, start: c.start, sid: c.sid, prev_trans: c.prev_trans, cid: c.cid }
}

/// One call on an HTTP/2 DFA or on a builder of it, as those methods take it.
pub ghost enum Step {
    /// `start_pattern(from)`: a new pattern at `from`.
    Start(u16),
    /// `push(input)` on the builder.
    Push(Seq<u8>),
    /// `capture_field_value(cid)` on the builder.
    Capture(Option<u8>),
    /// `insert_transition(from, to, input, action)` on the DFA.
    Insert(u16, u16, u8, Action),
}

pub open spec fn step(c: Cursor, s: Step) -> Cursor {
    match s {
        Step::Start(from) => Cursor { dfa: c.dfa, start: from, sid: from, prev_trans: None, cid: None },
        Step::Push(input) => spec_push(c, input),
        Step::Capture(k) => spec_capture(c, k),
        Step::Insert(from, to, b, a) => Cursor {
            dfa: c.dfa.with_trans(c.dfa.trans.insert((from, b), (to, a))),
            start: c.start,
            sid: c.sid,
            prev_trans: c.prev_trans,
            cid: c.cid,
        },
    }
}

/// The calls applied in order.
pub open spec fn steps(c: Cursor, ss: Seq<Step>) -> Cursor
    decreases ss.len(),
{
    if ss.len() == 0 {
        c
    } else {
        steps(step(c, ss[0]), ss.drop_first())
    }
}

/// How many of the calls capture with a fresh id.
pub open spec fn fresh_captures(ss: Seq<Step>) -> nat
    decreases ss.len(),
{
    if ss.len() == 0 {
        0
    } else {
        (if ss[0] == Step::Capture(None) {
            1nat
        } else {
            0nat
        }) + fresh_captures(ss.drop_first())
    }
}

proof fn lemma_push_seq_cid(c: Cursor, at: u16, s: Seq<u8>)
    ensures
        push_seq(c, at, s).0.dfa.cid == c.dfa.cid,
    decreases s.len(),
{
    if s.len() > 0 {
        let r = step_byte(c, at, s[0]);
        lemma_push_seq_cid(r.0, r.1, s.drop_first());
    }
}

/// The number of captures of an HTTP/2 DFA counts its fresh captures: each
/// `capture_field_value` without an id takes exactly one more capture id,
/// and no other call (`start_pattern`, `push`, a capture with a given id,
/// `insert_transition`) changes it. From `Dfa::new`, which starts at zero,
/// `num_captures` is the number of fresh captures made so far.
pub proof fn law_captures_counted(c: Cursor, ss: Seq<Step>)
    requires
        c.dfa.cid + fresh_captures(ss) <= 255,
    ensures
        steps(c, ss).dfa.cid == c.dfa.cid + fresh_captures(ss),
    decreases ss.len(),
{
    if ss.len() > 0 {
        let c1 = step(c, ss[0]);
        match ss[0] {
            Step::Push(input) => {
                lemma_push_seq_cid(c, c.sid, input);
            },
            _ => {},
        }
        assert(c1.dfa.cid == c.dfa.cid + if ss[0] == Step::Capture(None) {
            1int
        } else {
            0int
        });
        law_captures_counted(c1, ss.drop_first());
    }
}

/// Adds a pattern to an HTTP/2 DFA.
pub struct DfaBuilder<'a> {
    pub dfa: &'a mut Dfa,
    pub start: u16,
    /// The current state id
    pub sid: u16,
    /// The last transition followed
    pub prev_trans: Option<(u16, u8)>,
    /// The current capture id
    pub cid: Option<u8>,
}

impl<'a> DfaBuilder<'a> {
    pub open spec fn cur(&self) -> Cursor {
        Cursor {
            dfa: self.dfa@,
            start: self.start,
            sid: self.sid,
            prev_trans: self.prev_trans,
            cid: self.cid,
        }
    }

    pub open spec fn wf(&self) -> bool {
        self.dfa.wf() && self.cur().wf()
    }

    proof fn lemma_push_seq(c: Cursor, at: u16, s: Seq<u8>)
        requires
            c.wf(),
            c.dfa.states.contains(at),
            c.dfa.room() >= s.len(),
        ensures
            push_seq(c, at, s).0.wf(),
            push_seq(c, at, s).0.dfa.states.contains(push_seq(c, at, s).1),
            c.dfa.states.subset_of(push_seq(c, at, s).0.dfa.states),
            push_seq(c, at, s).0.dfa.room() + s.len() >= c.dfa.room(),
            push_seq(c, at, s).0.dfa.cid == c.dfa.cid,
            push_seq(c, at, s).0.sid == c.sid,
            push_seq(c, at, s).0.start == c.start,
            push_seq(c, at, s).0.cid == c.cid,
            s.len() > 0 ==> push_seq(c, at, s).0.prev_trans is Some,
            s.len() == 0 ==> push_seq(c, at, s).0.prev_trans == c.prev_trans,
        decreases s.len(),
    {
        if s.len() > 0 {
            if !c.dfa.trans.contains_key((at, s[0])) {
                lemma_alloc(c.dfa.states, c.dfa.sid as int);
            }
            let r = step_byte(c, at, s[0]);
            Self::lemma_push_seq(r.0, r.1, s.drop_first());
        }
    }

    /// Follows `input` from the current state, reusing or adding
    /// transitions; the current state moves to the state reached.
    pub fn push(&mut self, input: &[u8])
        requires
            old(self).wf(),
            old(self).dfa@.room() >= input@.len(),
        ensures
            final(self).wf(),
            *final(final(self).dfa) == *final(old(self).dfa),
            final(self).cur() == spec_push(old(self).cur(), input@),
            old(self).dfa@.states.subset_of(final(self).dfa@.states),
            final(self).dfa@.room() + input@.len() >= old(self).dfa@.room(),
            final(self).dfa@.cid == old(self).dfa@.cid,
            input@.len() > 0 ==> final(self).prev_trans is Some,
    {
        let ghost c0 = self.cur();
        proof {
            Self::lemma_push_seq(c0, c0.sid, input@);
        }
        let mut at = self.sid;
        let mut i: usize = 0;
        assert(input@.skip(0) =~= input@);
        while i < input.len()
            invariant
                self.wf(),
                *final(self.dfa) == *final(old(self).dfa),
                c0 == old(self).cur(),
                i <= input@.len(),
                self.dfa@.states.contains(at),
                self.dfa@.room() + i >= c0.dfa.room(),
                c0.dfa.room() >= input@.len(),
                self.sid == c0.sid,
                push_seq(c0, c0.sid, input@) == push_seq(self.cur(), at, input@.skip(i as int)),
            decreases input.len() - i,
        {
            let b = input[i];
            assert(input@.skip(i as int)[0] == b);
            assert(input@.skip(i as int).drop_first() =~= input@.skip(i + 1));
            self.prev_trans = Some((at, b));
            match self.dfa.lookup(at, b) {
                Some((to, _)) => {
                    at = to;
                },
                None => {
                    proof {
                        lemma_alloc(self.dfa@.states, self.dfa@.sid as int);
                    }
                    let next = self.dfa.insert_state();
                    self.dfa.insert_transition(at, next, b, Action::NoAction);
                    at = next;
                },
            }
            i = i + 1;
        }
        assert(input@.skip(i as int).len() == 0);
        self.sid = at;
    }

    /// The last transition followed captures the field value, with capture
    /// id `cid` or else a fresh one.
    pub fn capture_field_value(&mut self, cid: Option<u8>)
        requires
            old(self).wf(),
            old(self).prev_trans is Some,
            cid is None ==> old(self).dfa@.cid < 255,
        ensures
            final(self).wf(),
            *final(final(self).dfa) == *final(old(self).dfa),
            final(self).cur() == spec_capture(old(self).cur(), cid),
            final(self).dfa@.states == old(self).dfa@.states,
            final(self).dfa@.sid == old(self).dfa@.sid,
    {
        let k = match cid {
            Some(k) => k,
            None => self.dfa.insert_new_capture_start(),
        };
        let key = self.prev_trans.unwrap();
        if let Some((to, _)) = self.dfa.lookup(key.0, key.1) {
            self.dfa.insert_transition(key.0, to, key.1, Action::CaptureFieldValue(k));
        }
    }
}

} // verus!
