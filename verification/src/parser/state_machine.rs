//! The state machine that adds URI and header matches to the matcher DFA.

use crate::parser::dfa::{DfaState, DFA};
use vstd::prelude::*;

verus! {

broadcast use vstd::string::group_string_axioms;

/// The matcher: the DFA, its initial state and the state it rests in
/// between header lines, and the action codes for a match and for the end.
pub struct StateMachine {
    s_init: u16,
    s_any: u16,
    a_match: u16,
    a_done: u16,
    dfa: DFA,
}

/// The machine by value.
pub ghost struct MachineState {
    pub s_init: u16,
    pub s_any: u16,
    pub a_match: u16,
    pub a_done: u16,
    pub dfa: DfaState,
}

impl View for StateMachine {
    type V = MachineState;

    closed spec fn view(&self) -> MachineState {
        MachineState {
            s_init: self.s_init,
            s_any: self.s_any,
            a_match: self.a_match,
            a_done: self.a_done,
            dfa: self.dfa@,
        }
    }
}

/// "\r\n", which ends a line.
pub open spec fn crlf() -> Seq<char> {
    "\r\n"@
}

/// Adding the end of the header: "\r\n\r\n" from `s_any` with the end action.
pub open spec fn hdr_end_spec(m: MachineState) -> Option<DfaState> {
    match m.dfa.add_path_new(m.s_any, crlf() + crlf(), m.a_done) {
        Some((d, _)) => Some(d),
        None => None,
    }
}

/// Adding a URI match: '*' loops on the initial state, and the URI leads
/// from it to a new state with the match action.
pub open spec fn uri_spec(m: MachineState, uri: Seq<char>) -> Option<DfaState> {
    match m.dfa.add(m.s_init, m.s_init, '*', 0) {
        Some(d1) => match d1.add_path_new(m.s_init, uri, m.a_match) {
            Some((d2, _)) => Some(d2),
            None => None,
        },
        None => None,
    }
}

/// Adding a header match: a new line, the name, blanks, ':', blanks, the
/// value, and the end of the line with the match action.
pub open spec fn hdr_spec(m: MachineState, key: Seq<char>, val: Seq<char>) -> Option<DfaState> {
    match m.dfa.add_path_new(m.s_any, crlf(), 0) {
        Some((d1, s1)) => match d1.add_path_new(s1, key, 0) {
            Some((d2, s2)) => match d2.add(s2, s2, '\t', 0) {
                Some(d3) => match d3.add(s2, s2, ' ', 0) {
                    Some(d4) => match d4.step(s2, ':', 0) {
                        Some((d5, s3)) => match d5.add(s3, s3, '\t', 0) {
                            Some(d6) => match d6.add(s3, s3, ' ', 0) {
                                Some(d7) => match d7.add_path_new(s3, val, 0) {
                                    Some((d8, s4)) => match d8.add_path_new(s4, crlf(), m.a_match) {
                                        Some((d9, _)) => Some(d9),
                                        None => None,
                                    },
                                    None => None,
                                },
                                None => None,
                            },
                            None => None,
                        },
                        None => None,
                    },
                    None => None,
                },
                None => None,
            },
            None => None,
        },
        None => None,
    }
}

impl StateMachine {
    /// Whether the DFA is well formed.
    pub closed spec fn wf(&self) -> bool {
        self.dfa.wf()
    }

    /// A machine whose DFA holds the initial state and the header state.
    pub fn new(s_init: u16, s_any: u16, a_match: u16, a_done: u16) -> (r: StateMachine)
        ensures
            r.wf(),
            r@.s_init == s_init,
            r@.s_any == s_any,
            r@.a_match == a_match,
            r@.a_done == a_done,
            r@.dfa.sid == 0,
            r@.dfa.states == set![s_init, s_any],
            r@.dfa.trans == Map::<(u16, char), (u16, u16)>::empty(),
    {
        let mut states: Vec<u16> = Vec::new();
        states.push(s_init);
        states.push(s_any);
        let dfa = DFA::new(states);
        proof {
            assert(states@ =~= seq![s_init, s_any]);
            assert(seq![s_init, s_any].to_set() =~= set![s_init, s_any]) by {
                assert(seq![s_init, s_any].contains(s_init));
                assert(seq![s_init, s_any][1] == s_any);
            }
        }
        StateMachine { s_init, s_any, a_match, a_done, dfa }
    }

    pub fn s_init(&self) -> (r: u16)
        ensures
            r == self@.s_init,
    {
        self.s_init
    }

    pub fn s_any(&self) -> (r: u16)
        ensures
            r == self@.s_any,
    {
        self.s_any
    }

    pub fn a_match(&self) -> (r: u16)
        ensures
            r == self@.a_match,
    {
        self.a_match
    }

    pub fn a_done(&self) -> (r: u16)
        ensures
            r == self@.a_done,
    {
        self.a_done
    }

    /// Ends parsing at the end of the header, so that the DFA does not
    /// parse the body.
    pub fn done_at_http_hdr_end(&mut self)
        requires
            old(self).wf(),
            hdr_end_spec(old(self)@) is Some,
        ensures
            final(self).wf(),
            final(self)@ == (MachineState { dfa: hdr_end_spec(old(self)@)->0, ..old(self)@ }),
    {
        proof {
            reveal_strlit("\r\n\r\n");
            reveal_strlit("\r\n");
            assert("\r\n\r\n"@ =~= crlf() + crlf());
        }
        let s_any = self.s_any;
        let a_done = self.a_done;
        self.dfa.add_transitions_to_new_state(s_any, "\r\n\r\n", a_done);
    }

    /// Matches requests for `uri`.
    pub fn match_http_uri(&mut self, uri: &str)
        requires
            old(self).wf(),
            uri_spec(old(self)@, uri@) is Some,
        ensures
            final(self).wf(),
            final(self)@ == (MachineState { dfa: uri_spec(old(self)@, uri@)->0, ..old(self)@ }),
    {
        let s_init = self.s_init;
        let a_match = self.a_match;
        self.dfa.add_transition(s_init, s_init, '*', 0);
        self.dfa.add_transitions_to_new_state(s_init, uri, a_match);
    }

    /// Matches requests with header `key` of value `val`.
    pub fn match_http_hdr(&mut self, key: &str, val: &str)
        requires
            old(self).wf(),
            hdr_spec(old(self)@, key@, val@) is Some,
        ensures
            final(self).wf(),
            final(self)@ == (MachineState { dfa: hdr_spec(old(self)@, key@, val@)->0, ..old(self)@ }),
    {
        proof {
            reveal_strlit("\r\n");
        }
        let s_any = self.s_any;
        let a_match = self.a_match;
        let s = self.dfa.add_transitions_to_new_state(s_any, "\r\n", 0);
        let s = self.dfa.add_transitions_to_new_state(s, key, 0);
        self.dfa.add_transition(s, s, '\t', 0);
        self.dfa.add_transition(s, s, ' ', 0);
        let s = self.dfa.add_transition_to_new_state(s, ':', 0);
        self.dfa.add_transition(s, s, '\t', 0);
        self.dfa.add_transition(s, s, ' ', 0);
        let s = self.dfa.add_transitions_to_new_state(s, val, 0);
        self.dfa.add_transitions_to_new_state(s, "\r\n", a_match);
    }

    /// The plan for programming the data plane with the DFA: the header
    /// end is added first; then the states in ascending order, and for each
    /// transition (from, input byte, action in the high and target in the
    /// low half-word).
    pub fn inject_match_dfa(&mut self) -> (r: (Vec<u16>, Vec<(u16, u8, u32)>))
        requires
            old(self).wf(),
            hdr_end_spec(old(self)@) is Some,
        ensures
            final(self).wf(),
            final(self)@ == (MachineState { dfa: hdr_end_spec(old(self)@)->0, ..old(self)@ }),
            sorted_strictly(r.0@),
            r.0@.to_set() == final(self)@.dfa.states,
            forall|e: (u16, u8, u32)|
                r.1@.contains(e) <==> exists|c: char|
                    #[trigger] final(self)@.dfa.trans.contains_key((e.0, c)) && e == entry_of(
                        (e.0, final(self)@.dfa.trans[(e.0, c)].0, c, final(self)@.dfa.trans[(e.0, c)].1),
                    ),
    {
        self.done_at_http_hdr_end();
        let states = sort_states(&self.dfa.iter_states());
        let trans = self.dfa.iter_transitions();
        let mut entries: Vec<(u16, u8, u32)> = Vec::new();
        let mut i: usize = 0;
        while i < trans.len()
            invariant
                i <= trans@.len(),
                entries@ == trans@.take(i as int).map_values(|t: (u16, u16, char, u16)| entry_of(t)),
            decreases trans.len() - i,
        {
            let t = trans[i];
            let v: u32 = (t.3 as u32) * 0x1_0000 + (t.1 as u32);
            let ghost prev = entries@;
            entries.push((t.0, t.2 as u8, v));
            proof {
                assert(trans@.take(i as int + 1) =~= trans@.take(i as int).push(t));
                assert(entries@ =~= trans@.take(i as int + 1).map_values(
                    |t: (u16, u16, char, u16)| entry_of(t),
                ));
            }
            i = i + 1;
        }
        proof {
            assert(trans@.take(trans@.len() as int) =~= trans@);
            assert forall|e: (u16, u8, u32)|
                entries@.contains(e) <==> exists|c: char|
                    #[trigger] self@.dfa.trans.contains_key((e.0, c)) && e == entry_of(
                        (e.0, self@.dfa.trans[(e.0, c)].0, c, self@.dfa.trans[(e.0, c)].1),
                    ) by {
                if entries@.contains(e) {
                    let j = choose|j: int| 0 <= j < entries@.len() && entries@[j] == e;
                    let t = trans@[j];
                    assert(entries@[j] == entry_of(t));
                    assert(trans@.contains(t));
                    assert(self@.dfa.trans.contains_key((t.0, t.2)) && self@.dfa.trans[(t.0, t.2)]
                        == (t.1, t.3));
                    assert(e.0 == t.0);
                    assert(self@.dfa.trans.contains_key((e.0, t.2)));
                }
                if exists|c: char|
                    #[trigger] self@.dfa.trans.contains_key((e.0, c)) && e == entry_of(
                        (e.0, self@.dfa.trans[(e.0, c)].0, c, self@.dfa.trans[(e.0, c)].1),
                    ) {
                    let c = choose|c: char|
                        #[trigger] self@.dfa.trans.contains_key((e.0, c)) && e == entry_of(
                            (e.0, self@.dfa.trans[(e.0, c)].0, c, self@.dfa.trans[(e.0, c)].1),
                        );
                    let t = (e.0, self@.dfa.trans[(e.0, c)].0, c, self@.dfa.trans[(e.0, c)].1);
                    assert(trans@.contains(t));
                    let j = choose|j: int| 0 <= j < trans@.len() && trans@[j] == t;
                    assert(entries@[j] == entry_of(trans@[j]));
                    assert(entries@.contains(e));
                }
            }
        }
        (states, entries)
    }
}

/// The entry of a transition: (from, input byte, action and target).
pub open spec fn entry_of(t: (u16, u16, char, u16)) -> (u16, u8, u32) {
    (t.0, t.2 as u8, (t.3 as int * 0x1_0000 + t.1 as int) as u32)
}

/// Whether `s` ascends strictly.
pub open spec fn sorted_strictly(s: Seq<u16>) -> bool {
    forall|i: int, j: int| 0 <= i < j < s.len() ==> s[i] < s[j]
}

/// The states in ascending order.
pub fn sort_states(v: &Vec<u16>) -> (r: Vec<u16>)
    requires
        v@.no_duplicates(),
    ensures
        sorted_strictly(r@),
        r@.to_set() == v@.to_set(),
{
    let mut out: Vec<u16> = Vec::new();
    let mut i: usize = 0;
    while i < v.len()
        invariant
            i <= v@.len(),
            v@.no_duplicates(),
            sorted_strictly(out@),
            out@.to_set() == v@.take(i as int).to_set(),
        decreases v.len() - i,
    {
        let x = v[i];
        let mut k: usize = 0;
        while k < out.len() && out[k] < x
            invariant
                k <= out@.len(),
                forall|j: int| 0 <= j < k ==> out@[j] < x,
            decreases out.len() - k,
        {
            k = k + 1;
        }
        proof {
            assert(!v@.take(i as int).contains(x)) by {
                if v@.take(i as int).contains(x) {
                    let j = choose|j: int| 0 <= j < i && v@.take(i as int)[j] == x;
                    assert(v@[j] == v@[i as int]);
                }
            }
            assert(!out@.contains(x)) by {
                assert(!out@.to_set().contains(x));
            }
            if k < out@.len() {
                assert(out@[k as int] != x);
            }
        }
        let ghost prev = out@;
        out.insert(k, x);
        proof {
            assert(out@ =~= prev.subrange(0, k as int).push(x) + prev.subrange(k as int, prev.len() as int));
            assert forall|a: int, b: int| 0 <= a < b < out@.len() implies out@[a] < out@[b] by {
                if b < k {
                } else if b == k {
                } else if a < k {
                    assert(prev[a] < x);
                    assert(x < prev[b - 1]) by {
                        if k < prev.len() {
                            assert(prev[k as int] >= x);
                            assert(prev[k as int] != x);
                        }
                    }
                } else if a == k {
                    assert(x < prev[b - 1]) by {
                        assert(prev[k as int] >= x);
                        assert(prev[k as int] != x);
                        if b - 1 > k {
                            assert(prev[k as int] < prev[b - 1]);
                        }
                    }
                } else {
                }
            }
            assert(v@.take(i as int + 1) =~= v@.take(i as int).push(x));
            v@.take(i as int).lemma_push_to_set_commute(x);
            assert forall|y: u16| #[trigger] out@.contains(y) <==> (prev.contains(y) || y == x) by {
                if out@.contains(y) {
                    let j = choose|j: int| 0 <= j < out@.len() && out@[j] == y;
                    if j < k {
                        assert(prev[j] == y);
                    } else if j > k {
                        assert(prev[j - 1] == y);
                    }
                }
                if prev.contains(y) {
                    let j = choose|j: int| 0 <= j < prev.len() && prev[j] == y;
                    if j < k {
                        assert(out@[j] == y);
                    } else {
                        assert(out@[j + 1] == y);
                    }
                }
                if y == x {
                    assert(out@[k as int] == x);
                }
            }
            assert(out@.to_set() =~= prev.to_set().insert(x));
        }
        i = i + 1;
    }
    assert(v@.take(v@.len() as int) =~= v@);
    out
}

} // verus!
