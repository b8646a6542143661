//! The header matcher of the parser experiments: actions that capture,
//! match and rewrite header fields, and their encoding for the data plane.

use vstd::prelude::*;

verus! {

/// What the matcher's data plane does on a transition.
#[derive(Clone, Copy, Debug, PartialEq, Eq, Structural)]
pub enum Action {
    Capture(u8),
    Match(u8),
    Done,
    NoAction,
}

impl Action {
    pub fn is_some(&self) -> (r: bool)
        ensures
            r == !(*self is NoAction),
    {
        !self.is_none()
    }

    pub fn is_none(&self) -> (r: bool)
        ensures
            r == (*self is NoAction),
    {
        match self {
            Action::NoAction => true,
            _ => false,
        }
    }
}

/// How a matched header is rewritten: its replacement text and the number
/// of bytes kept at its end.
#[derive(Clone, Debug, PartialEq)]
pub struct Modification {
    pub replacement: String,
    pub tail: u8,
}

/// The action encodings the matcher's data plane was compiled with.
#[derive(Clone, Copy, Debug, PartialEq, Eq, Structural)]
pub struct MatcherRodata {
    /// The bits of an action that hold the capture group id.
    pub a_cap_mask: u16,
    pub a_match: u16,
    pub a_done: u16,
}

/// A capture group id fits the mask.
pub open spec fn fits_mask(action: Action, rodata: MatcherRodata) -> bool {
    match action {
        Action::Capture(cid) => ((cid as u16) & rodata.a_cap_mask) == cid as u16,
        Action::Match(cid) => ((cid as u16) & rodata.a_cap_mask) == cid as u16,
        _ => true,
    }
}

pub open spec fn matcher_action_bits(action: Action, rodata: MatcherRodata) -> u16 {
    match action {
        Action::Capture(cid) => (cid as u16) & rodata.a_cap_mask,
        Action::Match(cid) => rodata.a_match | (rodata.a_cap_mask & ((cid as u16)
            & rodata.a_cap_mask)),
        Action::Done => rodata.a_done,
        Action::NoAction => 0,
    }
}

/// The table entry for a transition into `state` with `action`: the action
/// in the upper half, the state in the lower half.
pub fn state_action_to_raw(state: u16, action: Action, rodata: &MatcherRodata) -> (r: u32)
    requires
        fits_mask(action, *rodata),
    ensures
        r == ((matcher_action_bits(action, *rodata) as u32) << 16u32) | (state as u32),
{
    let action = match action {
        Action::Capture(cid) => {
            let raw_cid = (cid as u16) & rodata.a_cap_mask;
            raw_cid
        },
        Action::Match(cid) => {
            let raw_cid = (cid as u16) & rodata.a_cap_mask;
            rodata.a_match | (rodata.a_cap_mask & raw_cid)
        },
        Action::Done => rodata.a_done,
        Action::NoAction => 0,
    };
    ((action as u32) << 16u32) | (state as u32)
}

/// The number of the transitions that match.
pub open spec fn count_matches(ts: Seq<(u16, u16, char, Action)>) -> nat
    decreases ts.len(),
{
    if ts.len() == 0 {
        0
    } else {
        count_matches(ts.drop_last()) + if ts.last().3 is Match {
            1nat
        } else {
            0nat
        }
    }
}

/// The table entry of each transition of a parser, by the state it leaves
/// and its input, and the number of transitions that match: what the data
/// plane is programmed with.
pub fn parser_entries(transitions: &Vec<(u16, u16, char, Action)>, rodata: &MatcherRodata) -> (r: (
    Vec<(u16, char, u32)>,
    u32,
))
    requires
        forall|i: int| 0 <= i < transitions@.len() ==> fits_mask(#[trigger] transitions@[i].3, *rodata),
        transitions@.len() <= u32::MAX,
    ensures
        r.0@.len() == transitions@.len(),
        forall|i: int|
            0 <= i < transitions@.len() ==> #[trigger] r.0@[i] == (
                transitions@[i].0,
                transitions@[i].2,
                ((matcher_action_bits(transitions@[i].3, *rodata) as u32) << 16u32) | (
                transitions@[i].1 as u32),
            ),
        r.1 == count_matches(transitions@),
{
    let mut entries: Vec<(u16, char, u32)> = Vec::new();
    let mut num_matches: u32 = 0;
    let mut i: usize = 0;
    while i < transitions.len()
        invariant
            i <= transitions@.len() <= u32::MAX,
            forall|j: int| 0 <= j < transitions@.len() ==> fits_mask(#[trigger] transitions@[j].3, *rodata),
            entries@.len() == i,
            forall|j: int|
                0 <= j < i ==> #[trigger] entries@[j] == (
                    transitions@[j].0,
                    transitions@[j].2,
                    ((matcher_action_bits(transitions@[j].3, *rodata) as u32) << 16u32) | (
                    transitions@[j].1 as u32),
                ),
            num_matches == count_matches(transitions@.take(i as int)),
            num_matches <= i,
        decreases transitions.len() - i,
    {
        let (from, to, input, action) = transitions[i];
        proof {
            let t = transitions@.take(i as int + 1);
            assert(t.drop_last() =~= transitions@.take(i as int));
            assert(t.last() == transitions@[i as int]);
        }
        if let Action::Match(_) = action {
            num_matches = num_matches + 1;
        }
        let val = state_action_to_raw(to, action, rodata);
        entries.push((from, input, val));
        i = i + 1;
    }
    assert(transitions@.take(transitions@.len() as int) =~= transitions@);
    (entries, num_matches)
}

/// Why a gRPC field cannot be matched.
#[derive(Clone, Copy, Debug, PartialEq, Eq, Structural)]
pub enum RpcError {
    /// The service definition has no field of that name.
    UnknownField,
}

/// The parser of gRPC messages: its reserved states, the modifications of
/// captured fields, and the field numbers of the service definition, by
/// field name, as the proto file gives them.
pub struct RpcParser {
    pub s_init: u16,
    pub s_any: u16,
    pub modifications: Vec<(u8, Modification)>,
    pub field_numbers: Vec<(String, usize)>,
}

impl RpcParser {
    /// The field numbers by name.
    pub open spec fn fields(&self) -> Seq<(Seq<char>, usize)> {
        self.field_numbers@.map_values(|f: (String, usize)| (f.0@, f.1))
    }

    /// A parser for the service whose fields are `field_numbers` (name,
    /// number), without modifications.
    pub fn new(s_init: u16, s_any: u16, field_numbers: Vec<(String, usize)>) -> (r: RpcParser)
        ensures
            r.s_init == s_init,
            r.s_any == s_any,
            r.modifications@.len() == 0,
            r.fields() == field_numbers@.map_values(|f: (String, usize)| (f.0@, f.1)),
    {
        RpcParser { s_init, s_any, modifications: Vec::new(), field_numbers }
    }

    /// Matching a field checks that the service defines it.
    pub fn match_field(&self, key: &str, value: &str) -> (r: Result<(), RpcError>)
        ensures
            r is Ok <==> crate::table::lookup(self.fields(), key@) is Some,
            r is Err ==> r == Err::<(), RpcError>(RpcError::UnknownField),
    {
        let ghost fv = self.fields();
        let mut i: usize = 0;
        while i < self.field_numbers.len()
            invariant
                i <= self.field_numbers@.len(),
                fv == self.fields(),
                forall|j: int| 0 <= j < i ==> fv[j].0 != key@,
            decreases self.field_numbers.len() - i,
        {
            if crate::text::str_eq(self.field_numbers[i].0.as_str(), key) {
                proof {
                    crate::table::lemma_key_index_take(fv, key@, i as int);
                }
                return Ok(());
            }
            i = i + 1;
        }
        proof {
            crate::table::lemma_key_index_take(fv, key@, fv.len() as int);
        }
        Err(RpcError::UnknownField)
    }
}

} // verus!
