//! Encoding DFA transitions into the data plane's transition table.

use crate::h1::Action as H1Action;
use crate::h2::Action as H2Action;
use vstd::prelude::*;

verus! {

/// The action encodings the data plane was compiled with.
#[derive(Clone, Copy, Debug, PartialEq, Eq, Structural)]
pub struct Rodata {
    pub a_start_capture: u16,
    pub a_end_capture: u16,
    pub a_done: u16,
    /// The bits of an action that hold the capture and range ids.
    pub a_id_mask: u16,
}

/// One entry of the data plane's transition table.
#[derive(Clone, Copy, Debug, PartialEq, Eq, Structural)]
pub struct Trans {
    pub state: u16,
    pub action: u16,
}

/// The encoding of an HTTP/1.1 action.
pub open spec fn h1_action_bits(action: H1Action, rodata: Rodata) -> u16 {
    match action {
        H1Action::StartCapture(mid) => rodata.a_start_capture | ((mid as u16) & rodata.a_id_mask),
        H1Action::EndCapture(cid, mid) => rodata.a_end_capture | ((((cid as u16) << 6u16) | (
        mid as u16)) & rodata.a_id_mask),
        H1Action::Done => rodata.a_done,
        H1Action::NoAction => 0,
    }
}

/// The encoding of an HTTP/2 action.
pub open spec fn h2_action_bits(action: H2Action, rodata: Rodata) -> u16 {
    match action {
        H2Action::CaptureFieldValue(cid) => rodata.a_start_capture | ((cid as u16)
            & rodata.a_id_mask),
        H2Action::Done => rodata.a_done,
        H2Action::NoAction => 0,
    }
}

/// The table entry for an HTTP/1.1 transition into `state` with `action`.
pub fn new_h1_transition(state: u16, action: H1Action, rodata: &Rodata) -> (r: Trans)
    ensures
        r == (Trans { state, action: h1_action_bits(action, *rodata) }),
{
    let action = match action {
        H1Action::StartCapture(mid) => rodata.a_start_capture | (mid as u16) & rodata.a_id_mask,
        H1Action::EndCapture(cid, mid) => {
            let id = (cid as u16) << 6u16 | (mid as u16);
            rodata.a_end_capture | id & rodata.a_id_mask
        },
        H1Action::Done => rodata.a_done,
        H1Action::NoAction => 0,
    };
    Trans { state, action }
}

/// The table entry for an HTTP/2 transition into `state` with `action`.
pub fn new_h2_transition(state: u16, action: H2Action, rodata: &Rodata) -> (r: Trans)
    ensures
        r == (Trans { state, action: h2_action_bits(action, *rodata) }),
{
    let action = match action {
        H2Action::CaptureFieldValue(cid) => rodata.a_start_capture | (cid as u16)
            & rodata.a_id_mask,
        H2Action::Done => rodata.a_done,
        H2Action::NoAction => 0,
    };
    Trans { state, action }
}

} // verus!
