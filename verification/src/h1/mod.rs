//! The HTTP/1.1 pattern DFA: a character automaton whose transitions carry
//! capture actions, and the parser that fills it with header patterns.

pub mod dfa;
pub mod http;


use vstd::prelude::*;

verus! {

/// What the data plane does when it takes a transition.
#[derive(Clone, Copy, Debug, PartialEq, Eq, Structural)]
pub enum Action {
    /// Start capturing a range with the given capture id.
    StartCapture(u8),
    /// End the capture with the given capture id, storing it in the given range id.
    EndCapture(u8, u8),
    /// Terminates parsing.
    Done,
    /// No action.
    NoAction,
}

impl Action {
    pub fn is_some(&self) -> (r: bool)
        ensures
            r == !(*self is NoAction),
    {
        !self.is_none()
    }

    pub fn is_none(&self) -> (r: bool)
        ensures
            r == (*self is NoAction),
    {
        match self {
            Action::NoAction => true,
            _ => false,
        }
    }
}

/// Why adding a pattern to the DFA failed.
#[derive(Clone, Copy, Debug, PartialEq, Eq, Structural)]
pub enum DfaError {
    /// An existing transition on this input carries an action the pattern cannot reuse.
    ConflictingAction(char),
    /// An optional input conflicts with an existing transition.
    ConflictingOptional(char),
    /// A capture was ended without one being started.
    NoCaptureId,
    /// A pattern that is still capturing cannot terminate parsing.
    CaptureNeverEnds,
    /// The final transition of a pattern conflicts with an existing one.
    ConflictingTransition(char),
}

} // verus!
