//! The HTTP matcher of the parser experiments: a DFA over request
//! characters, and the state machine that adds URI and header matches to it.

pub mod dfa;
pub mod state_machine;
