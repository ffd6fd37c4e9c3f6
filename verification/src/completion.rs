//! The handshake object created per channel pairing: its single terminal
//! call signals that no more output will be produced on that channel.

use vstd::prelude::*;

verus! {

/// A completion handshake. Exactly one terminal `stopped` call is allowed
/// per instance; the flag records whether it has been made.
pub struct CompletionOutcome {
    pub fired: bool,
}

impl CompletionOutcome {
    /// A fresh outcome, not yet fired.
    pub fn new() -> (r: CompletionOutcome)
        ensures
            !r.fired,
    {
        CompletionOutcome { fired: false }
    }

    /// The terminal call: no more output will be produced on this channel.
    /// It may be made at most once.
    pub fn stopped(&mut self)
        requires
            !old(self).fired,
        ensures
            final(self).fired,
    {
        self.fired = true;
    }
}

} // verus!
