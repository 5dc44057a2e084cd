//! Build goals as the scheduler sees them: an outcome code and the trait a
//! goal implements for the host's worker loop. The work itself — spawning
//! builders, sandboxing, filesystem setup — is host territory.

use vstd::prelude::*;

verus! {

/// How a finished goal reports itself.
#[derive(Debug, Clone, Copy, PartialEq, Eq, PartialOrd, Ord, Structural)]
pub enum ExitCode {
    Busy,
    Success,
    Failure,
    NoSubstituters,
    IncompleteClosure,
}

/// What the host's worker loop asks of a goal it drives.
pub trait Goal {
    /// The outcome so far.
    fn status(&self) -> ExitCode;

    /// A stable key the scheduler orders goals by.
    fn key(&self) -> String;
}

} // verus!
