//! The outcome of an application run. Per-file failures (a delta that does not
//! decode, a removed file that cannot be moved to the backup) are recorded and
//! the run goes on; they only turn its result into success with errors.
use vstd::prelude::*;

verus! {

/// How an application run that was not aborted ended.
#[derive(Debug, Clone, Copy, PartialEq, Eq, Structural)]
pub enum RunOutcome {
    /// Every file was updated.
    Success,
    /// The run completed, but at least one file could not be updated or removed.
    SuccessWithErrors,
}

/// What an application run has met so far.
#[derive(Debug, Clone, Copy, PartialEq, Eq, Structural)]
pub struct ApplyReport {
    /// Whether some per-file step failed.
    pub had_errors: bool,
}

impl ApplyReport {
    /// A report of a run that has met no failure.
    pub fn new() -> (r: ApplyReport)
        ensures
            !r.had_errors,
    {
        ApplyReport { had_errors: false }
    }

    /// Records whether a file of the removal list was moved to the backup. A
    /// file that could not be moved is noted, and the run goes on.
    pub fn record_removal(&mut self, moved: bool)
        ensures
            final(self).had_errors == (old(self).had_errors || !moved),
    {
        if !moved {
            self.had_errors = true;
        }
    }

    /// Records whether every delta of a rebuilt file decoded.
    pub fn record_rebuild(&mut self, complete: bool)
        ensures
            final(self).had_errors == (old(self).had_errors || !complete),
    {
        if !complete {
            self.had_errors = true;
        }
    }

    /// The outcome of the run, once every entry has been handled.
    pub fn outcome(&self) -> (r: RunOutcome)
        ensures
            r == (if self.had_errors {
                RunOutcome::SuccessWithErrors
            } else {
                RunOutcome::Success
            }),
    {
        if self.had_errors {
            RunOutcome::SuccessWithErrors
        } else {
            RunOutcome::Success
        }
    }
}

} // verus!
