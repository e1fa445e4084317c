use vstd::prelude::*;

verus! {

/// Terminal classification of a finished goal.  The cause carried by
/// `Failed` is opaque to the core: it is retained only for reporting and
/// never interpreted.
#[derive(Debug, PartialEq, Eq)]
pub enum Outcome {
    Skipped,
    Success,
    Failed(String),
}

/// Lifecycle status of a goal.  Statuses move from `Waiting` through
/// `InProgress` to the terminal `Finished`.
#[derive(Debug, PartialEq, Eq)]
pub enum Status {
    Waiting,
    InProgress,
    Finished(Outcome),
}

impl Status {
    /// The status is terminal: the goal has finished, with any outcome.
    pub open spec fn spec_is_finished(&self) -> bool {
        match self {
            Status::Finished(_) => true,
            _ => false,
        }
    }

    /// The goal finished and its outcome was a failure.
    pub open spec fn spec_is_failed(&self) -> bool {
        match self {
            Status::Finished(Outcome::Failed(_)) => true,
            _ => false,
        }
    }

    /// The goal finished successfully.
    pub open spec fn spec_is_success(&self) -> bool {
        match self {
            Status::Finished(Outcome::Success) => true,
            _ => false,
        }
    }

    #[verifier::when_used_as_spec(spec_is_finished)]
    pub fn is_finished(&self) -> (b: bool)
        ensures
            b == self.spec_is_finished(),
    {
        match self {
            Status::Finished(_) => true,
            _ => false,
        }
    }

    #[verifier::when_used_as_spec(spec_is_failed)]
    pub fn is_failed(&self) -> (b: bool)
        ensures
            b == self.spec_is_failed(),
    {
        match self {
            Status::Finished(Outcome::Failed(_)) => true,
            _ => false,
        }
    }

    #[verifier::when_used_as_spec(spec_is_success)]
    pub fn is_success(&self) -> (b: bool)
        ensures
            b == self.spec_is_success(),
    {
        match self {
            Status::Finished(Outcome::Success) => true,
            _ => false,
        }
    }
}

} // verus!
