//! The retry executor: a failed split is tried again up to a configured
//! maximum, with a delay between attempts; on exhaustion the final error
//! surfaces to the caller. The decision is pure; the caller performs the
//! attempt and the delay, and on eventual success releases the matching
//! queue entry itself.

use vstd::prelude::*;

verus! {

/// What the executor does after an attempt.
#[derive(PartialEq, Eq, Structural, Clone, Copy, Debug)]
pub enum RetryStep {
    /// The attempt succeeded: done. The caller may now release the
    /// corresponding queue entry.
    Done,
    /// The attempt failed and retries remain: wait, then try again.
    RetryAfterDelay,
    /// The attempt failed and retries are exhausted: surface the error.
    GiveUp,
}

/// Decision after one attempt, with `failures` failed attempts made so far,
/// the attempt just made included when it failed. Retries are unconditional
/// on the kind of error: every failure within the budget is retried.
pub fn retry_decision(succeeded: bool, failures: u32, max_retries: u32) -> (r: RetryStep)
    ensures
        succeeded ==> r == RetryStep::Done,
        !succeeded && failures <= max_retries ==> r == RetryStep::RetryAfterDelay,
        !succeeded && failures > max_retries ==> r == RetryStep::GiveUp,
{
    if succeeded {
        RetryStep::Done
    } else if failures <= max_retries {
        RetryStep::RetryAfterDelay
    } else {
        RetryStep::GiveUp
    }
}

/// Whether a run of the executor ends in success, given the outcomes the
/// attempts would have in order: some attempt within the budget of one
/// initial try plus `max_retries` retries succeeds.
pub open spec fn retry_succeeds(outcomes: Seq<bool>, max_retries: int) -> bool {
    exists|i: int| 0 <= i <= max_retries && i < outcomes.len() && outcomes[i]
}

/// A permanently failing operation exhausts the executor: when no attempt
/// succeeds, no budget makes the run succeed.
pub proof fn lemma_retry_exhausted(outcomes: Seq<bool>, max_retries: int)
    requires
        forall|i: int| 0 <= i < outcomes.len() ==> !outcomes[i],
    ensures
        !retry_succeeds(outcomes, max_retries),
{
}

} // verus!
