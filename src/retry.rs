//! Retry policy of a remote call: how long to wait before each retry and when to give up.
use vstd::prelude::*;
use crate::error::{AttemptError, CallError};

verus! {

/// Retries allowed after the first attempt, and the base of the back-off.
#[derive(Debug, Clone, Copy, PartialEq, Eq)]
pub struct RetryPolicy {
    pub max_retries: u32,
    pub base_delay_ms: u64,
}

/// The wait before the retry of index `retry_index` (0 for the first retry):
/// `base * (retry_index + 1)` milliseconds, capped at the largest `u64`.
pub open spec fn retry_delay(base: u64, retry_index: nat) -> nat {
    let d = base * (retry_index + 1);
    if d > u64::MAX {
        u64::MAX as nat
    } else {
        d as nat
    }
}

/// What to do once an attempt has ended.
#[derive(Debug, Clone, PartialEq, Eq)]
pub enum RetryStep<T> {
    /// The attempt succeeded: return its value, attempt no more.
    Done(T),
    /// The attempt failed and retries remain: wait this many milliseconds, then try again.
    RetryAfter(u64),
    /// The last allowed attempt failed.
    GiveUp(CallError),
}

/// The step after attempt `attempt` (0 for the first) ended with `outcome`.
pub open spec fn step_spec<T>(policy: RetryPolicy, attempt: nat, outcome: Result<T, AttemptError>) -> RetryStep<T> {
    match outcome {
        Ok(v) => RetryStep::Done(v),
        Err(e) => if attempt < policy.max_retries {
            RetryStep::RetryAfter(retry_delay(policy.base_delay_ms, attempt) as u64)
        } else {
            RetryStep::GiveUp(CallError::AllAttemptsFailed(e))
        },
    }
}

/// The result of a call, from attempt `attempt` on, whose attempts end in turn as
/// `outcomes` says, with the number of attempts made in all; none when `outcomes` runs out
/// before the call ends.
pub open spec fn retry_result<T>(policy: RetryPolicy, outcomes: Seq<Result<T, AttemptError>>, attempt: nat) -> Option<
    (Result<T, CallError>, nat),
>
    decreases outcomes.len() - attempt,
{
    if attempt >= outcomes.len() {
        None
    } else {
        match step_spec(policy, attempt, outcomes[attempt as int]) {
            RetryStep::Done(v) => Some((Ok(v), attempt + 1)),
            RetryStep::GiveUp(e) => Some((Err(e), attempt + 1)),
            RetryStep::RetryAfter(_) => retry_result(policy, outcomes, attempt + 1),
        }
    }
}

/// When every allowed attempt fails, the call fails with the last attempt's error after
/// exactly `max_retries + 1` attempts.
pub proof fn lemma_retry_exhaustion<T>(policy: RetryPolicy, outcomes: Seq<Result<T, AttemptError>>, attempt: nat)
    requires
        outcomes.len() == policy.max_retries + 1,
        attempt <= policy.max_retries,
        forall|k: int| 0 <= k < outcomes.len() ==> (#[trigger] outcomes[k]) is Err,
    ensures
        retry_result(policy, outcomes, attempt) == Some((
            Err::<T, CallError>(CallError::AllAttemptsFailed(outcomes[policy.max_retries as int]->Err_0)),
            (policy.max_retries + 1) as nat,
        )),
    decreases policy.max_retries - attempt,
{
    assert(outcomes[attempt as int] is Err);
    if attempt < policy.max_retries {
        lemma_retry_exhaustion(policy, outcomes, attempt + 1);
    }
}

/// A call whose first two attempts fail and whose third succeeds, with at least two retries
/// allowed, returns that success after three attempts, whatever later attempts would give.
pub proof fn lemma_retry_recovers<T>(policy: RetryPolicy, outcomes: Seq<Result<T, AttemptError>>)
    requires
        policy.max_retries >= 2,
        outcomes.len() >= 3,
        outcomes[0] is Err,
        outcomes[1] is Err,
        outcomes[2] is Ok,
    ensures
        retry_result(policy, outcomes, 0) == Some((Ok::<T, CallError>(outcomes[2]->Ok_0), 3nat)),
{
    assert(retry_result(policy, outcomes, 2) == Some((Ok::<T, CallError>(outcomes[2]->Ok_0), 3nat)));
    assert(retry_result(policy, outcomes, 1) == retry_result(policy, outcomes, 2));
}

impl RetryPolicy {
    /// The wait before the retry of index `retry_index` (0 for the first retry).
    pub fn delay_before_retry(&self, retry_index: u32) -> (r: u64)
        ensures
            r == retry_delay(self.base_delay_ms, retry_index as nat),
    {
        let k: u64 = retry_index as u64 + 1;
        match self.base_delay_ms.checked_mul(k) {
            Some(d) => d,
            None => u64::MAX,
        }
    }

    /// Decides what follows attempt `attempt` (0 for the first), which ended with `outcome`.
    pub fn next_step<T>(&self, attempt: u32, outcome: Result<T, AttemptError>) -> (r: RetryStep<T>)
        requires
            attempt <= self.max_retries,
        ensures
            r == step_spec(*self, attempt as nat, outcome),
    {
        match outcome {
            Ok(v) => RetryStep::Done(v),
            Err(e) => {
                if attempt < self.max_retries {
                    RetryStep::RetryAfter(self.delay_before_retry(attempt))
                } else {
                    RetryStep::GiveUp(CallError::AllAttemptsFailed(e))
                }
            },
        }
    }
}

/// The state of one remote call between its attempts.
pub struct RetryDriver {
    policy: RetryPolicy,
    attempt: u32,
    finished: bool,
}

impl RetryDriver {
    pub closed spec fn policy(&self) -> RetryPolicy {
        self.policy
    }

    /// The index of the attempt under way (0 for the first).
    pub closed spec fn attempt_spec(&self) -> nat {
        self.attempt as nat
    }

    /// Whether the call has ended.
    pub closed spec fn finished_spec(&self) -> bool {
        self.finished
    }

    pub open spec fn wf(&self) -> bool {
        self.attempt_spec() <= self.policy().max_retries
    }

    /// A call about to make its first attempt.
    pub fn new(policy: RetryPolicy) -> (d: RetryDriver)
        ensures
            d.wf(),
            d.policy() == policy,
            d.attempt_spec() == 0,
            !d.finished_spec(),
    {
        RetryDriver { policy, attempt: 0, finished: false }
    }

    /// The index of the attempt under way.
    pub fn attempt(&self) -> (r: u32)
        ensures
            r == self.attempt_spec(),
    {
        self.attempt
    }

    /// Whether the call has ended.
    pub fn is_finished(&self) -> (r: bool)
        ensures
            r == self.finished_spec(),
    {
        self.finished
    }

    /// Records how the attempt under way ended and says what follows: the call ends on a
    /// success or when no retry is left, and otherwise moves to the next attempt.
    pub fn record<T>(&mut self, outcome: Result<T, AttemptError>) -> (r: RetryStep<T>)
        requires
            old(self).wf(),
            !old(self).finished_spec(),
        ensures
            final(self).wf(),
            final(self).policy() == old(self).policy(),
            r == step_spec(old(self).policy(), old(self).attempt_spec(), outcome),
            match r {
                RetryStep::RetryAfter(_) => final(self).attempt_spec() == old(self).attempt_spec() + 1
                    && !final(self).finished_spec(),
                _ => final(self).attempt_spec() == old(self).attempt_spec() && final(self).finished_spec(),
            },
    {
        let r = self.policy.next_step(self.attempt, outcome);
        match r {
            RetryStep::RetryAfter(_) => {
                self.attempt = self.attempt + 1;
            },
            _ => {
                self.finished = true;
            },
        }
        r
    }
}

} // verus!
