//! Submitting a transaction: what to do after each answer of the chain.
//!
//! The caller sends the transaction and reports how that ended; `next_step`
//! says whether to send again, and after how long. A transient failure is
//! retried, the wait doubling from half a second up to eight seconds, five
//! attempts in all; any other failure ends the submission.

use vstd::prelude::*;

verus! {

/// The wait before the second attempt, in milliseconds.
pub const BACKOFF_BASE_MS: u64 = 500;

/// The longest wait, in milliseconds.
pub const BACKOFF_CAP_MS: u64 = 8000;

/// The number of attempts after which a transient failure is final.
pub const MAX_ATTEMPTS: u32 = 5;

/// How the chain failed to take a transaction.
#[derive(Clone, Copy, Debug, PartialEq, Eq, Structural)]
pub enum NetworkError {
    /// The chain could not be reached, or was busy: trying again may help.
    Transient,
    /// The chain refused the transaction by policy or consensus.
    Permanent,
}

/// How an attempt to send ended.
#[derive(Clone, Copy, Debug, PartialEq, Eq, Structural)]
pub enum SendResult {
    Accepted,
    Failed(NetworkError),
    Cancelled,
}

/// What the caller does next.
#[derive(Clone, Copy, Debug, PartialEq, Eq, Structural)]
pub enum NextStep {
    /// Wait this many milliseconds, then send again.
    Retry { wait_ms: u64 },
    /// The chain has the transaction.
    Done,
    /// Give up: the chain refused, or kept failing.
    Failed(NetworkError),
    /// Give up: the caller cancelled.
    Cancelled,
}

/// The wait after the failure of attempt `attempt`, counted from 1:
/// 500 ms doubled with every attempt, 8 s at most.
pub open spec fn backoff_ms(attempt: nat) -> nat
    decreases attempt,
{
    if attempt <= 1 {
        BACKOFF_BASE_MS as nat
    } else if 2 * backoff_ms((attempt - 1) as nat) >= BACKOFF_CAP_MS {
        BACKOFF_CAP_MS as nat
    } else {
        2 * backoff_ms((attempt - 1) as nat)
    }
}

/// What follows the end of attempt `attempt`, counted from 1.
pub open spec fn step_after(attempt: u32, result: SendResult) -> NextStep {
    match result {
        SendResult::Accepted => NextStep::Done,
        SendResult::Cancelled => NextStep::Cancelled,
        SendResult::Failed(NetworkError::Permanent) => NextStep::Failed(NetworkError::Permanent),
        SendResult::Failed(NetworkError::Transient) => if attempt >= MAX_ATTEMPTS {
            NextStep::Failed(NetworkError::Transient)
        } else {
            NextStep::Retry { wait_ms: backoff_ms(attempt as nat) as u64 }
        },
    }
}

/// The wait is never shorter than the base and never longer than the cap.
pub proof fn lemma_backoff_bounds(attempt: nat)
    ensures
        BACKOFF_BASE_MS <= backoff_ms(attempt) <= BACKOFF_CAP_MS,
    decreases attempt,
{
    if attempt > 1 {
        lemma_backoff_bounds((attempt - 1) as nat);
    }
}

/// The wait after the failure of attempt `attempt`.
pub fn backoff(attempt: u32) -> (wait_ms: u64)
    ensures
        wait_ms == backoff_ms(attempt as nat),
{
    if attempt <= 1 {
        return BACKOFF_BASE_MS;
    }
    let mut wait: u64 = BACKOFF_BASE_MS;
    let mut k: u32 = 1;
    while k < attempt
        invariant
            1 <= k <= attempt,
            wait == backoff_ms(k as nat),
            BACKOFF_BASE_MS <= wait <= BACKOFF_CAP_MS,
        decreases attempt - k,
    {
        k += 1;
        if 2 * wait >= BACKOFF_CAP_MS {
            wait = BACKOFF_CAP_MS;
        } else {
            wait = 2 * wait;
        }
    }
    wait
}

/// What to do after attempt `attempt`, counted from 1, ended with `result`.
pub fn next_step(attempt: u32, result: SendResult) -> (step: NextStep)
    ensures
        step == step_after(attempt, result),
{
    match result {
        SendResult::Accepted => NextStep::Done,
        SendResult::Cancelled => NextStep::Cancelled,
        SendResult::Failed(NetworkError::Permanent) => NextStep::Failed(NetworkError::Permanent),
        SendResult::Failed(NetworkError::Transient) => {
            if attempt >= MAX_ATTEMPTS {
                NextStep::Failed(NetworkError::Transient)
            } else {
                NextStep::Retry { wait_ms: backoff(attempt) }
            }
        },
    }
}

} // verus!
