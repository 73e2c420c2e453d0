//! Retry, backoff and the safety margin.
//!
//! Transient fetch failures (`TreeUnavailable`) are retried up to a
//! configured maximum attempt count, each attempt waiting twice as long as
//! the one before up to a configured maximum delay; exhaustion surfaces
//! "ledger unavailable".  Structural failures (`TreeMalformed`) are never
//! retried — continuing on inconsistent state would produce undetectable
//! wrong answers.  The surrounding service performs the actual waiting and
//! refetching; these decisions tell it what to do next.

use crate::error::Error;
use vstd::prelude::*;

verus! {

/// The bounded-backoff retry policy: how many attempts a transient failure
/// is worth, the delay before the first retry, and the ceiling no delay
/// ever exceeds.
#[derive(Clone, Copy, Debug, PartialEq, Eq, Structural)]
pub struct RetryPolicy {
    pub max_retries: u64,
    pub base_delay_ms: u64,
    pub max_delay_ms: u64,
}

/// What to do after a failed attempt.
#[derive(Clone, Copy, Debug, PartialEq, Eq, Structural)]
pub enum RetryAction {
    /// Wait this long, then try again.
    Retry { delay_ms: u64 },
    /// Surface the failure: the budget is spent, or the failure is
    /// structural and retrying cannot help.
    GiveUp,
}

/// The delay before retry number `attempt`: the base delay doubled once per
/// earlier attempt, capped at `cap`.
pub open spec fn backoff_delay(base: int, attempt: int, cap: int) -> int
    decreases attempt,
{
    if attempt <= 0 {
        if base <= cap {
            base
        } else {
            cap
        }
    } else {
        let d = backoff_delay(base, attempt - 1, cap);
        if d * 2 <= cap {
            d * 2
        } else {
            cap
        }
    }
}

/// The bounded backoff delay of one attempt under a policy.
fn backoff_ms(policy: &RetryPolicy, attempt: u64) -> (r: u64)
    ensures
        r == backoff_delay(policy.base_delay_ms as int, attempt as int, policy.max_delay_ms as int),
{
    let cap = policy.max_delay_ms;
    let mut d: u64 = if policy.base_delay_ms <= cap {
        policy.base_delay_ms
    } else {
        cap
    };
    let mut k: u64 = 0;
    while k < attempt
        invariant
            k <= attempt,
            d == backoff_delay(policy.base_delay_ms as int, k as int, cap as int),
        decreases attempt - k,
    {
        if d <= cap / 2 {
            d = d * 2;
        } else {
            d = cap;
        }
        k = k + 1;
    }
    d
}

/// Decide what to do after a failed attempt: retry transient failures with
/// bounded backoff while the budget lasts, give up on everything else.
pub fn next_retry(policy: &RetryPolicy, attempt: u64, error: &Error) -> (r: RetryAction)
    ensures
        !(error is TreeUnavailable) ==> r is GiveUp,
        error is TreeUnavailable && attempt >= policy.max_retries ==> r is GiveUp,
        error is TreeUnavailable && attempt < policy.max_retries ==> r == (RetryAction::Retry {
            delay_ms: backoff_delay(
                policy.base_delay_ms as int,
                attempt as int,
                policy.max_delay_ms as int,
            ) as u64,
        }),
{
    if error.is_transient() && attempt < policy.max_retries {
        proof {
            lemma_backoff_delay_bounds(
                policy.base_delay_ms as int,
                attempt as int,
                policy.max_delay_ms as int,
            );
        }
        RetryAction::Retry { delay_ms: backoff_ms(policy, attempt) }
    } else {
        RetryAction::GiveUp
    }
}

/// The backoff delay never leaves the interval fixed by the policy.
pub proof fn lemma_backoff_delay_bounds(base: int, attempt: int, cap: int)
    requires
        0 <= base,
        0 <= cap,
    ensures
        0 <= backoff_delay(base, attempt, cap) <= cap,
    decreases attempt,
{
    if attempt > 0 {
        lemma_backoff_delay_bounds(base, attempt - 1, cap);
    }
}

/// Is a snapshot for `block_number` trusted as final, `safety_margin`
/// confirmations behind the chain head?
pub fn is_final_enough(block_number: u64, head_number: u64, safety_margin: u64) -> (r: bool)
    ensures
        r == (block_number + safety_margin <= head_number),
{
    block_number <= head_number && head_number - block_number >= safety_margin
}

} // verus!
