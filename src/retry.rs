//! Bounded exponential backoff for transient fetch failures: the delay
//! doubles after each consecutive failure until the retries run out.

use vstd::prelude::*;

verus! {

/// Consecutive failed fetches tolerated before the scan fails.
pub const MAX_FETCH_RETRIES: u32 = 6;

/// The wait after the first failure, in milliseconds.
pub const BASE_DELAY_MS: u64 = 100;

/// The wait, in milliseconds, after `failures` earlier consecutive failures.
pub open spec fn backoff_delay(failures: nat) -> nat
    decreases failures,
{
    if failures == 0 {
        BASE_DELAY_MS as nat
    } else {
        2 * backoff_delay((failures - 1) as nat)
    }
}

/// What to do after a failed fetch.
#[derive(Clone, Copy, Debug, PartialEq, Eq, Structural)]
pub enum FetchAction {
    /// Wait this many milliseconds, then fetch again.
    Wait(u64),
    /// Give up: the failure is not transient.
    Fail,
}

/// The count of consecutive failed fetches.
#[derive(Clone, Copy, Debug, PartialEq, Eq, Structural)]
pub struct Backoff {
    pub failures: u32,
}

impl Backoff {
    pub fn new() -> (b: Backoff)
        ensures
            b.failures == 0,
    {
        Backoff { failures: 0 }
    }

    /// A fetch succeeded: the count starts over.
    pub fn on_success(&mut self)
        ensures
            final(self).failures == 0,
    {
        self.failures = 0;
    }

    /// A fetch failed: wait `backoff_delay(failures)` while failures so far
    /// are under the limit, else fail.
    pub fn on_failure(&mut self) -> (a: FetchAction)
        requires
            old(self).failures <= MAX_FETCH_RETRIES,
        ensures
            old(self).failures < MAX_FETCH_RETRIES ==> a == FetchAction::Wait(
                backoff_delay(old(self).failures as nat) as u64,
            ) && final(self).failures == old(self).failures + 1,
            old(self).failures == MAX_FETCH_RETRIES ==> a == FetchAction::Fail
                && final(self).failures == old(self).failures,
    {
        if self.failures >= MAX_FETCH_RETRIES {
            return FetchAction::Fail;
        }
        let mut delay: u64 = BASE_DELAY_MS;
        let mut i: u32 = 0;
        while i < self.failures
            invariant
                i <= self.failures < MAX_FETCH_RETRIES,
                delay == backoff_delay(i as nat),
                delay <= BASE_DELAY_MS * 32,
            decreases self.failures - i,
        {
            proof {
                lemma_backoff_bound(i as nat + 1);
            }
            delay = delay * 2;
            i = i + 1;
        }
        self.failures = self.failures + 1;
        FetchAction::Wait(delay)
    }
}

proof fn lemma_backoff_bound(n: nat)
    requires
        n <= 5,
    ensures
        backoff_delay(n) <= BASE_DELAY_MS * 32,
{
    reveal_with_fuel(backoff_delay, 6);
    if n == 0 {
    } else if n == 1 {
    } else if n == 2 {
    } else if n == 3 {
    } else if n == 4 {
    } else {
        assert(n == 5);
    }
}

} // verus!
