//! The retry policy for requests to the platforms: transient failures and
//! rate limits are retried up to a fixed number of times, transient ones
//! with exponential backoff and rate limits after the wait the platform asks
//! for; other failures are given up at once.

use vstd::prelude::*;

verus! {

/// How many times a transient failure is retried.
pub const RETRIES: usize = 5;

/// The wait before the first retry, in milliseconds.
pub const INITIAL_BACKOFF_MS: u64 = 500;

/// What became of one attempt of a request.
#[derive(Clone, Copy, Debug, PartialEq, Eq, Structural)]
pub enum Attempt {
    /// The request succeeded.
    Succeeded,
    /// The platform asked to wait this many milliseconds before trying again.
    RateLimited(u64),
    /// A failure that may pass: a network error, a gateway hiccup.
    Transient,
    /// A failure that retrying will not mend: a rejected request.
    Permanent,
}

/// What to do after an attempt.
#[derive(Clone, Copy, Debug, PartialEq, Eq, Structural)]
pub enum Decision {
    /// Hand the result to the caller.
    Done,
    /// Wait this many milliseconds, then try again.
    RetryAfter(u64),
    /// Stop and report the failure.
    GiveUp,
}

/// Where a request stands in its retries.
#[derive(Clone, Copy, Debug, PartialEq, Eq, Structural)]
pub struct RetryState {
    pub retries_left: usize,
    pub backoff_ms: u64,
}

pub open spec fn pow2(n: nat) -> nat
    decreases n,
{
    if n == 0 {
        1
    } else {
        2 * pow2((n - 1) as nat)
    }
}

impl RetryState {
    /// The backoff doubles with each retry spent.
    pub open spec fn wf(&self) -> bool {
        &&& self.retries_left <= RETRIES
        &&& self.backoff_ms == INITIAL_BACKOFF_MS * pow2((RETRIES - self.retries_left) as nat)
    }

    /// The state after one more retry: one fewer left, the backoff doubled.
    pub open spec fn spent(self) -> RetryState {
        RetryState { retries_left: (self.retries_left - 1) as usize, backoff_ms: (2 * self.backoff_ms) as u64 }
    }

    fn spend(self) -> (r: RetryState)
        requires
            self.wf(),
            self.retries_left > 0,
        ensures
            r == self.spent(),
            r.wf(),
    {
        let ghost spent = (RETRIES - self.retries_left) as nat;
        assert(pow2(spent + 1) == 2 * pow2(spent));
        assert(self.backoff_ms * 2 <= 500 * 32) by {
            assert(spent <= 4);
            assert(pow2(spent) <= 16) by {
                reveal_with_fuel(pow2, 5);
            }
        }
        let next = RetryState { retries_left: self.retries_left - 1, backoff_ms: self.backoff_ms * 2 };
        assert(next.wf()) by {
            assert((RETRIES - next.retries_left) as nat == spent + 1);
        }
        next
    }

    /// The state of a request not yet attempted.
    pub fn new() -> (r: RetryState)
        ensures
            r.wf(),
            r.retries_left == RETRIES,
            r.backoff_ms == INITIAL_BACKOFF_MS,
    {
        RetryState { retries_left: RETRIES, backoff_ms: INITIAL_BACKOFF_MS }
    }

    /// Decides what follows `attempt`, and the state for the next attempt.
    pub fn next(self, attempt: Attempt) -> (r: (RetryState, Decision))
        requires
            self.wf(),
        ensures
            r.0.wf(),
            match attempt {
                Attempt::Succeeded => r == (self, Decision::Done),
                Attempt::RateLimited(ms) => if self.retries_left == 0 {
                    r == (self, Decision::GiveUp)
                } else {
                    r == (self.spent(), Decision::RetryAfter(ms))
                },
                Attempt::Permanent => r == (self, Decision::GiveUp),
                Attempt::Transient => if self.retries_left == 0 {
                    r == (self, Decision::GiveUp)
                } else {
                    r == (self.spent(), Decision::RetryAfter(self.backoff_ms))
                },
            },
    {
        match attempt {
            Attempt::Succeeded => (self, Decision::Done),
            Attempt::Permanent => (self, Decision::GiveUp),
            Attempt::RateLimited(ms) => {
                if self.retries_left == 0 {
                    (self, Decision::GiveUp)
                } else {
                    (self.spend(), Decision::RetryAfter(ms))
                }
            },
            Attempt::Transient => {
                if self.retries_left == 0 {
                    (self, Decision::GiveUp)
                } else {
                    (self.spend(), Decision::RetryAfter(self.backoff_ms))
                }
            },
        }
    }
}

} // verus!
