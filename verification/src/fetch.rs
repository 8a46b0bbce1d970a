//! The Fetcher: one raw ranged read against the remote store, retried with
//! exponential backoff on transient failures, failing immediately on
//! permanent ones, giving up after a bounded number of attempts.
//!
//! The store call itself is I/O and lives with the caller; this layer owns
//! every decision around it: whether an attempt's outcome settles the fetch,
//! how long to back off before the next attempt, and what a whole run of
//! attempts returns.

use vstd::prelude::*;
use crate::chunk::{FetchError, StoreError, StoreOutcome};

verus! {

/// Milliseconds of backoff before the second attempt; doubled after each
/// further transient failure.
pub const BACKOFF_BASE_MS: u64 = 100;

/// Upper bound on the backoff delay, in milliseconds.
pub const BACKOFF_CAP_MS: u64 = 10_000;

/// The delay, in milliseconds, to wait after `failures` transient failures
/// before trying again: `BACKOFF_BASE_MS * 2^(failures - 1)`, capped at
/// `BACKOFF_CAP_MS`.
pub open spec fn backoff_of(failures: int) -> int
    decreases failures,
{
    if failures <= 1 {
        BACKOFF_BASE_MS as int
    } else if backoff_of(failures - 1) * 2 >= BACKOFF_CAP_MS {
        BACKOFF_CAP_MS as int
    } else {
        backoff_of(failures - 1) * 2
    }
}

/// What a whole run of attempts returns when the store answers the `k`-th
/// attempt with `outcomes[k]` and at most `budget` attempts are allowed:
/// the data of the first attempt the store answers, a permanent error as
/// soon as one comes, `Exhausted` when `budget` attempts all failed
/// transiently.
pub open spec fn fetch_result(outcomes: Seq<StoreOutcome>, budget: int) -> Result<
    Seq<u8>,
    FetchError,
>
    decreases budget,
{
    if budget <= 0 || outcomes.len() == 0 {
        Err(FetchError::Exhausted)
    } else {
        match outcomes[0] {
            StoreOutcome::Data(d) => Ok(d@),
            StoreOutcome::Failed(StoreError::Auth) => Err(FetchError::Auth),
            StoreOutcome::Failed(StoreError::NotFound) => Err(FetchError::NotFound),
            StoreOutcome::Failed(StoreError::Transient) => fetch_result(
                outcomes.skip(1),
                budget - 1,
            ),
        }
    }
}

/// What the Fetcher decides after one attempt: the fetch is settled, or the
/// caller should wait `delay_ms` and try again.
pub enum FetchStep {
    Done(Result<Vec<u8>, FetchError>),
    RetryAfter { delay_ms: u64 },
}

/// Retry policy of one chunk fetch: how many attempts are allowed and how
/// many have failed transiently so far. Stateless across fetches; one value
/// drives one fetch.
pub struct Fetcher {
    /// Maximum number of attempts per fetch.
    pub budget: u64,
    /// Transient failures seen in the current fetch.
    pub failures: u64,
}

impl Fetcher {
    /// A fetcher that gives a fetch up after `budget` attempts.
    pub fn new(budget: u64) -> (f: Fetcher)
        requires
            budget >= 1,
        ensures
            f.budget == budget,
            f.failures == 0,
    {
        Fetcher { budget, failures: 0 }
    }

    /// The backoff delay after `failures` transient failures.
    pub fn backoff_delay(failures: u64) -> (d: u64)
        requires
            failures >= 1,
        ensures
            d == backoff_of(failures as int),
    {
        let mut k: u64 = 1;
        let mut d: u64 = BACKOFF_BASE_MS;
        while k < failures
            invariant
                1 <= k <= failures,
                d == backoff_of(k as int),
                d <= BACKOFF_CAP_MS,
            decreases failures - k,
        {
            if d * 2 >= BACKOFF_CAP_MS {
                d = BACKOFF_CAP_MS;
            } else {
                d = d * 2;
            }
            k = k + 1;
        }
        d
    }

    /// Digests the outcome of one attempt: data or a permanent error settle
    /// the fetch; a transient failure asks for another attempt after a
    /// backoff delay while the budget lasts, and exhausts the fetch once
    /// `budget` attempts have failed.
    pub fn step(&mut self, outcome: StoreOutcome) -> (r: FetchStep)
        requires
            old(self).failures < old(self).budget,
        ensures
            final(self).budget == old(self).budget,
            match outcome {
                StoreOutcome::Data(d) => r matches FetchStep::Done(Ok(out)) && out@ == d@
                    && final(self).failures == old(self).failures,
                StoreOutcome::Failed(StoreError::Auth) => r == FetchStep::Done(
                    Result::<Vec<u8>, FetchError>::Err(FetchError::Auth),
                ) && final(self).failures == old(self).failures,
                StoreOutcome::Failed(StoreError::NotFound) => r == FetchStep::Done(
                    Result::<Vec<u8>, FetchError>::Err(FetchError::NotFound),
                ) && final(self).failures == old(self).failures,
                StoreOutcome::Failed(StoreError::Transient) => {
                    &&& final(self).failures == old(self).failures + 1
                    &&& if final(self).failures == old(self).budget {
                        r == FetchStep::Done(
                            Result::<Vec<u8>, FetchError>::Err(FetchError::Exhausted),
                        )
                    } else {
                        r == (FetchStep::RetryAfter {
                            delay_ms: backoff_of(final(self).failures as int) as u64,
                        })
                    }
                },
            },
    {
        match outcome {
            StoreOutcome::Data(d) => FetchStep::Done(Ok(d)),
            StoreOutcome::Failed(StoreError::Auth) => FetchStep::Done(Err(FetchError::Auth)),
            StoreOutcome::Failed(StoreError::NotFound) => FetchStep::Done(
                Err(FetchError::NotFound),
            ),
            StoreOutcome::Failed(StoreError::Transient) => {
                self.failures = self.failures + 1;
                if self.failures == self.budget {
                    FetchStep::Done(Err(FetchError::Exhausted))
                } else {
                    FetchStep::RetryAfter { delay_ms: Self::backoff_delay(self.failures) }
                }
            },
        }
    }

    /// A whole fetch against a store whose answer to the `k`-th attempt is
    /// `outcomes[k]`: succeeds with the data of the first answered attempt
    /// if the store answers within the budget, gives up with `Exhausted`
    /// once `budget` attempts failed transiently, and surfaces a permanent
    /// error at once.
    pub fn run(&self, outcomes: &Vec<StoreOutcome>) -> (r: Result<Vec<u8>, FetchError>)
        requires
            self.budget >= 1,
            outcomes@.len() >= self.budget,
        ensures
            match r {
                Ok(d) => fetch_result(outcomes@, self.budget as int) == Ok::<_, FetchError>(d@),
                Err(e) => fetch_result(outcomes@, self.budget as int) == Err::<Seq<u8>, _>(e),
            },
    {
        let budget = self.budget;
        let mut f = Fetcher::new(budget);
        let mut k: u64 = 0;
        let n: usize = outcomes.len();
        proof {
            assert(outcomes@.skip(0) =~= outcomes@);
        }
        loop
            invariant
                budget == self.budget,
                f.budget == budget,
                f.failures == k,
                k < budget,
                n == outcomes@.len(),
                outcomes@.len() >= budget,
                fetch_result(outcomes@, budget as int) == fetch_result(
                    outcomes@.skip(k as int),
                    budget - k,
                ),
            decreases budget - k,
        {
            proof {
                assert(k < n);
                assert(outcomes@.skip(k as int)[0] == outcomes@[k as int]);
            }
            let attempt = match &outcomes[k as usize] {
                StoreOutcome::Data(d) => StoreOutcome::Data(crate::chunk::copy_bytes(d)),
                StoreOutcome::Failed(e) => StoreOutcome::Failed(*e),
            };
            let step = f.step(attempt);
            match step {
                FetchStep::Done(r) => {
                    proof {
                        assert(outcomes@.skip(k as int).skip(1) =~= outcomes@.skip(k + 1));
                        let tail = outcomes@.skip(k as int);
                        assert(fetch_result(tail.skip(1), 0) == Err::<Seq<u8>, _>(
                            FetchError::Exhausted,
                        ));
                        assert(fetch_result(tail, budget - k) == match tail[0] {
                            StoreOutcome::Data(d) => Ok::<_, FetchError>(d@),
                            StoreOutcome::Failed(StoreError::Auth) => Err(FetchError::Auth),
                            StoreOutcome::Failed(StoreError::NotFound) => Err(
                                FetchError::NotFound,
                            ),
                            StoreOutcome::Failed(StoreError::Transient) => fetch_result(
                                tail.skip(1),
                                budget - k - 1,
                            ),
                        });
                    }
                    return r;
                },
                FetchStep::RetryAfter { delay_ms: _ } => {
                    proof {
                        assert(outcomes@.skip(k as int).skip(1) =~= outcomes@.skip(k + 1));
                    }
                    k = k + 1;
                },
            }
        }
    }
}

} // verus!
