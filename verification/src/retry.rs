//! The bounded-retry discipline of a resilient file handle.
//!
//! A handle owns a retry counter and a configured maximum. The counter
//! is bumped on every attempted operation and on every failed reopen,
//! and cleared only by a successful read or write, so the budget is
//! cumulative across the handle's lifetime until a success intervenes.
//! The driver that owns the real file descriptor performs the I/O and
//! consults this state machine for every decision: whether a failed
//! reopen may be retried or the underlying error must be surfaced.

use vstd::prelude::*;

verus! {

/// Wrapper carrying an underlying error out to the caller once the
/// retry budget is exhausted.
pub struct IoError<T> {
    inner: T,
}

impl<T> IoError<T> {
    /// The wrapped error.
    pub closed spec fn spec_inner(&self) -> &T {
        &self.inner
    }

    pub fn new(inner: T) -> (r: Self)
        ensures
            *r.spec_inner() == inner,
    {
        IoError { inner }
    }

    /// Hands the underlying error back.
    pub fn into_inner(self) -> (r: T)
        ensures
            r == *self.spec_inner(),
    {
        self.inner
    }
}

/// The retry counter and bound of one resilient handle.
#[derive(Clone, Copy)]
pub struct RetryState {
    pub retry_count: u8,
    pub retry_max: u8,
}

/// The counter after one more consumed attempt; it saturates rather
/// than wrap, which can only matter once the budget is long spent.
pub open spec fn sat_inc(c: u8) -> u8 {
    if c < 255 {
        (c + 1) as u8
    } else {
        255u8
    }
}

impl RetryState {
    /// The state after a failed reopen attempt.
    pub open spec fn spec_fail(self) -> RetryState {
        RetryState { retry_count: sat_inc(self.retry_count), retry_max: self.retry_max }
    }

    /// Whether a failed reopen attempt in this state exhausts the
    /// budget: the counter, once bumped, would exceed the maximum.
    pub open spec fn spec_gives_up(self) -> bool {
        self.retry_count >= self.retry_max
    }

    /// The state after a successful operation: the counter is cleared.
    pub open spec fn spec_clear(self) -> RetryState {
        RetryState { retry_count: 0, retry_max: self.retry_max }
    }

    /// A fresh handle state: no attempts consumed yet.
    pub fn new(retry_max: u8) -> (r: Self)
        ensures
            r.retry_count == 0,
            r.retry_max == retry_max,
    {
        RetryState { retry_count: 0, retry_max }
    }

    /// Consumes one attempt at the start of a read or write try.
    pub fn begin_attempt(&mut self)
        ensures
            *final(self) == old(self).spec_fail(),
    {
        if self.retry_count < 255 {
            self.retry_count = self.retry_count + 1;
        }
    }

    /// Records one failed reopen. Returns true exactly when the budget
    /// is exhausted and the underlying error must be surfaced to the
    /// caller instead of another retry.
    pub fn reopen_failed(&mut self) -> (give_up: bool)
        ensures
            give_up == old(self).spec_gives_up(),
            *final(self) == old(self).spec_fail(),
    {
        let give_up = self.retry_count >= self.retry_max;
        if self.retry_count < 255 {
            self.retry_count = self.retry_count + 1;
        }
        give_up
    }

    /// Records a successful read or write: the counter resets, so the
    /// full budget is available to future failures.
    pub fn operation_succeeded(&mut self)
        ensures
            *final(self) == old(self).spec_clear(),
    {
        self.retry_count = 0;
    }
}

/// The state after `k` consecutive failed reopen attempts.
pub open spec fn after_failures(s: RetryState, k: nat) -> RetryState
    decreases k,
{
    if k == 0 {
        s
    } else {
        after_failures(s, (k - 1) as nat).spec_fail()
    }
}

proof fn lemma_after_failures_count(s: RetryState, k: nat)
    ensures
        after_failures(s, k).retry_max == s.retry_max,
        after_failures(s, k).retry_count == if s.retry_count + k < 255 {
            s.retry_count + k
        } else {
            255int
        },
    decreases k,
{
    if k > 0 {
        lemma_after_failures_count(s, (k - 1) as nat);
    }
}

/// A handle with a fresh counter tolerates its configured number of
/// consecutive reopen failures: none of the first `max` failures gives
/// up, and the success that follows clears the counter entirely, so the
/// caller never sees an error (the handle recovers transparently).
pub proof fn lemma_retry_recovers(s: RetryState, k: nat)
    requires
        s.retry_count == 0,
        k <= s.retry_max,
    ensures
        forall|m: nat| m < k ==> !(#[trigger] after_failures(s, m)).spec_gives_up(),
        after_failures(s, k).spec_clear().retry_count == 0,
        after_failures(s, k).spec_clear().retry_max == s.retry_max,
{
    assert forall|m: nat| m < k implies !(#[trigger] after_failures(s, m)).spec_gives_up() by {
        lemma_after_failures_count(s, m);
    }
    lemma_after_failures_count(s, k);
}

/// Once the budget is spent, the handle stops retrying: after `max` (or
/// more) consecutive reopen failures, the next failure gives up and the
/// underlying error is surfaced rather than retried indefinitely.
pub proof fn lemma_retry_exhausts(s: RetryState, k: nat)
    requires
        s.retry_count == 0,
        k >= s.retry_max,
    ensures
        after_failures(s, k).spec_gives_up(),
{
    lemma_after_failures_count(s, k);
}

} // verus!
