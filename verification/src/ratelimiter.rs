//! Rate limiting of remote requests.
//!
//! Remote I/O is bounded in two ways: at most `MAX_CONCURRENT_REQUESTS`
//! requests may be in flight at once (a counting permit), and a
//! server-imposed backoff deadline delays every new request until it has
//! elapsed. This module holds the decision state; the caller owns the clock
//! and performs the actual sleeping and blocking. `wait` accounts for one
//! permit and says how long to sleep; the permit is handed back with
//! `release` when its holder is done.

use vstd::prelude::*;

verus! {

/// Ceiling on in-flight remote requests.
pub const MAX_CONCURRENT_REQUESTS: u64 = 6;

/// Permit accounting and the server-imposed backoff deadline, in
/// milliseconds of the caller's clock. A deadline of zero means no backoff.
pub struct Ratelimiter {
    ratelimited_until: u64,
    available: u64,
}

impl Ratelimiter {
    /// The backoff deadline, in milliseconds; zero when none is pending.
    pub closed spec fn spec_until(self) -> u64 {
        self.ratelimited_until
    }

    /// Permits not currently held.
    pub closed spec fn spec_available(self) -> u64 {
        self.available
    }

    pub open spec fn wf(self) -> bool {
        self.spec_available() <= MAX_CONCURRENT_REQUESTS
    }

    pub fn new() -> (r: Ratelimiter)
        ensures
            r.spec_until() == 0,
            r.spec_available() == MAX_CONCURRENT_REQUESTS,
            r.wf(),
    {
        Ratelimiter { ratelimited_until: 0, available: MAX_CONCURRENT_REQUESTS }
    }

    pub fn available_permits(&self) -> (r: u64)
        ensures
            r == self.spec_available(),
    {
        self.available
    }

    pub fn ratelimited_until(&self) -> (r: u64)
        ensures
            r == self.spec_until(),
    {
        self.ratelimited_until
    }

    /// Take one permit if any is free. The caller that receives `true` holds
    /// a permit and must hand it back with `release`; on `false` it must
    /// block until another holder releases, then try again.
    pub fn try_acquire(&mut self) -> (r: bool)
        requires
            old(self).wf(),
        ensures
            final(self).wf(),
            r == (old(self).spec_available() > 0),
            final(self).spec_until() == old(self).spec_until(),
            final(self).spec_available() == if old(self).spec_available() > 0 {
                (old(self).spec_available() - 1) as u64
            } else {
                0u64
            },
    {
        if self.available > 0 {
            self.available = self.available - 1;
            true
        } else {
            false
        }
    }

    /// Hand a permit back.
    pub fn release(&mut self)
        requires
            old(self).spec_available() < MAX_CONCURRENT_REQUESTS,
        ensures
            final(self).wf(),
            final(self).spec_until() == old(self).spec_until(),
            final(self).spec_available() == old(self).spec_available() + 1,
    {
        self.available = self.available + 1;
    }

    /// How long the holder of a fresh permit must still sleep before it may
    /// send, judged at `now_ms`: the time left to a pending backoff deadline,
    /// or nothing. The backoff is global: the deadline stands until it has
    /// elapsed, so every waiter inside the window sleeps, and the first one
    /// to find it in the past resets it to zero.
    pub fn wait(&mut self, now_ms: u64) -> (sleep_ms: u64)
        ensures
            final(self).spec_available() == old(self).spec_available(),
            final(self).spec_until() == if old(self).spec_until() > now_ms {
                old(self).spec_until()
            } else {
                0u64
            },
            sleep_ms == if old(self).spec_until() > now_ms {
                (old(self).spec_until() - now_ms) as u64
            } else {
                0u64
            },
    {
        let until = self.ratelimited_until;
        if until > now_ms {
            until - now_ms
        } else {
            if until > 0 {
                self.ratelimited_until = 0;
            }
            0
        }
    }

    /// Record a server-requested backoff: every request from `now_ms` on
    /// waits until `now_ms + for_seconds` (stopping at the top of `u64`),
    /// overwriting any earlier deadline.
    pub fn set_ratelimited_for(&mut self, for_seconds: u64, now_ms: u64)
        ensures
            final(self).spec_available() == old(self).spec_available(),
            final(self).spec_until() as int == if now_ms as int + for_seconds as int * 1000
                <= u64::MAX as int {
                now_ms as int + for_seconds as int * 1000
            } else {
                u64::MAX as int
            },
    {
        let for_ms = if for_seconds <= u64::MAX / 1000 {
            for_seconds * 1000
        } else {
            u64::MAX
        };
        self.ratelimited_until = if now_ms <= u64::MAX - for_ms {
            now_ms + for_ms
        } else {
            u64::MAX
        };
    }
}

} // verus!
