//! A counting semaphore guarding units of queued work.
//!
//! The count is an integer that is never negative: it lives inside a
//! verified lock whose invariant admits only non-negative values, so every
//! acquire and release preserves non-negativity by proof, not by
//! convention. Waiting is a bounded retry on the lock — a verified function
//! must terminate, so `acquire` gives up after a generous number of
//! attempts and reports whether it got a unit; a caller that wants to block
//! indefinitely calls it again.

use vstd::prelude::*;
use vstd::rwlock::RwLock;

verus! {

/// How many times one `acquire` call retries before reporting failure.
pub const ACQUIRE_RETRY_LIMIT: u32 = 1000000;

/// A counting semaphore: `new(c)` starts the count at `c >= 0`, `release`
/// increments it and `acquire` waits for it to be positive and decrements.
pub struct Semaphore {
    count: RwLock<i64, spec_fn(i64) -> bool>,
}

impl Semaphore {
    /// The lock admits exactly the non-negative counts.
    pub closed spec fn wf(self) -> bool {
        self.count.pred() == (|v: i64| v >= 0)
    }

    pub fn new(count: i64) -> (s: Semaphore)
        requires
            count >= 0,
        ensures
            s.wf(),
    {
        Semaphore { count: RwLock::new(count, Ghost(|v: i64| v >= 0)) }
    }

    /// Takes one unit: waits for the count to be positive, decrements it and
    /// reports true. Reports false if the count stayed zero for the whole
    /// retry budget; the count is then unchanged by this call.
    pub fn acquire(&self) -> (got: bool)
        requires
            self.wf(),
    {
        let mut tries: u32 = 0;
        while tries < ACQUIRE_RETRY_LIMIT
            invariant
                self.wf(),
            decreases ACQUIRE_RETRY_LIMIT - tries,
        {
            let (v, handle) = self.count.acquire_write();
            assert(v >= 0);
            if v > 0 {
                handle.release_write(v - 1);
                return true;
            }
            handle.release_write(v);
            tries = tries + 1;
        }
        false
    }

    /// Returns one unit: increments the count (which stays representable by
    /// saturating at the type's ceiling) and so wakes one waiting acquirer.
    pub fn release(&self)
        requires
            self.wf(),
    {
        let (v, handle) = self.count.acquire_write();
        assert(v >= 0);
        if v < i64::MAX {
            handle.release_write(v + 1);
        } else {
            handle.release_write(v);
        }
    }
}

} // verus!
