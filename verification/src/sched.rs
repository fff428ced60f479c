//! The counting-semaphore discipline that bounds how many tasks run at
//! once.
//!
//! The real scheduler hands each worker a permit before it measures or
//! cleans, and takes it back afterwards.  This module carries the permit
//! book-keeping: a semaphore of capacity `n` grants a permit only while
//! fewer than `n` are out, so at no instant do more than `n` tasks hold
//! one — whatever order the acquire and release steps arrive in.

use vstd::prelude::*;

verus! {

/// A counting semaphore: `capacity` permits in all, `held` of them out.
pub struct Semaphore {
    pub capacity: usize,
    pub held: usize,
}

/// The semaphore's invariant: never more permits out than exist.
pub open spec fn sem_inv(s: Semaphore) -> bool {
    s.held <= s.capacity
}

impl Semaphore {
    /// A fresh semaphore with `capacity` permits, none of them out.
    pub fn new(capacity: usize) -> (r: Semaphore)
        requires
            capacity >= 1,
        ensures
            sem_inv(r),
            r.capacity == capacity,
            r.held == 0,
    {
        Semaphore { capacity, held: 0 }
    }

    /// Grants a permit when one is free; never lets more than `capacity`
    /// permits out.
    pub fn try_acquire(&mut self) -> (granted: bool)
        requires
            sem_inv(*old(self)),
        ensures
            sem_inv(*final(self)),
            final(self).capacity == old(self).capacity,
            granted == (old(self).held < old(self).capacity),
            final(self).held == if granted {
                old(self).held + 1
            } else {
                old(self).held as int
            },
    {
        if self.held < self.capacity {
            self.held = self.held + 1;
            true
        } else {
            false
        }
    }

    /// Takes a permit back.
    pub fn release(&mut self)
        requires
            sem_inv(*old(self)),
            old(self).held > 0,
        ensures
            sem_inv(*final(self)),
            final(self).capacity == old(self).capacity,
            final(self).held == old(self).held - 1,
    {
        self.held = self.held - 1;
    }
}

/// The permits out after the first `j` steps of a schedule: a `true` step
/// is a worker asking for a permit (granted only under the capacity), a
/// `false` step is a worker returning one (ignored when none is out).
pub open spec fn sem_held(events: Seq<bool>, cap: nat, j: int) -> nat
    decreases j,
{
    if j <= 0 || events.len() < j {
        0
    } else {
        let h = sem_held(events, cap, j - 1);
        if events[j - 1] {
            if h < cap {
                (h + 1) as nat
            } else {
                h
            }
        } else {
            if h > 0 {
                (h - 1) as nat
            } else {
                h
            }
        }
    }
}

/// The concurrency bound: under any schedule of acquire and release steps,
/// at no point are more than `cap` permits out.
pub proof fn lemma_concurrency_bound(events: Seq<bool>, cap: nat, j: int)
    ensures
        sem_held(events, cap, j) <= cap,
    decreases j,
{
    if j > 0 && events.len() >= j {
        lemma_concurrency_bound(events, cap, j - 1);
    }
}

} // verus!
