//! The admission controller: a counting pool of permits of fixed capacity.

use vstd::prelude::*;

verus! {

/// A pool of `limit` permits; `outstanding` of them are held by callers.
pub struct PermitPool {
    limit: usize,
    out: usize,
}

impl PermitPool {
    /// The capacity fixed at construction.
    pub closed spec fn limit(&self) -> nat {
        self.limit as nat
    }

    /// How many permits are outside the pool.
    pub closed spec fn outstanding(&self) -> nat {
        self.out as nat
    }

    /// Never more permits outside the pool than its capacity.
    pub open spec fn wf(&self) -> bool {
        self.outstanding() <= self.limit()
    }

    pub fn new(capacity: usize) -> (r: PermitPool)
        ensures
            r.wf(),
            r.limit() == capacity,
            r.outstanding() == 0,
    {
        PermitPool { limit: capacity, out: 0 }
    }

    pub fn capacity(&self) -> (r: usize)
        ensures
            r == self.limit(),
    {
        self.limit
    }

    pub fn in_use(&self) -> (r: usize)
        ensures
            r == self.outstanding(),
    {
        self.out
    }

    /// Hands out one permit when one is free; `false` when all are out.
    pub fn try_acquire(&mut self) -> (r: bool)
        requires
            old(self).wf(),
        ensures
            final(self).wf(),
            r == (old(self).outstanding() < old(self).limit()),
            final(self).limit() == old(self).limit(),
            final(self).outstanding() == old(self).outstanding() + if r { 1nat } else { 0nat },
    {
        if self.out < self.limit {
            self.out = self.out + 1;
            true
        } else {
            false
        }
    }

    /// Takes one permit back into the pool.
    pub fn release(&mut self)
        requires
            old(self).wf(),
            old(self).outstanding() > 0,
        ensures
            final(self).wf(),
            final(self).limit() == old(self).limit(),
            final(self).outstanding() + 1 == old(self).outstanding(),
    {
        self.out = self.out - 1;
    }
}

} // verus!
