//! The size of the pool of workers.

use vstd::prelude::*;

verus! {

/// A pool of workers that share one task queue.
pub struct WorkerPool {
    worker_count: usize,
}

impl WorkerPool {
    /// A pool of `worker_count` workers, and at least one.
    pub fn new(worker_count: usize) -> (p: Self)
        ensures
            p.count() == if worker_count >= 1 { worker_count } else { 1 },
    {
        Self { worker_count: if worker_count >= 1 { worker_count } else { 1 } }
    }

    /// The number of workers.
    pub closed spec fn count(&self) -> usize {
        self.worker_count
    }

    /// The number of workers.
    pub fn worker_count(&self) -> (n: usize)
        ensures
            n == self.count(),
            n >= 1,
    {
        proof {
            use_type_invariant(self);
        }
        self.worker_count
    }

    #[verifier::type_invariant]
    spec fn inv(self) -> bool {
        self.worker_count >= 1
    }
}

} // verus!
