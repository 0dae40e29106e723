//! The thread-pool abstraction.
//!
//! A pool runs submitted jobs on a fixed set of worker threads.  Spawning
//! threads and catching worker panics are operating-system work that the
//! unverified shell implements; the shell's pools implement this trait so
//! that the server can be written against it.  The intended contract:
//! `new(size)` creates `size` eager workers and fails when `size` is 0; a
//! submitted job runs on some worker exactly once unless the pool is
//! dropped first; a worker that panics while running a job is replaced,
//! so the pool keeps its size.
use vstd::prelude::*;

use crate::error::Error;

verus! {

/// A fixed-size pool of worker threads.
pub trait ThreadPool: Sized {
    /// Create a pool with `size` worker threads.
    fn new(size: usize) -> Result<Self, Error>;

    /// Submit a job; it runs on some worker thread.
    fn spawn<F>(&self, job: F) where F: FnOnce() + Send + 'static;
}

} // verus!
