//! The worker-pool abstraction the surrounding server fans requests through,
//! and the pool that delegates to rayon.
//!
//! Pools built on bare threads need `std::thread` and panic recovery, which
//! this crate cannot hold; those implementations live in the host layer.

use vstd::prelude::*;

use crate::errors::KVStoreError;
use crate::rayon_pool::{build_rayon_pool, rayon_error_string, spawn_on, RayonPoolHandle};

verus! {

/// A pool that runs one-shot jobs on worker threads.
///
/// Implementations spawn their workers up front or per job; a job that
/// panics must not reduce the number of live workers.
pub trait ThreadPool: Sized {
    /// Creates a pool with the given number of threads.
    fn new(threads: usize) -> Result<Self, KVStoreError>;

    /// Hands one job to the pool. Spawning always succeeds.
    fn spawn<F>(&self, job: F) where F: FnOnce() + Send + 'static;
}

/// A pool delegating to rayon's.
pub struct RayonThreadPool {
    pool: RayonPoolHandle,
}

impl ThreadPool for RayonThreadPool {
    fn new(num: usize) -> (r: Result<Self, KVStoreError>) {
        match build_rayon_pool(num) {
            Ok(pool) => Ok(RayonThreadPool { pool }),
            Err(e) => Err(KVStoreError::CommonStringError(rayon_error_string(&e))),
        }
    }

    fn spawn<F>(&self, job: F) where F: FnOnce() + Send + 'static {
        spawn_on(&self.pool, job)
    }
}

} // verus!
