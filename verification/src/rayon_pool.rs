//! What this crate takes on trust from rayon.
//!
//! Declaring rayon's pool type directly is refused here because its name
//! coincides with this crate's own `ThreadPool` trait, which the public
//! surface keeps; the pool is held opaquely instead.

use vstd::prelude::*;

verus! {

/// A handle on one of rayon's pools. Opaque: nothing about the pool is
/// reasoned about, only carried.
#[verifier::external_body]
pub struct RayonPoolHandle {
    inner: rayon::ThreadPool,
}

#[verifier::external_type_specification]
#[verifier::external_body]
pub struct ExRayonBuildError(rayon::ThreadPoolBuildError);

/// Relies on rayon's `ThreadPoolBuilder`: `new().num_threads(n).build()`
/// yields a pool of `n` worker threads, or the builder's error. For `n == 0`
/// rayon chooses the count itself, from its environment variable or the
/// number of processors.
#[verifier::external_body]
pub(crate) fn build_rayon_pool(num: usize) -> (r: Result<
    RayonPoolHandle,
    rayon::ThreadPoolBuildError,
>) {
    rayon::ThreadPoolBuilder::new().num_threads(num).build().map(
        |inner| RayonPoolHandle { inner },
    )
}

/// Relies on rayon's `ThreadPool::spawn`: runs the job on the pool's
/// workers, in the implicit global scope.
#[verifier::external_body]
pub(crate) fn spawn_on<F>(pool: &RayonPoolHandle, job: F) where F: FnOnce() + Send + 'static {
    pool.inner.spawn(job)
}

/// Relies on `ThreadPoolBuildError`'s `Display`: the builder's reason, as
/// text.
#[verifier::external_body]
pub(crate) fn rayon_error_string(e: &rayon::ThreadPoolBuildError) -> (r: String) {
    format!("{}", e)
}

} // verus!
