use vstd::prelude::*;

verus! {

/// A cache of key buffers for new vertices, backed by `lifeguard::Pool`.
#[verifier::external_body]
pub struct BufferPool {
    pool: lifeguard::Pool<Vec<char>>,
}

/// Relies on `lifeguard::Pool::with_size`: a pool that starts with `size` empty buffers.
#[verifier::external_body]
fn pool_with_size(size: usize) -> (r: BufferPool) {
    BufferPool { pool: lifeguard::Pool::with_size(size) }
}

impl BufferPool {
    /// Makes a pool that holds `size` buffers to begin with; more are made when it runs out.
    pub fn with_size(size: usize) -> (r: BufferPool) {
        pool_with_size(size)
    }

    /// Relies on `lifeguard::Pool::detached`: a buffer taken out of the pool, or a new one
    /// when the pool is empty. Nothing is promised of what it holds.
    #[verifier::external_body]
    pub(crate) fn take_buffer(&self) -> (r: Vec<char>) {
        self.pool.detached()
    }
}

} // verus!
