//! Exclusive-write / shared-read access to one value.

use vstd::prelude::*;
use vstd::rwlock::{ReadHandle, RwLock, WriteHandle};

verus! {

/// A reader-writer lock around one value.
///
/// A writer takes the value out and must put one back to release the
/// lock; readers borrow it. Put the handle behind a reference-counted
/// pointer to share it between tasks.
#[verifier::reject_recursive_types(T)]
pub struct Shared<T> {
    lock: RwLock<T, spec_fn(T) -> bool>,
}

impl<T> Shared<T> {
    /// The lock this handle wraps.
    pub closed spec fn lock_model(&self) -> RwLock<T, spec_fn(T) -> bool> {
        self.lock
    }

    /// Whether `v` may be stored behind this handle: any value may.
    pub open spec fn inv(&self, v: T) -> bool {
        self.lock_model().inv(v)
    }

    /// A new shared handle over `inner`.
    pub fn new(inner: T) -> (s: Shared<T>)
        ensures
            forall|v: T| s.inv(v),
    {
        let lock = RwLock::new(inner, Ghost(|v: T| true));
        Shared { lock }
    }

    /// Takes the value out under the exclusive write lock. The returned
    /// handle releases the lock when a value is put back through it.
    pub fn write(&self) -> (r: (T, WriteHandle<'_, T, spec_fn(T) -> bool>))
        ensures
            r.1.rwlock() == self.lock_model(),
            self.inv(r.0),
            forall|v: T| r.1.rwlock().inv(v) == self.inv(v),
    {
        self.lock.acquire_write()
    }

    /// Acquires the shared read lock. The returned handle borrows the
    /// value until it is released.
    pub fn read(&self) -> (r: ReadHandle<'_, T, spec_fn(T) -> bool>)
        ensures
            r.rwlock() == self.lock_model(),
            self.inv(r@),
    {
        self.lock.acquire_read()
    }
}

} // verus!
