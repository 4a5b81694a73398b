//! A spin-wait mutual-exclusion wrapper around a value, built on the
//! `spin` crate: `lock` busy-waits on an atomic flag and hands back a
//! scoped guard; the flag is released when the guard goes out of scope.
//! No fairness is guaranteed, and re-entering `lock` while already
//! holding the guard spins forever.

use vstd::prelude::*;

verus! {

#[verifier::external_type_specification]
#[verifier::external_body]
#[verifier::reject_recursive_types(T)]
pub struct ExSpinMutex<T: ?Sized>(spin::Mutex<T>);

#[verifier::external_type_specification]
#[verifier::external_body]
#[verifier::reject_recursive_types(T)]
pub struct ExSpinMutexGuard<'a, T: ?Sized + 'a>(spin::MutexGuard<'a, T>);

/// A value behind a spin lock.  What the lock protects cannot be
/// observed without taking it, so no contract here speaks of the
/// protected value; callers get their guarantees from the operations
/// they run while holding the guard.
#[verifier::reject_recursive_types(T)]
pub struct SpinMutex<T> {
    inner: spin::Mutex<T>,
}

/// Exclusive access to the protected value for the guard's lifetime;
/// dropping it releases the lock.
#[verifier::reject_recursive_types(T)]
pub struct SpinMutexGuard<'a, T> {
    inner: spin::MutexGuard<'a, T>,
}

impl<T> SpinMutex<T> {
    /// Relies on spin::Mutex::new: wraps the value behind an unlocked
    /// flag.
    #[verifier::external_body]
    pub fn new(item: T) -> SpinMutex<T> {
        SpinMutex { inner: spin::Mutex::new(item) }
    }

    /// Relies on spin::Mutex::lock: busy-waits on the atomic flag until
    /// the lock is acquired, then hands back the guard.  A contended
    /// lock may spin indefinitely.
    #[verifier::external_body]
    pub fn lock(&self) -> SpinMutexGuard<T> {
        SpinMutexGuard { inner: self.inner.lock() }
    }
}

impl<'a, T> SpinMutexGuard<'a, T> {
    /// Relies on spin::MutexGuard's exclusive access (DerefMut) together
    /// with core::mem::replace: swaps the protected value for the given
    /// one and hands the old value out.  Nothing is known of the value
    /// that comes out; callers carry their knowledge in its type.
    #[verifier::external_body]
    pub fn replace(&mut self, value: T) -> T {
        core::mem::replace(&mut *self.inner, value)
    }
}

} // verus!
