//! The synchronization primitives the queue and the handles are built
//! on: std's mutex and condition variable, declared for the verifier and
//! reached through small trusted wrappers.
//!
//! What a lock guards is shared between threads, so nothing sequential
//! can be promised of its contents: the wrappers carry no contracts, and
//! everything decided from a value read under a lock is decided by
//! verified code that takes the value as an argument.

use vstd::prelude::*;
use std::collections::VecDeque;
use std::sync::{Condvar, Mutex, MutexGuard};

verus! {

#[verifier::external_type_specification]
#[verifier::external_body]
#[verifier::reject_recursive_types(T)]
pub struct ExMutex<T: ?Sized>(Mutex<T>);

#[verifier::external_type_specification]
#[verifier::external_body]
#[verifier::reject_recursive_types(T)]
pub struct ExMutexGuard<'a, T: ?Sized + 'a>(MutexGuard<'a, T>);

#[verifier::external_type_specification]
#[verifier::external_body]
pub struct ExCondvar(Condvar);

/// Relies on Mutex::new.
#[verifier::external_body]
pub(crate) fn mutex_new<T>(t: T) -> Mutex<T> {
    Mutex::new(t)
}

/// Relies on Mutex::lock: blocks until the lock is held. The lock is
/// never poisoned here: no verified holder panics.
#[verifier::external_body]
pub(crate) fn mutex_lock<'a, T>(m: &'a Mutex<T>) -> MutexGuard<'a, T> {
    m.lock().unwrap()
}

/// Relies on Condvar::new.
#[verifier::external_body]
pub(crate) fn condvar_new() -> Condvar {
    Condvar::new()
}

/// Relies on Condvar::notify_one: wakes one waiter, if any.
#[verifier::external_body]
pub(crate) fn condvar_notify_one(cv: &Condvar) {
    cv.notify_one();
}

/// Relies on Condvar::notify_all: wakes every waiter.
#[verifier::external_body]
pub(crate) fn condvar_notify_all(cv: &Condvar) {
    cv.notify_all();
}

/// Relies on Option::take through the guard: takes the guarded value
/// out, leaving nothing.
#[verifier::external_body]
pub(crate) fn guard_take<T>(g: &mut MutexGuard<Option<T>>) -> Option<T> {
    g.take()
}

/// Writes the guarded value through the guard.
#[verifier::external_body]
pub(crate) fn guard_write<T>(g: &mut MutexGuard<T>, v: T) {
    **g = v;
}

/// Reads a copy of the guarded value through the guard.
#[verifier::external_body]
pub(crate) fn guard_read<T: Copy>(g: &MutexGuard<T>) -> T {
    **g
}

/// Relies on VecDeque::push_back through the guard: appends at the tail.
#[verifier::external_body]
pub(crate) fn guard_push_back<T>(g: &mut MutexGuard<VecDeque<T>>, v: T) {
    g.push_back(v);
}

/// Relies on Mutex::lock, Condvar::wait and VecDeque::pop_front: blocks
/// until the guarded queue is non-empty and takes its head. The loop is
/// the usual condition-variable wait, tolerant of spurious wakeups; it
/// has no termination bound — the wait ends only when an element
/// arrives — so it stands inside this trusted item.
#[verifier::external_body]
pub(crate) fn queue_wait_pop<T>(m: &Mutex<VecDeque<T>>, cv: &Condvar) -> T {
    let mut q = m.lock().unwrap();
    loop {
        if let Some(v) = q.pop_front() {
            return v;
        }
        q = cv.wait(q).unwrap();
    }
}

/// Relies on Mutex::lock, Condvar::wait and Option::take: blocks until
/// the guarded slot holds a value and takes it. The loop is the usual
/// condition-variable wait, tolerant of spurious wakeups; it has no
/// termination bound — the wait ends only when the value is published —
/// so it stands inside this trusted item.
#[verifier::external_body]
pub(crate) fn slot_wait_take<T>(m: &Mutex<Option<T>>, cv: &Condvar) -> T {
    let mut g = m.lock().unwrap();
    loop {
        if let Some(v) = g.take() {
            return v;
        }
        g = cv.wait(g).unwrap();
    }
}

} // verus!
