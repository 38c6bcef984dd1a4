//! The rendezvous object between a submitter and a worker: a job handle
//! carries the input in, and the result and a completion signal back.
//!
//! The slots live behind their own mutex each, with one condition
//! variable for the result; their contents are shared between threads,
//! so the contracts here say only what sequential reasoning can: the
//! submitter's `get` blocks until a worker publishes, the worker's
//! `claim` takes the input at most once.

use vstd::prelude::*;
use std::sync::{Condvar, Mutex};
use std::sync::Arc;
use crate::sync::{condvar_new, condvar_notify_all, guard_read, guard_take, guard_write, mutex_lock, mutex_new, slot_wait_take};

verus! {

/// Where a job stands: waiting in the queue, running on a worker, or
/// completed with its result published.
#[derive(Debug, PartialEq, Eq, Structural, Clone, Copy)]
pub enum Status {
    Queued,
    Running,
    Completed,
}

/// The shared core of a handle: the input slot, the status, the result
/// slot, and the condition variable that signals completion.
#[verifier::reject_recursive_types(X)]
#[verifier::reject_recursive_types(Y)]
pub struct HandleInner<X, Y> {
    pub x: Mutex<Option<X>>,
    pub status: Mutex<Status>,
    pub result: Mutex<Option<Y>>,
    pub available: Condvar,
}

/// A handle returned when the system takes a job: the submitter's end of
/// the rendezvous.
#[verifier::reject_recursive_types(X)]
#[verifier::reject_recursive_types(Y)]
pub struct JobHandle<X, Y> {
    pub handle_inner: Arc<HandleInner<X, Y>>,
}

impl<X, Y> JobHandle<X, Y> {
    /// A fresh handle in the Queued state, with the input in its slot
    /// and the result slot empty.
    pub fn new(x: X) -> JobHandle<X, Y> {
        JobHandle {
            handle_inner: Arc::new(
                HandleInner {
                    x: mutex_new(Some(x)),
                    status: mutex_new(Status::Queued),
                    result: mutex_new(None),
                    available: condvar_new(),
                },
            ),
        }
    }

    /// Consumes the handle and blocks until the result is published,
    /// then returns it. Legal from one thread, once: the value is taken
    /// out of the slot.
    pub fn get(self) -> Y {
        slot_wait_take(&self.handle_inner.result, &self.handle_inner.available)
    }

    /// A non-blocking snapshot of the status. Status writes happen under
    /// a different lock than the dispatch itself, so a fresh snapshot may
    /// still read Queued right after a worker picks the job up.
    pub fn get_status(&self) -> Status {
        let g = mutex_lock(&self.handle_inner.status);
        guard_read(&g)
    }
}

/// The worker's first half of processing a handle: takes the input out,
/// exactly once over all workers — a duplicate delivery finds the slot
/// empty and takes nothing — and marks the job Running when it did take.
pub fn claim<X, Y>(inner: &HandleInner<X, Y>) -> Option<X> {
    let x = {
        let mut g = mutex_lock(&inner.x);
        guard_take(&mut g)
    };
    if x.is_some() {
        let mut g = mutex_lock(&inner.status);
        guard_write(&mut g, Status::Running);
    }
    x
}

/// The worker's second half: publishes the result, marks the job
/// Completed, and wakes every waiter on the handle.
pub fn complete<X, Y>(inner: &HandleInner<X, Y>, y: Y) {
    {
        let mut g = mutex_lock(&inner.result);
        guard_write(&mut g, Some(y));
    }
    {
        let mut g = mutex_lock(&inner.status);
        guard_write(&mut g, Status::Completed);
    }
    condvar_notify_all(&inner.available);
}

} // verus!
