//! The message queue feeding the worker pool: a multi-producer,
//! multi-consumer FIFO with a blocking receive, built on one mutex and
//! one condition variable.
//!
//! Delivery is FIFO across all senders; when several receivers wait, the
//! one woken is unspecified. There is no close operation: a pool shuts
//! down by sending one Join sentinel per worker.

use vstd::prelude::*;
use std::collections::VecDeque;
use std::sync::{Condvar, Mutex};
use std::sync::Arc;
use crate::handle::{HandleInner, JobHandle};
use crate::sync::{condvar_new, condvar_notify_one, guard_push_back, mutex_lock, mutex_new, queue_wait_pop};

verus! {

/// A FIFO shared by senders and receivers.
#[verifier::reject_recursive_types(T)]
pub struct MessageQueue<T> {
    pub queue: Mutex<VecDeque<T>>,
    pub available: Condvar,
}

impl<T> MessageQueue<T> {
    /// A fresh, empty queue behind a shared reference.
    pub fn new() -> Arc<MessageQueue<T>> {
        Arc::new(MessageQueue { queue: mutex_new(VecDeque::new()), available: condvar_new() })
    }

    /// Appends at the tail and wakes one waiter.
    pub fn send(&self, value: T) {
        {
            let mut q = mutex_lock(&self.queue);
            guard_push_back(&mut q, value);
        }
        condvar_notify_one(&self.available);
    }

    /// Blocks until the queue is non-empty and returns the head. When
    /// several receivers wait, the one that gets the element is
    /// unspecified.
    pub fn recv(&self) -> T {
        queue_wait_pop(&self.queue, &self.available)
    }
}

/// What a worker receives: a handle to process, with the name of the
/// registered job to run on its input, or the Join sentinel telling the
/// worker to exit its loop.
#[verifier::reject_recursive_types(X)]
#[verifier::reject_recursive_types(Y)]
pub enum WorkerMessage<X, Y> {
    Handle(Arc<HandleInner<X, Y>>, String),
    Join,
}

/// Submits one job: a fresh handle carrying the input is enqueued with
/// the job's name, and the handle is returned for the submitter to
/// await.
pub fn send_job<X, Y>(
    queue: &MessageQueue<WorkerMessage<X, Y>>,
    x: X,
    job_name: String,
) -> JobHandle<X, Y> {
    let handle = JobHandle::new(x);
    let inner = handle.handle_inner.clone();
    queue.send(WorkerMessage::Handle(inner, job_name));
    handle
}

} // verus!
