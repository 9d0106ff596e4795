//! Cooperative tasks: a task owns a pinned, boxed future with no output,
//! polled by an executor until it completes. The future itself is opaque to
//! the verifier; the queueing discipline around it is verified.

use vstd::prelude::*;

use core::future::Future;
use core::pin::Pin;
use core::task::{Context, Waker};

pub mod simple_executor;

verus! {

/// The pinned, boxed future a task runs. Held opaque: the verifier sees a
/// value that can be stored, moved, and polled, and nothing of its inside.
#[verifier::external_body]
pub struct FutureObj {
    inner: Pin<Box<dyn Future<Output = ()>>>,
}

impl FutureObj {
    /// Relies on `Box::pin`: pins the future on the heap so it can be
    /// polled, and on nothing else.
    #[verifier::external_body]
    fn new<F: Future<Output = ()> + 'static>(future: F) -> (r: FutureObj) {
        FutureObj { inner: Box::pin(future) }
    }

    /// Relies on `core::task::Waker::noop`, `Context::from_waker` and
    /// `Future::poll`: polls the future once with a no-op waker and reports
    /// whether it completed. What it returns depends on the future's own
    /// state, of which nothing is promised.
    #[verifier::external_body]
    fn poll_once(&mut self) -> (r: bool) {
        let waker = Waker::noop();
        let mut context = Context::from_waker(waker);
        self.inner.as_mut().poll(&mut context).is_ready()
    }
}

/// A unit of cooperative work: a future that runs to completion for its
/// effects alone.
pub struct Task {
    future: FutureObj,
}

impl Task {
    /// Wrap a future, which must be able to outlive its spawner, as a task.
    pub fn new<F: Future<Output = ()> + 'static>(future: F) -> (r: Task) {
        Task { future: FutureObj::new(future) }
    }

    /// Poll the task's future once; true means it completed and must not be
    /// polled again.
    pub(crate) fn poll(&mut self) -> (r: bool) {
        self.future.poll_once()
    }
}

} // verus!
