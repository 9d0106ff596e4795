//! A minimal cooperative executor: a FIFO-spawned queue of tasks, run by
//! polling the most recently queued task with a no-op waker until it
//! completes, then moving on, until the queue is empty.

use vstd::prelude::*;

use std::collections::VecDeque;

use super::Task;

verus! {

/// The executor's state: the queue of tasks still to complete.
pub struct SimpleExecutor {
    pub task_queue: VecDeque<Task>,
}

impl SimpleExecutor {
    /// An executor with no tasks.
    pub fn new() -> (r: SimpleExecutor)
        ensures
            r.task_queue@.len() == 0,
    {
        SimpleExecutor { task_queue: VecDeque::new() }
    }

    /// Queue a task behind the ones already waiting.
    pub fn spawn(&mut self, task: Task)
        ensures
            final(self).task_queue@ == old(self).task_queue@.push(task),
    {
        self.task_queue.push_back(task)
    }

    /// The number of tasks still queued.
    pub fn task_count(&self) -> (r: usize)
        ensures
            r == self.task_queue@.len(),
    {
        self.task_queue.len()
    }

    /// One scheduling step: take the task at the back of the queue, poll it
    /// once, and requeue it if it reports pending. Returns `None` when there
    /// was no task to poll, else whether the polled task completed; the
    /// tasks in front of it are untouched. Driving this step until it
    /// returns `None` runs every queued task to completion — a loop that may
    /// never end if some task never completes, so the caller owns it.
    pub fn run_step(&mut self) -> (r: Option<bool>)
        ensures
            r is Some <==> old(self).task_queue@.len() > 0,
            r is None ==> final(self).task_queue@ == old(self).task_queue@,
            r == Some(true) ==> final(self).task_queue@ == old(self).task_queue@.drop_last(),
            r == Some(false) ==> final(self).task_queue@.len() == old(self).task_queue@.len()
                && final(self).task_queue@.subrange(
                0,
                old(self).task_queue@.len() - 1,
            ) == old(self).task_queue@.drop_last(),
    {
        match self.task_queue.pop_back() {
            Some(mut task) => {
                let done = task.poll();
                if !done {
                    self.task_queue.push_back(task);
                }
                proof {
                    assert(self.task_queue@.subrange(0, old(self).task_queue@.len() - 1)
                        =~= old(self).task_queue@.drop_last());
                }
                Some(done)
            },
            None => None,
        }
    }
}

} // verus!
