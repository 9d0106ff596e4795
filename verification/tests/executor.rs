//! Behavioural tests of the task type and the simple executor.

use std::cell::RefCell;
use std::future::Future;
use std::pin::Pin;
use std::rc::Rc;
use std::task::{Context, Poll};

use blog_os::task::simple_executor::SimpleExecutor;
use blog_os::task::Task;

/// A future that appends its tag to a shared log each time it is polled and
/// completes after a given number of polls.
struct LoggingFuture {
    tag: u32,
    polls_left: u32,
    log: Rc<RefCell<Vec<u32>>>,
}

impl Future for LoggingFuture {
    type Output = ();

    fn poll(mut self: Pin<&mut Self>, _cx: &mut Context<'_>) -> Poll<()> {
        self.log.borrow_mut().push(self.tag);
        if self.polls_left <= 1 {
            Poll::Ready(())
        } else {
            self.polls_left -= 1;
            Poll::Pending
        }
    }
}

fn logging_task(tag: u32, polls: u32, log: &Rc<RefCell<Vec<u32>>>) -> Task {
    Task::new(LoggingFuture { tag, polls_left: polls, log: Rc::clone(log) })
}

/// Drive the executor's verified step until the queue is empty, as the
/// surrounding program does.
fn run(ex: &mut SimpleExecutor) {
    while ex.run_step().is_some() {}
}

#[test]
fn executor_starts_empty() {
    let ex = SimpleExecutor::new();
    assert_eq!(ex.task_count(), 0);
}

#[test]
fn spawn_queues_tasks() {
    let log = Rc::new(RefCell::new(Vec::new()));
    let mut ex = SimpleExecutor::new();
    ex.spawn(logging_task(1, 1, &log));
    assert_eq!(ex.task_count(), 1);
    ex.spawn(logging_task(2, 1, &log));
    assert_eq!(ex.task_count(), 2);
    // Spawning alone never polls anything.
    assert_eq!(*log.borrow(), Vec::<u32>::new());
}

#[test]
fn run_completes_every_task() {
    let log = Rc::new(RefCell::new(Vec::new()));
    let mut ex = SimpleExecutor::new();
    ex.spawn(logging_task(1, 1, &log));
    ex.spawn(logging_task(2, 1, &log));
    ex.spawn(logging_task(3, 1, &log));
    run(&mut ex);
    assert_eq!(ex.task_count(), 0);
    // The executor drains from the back of the queue.
    assert_eq!(*log.borrow(), vec![3, 2, 1]);
}

#[test]
fn run_requeues_pending_tasks() {
    let log = Rc::new(RefCell::new(Vec::new()));
    let mut ex = SimpleExecutor::new();
    ex.spawn(logging_task(1, 1, &log));
    ex.spawn(logging_task(2, 3, &log));
    run(&mut ex);
    assert_eq!(ex.task_count(), 0);
    // Task 2 sits at the back: it is polled until it completes (three
    // times), and only then is task 1 taken up.
    assert_eq!(*log.borrow(), vec![2, 2, 2, 1]);
}

#[test]
fn run_on_empty_executor_returns() {
    let mut ex = SimpleExecutor::new();
    run(&mut ex);
    assert_eq!(ex.task_count(), 0);
}

#[test]
fn executor_can_be_refilled() {
    let log = Rc::new(RefCell::new(Vec::new()));
    let mut ex = SimpleExecutor::new();
    ex.spawn(logging_task(1, 2, &log));
    run(&mut ex);
    assert_eq!(*log.borrow(), vec![1, 1]);
    ex.spawn(logging_task(2, 1, &log));
    run(&mut ex);
    assert_eq!(ex.task_count(), 0);
    assert_eq!(*log.borrow(), vec![1, 1, 2]);
}
