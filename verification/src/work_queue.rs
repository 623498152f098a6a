//! The work queue: the one place where producers and the executor meet.

use vstd::prelude::*;
use crate::handle::HandleRef;
use crate::task::Computation;
use crate::task::PollContext;
use crate::task::TaskId;
use spin::Mutex;
use std::collections::VecDeque;
use std::sync::Arc;

verus! {

/// One unit of work for the executor.
///
/// Producers submit `Spawn` and `WaitOnHandle` items, through
/// [`WorkQueue::spawn`] and [`WorkQueue::wait_for`]. `Resume` items come from
/// wakers.
pub enum WorkItem {
    /// Poll the task again.
    Resume(TaskId),
    /// Make a task of the computation and schedule its first poll.
    Spawn(Box<dyn Computation>),
    /// Invoke the waker when the handle is signaled, on behalf of the task.
    WaitOnHandle(HandleRef, QueueWaker, TaskId),
}

/// The misuse of a work queue: a wait was asked for outside of any poll, where
/// there is no task to resume.
#[derive(Clone, Copy, PartialEq, Eq, Structural, Debug)]
pub enum UsageFault {
    OutsidePoll,
}

/// A handle to the FIFO of work items of one executor.
///
/// Clones refer to the same queue, and may be given to other threads. The
/// queue is a `VecDeque` behind a `spin::Mutex`; every operation takes the lock
/// for the length of one push or pop. Because other threads may push at any
/// time, no contract speaks of what the queue holds.
#[verifier::external_body]
pub struct WorkQueue {
    items: Arc<Mutex<VecDeque<WorkItem>>>,
}

impl Clone for WorkQueue {
    /// `Arc::clone`: the copy refers to the same queue as `self`.
    #[verifier::external_body]
    fn clone(&self) -> (copy: Self)
        ensures
            copy == *self,
    {
        WorkQueue { items: Arc::clone(&self.items) }
    }
}

impl WorkQueue {
    /// `spin::Mutex::new` around an empty `VecDeque`: a queue of its own.
    #[verifier::external_body]
    pub(crate) fn new() -> (queue: WorkQueue) {
        WorkQueue { items: Arc::new(Mutex::new(VecDeque::new())) }
    }

    /// `spin::Mutex::lock`, then `VecDeque::push_back`: appends `item` behind
    /// whatever the queue holds at that moment.
    #[verifier::external_body]
    pub(crate) fn push(&self, item: WorkItem) {
        self.items.lock().push_back(item)
    }

    /// `spin::Mutex::lock`, then `VecDeque::pop_front`: takes the oldest item,
    /// if there is one. Which one that is depends on every producer.
    #[verifier::external_body]
    pub(crate) fn pop(&self) -> (item: Option<WorkItem>) {
        self.items.lock().pop_front()
    }

    /// Submits a computation. The executor makes a task of it and polls it at
    /// least once. Nothing is handed back: the caller cannot wait for the task.
    pub fn spawn(&self, computation: Box<dyn Computation>) {
        self.push(WorkItem::Spawn(computation))
    }

    /// Asks the executor to resume the task that is being polled when `handle`
    /// is signaled. To be called from inside a poll, with the context of that
    /// poll.
    pub fn wait_for(&self, handle: HandleRef, cx: &PollContext)
        requires
            cx.current.is_some(),
    {
        self.push(WorkItem::wait_on(handle, cx))
    }

    /// As [`WorkQueue::wait_for`], for a caller that cannot tell whether it is
    /// being polled: outside of a poll nothing is submitted, and the fault is
    /// handed back.
    pub fn try_wait_for(&self, handle: HandleRef, cx: &PollContext) -> (done: Result<
        (),
        UsageFault,
    >)
        ensures
            done.is_ok() == cx.current.is_some(),
            done.is_err() ==> done == Err::<(), UsageFault>(UsageFault::OutsidePoll),
    {
        if cx.current.is_some() {
            self.wait_for(handle, cx);
            Ok(())
        } else {
            Err(UsageFault::OutsidePoll)
        }
    }
}

impl WorkItem {
    /// The item that registers the task polled in `cx` as a waiter of `handle`.
    pub fn wait_on(handle: HandleRef, cx: &PollContext) -> (item: WorkItem)
        requires
            cx.current.is_some(),
        ensures
            item == WorkItem::WaitOnHandle(handle, cx.waker, cx.current.unwrap()),
    {
        WorkItem::WaitOnHandle(handle, cx.waker.clone(), cx.current.unwrap())
    }
}

/// The waker of a task: a queue and the identity of the task. Waking puts a
/// `Resume` item for the task on the queue, and does nothing else.
pub struct QueueWaker {
    pub queue: WorkQueue,
    pub id: TaskId,
}

impl Clone for QueueWaker {
    fn clone(&self) -> (copy: Self)
        ensures
            copy == *self,
    {
        QueueWaker { queue: self.queue.clone(), id: self.id }
    }
}

impl QueueWaker {
    /// The waker that schedules task `id` on `queue`.
    pub fn new(queue: WorkQueue, id: TaskId) -> (waker: QueueWaker)
        ensures
            waker == (QueueWaker { queue, id }),
    {
        QueueWaker { queue, id }
    }

    /// The item that a call of [`QueueWaker::wake`] puts on the queue.
    pub fn resume_item(&self) -> (item: WorkItem)
        ensures
            item == WorkItem::Resume(self.id),
    {
        WorkItem::Resume(self.id)
    }

    /// Schedules the task for another poll. May be called from any thread, and
    /// after the task is gone: the item is then skipped.
    pub fn wake(&self) {
        self.queue.push(self.resume_item())
    }
}

} // verus!
