//! Tasks: a computation together with the executor's notes about it.

use vstd::prelude::*;
use crate::work_queue::QueueWaker;

verus! {

/// The identity of a task: a slot of the registry and the generation in which
/// the slot was filled. A slot is reused, a generation is not, so an identity
/// that has been retired never names a later task.
#[derive(Clone, Copy, PartialEq, Eq, Structural, Debug)]
pub struct TaskId {
    pub slot: usize,
    pub generation: u64,
}

/// What a computation is handed when it is polled: the identity of the task
/// being polled, and the waker that schedules that task again.
///
/// A context made by [`PollContext::detached`] stands for code that runs
/// outside of any poll. It names no task, and no wait can be registered
/// through it.
pub struct PollContext {
    pub current: Option<TaskId>,
    pub waker: QueueWaker,
}

impl PollContext {
    /// The context in which the executor polls the task `id`.
    pub fn for_task(id: TaskId, waker: QueueWaker) -> (cx: PollContext)
        ensures
            cx.current == Some(id),
            cx.waker == waker,
    {
        PollContext { current: Some(id), waker }
    }

    /// A context for code that no executor is polling.
    pub fn detached(waker: QueueWaker) -> (cx: PollContext)
        ensures
            cx.current.is_none(),
            cx.waker == waker,
    {
        PollContext { current: None, waker }
    }

    /// The task that is being polled, if any.
    pub fn current_task(&self) -> (id: Option<TaskId>)
        ensures
            id == self.current,
    {
        self.current
    }

    /// The waker that schedules the polled task again.
    pub fn waker(&self) -> (waker: &QueueWaker)
        ensures
            *waker == self.waker,
    {
        &self.waker
    }
}

/// A unit of work that can be suspended: the executor polls it until it
/// reports that it is done.
///
/// A computation that cannot go on registers a wait through the work queue
/// (or wakes itself) before it returns `false`. Nothing is assumed of what
/// `poll` returns.
pub trait Computation: Send {
    /// Runs the computation until it is done (`true`) or has to wait (`false`).
    fn poll(&mut self, cx: &PollContext) -> (ready: bool);
}

/// A task: a computation of some kind `C`, and what the executor notes of it.
pub struct Task<C = Box<dyn Computation>> {
    /// The work itself. It is polled, never copied.
    pub computation: C,
    /// The waker bound to the task. It is set as soon as the identity of the
    /// task is known, before the task is first scheduled.
    pub resume_handle: Option<QueueWaker>,
    /// The raw numbers of the handles that the task has asked to wait on, in
    /// the order of the requests. A number may occur more than once.
    pub awaiting: Vec<u32>,
}

impl<C> Task<C> {
    /// The task that owns `computation`, has no waker yet and waits on nothing.
    pub fn new(computation: C) -> (task: Task<C>)
        ensures
            task.computation == computation,
            task.resume_handle.is_none(),
            task.awaiting@ == Seq::<u32>::empty(),
    {
        Task { computation, resume_handle: None, awaiting: Vec::new() }
    }
}

/// What the executor knows of a task, leaving its computation aside.
pub ghost struct TaskRecord {
    pub resume_handle: Option<QueueWaker>,
    pub awaiting: Seq<u32>,
}

impl<C> View for Task<C> {
    type V = TaskRecord;

    open spec fn view(&self) -> TaskRecord {
        TaskRecord { resume_handle: self.resume_handle, awaiting: self.awaiting@ }
    }
}

impl TaskRecord {
    /// The record of a task that has just been enrolled under `waker`.
    pub open spec fn fresh(waker: QueueWaker) -> TaskRecord {
        TaskRecord { resume_handle: Some(waker), awaiting: Seq::empty() }
    }

    /// The record after one more wait, on the handle with number `raw`.
    pub open spec fn waiting_on(self, raw: u32) -> TaskRecord {
        TaskRecord { resume_handle: self.resume_handle, awaiting: self.awaiting.push(raw) }
    }
}

} // verus!
