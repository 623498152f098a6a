//! The executor: a registry of tasks, a table of awaited handles, and the
//! steps of the event loop that work on both.

use vstd::prelude::*;
use crate::handle::HandleRef;
use crate::registry::Registry;
use crate::task::Computation;
use crate::task::TaskId;
use crate::task::TaskRecord;
use crate::waitables::Table;
use crate::waitables::Waitables;
use crate::waitables::Waiter;
use crate::work_queue::QueueWaker;
use crate::work_queue::WorkItem;
use crate::work_queue::WorkQueue;

verus! {

/// The waker of a waiter.
pub open spec fn waker_of() -> spec_fn(Waiter) -> QueueWaker {
    |waiter: Waiter| waiter.waker
}

/// The state of an executor, as far as its own steps read and change it.
pub ghost struct ManagerState {
    /// What is known of each task in flight.
    pub tasks: Map<TaskId, TaskRecord>,
    /// The generation of the registry.
    pub generation: int,
    /// The awaited handles and their waiters.
    pub table: Table,
    /// The wakers that the executor has invoked so far, oldest first. Each
    /// call puts a `Resume` item for the task of the waker on its queue.
    pub woken: Seq<QueueWaker>,
}

impl ManagerState {
    /// Every waiter in the table is a task in flight, and the task has the
    /// handle among its waits: no wait outlives its task.
    pub open spec fn coherent(self) -> bool {
        forall|handle: HandleRef, waiter: Waiter| #[trigger]
            self.table.holds(handle, waiter) ==> self.tasks.contains_key(waiter.id)
                && self.tasks[waiter.id].awaiting.contains(handle.raw)
    }

    /// No task in flight is newer than the current generation.
    pub open spec fn bounded(self) -> bool {
        forall|id: TaskId| #[trigger] self.tasks.contains_key(id) ==> id.generation <= self.generation
    }

    /// The table is in order and coherent with the tasks, and no task is newer
    /// than the current generation.
    pub open spec fn wf(self) -> bool {
        self.table.wf() && self.coherent() && self.bounded()
    }

    /// The identity `id` names no task in flight and belongs to a generation
    /// that is over.
    pub open spec fn retired(self, id: TaskId) -> bool {
        !self.tasks.contains_key(id) && id.generation < self.generation
    }

    /// The state after a computation has become task `id`, with the waker
    /// that schedules it on `queue`: the task waits on nothing, and its waker
    /// has been invoked once, for the first poll.
    pub open spec fn spawned(self, id: TaskId, queue: WorkQueue) -> ManagerState {
        ManagerState {
            tasks: self.tasks.insert(id, TaskRecord::fresh(QueueWaker { queue, id })),
            generation: self.generation,
            table: self.table,
            woken: self.woken.push(QueueWaker { queue, id }),
        }
    }

    /// The state after a poll of task `id` that reported `ready`. A task that
    /// is done leaves the registry, which closes the generation, and the table
    /// forgets its waits. Anything else leaves the state as it is.
    pub open spec fn settled(self, id: TaskId, ready: bool) -> ManagerState {
        if ready && self.tasks.contains_key(id) {
            ManagerState {
                tasks: self.tasks.remove(id),
                generation: self.generation + 1,
                table: self.table.swept(self.tasks[id].awaiting, id),
                woken: self.woken,
            }
        } else {
            self
        }
    }

    /// The state after task `id` has asked to be resumed through `waker` when
    /// `handle` is signaled. A request for a task that is not in flight
    /// changes nothing.
    pub open spec fn waited(self, handle: HandleRef, waker: QueueWaker, id: TaskId) -> ManagerState {
        if self.tasks.contains_key(id) {
            ManagerState {
                tasks: self.tasks.insert(id, self.tasks[id].waiting_on(handle.raw)),
                generation: self.generation,
                table: self.table.registered(handle, Waiter { id, waker }),
                woken: self.woken,
            }
        } else {
            self
        }
    }

    /// The state after the handle of row `index` has been signaled: the row is
    /// gone, and the wakers of its waiters have been invoked, oldest first.
    pub open spec fn signaled(self, index: int) -> ManagerState {
        ManagerState {
            tasks: self.tasks,
            generation: self.generation,
            table: self.table.without(index),
            woken: self.woken + self.table.entries[index].waiters.map_values(waker_of()),
        }
    }

    /// Handling `item` in this state, on an executor whose queue is `queue`,
    /// can end in `outcome` and the state `after`.
    pub open spec fn dispatched(
        self,
        item: WorkItem,
        queue: WorkQueue,
        outcome: Outcome,
        after: ManagerState,
    ) -> bool {
        match item {
            WorkItem::Spawn(_) => {
                &&& outcome matches Outcome::Spawned(id)
                &&& !self.tasks.contains_key(id)
                &&& id.generation == self.generation
                &&& after == self.spawned(id, queue)
            },
            WorkItem::Resume(id) => {
                if self.tasks.contains_key(id) {
                    ||| outcome == Outcome::Pending(id) && after == self
                    ||| outcome == Outcome::Completed(id) && after == self.settled(id, true)
                } else {
                    outcome == Outcome::Skipped(id) && after == self
                }
            },
            WorkItem::WaitOnHandle(handle, waker, id) => {
                if self.tasks.contains_key(id) {
                    outcome == Outcome::Registered(id) && after == self.waited(handle, waker, id)
                } else {
                    outcome == Outcome::Skipped(id) && after == self
                }
            },
        }
    }

    /// What the executor has to do once its queue is drained.
    pub open spec fn at_rest(self) -> Rest {
        if self.tasks.dom() == Set::<TaskId>::empty() {
            Rest::Finished
        } else if self.table.entries.len() == 0 {
            Rest::Stalled
        } else {
            Rest::Blocked
        }
    }

    /// A new task keeps the state in order.
    pub proof fn lemma_spawned_wf(self, id: TaskId, queue: WorkQueue)
        requires
            self.wf(),
            !self.tasks.contains_key(id),
            id.generation == self.generation,
        ensures
            self.spawned(id, queue).wf(),
    {
        let after = self.spawned(id, queue);
        assert forall|handle: HandleRef, waiter: Waiter| #[trigger]
            after.table.holds(handle, waiter) implies after.tasks.contains_key(waiter.id)
            && after.tasks[waiter.id].awaiting.contains(handle.raw) by {
            assert(self.table.holds(handle, waiter));
        }
    }

    /// A poll that is acted on keeps the state in order.
    pub proof fn lemma_settled_wf(self, id: TaskId, ready: bool)
        requires
            self.wf(),
        ensures
            self.settled(id, ready).wf(),
            ready && self.tasks.contains_key(id) ==> !self.settled(id, ready).table.mentions(id)
                && self.settled(id, ready).retired(id),
    {
        if ready && self.tasks.contains_key(id) {
            let table = self.table;
            let awaiting = self.tasks[id].awaiting;
            let after = table.swept(awaiting, id);
            assert forall|j: int|
                0 <= j < table.entries.len() && (#[trigger] table.entries[j]).mentions(
                    id,
                ) implies awaiting.contains(table.entries[j].handle.raw) by {
                let k = choose|k: int|
                    0 <= k < table.entries[j].waiters.len() && (
                    #[trigger] table.entries[j].waiters[k]).id == id;
                assert(table.holds(table.entries[j].handle, table.entries[j].waiters[k]));
            }
            table.lemma_swept_forgets(awaiting, id);
            table.lemma_swept_rows(awaiting, id);
            assert forall|handle: HandleRef, waiter: Waiter| #[trigger]
                after.holds(handle, waiter) implies self.tasks.remove(id).contains_key(
                waiter.id,
            ) && self.tasks.remove(id)[waiter.id].awaiting.contains(handle.raw) by {
                table.lemma_swept_holds(awaiting, id, handle, waiter);
                let (i, k) = choose|i: int, k: int|
                    0 <= i < after.entries.len() && 0 <= k < after.entries[i].waiters.len()
                        && after.entries[i].handle == handle
                        && #[trigger] after.entries[i].waiters[k] == waiter;
                if waiter.id == id {
                    assert(after.entries[i].mentions(id));
                }
            }
        }
    }

    /// A wait that is registered keeps the state in order.
    pub proof fn lemma_waited_wf(self, handle: HandleRef, waker: QueueWaker, id: TaskId)
        requires
            self.wf(),
        ensures
            self.waited(handle, waker, id).wf(),
    {
        if self.tasks.contains_key(id) {
            let waiter = Waiter { id, waker };
            let after = self.waited(handle, waker, id);
            let raws = self.tasks[id].awaiting;
            self.table.lemma_registered_wf(handle, waiter);
            assert(raws.push(handle.raw)[raws.len() as int] == handle.raw);
            assert forall|h: HandleRef, w: Waiter| #[trigger]
                after.table.holds(h, w) implies after.tasks.contains_key(w.id)
                && after.tasks[w.id].awaiting.contains(h.raw) by {
                self.table.lemma_registered_holds(handle, waiter, h, w);
                if self.table.holds(h, w) {
                    if w.id == id {
                        let k = choose|k: int| 0 <= k < raws.len() && raws[k] == h.raw;
                        assert(raws.push(handle.raw)[k] == h.raw);
                    }
                }
            }
        }
    }

    /// A signal keeps the state in order.
    pub proof fn lemma_signaled_wf(self, index: int)
        requires
            self.wf(),
            0 <= index < self.table.entries.len(),
        ensures
            self.signaled(index).wf(),
    {
        let after = self.signaled(index);
        self.table.lemma_without_wf(index);
        assert forall|handle: HandleRef, waiter: Waiter| #[trigger]
            after.table.holds(handle, waiter) implies after.tasks.contains_key(waiter.id)
            && after.tasks[waiter.id].awaiting.contains(handle.raw) by {
            self.table.lemma_without_holds(index, handle, waiter);
        }
    }
}

/// How the handling of one work item ended.
#[derive(Clone, Copy, PartialEq, Eq, Structural, Debug)]
pub enum Outcome {
    /// A computation became the task with this identity.
    Spawned(TaskId),
    /// The item named a task that is not in flight. Nothing was done.
    Skipped(TaskId),
    /// The task was polled and has to wait.
    Pending(TaskId),
    /// The task was polled, is done, and has left the registry.
    Completed(TaskId),
    /// The task was registered as a waiter of a handle.
    Registered(TaskId),
}

/// What the executor has to do once its queue is drained.
#[derive(Clone, Copy, PartialEq, Eq, Structural, Debug)]
pub enum Rest {
    /// No task is in flight: the event loop is over.
    Finished,
    /// Tasks are in flight: wait on the handles of the table, then report the
    /// signal with [`WaitableManager::signal`].
    Blocked,
    /// Tasks are in flight, and no handle is awaited. Nothing can ever wake
    /// them: the executor has lost track of its tasks, and the caller must
    /// give up.
    Stalled,
}

/// How one step of the event loop ended.
#[derive(Clone, Copy, PartialEq, Eq, Structural, Debug)]
pub enum Turn {
    /// An item was taken from the queue and handled.
    Handled(Outcome),
    /// The queue was empty.
    Drained(Rest),
    /// The registry has used up its generations, and no task can be retired
    /// any more. Nothing was done.
    Exhausted,
}

/// The executor.
pub struct WaitableManager {
    work_queue: WorkQueue,
    registry: Registry,
    waitables: Waitables,
    woken: Ghost<Seq<QueueWaker>>,
}

impl View for WaitableManager {
    type V = ManagerState;

    closed spec fn view(&self) -> ManagerState {
        ManagerState {
            tasks: self.registry.tasks(),
            generation: self.registry.generation() as int,
            table: self.waitables@,
            woken: self.woken@,
        }
    }
}

impl Default for WaitableManager {
    /// An executor with an empty queue of its own, no task and no awaited
    /// handle.
    fn default() -> (manager: WaitableManager)
        ensures
            manager.wf(),
            manager@.tasks == Map::<TaskId, TaskRecord>::empty(),
            manager@.generation == 0,
            manager@.table.entries == Seq::<crate::waitables::Watch>::empty(),
            manager@.woken == Seq::<QueueWaker>::empty(),
    {
        WaitableManager::new()
    }
}

impl WaitableManager {
    /// The queue of this executor.
    pub closed spec fn queue(&self) -> WorkQueue {
        self.work_queue
    }

    /// The executor is consistent, and so is its state.
    pub closed spec fn wf(&self) -> bool {
        &&& self.registry.wf()
        &&& self.waitables.wf()
        &&& self@.wf()
    }

    /// The state of a consistent executor is in order, and its generation is
    /// one that a registry can be in.
    pub proof fn lemma_wf(&self)
        requires
            self.wf(),
        ensures
            self@.wf(),
            0 <= self@.generation <= u64::MAX,
    {
    }

    /// An executor with an empty queue of its own, no task and no awaited
    /// handle.
    pub fn new() -> (manager: WaitableManager)
        ensures
            manager.wf(),
            manager@.tasks == Map::<TaskId, TaskRecord>::empty(),
            manager@.generation == 0,
            manager@.table.entries == Seq::<crate::waitables::Watch>::empty(),
            manager@.woken == Seq::<QueueWaker>::empty(),
    {
        let manager = WaitableManager {
            work_queue: WorkQueue::new(),
            registry: Registry::new(),
            waitables: Waitables::new(),
            woken: Ghost(Seq::empty()),
        };
        proof {
            manager.waitables.lemma_wf();
            assert forall|handle: HandleRef, waiter: Waiter| #[trigger]
                manager@.table.holds(handle, waiter) implies false by {}
        }
        manager
    }

    /// A handle to the queue of this executor. It may be handed to the
    /// computations that are spawned, and to other threads.
    pub fn work_queue(&self) -> (queue: WorkQueue)
        ensures
            queue == self.queue(),
    {
        self.work_queue.clone()
    }

    /// Invokes `waker`, and notes that it has.
    fn wake(&mut self, waker: &QueueWaker)
        ensures
            final(self).registry == old(self).registry,
            final(self).waitables == old(self).waitables,
            final(self).work_queue == old(self).work_queue,
            final(self).woken@ == old(self).woken@.push(*waker),
    {
        waker.wake();
        self.woken = Ghost(self.woken@.push(*waker));
    }

    /// Handles a `Spawn` item: makes a task of `computation`, gives it its
    /// waker, and schedules its first poll.
    pub fn spawn_task(&mut self, computation: Box<dyn Computation>) -> (id: TaskId)
        requires
            old(self).wf(),
        ensures
            final(self).wf(),
            final(self).queue() == old(self).queue(),
            !old(self)@.tasks.contains_key(id),
            id.generation == old(self)@.generation,
            final(self)@ == old(self)@.spawned(id, old(self).queue()),
    {
        let id = self.registry.enroll(computation, &self.work_queue);
        let waker = QueueWaker::new(self.work_queue.clone(), id);
        self.wake(&waker);
        proof {
            old(self)@.lemma_spawned_wf(id, old(self).queue());
        }
        id
    }

    /// Polls the task `id` once and says what its computation reported;
    /// `None`, and no poll, if no such task is in flight. The executor's own
    /// state stays as it is: whatever the computation has submitted is on the
    /// queue.
    pub fn resume(&mut self, id: TaskId) -> (ready: Option<bool>)
        requires
            old(self).wf(),
        ensures
            final(self).wf(),
            final(self).queue() == old(self).queue(),
            final(self)@ == old(self)@,
            ready.is_some() == old(self)@.tasks.contains_key(id),
    {
        self.registry.poll(id)
    }

    /// Acts on what a poll of task `id` reported. A task that is done is
    /// retired, and then the table forgets it: for each handle that the task
    /// had asked to wait on, its waits are dropped, and the handle with them
    /// if nobody else waits on it.
    ///
    /// To retire a task the registry needs a generation to move on to.
    pub fn settle(&mut self, id: TaskId, ready: bool)
        requires
            old(self).wf(),
            ready && old(self)@.tasks.contains_key(id) ==> old(self)@.generation < u64::MAX,
        ensures
            final(self).wf(),
            final(self).queue() == old(self).queue(),
            final(self)@ == old(self)@.settled(id, ready),
    {
        proof {
            old(self)@.lemma_settled_wf(id, ready);
        }
        if ready {
            match self.registry.retire(id) {
                Some(task) => {
                    self.waitables.sweep(&task.awaiting, id);
                },
                None => {
                    assert(self@.tasks =~= old(self)@.tasks);
                },
            }
        }
    }

    /// Handles a `WaitOnHandle` item: registers task `id` as a waiter of
    /// `handle`, to be resumed through `waker`, and notes the handle among the
    /// waits of the task. Returns whether the task is in flight; a request for
    /// a task that is not is dropped.
    pub fn register_wait(&mut self, handle: HandleRef, waker: QueueWaker, id: TaskId) -> (known:
        bool)
        requires
            old(self).wf(),
        ensures
            final(self).wf(),
            final(self).queue() == old(self).queue(),
            known == old(self)@.tasks.contains_key(id),
            final(self)@ == old(self)@.waited(handle, waker, id),
    {
        proof {
            old(self)@.lemma_waited_wf(handle, waker, id);
        }
        let known = self.registry.note_wait(id, handle.get());
        if known {
            self.waitables.register(handle, Waiter { id, waker });
        }
        known
    }

    /// Handles one work item: a computation is spawned, a task is polled and,
    /// if it is done, retired, or a wait is registered. An item for a task that
    /// is not in flight is skipped.
    ///
    /// A task that is resumed may be done, and to retire it the registry needs
    /// a generation to move on to.
    pub fn dispatch(&mut self, item: WorkItem) -> (outcome: Outcome)
        requires
            old(self).wf(),
            item matches WorkItem::Resume(id) && old(self)@.tasks.contains_key(id) ==> old(
                self,
            )@.generation < u64::MAX,
        ensures
            final(self).wf(),
            final(self).queue() == old(self).queue(),
            old(self)@.dispatched(item, old(self).queue(), outcome, final(self)@),
    {
        match item {
            WorkItem::Spawn(computation) => Outcome::Spawned(self.spawn_task(computation)),
            WorkItem::Resume(id) => {
                match self.resume(id) {
                    Some(ready) => {
                        self.settle(id, ready);
                        if ready {
                            Outcome::Completed(id)
                        } else {
                            Outcome::Pending(id)
                        }
                    },
                    None => Outcome::Skipped(id),
                }
            },
            WorkItem::WaitOnHandle(handle, waker, id) => {
                if self.register_wait(handle, waker, id) {
                    Outcome::Registered(id)
                } else {
                    Outcome::Skipped(id)
                }
            },
        }
    }

    /// Says what is to be done once the queue is drained: the loop is over
    /// when no task is left; else the caller has to wait on the handles of the
    /// table; and if there is none to wait on, the tasks are lost.
    pub fn rest(&self) -> (rest: Rest)
        requires
            self.wf(),
        ensures
            rest == self@.at_rest(),
    {
        if self.registry.is_empty() {
            assert(self@.tasks.dom() =~= Set::<TaskId>::empty());
            Rest::Finished
        } else {
            assert(self@.tasks.dom() != Set::<TaskId>::empty()) by {
                if self@.tasks.dom() == Set::<TaskId>::empty() {
                    assert(self@.tasks =~= Map::<TaskId, TaskRecord>::empty());
                }
            }
            if self.waitables.is_empty() {
                Rest::Stalled
            } else {
                Rest::Blocked
            }
        }
    }

    /// One step of the event loop: takes the oldest item from the queue and
    /// handles it, or, with the queue empty, says what is to be done now.
    ///
    /// Which item the queue hands out is up to every producer, so the step is
    /// described for whatever came: there is an item of which `dispatched`
    /// holds.
    pub fn turn(&mut self) -> (turn: Turn)
        requires
            old(self).wf(),
        ensures
            final(self).wf(),
            final(self).queue() == old(self).queue(),
            match turn {
                Turn::Handled(outcome) => old(self)@.generation < u64::MAX && exists|
                    item: WorkItem,
                | #[trigger]
                    old(self)@.dispatched(item, old(self).queue(), outcome, final(self)@),
                Turn::Drained(rest) => old(self)@.generation < u64::MAX && final(self)@ == old(
                    self,
                )@ && rest == old(self)@.at_rest(),
                Turn::Exhausted => old(self)@.generation == u64::MAX && final(self)@ == old(
                    self,
                )@,
            },
    {
        proof {
            self.lemma_wf();
        }
        if self.registry.is_exhausted() {
            return Turn::Exhausted;
        }
        match self.work_queue.pop() {
            Some(item) => {
                let ghost taken = item;
                let outcome = self.dispatch(item);
                assert(old(self)@.dispatched(taken, old(self).queue(), outcome, self@));
                Turn::Handled(outcome)
            },
            None => Turn::Drained(self.rest()),
        }
    }

    /// The handles to wait on while the executor is blocked, in the order of
    /// the table. The index that the kernel reports is an index into this
    /// list.
    pub fn waitables(&self) -> (handles: &Vec<HandleRef>)
        requires
            self.wf(),
        ensures
            handles@ == self@.table.handles(),
    {
        self.waitables.handles()
    }

    /// Acts on a signal for the handle at `index` of the list of awaited
    /// handles: takes the handle out of the table and invokes the waker of
    /// each of its waiters, in the order in which they registered.
    pub fn signal(&mut self, index: usize)
        requires
            old(self).wf(),
            index < old(self)@.table.entries.len(),
        ensures
            final(self).wf(),
            final(self).queue() == old(self).queue(),
            final(self)@ == old(self)@.signaled(index as int),
    {
        proof {
            old(self)@.lemma_signaled_wf(index as int);
        }
        let waiters = self.waitables.take(index);
        let ghost rested = self@;
        let mut k: usize = 0;
        while k < waiters.len()
            invariant
                0 <= k <= waiters.len(),
                self.wf(),
                self.queue() == old(self).queue(),
                self@.tasks == rested.tasks,
                self@.generation == rested.generation,
                self@.table == rested.table,
                self@.woken == rested.woken + waiters@.take(k as int).map_values(waker_of()),
            decreases waiters.len() - k,
        {
            self.wake(&waiters[k].waker);
            proof {
                assert(waiters@.take(k as int + 1).map_values(waker_of()) == waiters@.take(
                    k as int,
                ).map_values(waker_of()).push(waiters@[k as int].waker));
            }
            k = k + 1;
        }
        assert(waiters@.take(k as int) == waiters@);
    }

    /// Whether the task `id` is in flight.
    pub fn is_live(&self, id: TaskId) -> (live: bool)
        requires
            self.wf(),
        ensures
            live == self@.tasks.contains_key(id),
    {
        self.registry.is_live(id)
    }

    /// Whether any task is in flight.
    pub fn has_tasks(&self) -> (some: bool)
        requires
            self.wf(),
        ensures
            some == (self@.tasks.dom() != Set::<TaskId>::empty()),
    {
        let empty = self.registry.is_empty();
        proof {
            if empty {
                assert(self@.tasks.dom() =~= Set::<TaskId>::empty());
            } else if self@.tasks.dom() == Set::<TaskId>::empty() {
                assert(self@.tasks =~= Map::<TaskId, TaskRecord>::empty());
            }
        }
        !empty
    }
}

} // verus!
