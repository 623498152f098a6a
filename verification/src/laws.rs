//! What holds of the executor across its steps.
//!
//! The laws speak of the state that the steps of
//! [`crate::manager::WaitableManager`] promise, and of nothing else: each is
//! proved from the functions that the contracts of the steps are written in.

use vstd::prelude::*;
use crate::handle::HandleRef;
use crate::manager::waker_of;
use crate::manager::ManagerState;
use crate::manager::Outcome;
use crate::manager::Rest;
use crate::task::TaskId;
use crate::waitables::Waiter;
use crate::work_queue::QueueWaker;
use crate::work_queue::WorkItem;
use crate::work_queue::WorkQueue;

verus! {

/// One thing that happens to an executor: it handles a work item, with some
/// outcome, or it is told that the handle of a row was signaled.
pub ghost enum Event {
    Item(WorkItem, Outcome),
    Signal(int),
}

/// The event takes an executor with the queue `queue` from `before` to `after`.
pub open spec fn step(
    before: ManagerState,
    event: Event,
    queue: WorkQueue,
    after: ManagerState,
) -> bool {
    match event {
        Event::Item(item, outcome) => before.dispatched(item, queue, outcome, after),
        Event::Signal(index) => 0 <= index < before.table.entries.len() && after
            == before.signaled(index),
    }
}

/// Event `k` takes the executor from state `k` to the next one.
pub open spec fn step_at(
    states: Seq<ManagerState>,
    events: Seq<Event>,
    queue: WorkQueue,
    k: int,
) -> bool {
    step(states[k], events[k], queue, states[k + 1])
}

/// The events, one after the other, take an executor through the states.
pub open spec fn run(states: Seq<ManagerState>, events: Seq<Event>, queue: WorkQueue) -> bool {
    &&& states.len() == events.len() + 1
    &&& forall|k: int| 0 <= k < events.len() ==> #[trigger] step_at(states, events, queue, k)
}

/// The event is the completion of task `id`.
pub open spec fn completes(event: Event, id: TaskId) -> bool {
    event matches Event::Item(_, outcome) && outcome == Outcome::Completed(id)
}

/// The event is a signal for `handle`, in the state `before`.
pub open spec fn signals(event: Event, before: ManagerState, handle: HandleRef) -> bool {
    event matches Event::Signal(index) && before.table.entries[index].handle == handle
}

/// Every step keeps the state in order: the table holds each handle once and
/// only with waiters, every waiter is a task in flight that has the handle
/// among its waits, and no task is newer than the generation.
pub proof fn law_step_keeps_order(
    before: ManagerState,
    event: Event,
    queue: WorkQueue,
    after: ManagerState,
)
    requires
        before.wf(),
        step(before, event, queue, after),
    ensures
        after.wf(),
{
    match event {
        Event::Item(item, outcome) => {
            match item {
                WorkItem::Spawn(_) => {
                    before.lemma_spawned_wf(outcome->Spawned_0, queue);
                },
                WorkItem::Resume(id) => {
                    before.lemma_settled_wf(id, true);
                },
                WorkItem::WaitOnHandle(handle, waker, id) => {
                    before.lemma_waited_wf(handle, waker, id);
                },
            }
        },
        Event::Signal(index) => {
            before.lemma_signaled_wf(index);
        },
    }
}

/// A task that has completed is retired: its identity names no task in flight
/// and belongs to a generation that is over.
pub proof fn law_completed_is_retired(
    before: ManagerState,
    event: Event,
    queue: WorkQueue,
    after: ManagerState,
    id: TaskId,
)
    requires
        before.wf(),
        step(before, event, queue, after),
        completes(event, id),
    ensures
        before.tasks.contains_key(id),
        after.retired(id),
{
}

/// A retired identity stays retired, whatever happens: no later task gets it.
pub proof fn law_retired_stays_retired(
    before: ManagerState,
    event: Event,
    queue: WorkQueue,
    after: ManagerState,
    id: TaskId,
)
    requires
        before.wf(),
        step(before, event, queue, after),
        before.retired(id),
    ensures
        after.retired(id),
{
}

/// A `Resume` item for a retired identity is skipped: no task is polled, and
/// the state stays as it is.
pub proof fn law_retired_is_skipped(
    before: ManagerState,
    queue: WorkQueue,
    outcome: Outcome,
    after: ManagerState,
    id: TaskId,
)
    requires
        before.retired(id),
        before.dispatched(WorkItem::Resume(id), queue, outcome, after),
    ensures
        outcome == Outcome::Skipped(id),
        after == before,
{
}

/// A task that has completed is never polled again: from its completion on,
/// through any events whatever, its identity stays retired, and every `Resume`
/// item for it is skipped.
pub proof fn law_completed_never_polled_again(
    states: Seq<ManagerState>,
    events: Seq<Event>,
    queue: WorkQueue,
    id: TaskId,
    k: int,
)
    requires
        run(states, events, queue),
        states[0].wf(),
        events.len() > 0,
        completes(events[0], id),
        0 < k < events.len(),
    ensures
        states[k].retired(id),
        events[k] matches Event::Item(WorkItem::Resume(other), outcome) ==> (other == id
            ==> outcome == Outcome::Skipped(id) && states[k + 1] == states[k]),
    decreases k,
{
    lemma_run_in_order(states, events, queue, k);
    if k == 1 {
        assert(step_at(states, events, queue, 0));
        law_completed_is_retired(states[0], events[0], queue, states[1], id);
    } else {
        law_completed_never_polled_again(states, events, queue, id, k - 1);
        lemma_run_in_order(states, events, queue, k - 1);
        assert(step_at(states, events, queue, k - 1));
        law_retired_stays_retired(states[k - 1], events[k - 1], queue, states[k], id);
    }
    assert(step_at(states, events, queue, k));
}

/// Every state of a run that starts in order is in order.
pub proof fn lemma_run_in_order(
    states: Seq<ManagerState>,
    events: Seq<Event>,
    queue: WorkQueue,
    k: int,
)
    requires
        run(states, events, queue),
        states[0].wf(),
        0 <= k <= events.len(),
    ensures
        states[k].wf(),
    decreases k,
{
    if k > 0 {
        lemma_run_in_order(states, events, queue, k - 1);
        assert(step_at(states, events, queue, k - 1));
        law_step_keeps_order(states[k - 1], events[k - 1], queue, states[k]);
    }
}

/// A wait that has been registered is in the table: the task waits on the
/// handle, behind those who waited before.
pub proof fn law_wait_is_held(
    before: ManagerState,
    handle: HandleRef,
    waker: QueueWaker,
    id: TaskId,
)
    requires
        before.wf(),
        before.tasks.contains_key(id),
    ensures
        before.waited(handle, waker, id).table.holds(handle, Waiter { id, waker }),
        before.waited(handle, waker, id).table.waiters_of(handle) == before.table.waiters_of(
            handle,
        ).push(Waiter { id, waker }),
{
    let waiter = Waiter { id, waker };
    let after = before.waited(handle, waker, id).table;
    before.table.lemma_registered_holds(handle, waiter, handle, waiter);
    before.table.lemma_registered_wf(handle, waiter);
    match before.table.position(handle) {
        Some(i) => {
            after.lemma_position(handle, i);
        },
        None => {
            after.lemma_position(handle, before.table.entries.len() as int);
        },
    }
}

/// A wait stays in the table through every event but two: a signal for its
/// handle, and the completion of its task.
pub proof fn law_wait_persists(
    before: ManagerState,
    event: Event,
    queue: WorkQueue,
    after: ManagerState,
    handle: HandleRef,
    waiter: Waiter,
)
    requires
        before.wf(),
        step(before, event, queue, after),
        before.table.holds(handle, waiter),
        !signals(event, before, handle),
        !completes(event, waiter.id),
    ensures
        after.table.holds(handle, waiter),
{
    match event {
        Event::Item(item, outcome) => {
            match item {
                WorkItem::Spawn(_) => {},
                WorkItem::Resume(id) => {
                    if outcome == Outcome::Completed(id) {
                        before.table.lemma_swept_keeps(
                            before.tasks[id].awaiting,
                            id,
                            handle,
                            waiter,
                        );
                    }
                },
                WorkItem::WaitOnHandle(h, w, id) => {
                    before.table.lemma_registered_holds(h, Waiter { id, waker: w }, handle, waiter);
                },
            }
        },
        Event::Signal(index) => {
            before.table.lemma_without_keeps(index, handle, waiter);
        },
    }
}

/// A wait is held until its handle is signaled or its task completes: if it
/// is in the table after event `a`, and no event from there up to event `b`
/// is a signal for its handle or the completion of its task, then it is in
/// the table when event `b` happens.
pub proof fn law_wait_held_until_signaled(
    states: Seq<ManagerState>,
    events: Seq<Event>,
    queue: WorkQueue,
    handle: HandleRef,
    waiter: Waiter,
    a: int,
    b: int,
)
    requires
        run(states, events, queue),
        states[0].wf(),
        0 <= a < b <= events.len(),
        states[a + 1].table.holds(handle, waiter),
        forall|k: int|
            a < k < b ==> !signals(#[trigger] events[k], states[k], handle) && !completes(
                events[k],
                waiter.id,
            ),
    ensures
        states[b].table.holds(handle, waiter),
    decreases b - a,
{
    if b > a + 1 {
        law_wait_held_until_signaled(states, events, queue, handle, waiter, a, b - 1);
        lemma_run_in_order(states, events, queue, b - 1);
        assert(step_at(states, events, queue, b - 1));
        assert(!signals(events[b - 1], states[b - 1], handle));
        law_wait_persists(states[b - 1], events[b - 1], queue, states[b], handle, waiter);
    }
}

/// No wait comes from nowhere: a wait that is in the table after an event,
/// and was not before, was registered by that event.
pub proof fn law_wait_was_requested(
    before: ManagerState,
    event: Event,
    queue: WorkQueue,
    after: ManagerState,
    handle: HandleRef,
    waiter: Waiter,
)
    requires
        before.wf(),
        step(before, event, queue, after),
        after.table.holds(handle, waiter),
        !before.table.holds(handle, waiter),
    ensures
        event == Event::Item(
            WorkItem::WaitOnHandle(handle, waiter.waker, waiter.id),
            Outcome::Registered(waiter.id),
        ),
{
    match event {
        Event::Item(item, outcome) => {
            match item {
                WorkItem::Spawn(_) => {},
                WorkItem::Resume(id) => {
                    if outcome == Outcome::Completed(id) {
                        before.table.lemma_swept_holds(
                            before.tasks[id].awaiting,
                            id,
                            handle,
                            waiter,
                        );
                    }
                },
                WorkItem::WaitOnHandle(h, w, id) => {
                    before.table.lemma_registered_holds(h, Waiter { id, waker: w }, handle, waiter);
                },
            }
        },
        Event::Signal(index) => {
            before.table.lemma_without_holds(index, handle, waiter);
        },
    }
}

/// A signal resumes the waiters of its handle, and nobody else: the wakers
/// invoked are those of the waits held on the handle, in the order in which
/// the waits were registered; those waits are gone, and every other wait
/// stays.
pub proof fn law_signal_resumes_waiters(before: ManagerState, index: int)
    requires
        before.wf(),
        0 <= index < before.table.entries.len(),
    ensures
        before.signaled(index).woken == before.woken + before.table.waiters_of(
            before.table.entries[index].handle,
        ).map_values(waker_of()),
        forall|waiter: Waiter|
            before.table.holds(before.table.entries[index].handle, waiter)
                <==> #[trigger] before.table.waiters_of(before.table.entries[index].handle).contains(
                waiter,
            ),
        forall|handle: HandleRef, waiter: Waiter| #[trigger]
            before.signaled(index).table.holds(handle, waiter) <==> before.table.holds(
                handle,
                waiter,
            ) && handle != before.table.entries[index].handle,
{
    let table = before.table;
    let handle = table.entries[index].handle;
    table.lemma_position(handle, index);
    assert forall|waiter: Waiter| table.holds(handle, waiter) <==> #[trigger] table.waiters_of(
        handle,
    ).contains(waiter) by {
        if table.holds(handle, waiter) {
            let (i, k) = choose|i: int, k: int|
                0 <= i < table.entries.len() && 0 <= k < table.entries[i].waiters.len()
                    && table.entries[i].handle == handle && #[trigger] table.entries[i].waiters[k]
                    == waiter;
            table.lemma_position(handle, i);
            assert(table.waiters_of(handle)[k] == waiter);
        }
        if table.waiters_of(handle).contains(waiter) {
            let k = choose|k: int|
                0 <= k < table.waiters_of(handle).len() && table.waiters_of(handle)[k] == waiter;
            assert(table.entries[index].waiters[k] == waiter);
        }
    }
    assert forall|h: HandleRef, w: Waiter| #[trigger]
        before.signaled(index).table.holds(h, w) <==> table.holds(h, w) && h != handle by {
        if before.signaled(index).table.holds(h, w) {
            table.lemma_without_holds(index, h, w);
        }
        if table.holds(h, w) {
            table.lemma_without_keeps(index, h, w);
        }
    }
}

/// Two tasks that wait on one handle are both resumed by one signal for it, in
/// the order in which they registered: behind those who waited before them,
/// first the one, then the other.
pub proof fn law_waiters_resume_in_order(
    before: ManagerState,
    handle: HandleRef,
    first: Waiter,
    second: Waiter,
)
    requires
        before.wf(),
        before.tasks.contains_key(first.id),
        before.tasks.contains_key(second.id),
    ensures
        ({
            let after = before.waited(handle, first.waker, first.id).waited(
                handle,
                second.waker,
                second.id,
            );
            let earlier = before.table.waiters_of(handle);
            &&& after.table.position(handle) matches Some(index)
            &&& 0 <= index < after.table.entries.len()
            &&& after.table.entries[index].waiters == earlier.push(first).push(second)
            &&& after.signaled(index).woken == before.woken + earlier.map_values(waker_of()).push(
                first.waker,
            ).push(second.waker)
        }),
{
    let once = before.waited(handle, first.waker, first.id);
    let after = once.waited(handle, second.waker, second.id);
    let earlier = before.table.waiters_of(handle);
    law_wait_is_held(before, handle, first.waker, first.id);
    before.lemma_waited_wf(handle, first.waker, first.id);
    law_wait_is_held(once, handle, second.waker, second.id);
    once.lemma_waited_wf(handle, second.waker, second.id);
    let (i, k) = choose|i: int, k: int|
        0 <= i < after.table.entries.len() && 0 <= k < after.table.entries[i].waiters.len()
            && after.table.entries[i].handle == handle && #[trigger] after.table.entries[i].waiters[k]
            == second;
    after.table.lemma_position(handle, i);
    assert(earlier.push(first).push(second).map_values(waker_of()) == earlier.map_values(
        waker_of(),
    ).push(first.waker).push(second.waker));
}

/// While every task in flight waits on some handle, and there is a task, the
/// drained executor blocks: it neither finishes nor stalls.
pub proof fn law_blocks_while_tasks_wait(state: ManagerState, id: TaskId)
    requires
        state.tasks.contains_key(id),
        forall|other: TaskId| #[trigger]
            state.tasks.contains_key(other) ==> state.table.mentions(other),
    ensures
        state.at_rest() == Rest::Blocked,
{
    assert(state.tasks.dom().contains(id));
    assert(state.table.mentions(id));
}

/// Once the last task has completed, the drained executor is finished: it
/// does not block again.
pub proof fn law_finishes_with_last_task(before: ManagerState, id: TaskId)
    requires
        before.wf(),
        before.tasks.dom() == set![id],
    ensures
        before.settled(id, true).at_rest() == Rest::Finished,
        before.settled(id, true).table.entries.len() == 0,
{
    let after = before.settled(id, true);
    before.lemma_settled_wf(id, true);
    assert(before.tasks.dom().contains(id));
    assert(after.tasks.dom() =~= Set::<TaskId>::empty());
    if after.table.entries.len() > 0 {
        let row = after.table.entries[0];
        assert(row.waiters.len() > 0);
        assert(after.table.holds(row.handle, row.waiters[0]));
    }
}

} // verus!
