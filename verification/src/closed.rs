//! The executor left alone with computations that never wait.
//!
//! Here nobody but the executor and its tasks touches the queue, and a task
//! that is not done wakes itself before it gives way. Every such task is done
//! after a number of polls that is fixed when it is spawned. The module
//! follows the queue through the steps of the executor and shows that the
//! event loop comes to its end, without ever blocking, after a number of steps
//! that is known beforehand, and with every computation completed once.

use vstd::prelude::*;
use crate::manager::ManagerState;
use crate::manager::Outcome;
use crate::manager::Rest;
use crate::task::TaskId;
use crate::work_queue::WorkItem;
use crate::work_queue::WorkQueue;

verus! {

/// What stands in the queue: a computation that is done at its `polls`-th
/// poll and waits to be spawned, or the resumption of a task.
pub ghost enum Job {
    Spawn(nat),
    Resume(TaskId),
}

/// The executor and its queue.
pub ghost struct World {
    /// The state of the executor.
    pub state: ManagerState,
    /// The queue, oldest job first.
    pub queue: Seq<Job>,
    /// For each task in flight, the number of polls that it still needs.
    pub budget: Map<TaskId, nat>,
    /// The tasks that have completed, in the order of their completion.
    pub completed: Seq<TaskId>,
}

/// The number of steps that a job stands for: a spawn takes one step and then
/// the polls of its task; a resumption takes the polls that its task needs.
pub open spec fn job_cost(job: Job, budget: Map<TaskId, nat>) -> nat {
    match job {
        Job::Spawn(polls) => polls + 1,
        Job::Resume(id) => budget[id],
    }
}

/// The number of steps that a queue stands for.
pub open spec fn cost(queue: Seq<Job>, budget: Map<TaskId, nat>) -> nat
    decreases queue.len(),
{
    if queue.len() == 0 {
        0
    } else {
        cost(queue.drop_last(), budget) + job_cost(queue.last(), budget)
    }
}

/// The queue of a program that does nothing but spawn: one job for each
/// number of polls, in order.
pub open spec fn spawns(polls: Seq<nat>) -> Seq<Job> {
    polls.map_values(|needed: nat| Job::Spawn(needed))
}

/// The sum of the numbers.
pub open spec fn total(polls: Seq<nat>) -> nat
    decreases polls.len(),
{
    if polls.len() == 0 {
        0
    } else {
        total(polls.drop_last()) + polls.last()
    }
}

impl World {
    /// Every job is in order: a computation needs a poll at least, and a
    /// resumption is for a task in flight that needs one.
    pub open spec fn jobs_sound(self) -> bool {
        forall|p: int|
            0 <= p < self.queue.len() ==> match #[trigger] self.queue[p] {
                Job::Spawn(polls) => polls >= 1,
                Job::Resume(id) => self.state.tasks.contains_key(id) && self.budget.contains_key(
                    id,
                ) && self.budget[id] >= 1,
            }
    }

    /// No task has two resumptions in the queue.
    pub open spec fn resumed_once(self) -> bool {
        forall|p: int, r: int|
            0 <= p < r < self.queue.len() ==> !(#[trigger] self.queue[p] is Resume
                && #[trigger] self.queue[r] is Resume && self.queue[p] == self.queue[r])
    }

    /// Every task in flight has its resumption in the queue.
    pub open spec fn all_scheduled(self) -> bool {
        forall|id: TaskId| #[trigger]
            self.state.tasks.contains_key(id) ==> self.queue.contains(Job::Resume(id))
    }

    /// The tasks that have completed are retired, each of them once.
    pub open spec fn completed_once(self) -> bool {
        &&& forall|i: int|
            0 <= i < self.completed.len() ==> self.state.retired(#[trigger] self.completed[i])
        &&& forall|i: int, j: int|
            0 <= i < j < self.completed.len() ==> #[trigger] self.completed[i]
                != #[trigger] self.completed[j]
    }

    /// The executor is in order, and so is its queue.
    pub open spec fn inv(self) -> bool {
        &&& self.state.wf()
        &&& self.jobs_sound()
        &&& self.resumed_once()
        &&& self.all_scheduled()
        &&& self.completed_once()
    }

    /// The executor takes the oldest job from the queue and handles it as
    /// `item`, with `outcome`; this leaves the world `after`.
    ///
    /// A computation that is spawned takes the identity that the executor
    /// gives it, and the waker of the new task puts its first resumption on
    /// the queue. A task that is resumed with one poll to go is done. A task
    /// that needs more wakes itself and gives way.
    pub open spec fn next(
        self,
        handle: WorkQueue,
        item: WorkItem,
        outcome: Outcome,
        after: World,
    ) -> bool {
        &&& self.queue.len() > 0
        &&& self.state.dispatched(item, handle, outcome, after.state)
        &&& match self.queue[0] {
            Job::Spawn(polls) => {
                &&& item is Spawn
                &&& outcome matches Outcome::Spawned(id)
                &&& after.queue == self.queue.skip(1).push(Job::Resume(id))
                &&& after.budget == self.budget.insert(id, polls)
                &&& after.completed == self.completed
            },
            Job::Resume(id) => {
                &&& item == WorkItem::Resume(id)
                &&& if !self.state.tasks.contains_key(id) {
                    &&& after.queue == self.queue.skip(1)
                    &&& after.budget == self.budget
                    &&& after.completed == self.completed
                } else if self.budget[id] <= 1 {
                    &&& outcome == Outcome::Completed(id)
                    &&& after.queue == self.queue.skip(1)
                    &&& after.budget == self.budget.remove(id)
                    &&& after.completed == self.completed.push(id)
                } else {
                    &&& outcome == Outcome::Pending(id)
                    &&& after.queue == self.queue.skip(1).push(Job::Resume(id))
                    &&& after.budget == self.budget.insert(id, (self.budget[id] - 1) as nat)
                    &&& after.completed == self.completed
                }
            },
        }
    }
}

/// Step `k` takes world `k` to the next one.
pub open spec fn next_at(
    worlds: Seq<World>,
    items: Seq<WorkItem>,
    outcomes: Seq<Outcome>,
    handle: WorkQueue,
    k: int,
) -> bool {
    worlds[k].next(handle, items[k], outcomes[k], worlds[k + 1])
}

/// The executor goes through the worlds, step by step.
pub open spec fn execution(
    worlds: Seq<World>,
    items: Seq<WorkItem>,
    outcomes: Seq<Outcome>,
    handle: WorkQueue,
) -> bool {
    &&& worlds.len() == items.len() + 1
    &&& outcomes.len() == items.len()
    &&& forall|k: int| 0 <= k < items.len() ==> #[trigger] next_at(worlds, items, outcomes, handle, k)
}

/// One more job at the end of the queue adds its steps.
pub proof fn lemma_cost_push(queue: Seq<Job>, job: Job, budget: Map<TaskId, nat>)
    ensures
        cost(queue.push(job), budget) == cost(queue, budget) + job_cost(job, budget),
{
    assert(queue.push(job).drop_last() == queue);
}

/// The oldest job accounts for its steps.
pub proof fn lemma_cost_skip(queue: Seq<Job>, budget: Map<TaskId, nat>)
    requires
        queue.len() > 0,
    ensures
        cost(queue, budget) == job_cost(queue[0], budget) + cost(queue.skip(1), budget),
    decreases queue.len(),
{
    if queue.len() == 1 {
        assert(queue.drop_last().len() == 0);
        assert(queue.skip(1).len() == 0);
        assert(cost(queue.drop_last(), budget) == 0);
    } else {
        lemma_cost_skip(queue.drop_last(), budget);
        assert(queue.skip(1).drop_last() == queue.drop_last().skip(1));
        assert(queue.skip(1).last() == queue.last());
        assert(queue.drop_last()[0] == queue[0]);
    }
}

/// A budget that changes for no task of the queue leaves the steps as they
/// are.
pub proof fn lemma_cost_frame(queue: Seq<Job>, budget: Map<TaskId, nat>, other: Map<TaskId, nat>)
    requires
        forall|p: int|
            0 <= p < queue.len() ==> (#[trigger] queue[p] matches Job::Resume(id) ==> other[id]
                == budget[id]),
    ensures
        cost(queue, other) == cost(queue, budget),
    decreases queue.len(),
{
    if queue.len() > 0 {
        let front = queue.drop_last();
        assert forall|p: int| 0 <= p < front.len() implies (#[trigger] front[p] matches Job::Resume(
            id,
        ) ==> other[id] == budget[id]) by {
            assert(front[p] == queue[p]);
        }
        lemma_cost_frame(front, budget, other);
        assert(queue[queue.len() - 1] == queue.last());
    }
}

/// A queue of spawns stands for one step for each spawn and one for each poll.
pub proof fn lemma_cost_of_spawns(polls: Seq<nat>, budget: Map<TaskId, nat>)
    ensures
        cost(spawns(polls), budget) == polls.len() + total(polls),
    decreases polls.len(),
{
    if polls.len() > 0 {
        lemma_cost_of_spawns(polls.drop_last(), budget);
        assert(spawns(polls).drop_last() == spawns(polls.drop_last()));
        assert(spawns(polls).last() == Job::Spawn(polls.last()));
    } else {
        assert(spawns(polls).len() == 0);
    }
}

/// One step of the executor keeps the world in order, uses up one of the steps
/// that the queue stands for, and leaves as many computations to complete as
/// it does not complete itself.
pub proof fn law_step_uses_one(
    before: World,
    handle: WorkQueue,
    item: WorkItem,
    outcome: Outcome,
    after: World,
)
    requires
        before.inv(),
        before.next(handle, item, outcome, after),
    ensures
        after.inv(),
        cost(after.queue, after.budget) + 1 == cost(before.queue, before.budget),
        after.completed.len() + after.queue.len() == before.completed.len() + before.queue.len(),
{
    let rest = before.queue.skip(1);
    crate::laws::law_step_keeps_order(
        before.state,
        crate::laws::Event::Item(item, outcome),
        handle,
        after.state,
    );
    lemma_cost_skip(before.queue, before.budget);
    assert forall|p: int| 0 <= p < rest.len() implies #[trigger] rest[p] == before.queue[p + 1] by {}
    match before.queue[0] {
        Job::Spawn(polls) => {
            let id = outcome->Spawned_0;
            let job = Job::Resume(id);
            assert forall|p: int| 0 <= p < rest.len() implies rest[p] != job by {
                assert(rest[p] == before.queue[p + 1]);
            }
            lemma_cost_frame(rest, before.budget, after.budget);
            lemma_cost_push(rest, job, after.budget);
            assert forall|p: int| 0 <= p < after.queue.len() implies match #[trigger] after.queue[p] {
                Job::Spawn(polls) => polls >= 1,
                Job::Resume(id) => after.state.tasks.contains_key(id)
                    && after.budget.contains_key(id) && after.budget[id] >= 1,
            } by {
                if p < rest.len() {
                    assert(after.queue[p] == before.queue[p + 1]);
                }
            }
            assert forall|p: int, r: int| 0 <= p < r < after.queue.len() implies !(
            #[trigger] after.queue[p] is Resume && #[trigger] after.queue[r] is Resume
                && after.queue[p] == after.queue[r]) by {
                assert(after.queue[p] == before.queue[p + 1]);
                if r < rest.len() {
                    assert(after.queue[r] == before.queue[r + 1]);
                }
            }
            assert forall|other: TaskId| #[trigger]
                after.state.tasks.contains_key(other) implies after.queue.contains(
                Job::Resume(other),
            ) by {
                if other == id {
                    assert(after.queue[rest.len() as int] == job);
                } else {
                    lemma_still_scheduled(before, other);
                    let p = choose|p: int|
                        0 <= p < rest.len() && rest[p] == Job::Resume(other);
                    assert(after.queue[p] == Job::Resume(other));
                }
            }
        },
        Job::Resume(id) => {
            assert(before.state.tasks.contains_key(id));
            assert forall|p: int| 0 <= p < rest.len() implies rest[p] != Job::Resume(id) by {
                assert(rest[p] == before.queue[p + 1]);
            }
            lemma_cost_frame(rest, before.budget, after.budget);
            if before.budget[id] <= 1 {
                before.state.lemma_settled_wf(id, true);
                assert forall|p: int| 0 <= p < after.queue.len() implies match #[trigger] after.queue[p] {
                    Job::Spawn(polls) => polls >= 1,
                    Job::Resume(id) => after.state.tasks.contains_key(id)
                        && after.budget.contains_key(id) && after.budget[id] >= 1,
                } by {
                    assert(after.queue[p] == before.queue[p + 1]);
                }
                assert forall|p: int, r: int| 0 <= p < r < after.queue.len() implies !(
                #[trigger] after.queue[p] is Resume && #[trigger] after.queue[r] is Resume
                    && after.queue[p] == after.queue[r]) by {
                    assert(after.queue[p] == before.queue[p + 1]);
                    assert(after.queue[r] == before.queue[r + 1]);
                }
                assert forall|other: TaskId| #[trigger]
                    after.state.tasks.contains_key(other) implies after.queue.contains(
                    Job::Resume(other),
                ) by {
                    lemma_still_scheduled(before, other);
                }
                assert forall|i: int| 0 <= i < after.completed.len() implies after.state.retired(
                    #[trigger] after.completed[i],
                ) by {
                    if i < before.completed.len() {
                        assert(after.completed[i] == before.completed[i]);
                    }
                }
                assert forall|i: int, j: int| 0 <= i < j < after.completed.len() implies
                    #[trigger] after.completed[i] != #[trigger] after.completed[j] by {
                    assert(after.completed[i] == before.completed[i]);
                    if j < before.completed.len() {
                        assert(after.completed[j] == before.completed[j]);
                    }
                }
            } else {
                let job = Job::Resume(id);
                lemma_cost_push(rest, job, after.budget);
                assert forall|p: int| 0 <= p < after.queue.len() implies match #[trigger] after.queue[p] {
                    Job::Spawn(polls) => polls >= 1,
                    Job::Resume(id) => after.state.tasks.contains_key(id)
                        && after.budget.contains_key(id) && after.budget[id] >= 1,
                } by {
                    if p < rest.len() {
                        assert(after.queue[p] == before.queue[p + 1]);
                    }
                }
                assert forall|p: int, r: int| 0 <= p < r < after.queue.len() implies !(
                #[trigger] after.queue[p] is Resume && #[trigger] after.queue[r] is Resume
                    && after.queue[p] == after.queue[r]) by {
                    assert(after.queue[p] == before.queue[p + 1]);
                    if r < rest.len() {
                        assert(after.queue[r] == before.queue[r + 1]);
                    }
                }
                assert forall|other: TaskId| #[trigger]
                    after.state.tasks.contains_key(other) implies after.queue.contains(
                    Job::Resume(other),
                ) by {
                    if other == id {
                        assert(after.queue[rest.len() as int] == job);
                    } else {
                        lemma_still_scheduled(before, other);
                        let p = choose|p: int|
                            0 <= p < rest.len() && rest[p] == Job::Resume(other);
                        assert(after.queue[p] == Job::Resume(other));
                    }
                }
            }
        },
    }
}

/// A task in flight that is not the one resumed by the oldest job has its
/// resumption further back in the queue.
pub proof fn lemma_still_scheduled(world: World, id: TaskId)
    requires
        world.inv(),
        world.queue.len() > 0,
        world.state.tasks.contains_key(id),
        world.queue[0] != Job::Resume(id),
    ensures
        world.queue.skip(1).contains(Job::Resume(id)),
{
    let p = choose|p: int| 0 <= p < world.queue.len() && world.queue[p] == Job::Resume(id);
    assert(world.queue.skip(1)[p - 1] == Job::Resume(id));
}

/// Every world of an execution is in order, and each step has used up one of
/// the steps that the first queue stood for.
pub proof fn lemma_execution_counts(
    worlds: Seq<World>,
    items: Seq<WorkItem>,
    outcomes: Seq<Outcome>,
    handle: WorkQueue,
    k: int,
)
    requires
        execution(worlds, items, outcomes, handle),
        worlds[0].inv(),
        0 <= k <= items.len(),
    ensures
        worlds[k].inv(),
        cost(worlds[k].queue, worlds[k].budget) + k == cost(worlds[0].queue, worlds[0].budget),
        worlds[k].completed.len() + worlds[k].queue.len() == worlds[0].completed.len()
            + worlds[0].queue.len(),
    decreases k,
{
    if k > 0 {
        lemma_execution_counts(worlds, items, outcomes, handle, k - 1);
        assert(next_at(worlds, items, outcomes, handle, k - 1));
        law_step_uses_one(worlds[k - 1], handle, items[k - 1], outcomes[k - 1], worlds[k]);
    }
}

/// Computations that are done after a fixed number of polls, and never wait,
/// all complete, each of them once, and then the event loop is over.
///
/// The executor starts with no task, and with a queue that holds one spawn
/// for each computation. However it goes through its steps, it cannot take
/// more of them than one for each spawn and one for each poll. When the
/// queue is empty, it has taken exactly that many, no task is left, every
/// computation has completed under an identity of its own, and the executor
/// is finished: it never blocks, and it does not stall.
pub proof fn law_yielding_computations_complete_once(
    polls: Seq<nat>,
    worlds: Seq<World>,
    items: Seq<WorkItem>,
    outcomes: Seq<Outcome>,
    handle: WorkQueue,
)
    requires
        forall|i: int| 0 <= i < polls.len() ==> #[trigger] polls[i] >= 1,
        execution(worlds, items, outcomes, handle),
        worlds[0].state.wf(),
        worlds[0].state.tasks.dom() == Set::<TaskId>::empty(),
        worlds[0].queue == spawns(polls),
        worlds[0].completed.len() == 0,
    ensures
        items.len() <= polls.len() + total(polls),
        worlds.last().queue.len() == 0 ==> {
            &&& items.len() == polls.len() + total(polls)
            &&& worlds.last().state.at_rest() == Rest::Finished
            &&& worlds.last().completed.len() == polls.len()
            &&& worlds.last().completed_once()
        },
{
    let first = worlds[0];
    assert(first.jobs_sound()) by {
        assert forall|p: int| 0 <= p < first.queue.len() implies match #[trigger] first.queue[p] {
            Job::Spawn(needed) => needed >= 1,
            Job::Resume(id) => first.state.tasks.contains_key(id) && first.budget.contains_key(
                id,
            ) && first.budget[id] >= 1,
        } by {
            assert(first.queue[p] == Job::Spawn(polls[p]));
        }
    }
    assert(first.resumed_once()) by {
        assert forall|p: int, r: int| 0 <= p < r < first.queue.len() implies !(
        #[trigger] first.queue[p] is Resume && #[trigger] first.queue[r] is Resume
            && first.queue[p] == first.queue[r]) by {
            assert(first.queue[p] == Job::Spawn(polls[p]));
        }
    }
    assert(first.all_scheduled()) by {
        assert forall|id: TaskId| #[trigger]
            first.state.tasks.contains_key(id) implies first.queue.contains(Job::Resume(id)) by {
            assert(first.state.tasks.dom().contains(id));
        }
    }
    lemma_cost_of_spawns(polls, first.budget);
    let n = items.len() as int;
    lemma_execution_counts(worlds, items, outcomes, handle, n);
    let last = worlds.last();
    assert(last == worlds[n]);
    if last.queue.len() == 0 {
        assert(cost(last.queue, last.budget) == 0);
        assert(last.state.tasks.dom() =~= Set::<TaskId>::empty()) by {
            assert forall|id: TaskId| !last.state.tasks.contains_key(id) by {
                if last.state.tasks.contains_key(id) {
                    assert(last.queue.contains(Job::Resume(id)));
                }
            }
        }
    }
}

} // verus!
