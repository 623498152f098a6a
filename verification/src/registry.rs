//! The task registry: tasks under identities that are never handed out twice.

use vstd::prelude::*;
use crate::task::Computation;
use crate::task::PollContext;
use crate::task::Task;
use crate::task::TaskId;
use crate::task::TaskRecord;
use crate::work_queue::QueueWaker;
use crate::work_queue::WorkQueue;
use generational_arena::Arena;
use generational_arena::Index;

verus! {

/// `generational_arena::Arena`: the verifier knows the type and nothing of
/// what is inside.
#[verifier::external_type_specification]
#[verifier::external_body]
#[verifier::reject_recursive_types(T)]
pub struct ExArena<T>(Arena<T>);

/// The tasks that an arena holds, each under the identity made of the raw
/// parts of its `generational_arena::Index`: the slot and the generation.
///
/// The arena finds an element by its slot and then compares generations, so
/// an identity that it never handed out is simply not found.
pub uninterp spec fn arena_entries(arena: Arena<Task>) -> Map<TaskId, Task>;

/// The generation counter of an arena: the generation that the next insertion
/// stamps on its index. It starts at zero and goes up by one with every
/// removal that takes an element out.
pub uninterp spec fn arena_generation(arena: Arena<Task>) -> u64;

/// `Arena::new`: an arena that holds nothing, in generation zero.
#[verifier::external_body]
fn arena_new() -> (made: Arena<Task>)
    ensures
        arena_entries(made).dom() == Set::<TaskId>::empty(),
        arena_generation(made) == 0,
{
    Arena::new()
}

/// `Arena::insert`: stores `task` in a free slot, under an index that is not
/// in use and carries the current generation. The generation stays.
#[verifier::external_body]
fn arena_insert(arena: &mut Arena<Task>, task: Task) -> (id: TaskId)
    ensures
        !arena_entries(*old(arena)).contains_key(id),
        id.generation == arena_generation(*old(arena)),
        arena_entries(*final(arena)) == arena_entries(*old(arena)).insert(id, task),
        arena_generation(*final(arena)) == arena_generation(*old(arena)),
{
    let (slot, generation) = arena.insert(task).into_raw_parts();
    TaskId { slot, generation }
}

/// `Arena::get_mut`: lends the task stored under `id`, if there is one.
/// Whatever the borrower leaves in it is what the arena then holds under `id`;
/// nothing else changes.
#[verifier::external_body]
fn arena_get_mut(arena: &mut Arena<Task>, id: TaskId) -> (found: Option<&mut Task>)
    ensures
        match found {
            Some(task) => arena_entries(*old(arena)).contains_key(id)
                && *task == arena_entries(*old(arena))[id]
                && arena_entries(*final(arena)) == arena_entries(*old(arena)).insert(
                id,
                *final(task),
            ),
            None => !arena_entries(*old(arena)).contains_key(id)
                && arena_entries(*final(arena)) == arena_entries(*old(arena)),
        },
        arena_generation(*final(arena)) == arena_generation(*old(arena)),
{
    arena.get_mut(Index::from_raw_parts(id.slot, id.generation))
}

/// `Arena::remove`: takes out the task stored under `id`, if there is one, and
/// then moves on to the next generation. The counter is a `u64` that the
/// arena increments without a check, so a removal needs room above it.
#[verifier::external_body]
fn arena_remove(arena: &mut Arena<Task>, id: TaskId) -> (removed: Option<Task>)
    requires
        arena_entries(*old(arena)).contains_key(id) ==> arena_generation(*old(arena)) < u64::MAX,
    ensures
        removed == if arena_entries(*old(arena)).contains_key(id) {
            Some(arena_entries(*old(arena))[id])
        } else {
            None
        },
        arena_entries(*final(arena)) == arena_entries(*old(arena)).remove(id),
        arena_generation(*final(arena)) == if arena_entries(*old(arena)).contains_key(id) {
            arena_generation(*old(arena)) + 1
        } else {
            arena_generation(*old(arena)) as int
        },
{
    arena.remove(Index::from_raw_parts(id.slot, id.generation))
}

/// `Arena::contains`: whether a task is stored under `id`.
#[verifier::external_body]
fn arena_contains(arena: &Arena<Task>, id: TaskId) -> (present: bool)
    ensures
        present == arena_entries(*arena).contains_key(id),
{
    arena.contains(Index::from_raw_parts(id.slot, id.generation))
}

/// `Arena::is_empty`: whether the arena holds no task at all.
#[verifier::external_body]
fn arena_is_empty(arena: &Arena<Task>) -> (empty: bool)
    ensures
        empty == (arena_entries(*arena).dom() == Set::<TaskId>::empty()),
{
    arena.is_empty()
}

/// The tasks in flight, each under its identity.
///
/// The registry counts the tasks it has retired. The count is the generation
/// of the arena below, so the registry can tell when the arena has run out of
/// generations.
pub struct Registry {
    arena: Arena<Task>,
    retirements: u64,
}

impl Registry {
    /// What the registry knows of each task in flight.
    pub closed spec fn tasks(&self) -> Map<TaskId, TaskRecord> {
        arena_entries(self.arena).map_values(|task: Task| task@)
    }

    /// The generation that the next enrolment stamps on its task.
    pub closed spec fn generation(&self) -> u64 {
        self.retirements
    }

    /// The registry is consistent: its count agrees with the arena, no task in
    /// flight is newer than the current generation, and each has its waker.
    pub closed spec fn wf(&self) -> bool {
        &&& self.retirements == arena_generation(self.arena)
        &&& forall|id: TaskId| #[trigger]
            arena_entries(self.arena).contains_key(id) ==> id.generation <= self.retirements
                && arena_entries(self.arena)[id].resume_handle.is_some()
    }

    /// The task `id` is in flight.
    pub open spec fn contains(&self, id: TaskId) -> bool {
        self.tasks().contains_key(id)
    }

    /// The identity `id` belongs to a generation that is over, and names no
    /// task in flight: it is stale, and stays so.
    pub open spec fn retired(&self, id: TaskId) -> bool {
        !self.contains(id) && id.generation < self.generation()
    }

    /// An empty registry, in generation zero.
    pub fn new() -> (registry: Registry)
        ensures
            registry.wf(),
            registry.tasks() == Map::<TaskId, TaskRecord>::empty(),
            registry.generation() == 0,
    {
        let registry = Registry { arena: arena_new(), retirements: 0 };
        assert(registry.tasks() =~= Map::<TaskId, TaskRecord>::empty());
        registry
    }

    /// Makes a task of `computation` and gives it the waker that schedules it
    /// on `queue`. The identity of the task is new: it names no task in
    /// flight, and it is not stale.
    pub fn enroll(&mut self, computation: Box<dyn Computation>, queue: &WorkQueue) -> (id: TaskId)
        requires
            old(self).wf(),
        ensures
            final(self).wf(),
            !old(self).contains(id),
            id.generation == old(self).generation(),
            final(self).tasks() == old(self).tasks().insert(
                id,
                TaskRecord::fresh(QueueWaker { queue: *queue, id }),
            ),
            final(self).generation() == old(self).generation(),
    {
        let id = arena_insert(&mut self.arena, Task::new(computation));
        let waker = QueueWaker::new(queue.clone(), id);
        match arena_get_mut(&mut self.arena, id) {
            Some(task) => {
                task.resume_handle = Some(waker);
            },
            None => {},
        }
        assert(self.tasks() =~= old(self).tasks().insert(
            id,
            TaskRecord::fresh(QueueWaker { queue: *queue, id }),
        ));
        id
    }

    /// Whether the task `id` is in flight.
    pub fn is_live(&self, id: TaskId) -> (live: bool)
        ensures
            live == self.contains(id),
    {
        arena_contains(&self.arena, id)
    }

    /// Whether no task is in flight.
    pub fn is_empty(&self) -> (empty: bool)
        ensures
            empty == (self.tasks() == Map::<TaskId, TaskRecord>::empty()),
    {
        let empty = arena_is_empty(&self.arena);
        proof {
            if empty {
                assert(self.tasks() =~= Map::<TaskId, TaskRecord>::empty());
            } else {
                assert(self.tasks().dom() =~= arena_entries(self.arena).dom());
            }
        }
        empty
    }

    /// Whether the arena has used up its generations: no task can be retired
    /// any more.
    pub fn is_exhausted(&self) -> (exhausted: bool)
        ensures
            exhausted == (self.generation() == u64::MAX),
    {
        self.retirements == u64::MAX
    }

    /// Polls the task `id` once, in a context that names the task and carries
    /// its waker, and says what the computation reported. `None` if no such
    /// task is in flight; nothing is polled then. The notes on the tasks stay
    /// as they are either way.
    pub fn poll(&mut self, id: TaskId) -> (ready: Option<bool>)
        requires
            old(self).wf(),
        ensures
            final(self).wf(),
            final(self).tasks() == old(self).tasks(),
            final(self).generation() == old(self).generation(),
            ready.is_some() == old(self).contains(id),
    {
        let ready = match arena_get_mut(&mut self.arena, id) {
            Some(task) => {
                match &task.resume_handle {
                    Some(waker) => {
                        let cx = PollContext::for_task(id, waker.clone());
                        Some(task.computation.poll(&cx))
                    },
                    None => None,
                }
            },
            None => None,
        };
        assert(self.tasks() =~= old(self).tasks());
        ready
    }

    /// Notes that the task `id` waits on the handle with number `raw`. Returns
    /// whether the task is in flight; if it is not, nothing changes.
    pub fn note_wait(&mut self, id: TaskId, raw: u32) -> (known: bool)
        requires
            old(self).wf(),
        ensures
            final(self).wf(),
            known == old(self).contains(id),
            final(self).tasks() == if known {
                old(self).tasks().insert(id, old(self).tasks()[id].waiting_on(raw))
            } else {
                old(self).tasks()
            },
            final(self).generation() == old(self).generation(),
    {
        let known = match arena_get_mut(&mut self.arena, id) {
            Some(task) => {
                task.awaiting.push(raw);
                true
            },
            None => false,
        };
        assert(self.tasks() =~= if known {
            old(self).tasks().insert(id, old(self).tasks()[id].waiting_on(raw))
        } else {
            old(self).tasks()
        });
        known
    }

    /// Takes the task `id` out of the registry and closes the current
    /// generation, so that `id` is stale from now on. `None` if no such task is
    /// in flight; nothing changes then.
    pub fn retire(&mut self, id: TaskId) -> (removed: Option<Task>)
        requires
            old(self).wf(),
            old(self).contains(id) ==> old(self).generation() < u64::MAX,
        ensures
            final(self).wf(),
            removed.is_some() == old(self).contains(id),
            removed matches Some(task) ==> task@ == old(self).tasks()[id],
            final(self).tasks() == old(self).tasks().remove(id),
            final(self).generation() == if old(self).contains(id) {
                old(self).generation() + 1
            } else {
                old(self).generation() as int
            },
            old(self).contains(id) ==> final(self).retired(id),
    {
        let removed = arena_remove(&mut self.arena, id);
        if removed.is_some() {
            self.retirements = self.retirements + 1;
        }
        assert(self.tasks() =~= old(self).tasks().remove(id));
        removed
    }
}

} // verus!
