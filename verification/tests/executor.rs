use std::sync::Arc;
use std::sync::Mutex;

use waitable_executor::handle::HandleRef;
use waitable_executor::manager::Outcome;
use waitable_executor::manager::Rest;
use waitable_executor::manager::Turn;
use waitable_executor::manager::WaitableManager;
use waitable_executor::task::Computation;
use waitable_executor::task::PollContext;
use waitable_executor::task::TaskId;
use waitable_executor::work_queue::QueueWaker;
use waitable_executor::work_queue::UsageFault;
use waitable_executor::work_queue::WorkQueue;

/// What a scripted computation does at one poll.
#[derive(Clone, Copy)]
enum Move {
    /// Reports that it is done.
    Finish,
    /// Registers a wait on the handle with this raw number, then waits.
    WaitOn(u32),
    /// Wakes itself, then waits.
    Yield,
    /// Waits without having registered anything.
    Stall,
}

/// The polls that were made, in order: the name of the computation and the
/// identity under which it was polled.
type Journal = Arc<Mutex<Vec<(u32, Option<TaskId>)>>>;

struct Scripted {
    name: u32,
    queue: WorkQueue,
    plan: Vec<Move>,
    at: usize,
    journal: Journal,
}

impl Computation for Scripted {
    fn poll(&mut self, cx: &PollContext) -> bool {
        self.journal.lock().unwrap().push((self.name, cx.current_task()));
        let step = self.plan[self.at];
        self.at += 1;
        match step {
            Move::Finish => true,
            Move::WaitOn(raw) => {
                self.queue.wait_for(HandleRef::new(raw), cx);
                false
            }
            Move::Yield => {
                cx.waker().wake();
                false
            }
            Move::Stall => false,
        }
    }
}

fn scripted(name: u32, queue: &WorkQueue, journal: &Journal, plan: Vec<Move>) -> Box<dyn Computation> {
    Box::new(Scripted { name, queue: queue.clone(), plan, at: 0, journal: journal.clone() })
}

fn names(journal: &Journal) -> Vec<u32> {
    journal.lock().unwrap().iter().map(|entry| entry.0).collect()
}

fn polls_of(journal: &Journal, name: u32) -> usize {
    journal.lock().unwrap().iter().filter(|entry| entry.0 == name).count()
}

/// How an event loop over the manager ended.
struct Report {
    /// The lists of handles that the kernel was asked to wait on.
    waits: Vec<Vec<u32>>,
    /// The number of polls made before each blocking wait.
    polls_before_wait: Vec<usize>,
    /// How the loop came to rest.
    rest: Rest,
}

/// Runs the event loop. Each time the manager blocks, the kernel signals the
/// next handle of `signals`; the loop ends when the manager is finished or
/// stalled, or when the kernel has no signal left.
fn drive(manager: &mut WaitableManager, journal: &Journal, signals: &[u32]) -> Report {
    let mut report = Report { waits: Vec::new(), polls_before_wait: Vec::new(), rest: Rest::Finished };
    let mut next = 0;
    loop {
        match manager.turn() {
            Turn::Handled(_) => {}
            Turn::Drained(Rest::Blocked) => {
                let handles: Vec<u32> = manager.waitables().iter().map(|h| h.get()).collect();
                if next == signals.len() {
                    report.rest = Rest::Blocked;
                    return report;
                }
                let index = handles.iter().position(|raw| *raw == signals[next]).unwrap();
                next += 1;
                report.polls_before_wait.push(journal.lock().unwrap().len());
                report.waits.push(handles);
                manager.signal(index);
            }
            Turn::Drained(rest) => {
                report.rest = rest;
                return report;
            }
            Turn::Exhausted => panic!("the registry ran out of generations"),
        }
    }
}

fn journal() -> Journal {
    Arc::new(Mutex::new(Vec::new()))
}

#[test]
fn fresh_manager_is_finished() {
    let mut manager = WaitableManager::new();
    assert_eq!(manager.turn(), Turn::Drained(Rest::Finished));
    assert_eq!(manager.rest(), Rest::Finished);
    assert!(!manager.has_tasks());
    assert!(manager.waitables().is_empty());
}

#[test]
fn task_that_completes_at_once_needs_no_wait() {
    let mut manager = WaitableManager::new();
    let queue = manager.work_queue();
    let journal = journal();
    queue.spawn(scripted(1, &queue, &journal, vec![Move::Finish]));

    let report = drive(&mut manager, &journal, &[]);

    assert_eq!(report.rest, Rest::Finished);
    assert!(report.waits.is_empty());
    assert!(!manager.has_tasks());
    assert_eq!(names(&journal), vec![1]);
}

#[test]
fn spawn_is_handled_in_two_turns() {
    let mut manager = WaitableManager::new();
    let queue = manager.work_queue();
    let journal = journal();
    queue.spawn(scripted(1, &queue, &journal, vec![Move::Finish]));

    let id = match manager.turn() {
        Turn::Handled(Outcome::Spawned(id)) => id,
        other => panic!("unexpected turn {:?}", other),
    };
    assert!(manager.is_live(id));
    assert!(manager.has_tasks());
    assert!(names(&journal).is_empty());

    assert_eq!(manager.turn(), Turn::Handled(Outcome::Completed(id)));
    assert!(!manager.is_live(id));
    assert_eq!(*journal.lock().unwrap(), vec![(1, Some(id))]);

    assert_eq!(manager.turn(), Turn::Drained(Rest::Finished));
}

#[test]
fn task_waits_on_handle_then_completes() {
    let mut manager = WaitableManager::new();
    let queue = manager.work_queue();
    let journal = journal();
    queue.spawn(scripted(2, &queue, &journal, vec![Move::WaitOn(7), Move::Finish]));

    let report = drive(&mut manager, &journal, &[7]);

    assert_eq!(report.rest, Rest::Finished);
    assert_eq!(report.waits, vec![vec![7]]);
    assert_eq!(report.polls_before_wait, vec![1]);
    assert_eq!(names(&journal), vec![2, 2]);
    assert!(!manager.has_tasks());
    assert!(manager.waitables().is_empty());
}

#[test]
fn two_waiters_of_one_handle_resume_in_one_pass() {
    let mut manager = WaitableManager::new();
    let queue = manager.work_queue();
    let journal = journal();
    queue.spawn(scripted(3, &queue, &journal, vec![Move::WaitOn(9), Move::Finish]));
    queue.spawn(scripted(4, &queue, &journal, vec![Move::WaitOn(9), Move::Finish]));

    let report = drive(&mut manager, &journal, &[9]);

    assert_eq!(report.rest, Rest::Finished);
    assert_eq!(report.waits, vec![vec![9]]);
    assert_eq!(report.polls_before_wait, vec![2]);
    assert_eq!(names(&journal), vec![3, 4, 3, 4]);
}

#[test]
fn waiters_resume_in_the_order_of_their_registration() {
    let mut manager = WaitableManager::new();
    let queue = manager.work_queue();
    let journal = journal();
    // The second computation registers first: it is spawned first.
    queue.spawn(scripted(20, &queue, &journal, vec![Move::WaitOn(5), Move::Finish]));
    queue.spawn(scripted(10, &queue, &journal, vec![Move::Yield, Move::WaitOn(5), Move::Finish]));
    queue.spawn(scripted(30, &queue, &journal, vec![Move::WaitOn(5), Move::Finish]));

    let report = drive(&mut manager, &journal, &[5]);

    assert_eq!(report.rest, Rest::Finished);
    assert_eq!(report.waits, vec![vec![5]]);
    // 20 and 30 register at their first poll, 10 at its second.
    assert_eq!(names(&journal), vec![20, 10, 30, 10, 20, 30, 10]);
}

#[test]
fn signal_resumes_only_the_waiters_of_its_handle() {
    let mut manager = WaitableManager::new();
    let queue = manager.work_queue();
    let journal = journal();
    queue.spawn(scripted(1, &queue, &journal, vec![Move::WaitOn(11), Move::Finish]));
    queue.spawn(scripted(2, &queue, &journal, vec![Move::WaitOn(22), Move::Finish]));

    // Only handle 22 is ever signaled.
    let report = drive(&mut manager, &journal, &[22]);

    assert_eq!(report.rest, Rest::Blocked);
    assert_eq!(report.waits, vec![vec![11, 22]]);
    assert_eq!(names(&journal), vec![1, 2, 2]);
    assert_eq!(polls_of(&journal, 1), 1);
    assert!(manager.has_tasks());
    let left: Vec<u32> = manager.waitables().iter().map(|h| h.get()).collect();
    assert_eq!(left, vec![11]);

    // Now handle 11 is signaled, and the first task is resumed.
    let report = drive(&mut manager, &journal, &[11]);
    assert_eq!(report.rest, Rest::Finished);
    assert_eq!(names(&journal), vec![1, 2, 2, 1]);
}

#[test]
fn computations_that_yield_complete_exactly_once() {
    let mut manager = WaitableManager::new();
    let queue = manager.work_queue();
    let journal = journal();
    queue.spawn(scripted(1, &queue, &journal, vec![Move::Finish]));
    queue.spawn(scripted(2, &queue, &journal, vec![Move::Yield, Move::Finish]));
    queue.spawn(scripted(3, &queue, &journal, vec![Move::Yield, Move::Yield, Move::Finish]));

    let mut completed = Vec::new();
    let mut turns = 0;
    let rest = loop {
        turns += 1;
        match manager.turn() {
            Turn::Handled(Outcome::Completed(id)) => completed.push(id),
            Turn::Handled(_) => {}
            Turn::Drained(rest) => break rest,
            Turn::Exhausted => panic!("the registry ran out of generations"),
        }
    };

    assert_eq!(rest, Rest::Finished);
    // Three spawns, six polls, and the turn that finds the queue empty.
    assert_eq!(turns, 10);
    assert_eq!(names(&journal), vec![1, 2, 3, 2, 3, 3]);
    assert_eq!(completed.len(), 3);
    assert_ne!(completed[0], completed[1]);
    assert_ne!(completed[1], completed[2]);
    assert_ne!(completed[0], completed[2]);
    assert!(!manager.has_tasks());
}

#[test]
fn completed_task_is_never_polled_again() {
    let mut manager = WaitableManager::new();
    let queue = manager.work_queue();
    let journal = journal();
    queue.spawn(scripted(1, &queue, &journal, vec![Move::Finish]));

    let id = match manager.turn() {
        Turn::Handled(Outcome::Spawned(id)) => id,
        other => panic!("unexpected turn {:?}", other),
    };
    // A second resumption is queued behind the first poll.
    let waker = QueueWaker::new(queue.clone(), id);
    waker.wake();
    assert_eq!(manager.turn(), Turn::Handled(Outcome::Completed(id)));
    assert_eq!(manager.turn(), Turn::Handled(Outcome::Skipped(id)));
    assert_eq!(polls_of(&journal, 1), 1);

    // The slot of the task is used again, but not its identity.
    queue.spawn(scripted(2, &queue, &journal, vec![Move::WaitOn(3), Move::Finish]));
    let later = match manager.turn() {
        Turn::Handled(Outcome::Spawned(later)) => later,
        other => panic!("unexpected turn {:?}", other),
    };
    assert_eq!(later.slot, id.slot);
    assert_ne!(later.generation, id.generation);
    assert_eq!(manager.turn(), Turn::Handled(Outcome::Pending(later)));
    assert_eq!(manager.turn(), Turn::Handled(Outcome::Registered(later)));

    // A stale resumption does not reach the task that has the slot now.
    waker.wake();
    assert_eq!(manager.turn(), Turn::Handled(Outcome::Skipped(id)));
    assert_eq!(polls_of(&journal, 1), 1);
    assert_eq!(polls_of(&journal, 2), 1);
    assert_eq!(manager.turn(), Turn::Drained(Rest::Blocked));
}

#[test]
fn manager_blocks_while_every_task_waits() {
    let mut manager = WaitableManager::new();
    let queue = manager.work_queue();
    let journal = journal();
    queue.spawn(scripted(1, &queue, &journal, vec![Move::WaitOn(4), Move::Finish]));
    queue.spawn(scripted(2, &queue, &journal, vec![Move::WaitOn(6), Move::Finish]));

    let mut turns = Vec::new();
    loop {
        let turn = manager.turn();
        turns.push(turn);
        if let Turn::Drained(_) = turn {
            break;
        }
    }
    // Two spawns, two polls, two registrations, then the queue is empty.
    assert_eq!(turns.len(), 7);
    assert_eq!(turns[6], Turn::Drained(Rest::Blocked));
    assert_eq!(manager.rest(), Rest::Blocked);

    // The first task completes: the other still waits, and the manager blocks.
    manager.signal(0);
    let report = drive(&mut manager, &journal, &[]);
    assert_eq!(report.rest, Rest::Blocked);
    let left: Vec<u32> = manager.waitables().iter().map(|h| h.get()).collect();
    assert_eq!(left, vec![6]);

    // The last task completes: the manager is finished and does not block.
    manager.signal(0);
    let report = drive(&mut manager, &journal, &[]);
    assert_eq!(report.rest, Rest::Finished);
    assert!(report.waits.is_empty());
}

#[test]
fn task_that_waits_on_nothing_stalls_the_manager() {
    let mut manager = WaitableManager::new();
    let queue = manager.work_queue();
    let journal = journal();
    queue.spawn(scripted(1, &queue, &journal, vec![Move::Stall, Move::Finish]));

    let report = drive(&mut manager, &journal, &[]);

    assert_eq!(report.rest, Rest::Stalled);
    assert!(manager.has_tasks());
    assert_eq!(names(&journal), vec![1]);
}

#[test]
fn wait_outside_of_a_poll_is_a_usage_fault() {
    let mut manager = WaitableManager::new();
    let queue = manager.work_queue();
    let journal = journal();
    queue.spawn(scripted(1, &queue, &journal, vec![Move::WaitOn(3), Move::Finish]));
    let id = match manager.turn() {
        Turn::Handled(Outcome::Spawned(id)) => id,
        other => panic!("unexpected turn {:?}", other),
    };
    assert_eq!(manager.turn(), Turn::Handled(Outcome::Pending(id)));
    assert_eq!(manager.turn(), Turn::Handled(Outcome::Registered(id)));
    assert_eq!(manager.turn(), Turn::Drained(Rest::Blocked));

    // Code that no executor polls asks for a wait, with the waker of the task.
    let outside = PollContext::detached(QueueWaker::new(queue.clone(), id));
    assert_eq!(queue.try_wait_for(HandleRef::new(4), &outside), Err(UsageFault::OutsidePoll));

    // Nothing was submitted: the queue is empty, and handle 4 is not watched.
    assert_eq!(manager.turn(), Turn::Drained(Rest::Blocked));
    assert_eq!(*manager.waitables(), vec![HandleRef::new(3)]);

    // From inside a poll the same request is taken.
    let inside = PollContext::for_task(id, QueueWaker::new(queue.clone(), id));
    assert_eq!(queue.try_wait_for(HandleRef::new(4), &inside), Ok(()));
    assert_eq!(manager.turn(), Turn::Handled(Outcome::Registered(id)));
    assert_eq!(*manager.waitables(), vec![HandleRef::new(3), HandleRef::new(4)]);
}

#[test]
fn poll_context_names_the_task_only_inside_a_poll() {
    let mut manager = WaitableManager::new();
    let queue = manager.work_queue();
    let journal = journal();

    // Outside of any poll a context names no task: no wait can be registered.
    let outside = PollContext::detached(QueueWaker::new(queue.clone(), TaskId { slot: 0, generation: 0 }));
    assert_eq!(outside.current_task(), None);
    assert_eq!(manager.turn(), Turn::Drained(Rest::Finished));

    // Inside a poll the context names the task that is polled.
    queue.spawn(scripted(1, &queue, &journal, vec![Move::Finish]));
    let id = match manager.turn() {
        Turn::Handled(Outcome::Spawned(id)) => id,
        other => panic!("unexpected turn {:?}", other),
    };
    let inside = PollContext::for_task(id, QueueWaker::new(queue.clone(), id));
    assert_eq!(inside.current_task(), Some(id));
    assert_eq!(inside.waker().id, id);
    assert_eq!(manager.turn(), Turn::Handled(Outcome::Completed(id)));
    assert_eq!(*journal.lock().unwrap(), vec![(1, Some(id))]);
}

#[test]
fn wait_for_a_task_that_is_gone_is_dropped() {
    let mut manager = WaitableManager::new();
    let queue = manager.work_queue();
    let journal = journal();
    queue.spawn(scripted(1, &queue, &journal, vec![Move::Finish]));
    let id = match manager.turn() {
        Turn::Handled(Outcome::Spawned(id)) => id,
        other => panic!("unexpected turn {:?}", other),
    };
    assert_eq!(manager.turn(), Turn::Handled(Outcome::Completed(id)));

    let late = PollContext::for_task(id, QueueWaker::new(queue.clone(), id));
    queue.wait_for(HandleRef::new(8), &late);

    assert_eq!(manager.turn(), Turn::Handled(Outcome::Skipped(id)));
    assert!(manager.waitables().is_empty());
    assert_eq!(manager.turn(), Turn::Drained(Rest::Finished));
}

#[test]
fn completion_drops_the_waits_of_the_task() {
    let mut manager = WaitableManager::new();
    let queue = manager.work_queue();
    let journal = journal();
    // The first task waits on 1 and on 2; the second one waits on 2 as well.
    queue.spawn(scripted(1, &queue, &journal, vec![Move::Yield, Move::Finish]));
    queue.spawn(scripted(2, &queue, &journal, vec![Move::WaitOn(2), Move::Finish]));
    let first = match manager.turn() {
        Turn::Handled(Outcome::Spawned(id)) => id,
        other => panic!("unexpected turn {:?}", other),
    };
    let second = match manager.turn() {
        Turn::Handled(Outcome::Spawned(id)) => id,
        other => panic!("unexpected turn {:?}", other),
    };
    let cx = PollContext::for_task(first, QueueWaker::new(queue.clone(), first));
    assert_eq!(manager.turn(), Turn::Handled(Outcome::Pending(first)));
    assert_eq!(manager.turn(), Turn::Handled(Outcome::Pending(second)));
    // Queue: Resume(first), WaitOnHandle(2, second).
    queue.wait_for(HandleRef::new(1), &cx);
    queue.wait_for(HandleRef::new(2), &cx);
    // Queue: Resume(first), WaitOnHandle(2, second), WaitOnHandle(1, first),
    // WaitOnHandle(2, first). The resumption is put behind the waits.
    assert_eq!(manager.register_wait(HandleRef::new(2), QueueWaker::new(queue.clone(), second), second), true);
    assert_eq!(manager.register_wait(HandleRef::new(1), QueueWaker::new(queue.clone(), first), first), true);
    assert_eq!(manager.register_wait(HandleRef::new(2), QueueWaker::new(queue.clone(), first), first), true);
    let watched: Vec<u32> = manager.waitables().iter().map(|h| h.get()).collect();
    assert_eq!(watched, vec![2, 1]);

    // The first task completes: handle 1 has no waiter left and goes, handle
    // 2 stays for the second task.
    assert_eq!(manager.turn(), Turn::Handled(Outcome::Completed(first)));
    let watched: Vec<u32> = manager.waitables().iter().map(|h| h.get()).collect();
    assert_eq!(watched, vec![2]);

    // The waits that are still queued name tasks as before.
    assert_eq!(manager.turn(), Turn::Handled(Outcome::Registered(second)));
    assert_eq!(manager.turn(), Turn::Handled(Outcome::Skipped(first)));
    assert_eq!(manager.turn(), Turn::Handled(Outcome::Skipped(first)));
    assert_eq!(manager.turn(), Turn::Drained(Rest::Blocked));

    // One signal wakes the second task twice: it waits twice on handle 2.
    manager.signal(0);
    assert_eq!(manager.turn(), Turn::Handled(Outcome::Completed(second)));
    assert_eq!(manager.turn(), Turn::Handled(Outcome::Skipped(second)));
    assert_eq!(manager.turn(), Turn::Drained(Rest::Finished));
    assert_eq!(names(&journal), vec![1, 2, 1, 2]);
}

#[test]
fn settle_acts_on_what_the_poll_reported() {
    let mut manager = WaitableManager::new();
    let queue = manager.work_queue();
    let journal = journal();
    let id = manager.spawn_task(scripted(1, &queue, &journal, vec![Move::WaitOn(3), Move::Finish]));
    assert!(manager.is_live(id));

    assert_eq!(manager.resume(id), Some(false));
    manager.settle(id, false);
    assert!(manager.is_live(id));

    assert_eq!(manager.resume(id), Some(true));
    manager.settle(id, true);
    assert!(!manager.is_live(id));

    assert_eq!(manager.resume(id), None);
    manager.settle(id, true);
    assert_eq!(polls_of(&journal, 1), 2);
}

#[test]
fn clones_of_the_work_queue_feed_one_manager() {
    let mut manager = WaitableManager::new();
    let queue = manager.work_queue();
    let other = manager.work_queue();
    let third = other.clone();
    let journal = journal();
    queue.spawn(scripted(1, &queue, &journal, vec![Move::Finish]));
    other.spawn(scripted(2, &other, &journal, vec![Move::Finish]));
    third.spawn(scripted(3, &third, &journal, vec![Move::Finish]));

    let report = drive(&mut manager, &journal, &[]);

    assert_eq!(report.rest, Rest::Finished);
    // The items are handled in the order in which they were submitted: all
    // three spawns first, then the first polls.
    assert_eq!(names(&journal), vec![1, 2, 3]);
}

#[test]
fn queues_of_two_managers_are_apart() {
    let mut one = WaitableManager::new();
    let mut two = WaitableManager::new();
    let journal = journal();
    let queue = one.work_queue();
    queue.spawn(scripted(1, &queue, &journal, vec![Move::Finish]));

    assert_eq!(two.turn(), Turn::Drained(Rest::Finished));
    assert!(names(&journal).is_empty());
    assert!(matches!(one.turn(), Turn::Handled(Outcome::Spawned(_))));
}
