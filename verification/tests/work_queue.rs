use waitable_executor::handle::HandleRef;
use waitable_executor::manager::Outcome;
use waitable_executor::manager::Rest;
use waitable_executor::manager::Turn;
use waitable_executor::manager::WaitableManager;
use waitable_executor::task::Computation;
use waitable_executor::task::PollContext;
use waitable_executor::task::TaskId;
use waitable_executor::work_queue::QueueWaker;
use waitable_executor::work_queue::WorkItem;

/// A computation that is never done and never waits.
struct Idle;

impl Computation for Idle {
    fn poll(&mut self, _cx: &PollContext) -> bool {
        false
    }
}

#[test]
fn waker_makes_a_resume_item_for_its_task() {
    let queue = WaitableManager::new().work_queue();
    let id = TaskId { slot: 4, generation: 2 };
    let waker = QueueWaker::new(queue, id);

    assert_eq!(waker.id, id);
    assert!(matches!(waker.resume_item(), WorkItem::Resume(target) if target == id));
    assert_eq!(waker.clone().id, id);
}

#[test]
fn wait_item_names_handle_waker_and_polled_task() {
    let queue = WaitableManager::new().work_queue();
    let polled = TaskId { slot: 1, generation: 0 };
    let woken = TaskId { slot: 2, generation: 5 };
    let cx = PollContext::for_task(polled, QueueWaker::new(queue, woken));

    match WorkItem::wait_on(HandleRef::new(17), &cx) {
        WorkItem::WaitOnHandle(handle, waker, id) => {
            assert_eq!(handle, HandleRef::new(17));
            assert_eq!(waker.id, woken);
            assert_eq!(id, polled);
        }
        _ => panic!("not a wait"),
    }
}

#[test]
fn wake_queues_one_resumption_per_call() {
    let mut manager = WaitableManager::new();
    let queue = manager.work_queue();
    let id = manager.spawn_task(Box::new(Idle));
    // The spawn has scheduled the first poll.
    assert_eq!(manager.turn(), Turn::Handled(Outcome::Pending(id)));
    assert_eq!(manager.turn(), Turn::Drained(Rest::Stalled));

    let waker = QueueWaker::new(queue, id);
    waker.wake();
    waker.clone().wake();
    assert_eq!(manager.turn(), Turn::Handled(Outcome::Pending(id)));
    assert_eq!(manager.turn(), Turn::Handled(Outcome::Pending(id)));
    assert_eq!(manager.turn(), Turn::Drained(Rest::Stalled));
}

#[test]
fn items_leave_the_queue_in_the_order_of_their_arrival() {
    let mut manager = WaitableManager::new();
    let queue = manager.work_queue();
    let a = manager.spawn_task(Box::new(Idle));
    let b = manager.spawn_task(Box::new(Idle));
    let cx = PollContext::for_task(b, QueueWaker::new(queue.clone(), b));
    queue.wait_for(HandleRef::new(1), &cx);
    QueueWaker::new(queue.clone(), a).wake();
    queue.spawn(Box::new(Idle));

    assert_eq!(manager.turn(), Turn::Handled(Outcome::Pending(a)));
    assert_eq!(manager.turn(), Turn::Handled(Outcome::Pending(b)));
    assert_eq!(manager.turn(), Turn::Handled(Outcome::Registered(b)));
    assert_eq!(manager.turn(), Turn::Handled(Outcome::Pending(a)));
    let c = match manager.turn() {
        Turn::Handled(Outcome::Spawned(c)) => c,
        other => panic!("unexpected turn {:?}", other),
    };
    assert_ne!(c, a);
    assert_ne!(c, b);
    assert_eq!(manager.turn(), Turn::Handled(Outcome::Pending(c)));
    assert_eq!(manager.turn(), Turn::Drained(Rest::Blocked));
}

#[test]
fn dispatch_handles_each_kind_of_item() {
    let mut manager = WaitableManager::new();
    let queue = manager.work_queue();

    let id = match manager.dispatch(WorkItem::Spawn(Box::new(Idle))) {
        Outcome::Spawned(id) => id,
        other => panic!("unexpected outcome {:?}", other),
    };
    assert_eq!(manager.dispatch(WorkItem::Resume(id)), Outcome::Pending(id));
    let waker = QueueWaker::new(queue.clone(), id);
    assert_eq!(
        manager.dispatch(WorkItem::WaitOnHandle(HandleRef::new(6), waker, id)),
        Outcome::Registered(id)
    );
    assert_eq!(*manager.waitables(), vec![HandleRef::new(6)]);

    let stranger = TaskId { slot: id.slot, generation: id.generation + 1 };
    assert_eq!(manager.dispatch(WorkItem::Resume(stranger)), Outcome::Skipped(stranger));
    let waker = QueueWaker::new(queue, stranger);
    assert_eq!(
        manager.dispatch(WorkItem::WaitOnHandle(HandleRef::new(7), waker, stranger)),
        Outcome::Skipped(stranger)
    );
    assert_eq!(*manager.waitables(), vec![HandleRef::new(6)]);
}

#[test]
fn signal_invokes_the_waker_that_was_registered() {
    let mut manager = WaitableManager::new();
    let queue = manager.work_queue();
    let a = manager.spawn_task(Box::new(Idle));
    let b = manager.spawn_task(Box::new(Idle));
    assert_eq!(manager.turn(), Turn::Handled(Outcome::Pending(a)));
    assert_eq!(manager.turn(), Turn::Handled(Outcome::Pending(b)));

    // Task a waits on handle 9, and asks that the waker of task b be invoked.
    assert!(manager.register_wait(HandleRef::new(9), QueueWaker::new(queue, b), a));
    assert_eq!(manager.turn(), Turn::Drained(Rest::Blocked));

    manager.signal(0);
    assert_eq!(manager.turn(), Turn::Handled(Outcome::Pending(b)));
    assert_eq!(manager.turn(), Turn::Drained(Rest::Stalled));
}

#[test]
fn default_manager_is_a_new_manager() {
    let mut manager = WaitableManager::default();
    assert!(!manager.has_tasks());
    assert!(manager.waitables().is_empty());
    assert_eq!(manager.turn(), Turn::Drained(Rest::Finished));
}
