use std::cell::RefCell;
use std::future::Future;
use std::pin::Pin;
use std::rc::Rc;
use std::sync::{Arc, Mutex};
use std::task::{Context, Poll, Wake, Waker};
use waiter_list::waiter::{Elem, List};

/// A task that writes its number into a shared log each time it is woken.
struct Task {
    id: usize,
    log: Arc<Mutex<Vec<usize>>>,
}

impl Wake for Task {
    fn wake(self: Arc<Self>) {
        self.log.lock().unwrap().push(self.id);
    }
}

fn new_log() -> Arc<Mutex<Vec<usize>>> {
    Arc::new(Mutex::new(Vec::new()))
}

fn task(id: usize, log: &Arc<Mutex<Vec<usize>>>) -> Arc<Task> {
    Arc::new(Task { id, log: log.clone() })
}

fn woken(log: &Arc<Mutex<Vec<usize>>>) -> Vec<usize> {
    log.lock().unwrap().clone()
}

fn register(list: &mut List, elem: &Elem, task: &Arc<Task>) {
    let waker = Waker::from(task.clone());
    let mut cx = Context::from_waker(&waker);
    list.enqueue_waiter(elem, &mut cx);
}

#[test]
fn new_list_is_empty() {
    let list = List::new();
    assert!(list.is_empty());
    assert_eq!(list.len(), 0);
    assert_eq!(list.len_backwards(), 0);
}

#[test]
fn default_list_is_empty() {
    let list = List::default();
    assert!(list.is_empty());
    assert_eq!(list.len(), 0);
    assert_eq!(list.len_backwards(), 0);
}

#[test]
fn a_new_record_is_not_linked() {
    let mut list = List::new();
    let elem = Elem::new(&mut list);
    assert!(!list.is_queued(&elem));
    assert!(list.is_empty());
    assert_eq!(list.len(), 0);
}

#[test]
fn length_counts_the_distinct_records_registered() {
    let log = new_log();
    let mut list = List::new();
    let mut elems = Vec::new();
    for id in 0..7 {
        let elem = Elem::new(&mut list);
        register(&mut list, &elem, &task(id, &log));
        elems.push(elem);
        assert_eq!(list.len(), id + 1);
        assert_eq!(list.len_backwards(), id + 1);
        assert!(!list.is_empty());
    }
    for elem in &elems {
        assert!(list.is_queued(elem));
    }
    assert!(woken(&log).is_empty());
}

#[test]
fn registering_twice_links_once() {
    let log = new_log();
    let mut list = List::new();
    let first = Elem::new(&mut list);
    let second = Elem::new(&mut list);
    let first_task = task(1, &log);
    register(&mut list, &first, &first_task);
    register(&mut list, &second, &task(2, &log));
    assert_eq!(list.len(), 2);
    register(&mut list, &first, &first_task);
    assert_eq!(list.len(), 2);
    assert_eq!(list.len_backwards(), 2);
    // the record registered again keeps its place in front of the other
    list.awake_waiters();
    assert_eq!(woken(&log), vec![1, 2]);
}

#[test]
fn a_handle_for_the_same_task_is_kept() {
    let log = new_log();
    let mut list = List::new();
    let elem = Elem::new(&mut list);
    let sleeper = task(1, &log);
    assert_eq!(Arc::strong_count(&sleeper), 1);
    register(&mut list, &elem, &sleeper);
    // the list holds one clone of the handle
    assert_eq!(Arc::strong_count(&sleeper), 2);
    register(&mut list, &elem, &sleeper);
    register(&mut list, &elem, &sleeper);
    // and made no further clone for the same task
    assert_eq!(Arc::strong_count(&sleeper), 2);
    assert_eq!(list.len(), 1);
    list.awake_waiters();
    assert_eq!(woken(&log), vec![1]);
    assert_eq!(Arc::strong_count(&sleeper), 1);
}

#[test]
fn a_handle_for_another_task_replaces_the_stored_one() {
    let log = new_log();
    let mut list = List::new();
    let elem = Elem::new(&mut list);
    let earlier = task(1, &log);
    let later = task(2, &log);
    register(&mut list, &elem, &earlier);
    assert_eq!(Arc::strong_count(&earlier), 2);
    register(&mut list, &elem, &later);
    // the earlier handle was dropped, the later one cloned
    assert_eq!(Arc::strong_count(&earlier), 1);
    assert_eq!(Arc::strong_count(&later), 2);
    assert_eq!(list.len(), 1);
    list.awake_waiters();
    assert_eq!(woken(&log), vec![2]);
}

#[test]
fn wake_all_is_first_in_first_out() {
    let log = new_log();
    let mut list = List::new();
    let r1 = Elem::new(&mut list);
    let r2 = Elem::new(&mut list);
    let r3 = Elem::new(&mut list);
    register(&mut list, &r1, &task(1, &log));
    register(&mut list, &r2, &task(2, &log));
    register(&mut list, &r3, &task(3, &log));
    assert_eq!(list.len(), 3);
    list.awake_waiters();
    assert_eq!(woken(&log), vec![1, 2, 3]);
    assert_eq!(list.len(), 0);
    assert_eq!(list.len_backwards(), 0);
    assert!(list.is_empty());
    assert!(!list.is_queued(&r1));
    assert!(!list.is_queued(&r2));
    assert!(!list.is_queued(&r3));
}

#[test]
fn registration_order_decides_not_creation_order() {
    let log = new_log();
    let mut list = List::new();
    let r1 = Elem::new(&mut list);
    let r2 = Elem::new(&mut list);
    let r3 = Elem::new(&mut list);
    register(&mut list, &r3, &task(3, &log));
    register(&mut list, &r1, &task(1, &log));
    register(&mut list, &r2, &task(2, &log));
    list.awake_waiters();
    assert_eq!(woken(&log), vec![3, 1, 2]);
}

#[test]
fn a_deregistered_record_is_not_woken() {
    let log = new_log();
    let mut list = List::new();
    let r1 = Elem::new(&mut list);
    let r2 = Elem::new(&mut list);
    register(&mut list, &r1, &task(1, &log));
    register(&mut list, &r2, &task(2, &log));
    list.remove_waiter(&r1);
    assert_eq!(list.len(), 1);
    list.awake_waiters();
    assert_eq!(woken(&log), vec![2]);
    assert_eq!(list.len(), 0);
}

#[test]
fn deregistering_an_unlinked_record_changes_nothing() {
    let log = new_log();
    let mut list = List::new();
    let linked = Elem::new(&mut list);
    let idle = Elem::new(&mut list);
    register(&mut list, &linked, &task(1, &log));
    list.remove_waiter(&idle);
    assert_eq!(list.len(), 1);
    assert_eq!(list.len_backwards(), 1);
    assert!(list.is_queued(&linked));
    assert!(!list.is_queued(&idle));
    // a second deregistration of a record is as harmless as the first
    list.remove_waiter(&linked);
    list.remove_waiter(&linked);
    assert_eq!(list.len(), 0);
    assert!(list.is_empty());
}

#[test]
fn deregistering_removes_one_record_and_keeps_the_order() {
    let log = new_log();
    let mut list = List::new();
    let mut elems = Vec::new();
    for id in 0..5 {
        let elem = Elem::new(&mut list);
        register(&mut list, &elem, &task(id, &log));
        elems.push(elem);
    }
    list.remove_waiter(&elems[2]);
    assert_eq!(list.len(), 4);
    assert_eq!(list.len_backwards(), 4);
    assert!(!list.is_queued(&elems[2]));
    list.remove_waiter(&elems[0]);
    assert_eq!(list.len(), 3);
    list.remove_waiter(&elems[4]);
    assert_eq!(list.len(), 2);
    assert_eq!(list.len_backwards(), 2);
    list.awake_waiters();
    assert_eq!(woken(&log), vec![1, 3]);
}

#[test]
fn deregistering_leaves_the_handle_in_place() {
    let log = new_log();
    let mut list = List::new();
    let elem = Elem::new(&mut list);
    let sleeper = task(1, &log);
    register(&mut list, &elem, &sleeper);
    list.remove_waiter(&elem);
    // the record still holds its clone
    assert_eq!(Arc::strong_count(&sleeper), 2);
    register(&mut list, &elem, &sleeper);
    assert_eq!(Arc::strong_count(&sleeper), 2);
    assert_eq!(list.len(), 1);
}

#[test]
fn a_deregistered_record_registers_again_at_the_end() {
    let log = new_log();
    let mut list = List::new();
    let r1 = Elem::new(&mut list);
    let r2 = Elem::new(&mut list);
    register(&mut list, &r1, &task(1, &log));
    register(&mut list, &r2, &task(2, &log));
    list.remove_waiter(&r1);
    register(&mut list, &r1, &task(1, &log));
    list.awake_waiters();
    assert_eq!(woken(&log), vec![2, 1]);
}

#[test]
fn waking_an_empty_list_wakes_nobody() {
    let log = new_log();
    let mut list = List::new();
    let elem = Elem::new(&mut list);
    list.awake_waiters();
    assert!(woken(&log).is_empty());
    assert!(list.is_empty());
    assert!(!list.is_queued(&elem));
}

#[test]
fn a_woken_record_holds_no_handle() {
    let log = new_log();
    let mut list = List::new();
    let elem = Elem::new(&mut list);
    let sleeper = task(1, &log);
    register(&mut list, &elem, &sleeper);
    list.awake_waiters();
    assert_eq!(Arc::strong_count(&sleeper), 1);
    // waking again finds nothing to wake
    list.awake_waiters();
    assert_eq!(woken(&log), vec![1]);
}

#[test]
fn a_woken_record_can_register_again() {
    let log = new_log();
    let mut list = List::new();
    let r1 = Elem::new(&mut list);
    let r2 = Elem::new(&mut list);
    register(&mut list, &r1, &task(1, &log));
    register(&mut list, &r2, &task(2, &log));
    list.awake_waiters();
    register(&mut list, &r2, &task(2, &log));
    register(&mut list, &r1, &task(1, &log));
    assert_eq!(list.len(), 2);
    list.awake_waiters();
    assert_eq!(woken(&log), vec![1, 2, 2, 1]);
}

#[test]
fn a_record_that_never_registered_is_released() {
    let mut list = List::new();
    let elem = Elem::new(&mut list);
    assert!(!list.is_queued(&elem));
    elem.release(&mut list);
    assert!(list.is_empty());
    assert_eq!(list.len(), 0);
    assert_eq!(list.len_backwards(), 0);
}

#[test]
fn releasing_a_record_drops_its_handle() {
    let log = new_log();
    let mut list = List::new();
    let elem = Elem::new(&mut list);
    let sleeper = task(1, &log);
    register(&mut list, &elem, &sleeper);
    list.remove_waiter(&elem);
    assert_eq!(Arc::strong_count(&sleeper), 2);
    elem.release(&mut list);
    assert_eq!(Arc::strong_count(&sleeper), 1);
    assert!(woken(&log).is_empty());
}

#[test]
fn a_released_place_serves_a_new_record() {
    let log = new_log();
    let mut list = List::new();
    let r1 = Elem::new(&mut list);
    let r2 = Elem::new(&mut list);
    register(&mut list, &r1, &task(1, &log));
    register(&mut list, &r2, &task(2, &log));
    list.remove_waiter(&r1);
    r1.release(&mut list);
    let r3 = Elem::new(&mut list);
    // the new record starts unlinked, whatever its place held before
    assert!(!list.is_queued(&r3));
    assert_eq!(list.len(), 1);
    register(&mut list, &r3, &task(3, &log));
    assert_eq!(list.len(), 2);
    assert_eq!(list.len_backwards(), 2);
    list.awake_waiters();
    assert_eq!(woken(&log), vec![2, 3]);
}

#[test]
fn the_flag_follows_every_operation() {
    let log = new_log();
    let mut list = List::new();
    let mut elems = Vec::new();
    for _ in 0..4 {
        elems.push(Elem::new(&mut list));
    }
    let mut expected = [false; 4];
    let steps: [(usize, bool); 9] = [
        (0, true),
        (2, true),
        (0, true),
        (1, true),
        (2, false),
        (3, false),
        (3, true),
        (0, false),
        (2, true),
    ];
    for (which, link) in steps {
        if link {
            register(&mut list, &elems[which], &task(which, &log));
        } else {
            list.remove_waiter(&elems[which]);
        }
        expected[which] = link;
        let linked = expected.iter().filter(|flag| **flag).count();
        assert_eq!(list.len(), linked);
        assert_eq!(list.len_backwards(), linked);
        assert_eq!(list.is_empty(), linked == 0);
        for (i, elem) in elems.iter().enumerate() {
            assert_eq!(list.is_queued(elem), expected[i]);
        }
    }
    list.awake_waiters();
    assert_eq!(woken(&log), vec![1, 3, 2]);
    for elem in &elems {
        assert!(!list.is_queued(elem));
    }
}

/// The manager of the futures.
#[derive(Clone)]
struct Foo {
    list: Rc<RefCell<List>>,
}

/// The future. It becomes ready once it has been polled `countdown` times.
struct Bar<'a> {
    foo: &'a Foo,
    countdown: usize,
    elem: Option<Elem>,
}

impl Foo {
    fn new() -> Foo {
        Foo { list: Rc::new(RefCell::new(List::new())) }
    }

    fn bar<'a>(&'a self, countdown: usize) -> Bar<'a> {
        let elem = Elem::new(&mut self.list.borrow_mut());
        Bar { foo: self, countdown, elem: Some(elem) }
    }
}

impl<'a> Future for Bar<'a> {
    type Output = ();

    fn poll(mut self: Pin<&mut Self>, cx: &mut Context<'_>) -> Poll<()> {
        if self.countdown == 0 {
            return Poll::Ready(());
        }
        self.countdown -= 1;
        let elem = self.elem.as_ref().unwrap();
        self.foo.list.borrow_mut().enqueue_waiter(elem, cx);
        Poll::Pending
    }
}

impl<'a> Drop for Bar<'a> {
    fn drop(&mut self) {
        let mut list = self.foo.list.borrow_mut();
        let elem = self.elem.take().unwrap();
        list.remove_waiter(&elem);
        assert!(!list.is_queued(&elem));
        elem.release(&mut list);
    }
}

/// Polls every task that was woken since it was last polled.
fn run_woken(
    tasks: &mut Vec<Option<Pin<Box<dyn Future<Output = ()>>>>>,
    wakers: &[Arc<Task>],
    ready: &Arc<Mutex<Vec<usize>>>,
) {
    loop {
        let batch: Vec<usize> = std::mem::take(&mut *ready.lock().unwrap());
        if batch.is_empty() {
            break;
        }
        for id in batch {
            let waker = Waker::from(wakers[id].clone());
            let mut cx = Context::from_waker(&waker);
            let done = match tasks[id].as_mut() {
                Some(future) => future.as_mut().poll(&mut cx).is_ready(),
                None => false,
            };
            if done {
                tasks[id] = None;
            }
        }
    }
}

#[test]
fn await_waiters_synchronize() {
    // The progress string shows how far the tasks have come between the
    // points at which they wait.
    let progress = Rc::new(RefCell::new(String::from("s")));
    let foo = Foo::new();
    let ready = new_log();
    let mut tasks: Vec<Option<Pin<Box<dyn Future<Output = ()>>>>> = Vec::new();
    let mut wakers = Vec::new();
    for id in 0..3 {
        let foo = foo.clone();
        let progress = progress.clone();
        tasks.push(Some(Box::pin(async move {
            *progress.borrow_mut() += "1";
            foo.bar(1).await;
            *progress.borrow_mut() += "2";
        })));
        wakers.push(task(id, &ready));
        ready.lock().unwrap().push(id);
    }
    run_woken(&mut tasks, &wakers, &ready);
    assert_eq!(*progress.borrow(), "s111");
    assert_eq!(foo.list.borrow_mut().len(), 3);
    foo.list.borrow_mut().awake_waiters();
    assert_eq!(foo.list.borrow_mut().len(), 0);
    run_woken(&mut tasks, &wakers, &ready);
    assert_eq!(*progress.borrow(), "s111222");
    assert!(tasks.iter().all(|task| task.is_none()));
}
