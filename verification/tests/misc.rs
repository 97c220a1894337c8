use concurrency::channel::channel;
use concurrency::green::{MappedList, RecvStep, Registers, Scheduler};
use concurrency::hello::{Hello, HelloPoll};
use concurrency::selector::WakerTable;
use concurrency::semaphore::Semaphore;
use concurrency::session::{serve, Db, DbReply, DbRequest, Op, Reply};
use concurrency::stack::{Stack, StackHead};
use concurrency::stack_bad::StackBad;

#[test]
fn semaphore_admits_at_most_max() {
    let mut s = Semaphore::new(2);
    assert!(s.wait());
    assert!(s.wait());
    assert!(!s.wait());
    assert_eq!(s.get_count(), 2);
    assert!(s.post());
    assert_eq!(s.get_count(), 1);
    assert!(s.wait());
}

#[test]
fn semaphore_with_non_positive_bound_admits_nobody() {
    let mut s = Semaphore::new(0);
    assert!(!s.wait());
    assert_eq!(s.get_max(), 0);
}

#[test]
fn channel_is_bounded_and_fifo() {
    let (tx, rx, mut ch) = channel::<u32>(2);
    assert!(tx.send(&mut ch, 1).is_ok());
    assert!(tx.send(&mut ch, 2).is_ok());
    assert_eq!(tx.send(&mut ch, 3), Err(3));
    assert_eq!(ch.len(), 2);
    assert_eq!(rx.recv(&mut ch), Some(1));
    assert!(tx.send(&mut ch, 3).is_ok());
    assert_eq!(rx.recv(&mut ch), Some(2));
    assert_eq!(rx.recv(&mut ch), Some(3));
    assert_eq!(rx.recv(&mut ch), None);
}

#[test]
fn stack_is_lifo() {
    let mut s = Stack::<usize>::new();
    let h = s.get_mut();
    h.push(1);
    h.push(2);
    assert_eq!(h.pop(), Some(2));
    assert_eq!(h.pop(), Some(1));
    assert_eq!(h.pop(), None);
    let mut h2 = StackHead::new();
    h2.push("a");
    assert_eq!(h2.pop(), Some("a"));
}

#[test]
fn stack_bad_is_lifo() {
    let mut s = StackBad::new();
    assert_eq!(s.pop(), None);
    s.push(10);
    s.push(20);
    assert_eq!(s.pop(), Some(20));
    assert_eq!(s.pop(), Some(10));
    assert_eq!(s.pop(), None);
}

#[test]
fn mapped_list_keeps_a_queue_per_key() {
    let mut m = MappedList::new();
    m.push_back(1, 'a');
    m.push_back(2, 'x');
    m.push_back(1, 'b');
    assert_eq!(m.pop_front(1), Some('a'));
    assert_eq!(m.pop_front(1), Some('b'));
    assert_eq!(m.pop_front(1), None);
    assert_eq!(m.pop_front(2), Some('x'));
    m.push_back(3, 'z');
    m.clear();
    assert_eq!(m.pop_front(3), None);
}

#[test]
fn registers_start_at_the_entry_point() {
    let r = Registers::new(0x1000, 0xabcd);
    assert_eq!(r.sp, 0x1000);
    assert_eq!(r.x30, 0xabcd);
    assert_eq!(r.x19, 0);
    assert_eq!(r.d8, 0);
}

#[test]
fn claim_id_refuses_an_id_in_use() {
    let mut s = Scheduler::new();
    assert!(s.claim_id(7));
    assert!(!s.claim_id(7));
    assert!(s.claim_id(9));
}

#[test]
fn spawned_threads_get_distinct_ids() {
    let mut s = Scheduler::new();
    let mut ids = Vec::new();
    for _ in 0..50 {
        ids.push(s.spawn().unwrap());
    }
    for i in 0..ids.len() {
        for j in 0..i {
            assert_ne!(ids[i], ids[j]);
        }
        // an id handed out is in use
        assert!(!s.claim_id(ids[i]));
    }
    assert_eq!(s.num_runnable(), 50);
}

#[test]
fn scheduler_passes_messages_between_green_threads() {
    let mut s = Scheduler::new();
    let a = s.spawn().unwrap();
    assert_eq!(s.schedule(), None);
    let b = s.spawn().unwrap();
    assert_ne!(a, b);
    // thread a runs and waits for a message: switch to b
    assert!(matches!(s.recv(), RecvStep::SwitchTo(x) if x == b));
    assert_eq!(s.num_runnable(), 1);
    // thread b sends to a, which becomes runnable again
    s.send(a, 100);
    assert_eq!(s.num_runnable(), 2);
    assert_eq!(s.schedule(), Some(a));
    assert_eq!(s.take_message(a), Some(100));
    assert_eq!(s.take_message(a), None);
    // a finishes; b is left
    assert_eq!(s.finish(), Some(b));
    // b waits for a message nobody can send
    assert!(matches!(s.recv(), RecvStep::Deadlock));
    s.send(b, 5);
    assert!(matches!(s.recv(), RecvStep::Got(5)));
    assert_eq!(s.finish(), None);
}

#[test]
fn hello_greets_in_two_polls() {
    let mut h = Hello::new();
    assert!(h.poll() == HelloPoll::PrintHello);
    assert!(h.poll() == HelloPoll::PrintWorld);
    assert!(h.poll() == HelloPoll::Ready);
    assert!(h.poll() == HelloPoll::Ready);
}

#[test]
fn server_squares_and_tests_parity() {
    assert!(serve(11, Op::Square) == Reply::Square(121));
    assert!(serve(11, Op::Even) == Reply::Even(false));
    assert!(serve(10, Op::Even) == Reply::Even(true));
    assert!(serve(0, Op::Square) == Reply::Square(0));
}

#[test]
fn db_gets_what_was_put() {
    let mut db = Db::new();
    assert!(db.handle(DbRequest::Put(10, 4)) == DbReply::Stored);
    assert!(db.handle(DbRequest::Put(50, 7)) == DbReply::Stored);
    assert!(db.handle(DbRequest::Get(10)) == DbReply::Value(Some(4)));
    assert!(db.handle(DbRequest::Get(20)) == DbReply::Value(None));
    assert!(db.handle(DbRequest::Put(10, 5)) == DbReply::Stored);
    assert!(db.handle(DbRequest::Get(10)) == DbReply::Value(Some(5)));
    assert!(db.handle(DbRequest::Quit) == DbReply::Closed);
}

#[test]
fn waker_table_hands_out_the_waiting_waker() {
    let mut t = WakerTable::new();
    t.add_event(3, "task a");
    t.add_event(4, "task b");
    assert!(t.contains(3));
    assert_eq!(t.take(3), "task a");
    assert!(!t.contains(3));
    t.rm_event(4);
    assert!(!t.contains(4));
    t.rm_event(4);
}
