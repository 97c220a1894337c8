use concurrency::fairlock::{FairLock, Stage};
use concurrency::mcs::{MCSLock, MCSNode};
use concurrency::spinlock::SpinLock;
use concurrency::ticketlock::TicketLock;

#[test]
fn fair_lock_hands_over_to_the_next_waiting_thread() {
    let mut l = FairLock::new(0u64);
    let g0 = l.lock(0).expect("free lock is taken");
    assert!(l.stage_of(0) == Stage::Critical);
    // thread 1 announces itself and spins
    assert!(l.lock(1).is_none());
    assert!(l.stage_of(1) == Stage::Waiting);
    l.set(&g0, 41);
    l.unlock(g0);
    assert!(l.stage_of(0) == Stage::Idle);
    // the lock was handed over: thread 1 enters without competing
    let g1 = l.lock(1).expect("handed over");
    assert_eq!(*l.get(&g1), 41);
    l.set(&g1, 42);
    assert_eq!(g1.idx(), 1);
    l.unlock(g1);
    // nobody waits: the lock is free again
    let g3 = l.lock(3).expect("free lock is taken");
    assert_eq!(*l.get(&g3), 42);
    l.unlock(g3);
}

#[test]
fn fair_lock_keeps_others_out() {
    let mut l = FairLock::new(());
    let g = l.lock(2).expect("free lock is taken");
    for i in 0..8 {
        if i != 2 {
            assert!(l.lock(i).is_none());
        }
    }
    l.unlock(g);
}

#[test]
fn ticket_lock_serves_in_ticket_order() {
    let mut l = TicketLock::new(String::from("x"));
    let t0 = l.take_ticket();
    let t1 = l.take_ticket();
    assert_eq!((t0, t1), (0, 1));
    assert!(l.lock(t1).is_none());
    let g0 = l.lock(t0).expect("turn of the first ticket");
    l.set(&g0, String::from("y"));
    l.unlock(g0);
    assert_eq!(l.turn(), 1);
    let g1 = l.lock(t1).expect("turn of the second ticket");
    assert_eq!(l.get(&g1).as_str(), "y");
    l.unlock(g1);
}

#[test]
fn spin_lock_is_exclusive() {
    let mut l = SpinLock::new(5i32);
    let g = l.lock().expect("free");
    assert!(l.is_locked());
    assert!(l.lock().is_none());
    l.set(&g, 6);
    l.unlock(g);
    assert!(!l.is_locked());
    let g = l.lock().expect("free again");
    assert_eq!(*l.get(&g), 6);
    l.unlock(g);
}

#[test]
fn mcs_lock_passes_the_lock_down_the_queue() {
    let mut l = MCSLock::new(0u32);
    let a = l.register(MCSNode::new());
    let b = l.register(MCSNode::new());
    let c = l.register(MCSNode::new());
    let ga = l.lock(a).expect("empty queue");
    assert!(l.lock(b).is_none());
    assert!(l.lock(c).is_none());
    assert!(l.wait(b).is_none());
    l.set(&ga, 1);
    l.unlock(ga);
    assert!(l.wait(c).is_none());
    let gb = l.wait(b).expect("b is at the head");
    assert_eq!(*l.get(&gb), 1);
    l.unlock(gb);
    let gc = l.wait(c).expect("c is at the head");
    l.unlock(gc);
    // the queue is empty: the next thread gets the lock at once
    assert!(l.lock(a).is_some());
}
