use concurrency::tl2::{settle, ReadTrans, STMResult, Settle, STM};
use concurrency::dining::{
    forks, is_consistent, look, observe, pick_up, pick_up_forks, put_down, put_down_forks,
};

#[test]
fn write_transaction_reads_its_own_writes() {
    let stm = STM::new();
    let mut tr = stm.begin_write();
    tr.store(16, [1, 2, 3, 4, 5, 6, 7, 8]);
    assert_eq!(tr.load(stm.mem(), 16), Some([1, 2, 3, 4, 5, 6, 7, 8]));
    assert_eq!(tr.load(stm.mem(), 24), Some([0; 8]));
}

#[test]
fn committed_writes_are_read_back() {
    let mut stm = STM::new();
    let mut tr = stm.begin_write();
    tr.store(8, [9; 8]);
    assert!(stm.write_commit(tr));
    assert_eq!(stm.mem().global_clock(), 1);
    let mut rd = stm.begin_read();
    assert_eq!(rd.load(stm.mem(), 8), Some([9; 8]));
    assert_eq!(rd.load(stm.mem(), 0), Some([0; 8]));
    assert!(!rd.is_abort());
}

#[test]
fn conflicting_commit_fails_and_writes_nothing() {
    let mut stm = STM::new();
    let mut t1 = stm.begin_write();
    assert_eq!(t1.load(stm.mem(), 8), Some([0; 8]));
    t1.store(16, [1; 8]);
    // another transaction commits a write to what t1 read
    let mut t2 = stm.begin_write();
    t2.store(8, [2; 8]);
    assert!(stm.write_commit(t2));
    // t1's read is stale: its commit fails
    assert!(!stm.write_commit(t1));
    let mut rd = stm.begin_read();
    assert_eq!(rd.load(stm.mem(), 16), Some([0; 8]));
    assert_eq!(rd.load(stm.mem(), 8), Some([2; 8]));
}

#[test]
fn commit_without_intervening_commits_skips_validation() {
    let mut stm = STM::new();
    let mut t1 = stm.begin_write();
    assert_eq!(t1.load(stm.mem(), 0), Some([0; 8]));
    t1.store(0, [5; 8]);
    assert!(stm.write_commit(t1));
    assert_eq!(stm.mem().global_clock(), 1);
}

#[test]
fn read_transaction_aborts_on_a_newer_stripe() {
    let mut stm = STM::new();
    let mut rd = ReadTrans::new(stm.mem());
    let mut tr = stm.begin_write();
    tr.store(0, [7; 8]);
    assert!(stm.write_commit(tr));
    assert_eq!(rd.load(stm.mem(), 0), None);
    assert!(rd.is_abort());
    // an aborted transaction reads nothing more
    assert_eq!(rd.load(stm.mem(), 8), None);
}

#[test]
fn settle_decides_what_follows_a_body() {
    assert!(matches!(settle(STMResult::<u8>::Abort, false), Settle::Finish(None)));
    assert!(matches!(settle(STMResult::<u8>::Abort, true), Settle::Finish(None)));
    assert!(matches!(settle(STMResult::<u8>::Retry, true), Settle::Restart));
    assert!(matches!(settle(STMResult::<u8>::Retry, false), Settle::Finish(None)));
    assert!(matches!(settle(STMResult::Done(3u8), true), Settle::Restart));
    assert!(matches!(settle(STMResult::Done(3u8), false), Settle::Proceed(3)));
}

#[test]
fn philosophers_take_and_return_forks() {
    let mut stm = STM::new();
    assert_eq!(forks(7), (56, 0));
    let mut tr = stm.begin_write();
    assert!(matches!(pick_up_forks(&mut tr, stm.mem(), 0), STMResult::Done(true)));
    assert!(stm.write_commit(tr));
    // the neighbour shares fork 1, which is held
    let mut tr = stm.begin_write();
    assert!(matches!(pick_up_forks(&mut tr, stm.mem(), 1), STMResult::Done(false)));
    assert!(stm.write_commit(tr));
    let mut rd = stm.begin_read();
    let seen = match observe(&mut rd, stm.mem()) {
        STMResult::Done(v) => v,
        _ => panic!("observation failed"),
    };
    assert_eq!(seen, [1, 1, 0, 0, 0, 0, 0, 0]);
    assert!(is_consistent(&seen));
    let mut tr = stm.begin_write();
    assert!(matches!(put_down_forks(&mut tr, stm.mem(), 0), STMResult::Done(())));
    assert!(stm.write_commit(tr));
    let mut tr = stm.begin_write();
    assert!(matches!(pick_up_forks(&mut tr, stm.mem(), 1), STMResult::Done(true)));
}

#[test]
fn odd_number_of_held_forks_is_inconsistent() {
    assert!(!is_consistent(&[1, 0, 0, 0, 0, 0, 0, 0]));
    assert!(is_consistent(&[0; 8]));
    assert!(is_consistent(&[1, 1, 1, 1, 0, 0, 0, 0]));
}

#[test]
fn neighbours_cannot_eat_together() {
    let mut stm = STM::new();
    assert!(pick_up(&mut stm, 0));
    assert_eq!(look(&stm), [1, 1, 0, 0, 0, 0, 0, 0]);
    // philosopher 1 shares fork 1 with philosopher 0
    assert!(!pick_up(&mut stm, 1));
    assert_eq!(look(&stm), [1, 1, 0, 0, 0, 0, 0, 0]);
    // philosopher 7 shares fork 0
    assert!(!pick_up(&mut stm, 7));
    assert!(pick_up(&mut stm, 2));
    assert_eq!(look(&stm), [1, 1, 1, 1, 0, 0, 0, 0]);
    assert!(is_consistent(&look(&stm)));
    put_down(&mut stm, 0);
    assert_eq!(look(&stm), [0, 0, 1, 1, 0, 0, 0, 0]);
    assert!(pick_up(&mut stm, 7));
    assert_eq!(look(&stm), [1, 0, 1, 1, 0, 0, 0, 1]);
    // every transaction, failed pick-ups included, advanced the clock
    assert_eq!(stm.mem().global_clock(), 6);
}

#[test]
fn put_down_undoes_pick_up() {
    let mut stm = STM::new();
    assert!(pick_up(&mut stm, 5));
    put_down(&mut stm, 5);
    assert_eq!(look(&stm), [0; 8]);
}

#[test]
fn observer_always_sees_an_even_count() {
    let mut stm = STM::new();
    let mut eating = [false; 8];
    for round in 0..200usize {
        let n = (round * 5 + round / 3) % 8;
        if eating[n] {
            put_down(&mut stm, n);
            eating[n] = false;
        } else if pick_up(&mut stm, n) {
            eating[n] = true;
        }
        assert!(is_consistent(&look(&stm)));
    }
}

#[test]
fn store_takes_any_aligned_address_until_commit() {
    let stm = STM::new();
    let mut tr = stm.begin_write();
    // an aligned address past the memory is recorded, and read back from
    // the write-set without touching the memory
    tr.store(4096, [7; 8]);
    assert_eq!(tr.load(stm.mem(), 4096), Some([7; 8]));
    assert!(!tr.is_abort());
}

#[test]
fn write_transaction_commits_the_body() {
    let mut stm = STM::new();
    let took = stm.write_transaction(|tr, mem| {
        let mut tr = tr;
        let r = pick_up_forks(&mut tr, mem, 3);
        (tr, r)
    });
    assert_eq!(took, Some(true));
    assert_eq!(look(&stm), [0, 0, 0, 1, 1, 0, 0, 0]);
    assert_eq!(stm.mem().global_clock(), 1);
    // a body that gives up writes nothing
    let none: Option<()> = stm.write_transaction(|tr, _mem| {
        let mut tr = tr;
        tr.store(0, [1; 8]);
        (tr, STMResult::Abort)
    });
    assert_eq!(none, None);
    assert_eq!(look(&stm), [0, 0, 0, 1, 1, 0, 0, 0]);
    assert_eq!(stm.mem().global_clock(), 1);
}

#[test]
fn read_transaction_returns_the_body_value() {
    let mut stm = STM::new();
    assert!(pick_up(&mut stm, 6));
    let seen = stm.read_transaction(|tr, mem| {
        let mut tr = tr;
        let r = observe(&mut tr, mem);
        (tr, r)
    });
    assert_eq!(seen, Some([0, 0, 0, 0, 0, 0, 1, 1]));
    let retry: Option<u8> = stm.read_transaction(|tr, _mem| (tr, STMResult::Retry));
    assert_eq!(retry, None);
}

/// A read-only transaction that loads the stripe at `addr`.
fn read_at(stm: &STM, addr: usize) -> Option<[u8; 8]> {
    stm.read_transaction(|tr, mem| {
        let mut tr = tr;
        match tr.load(mem, addr) {
            Some(v) => (tr, STMResult::Done(v)),
            None => (tr, STMResult::Retry),
        }
    })
}

#[test]
fn fresh_memory_reads_zero_everywhere() {
    let stm = STM::new();
    for a in (0..512).step_by(8) {
        assert_eq!(read_at(&stm, a), Some([0; 8]));
    }
}

#[test]
fn read_transaction_sees_a_committed_write_transaction() {
    let mut stm = STM::new();
    let done = stm.write_transaction(|tr, _mem| {
        let mut tr = tr;
        tr.store(16, [1, 2, 3, 4, 5, 6, 7, 8]);
        (tr, STMResult::Done(()))
    });
    assert_eq!(done, Some(()));
    assert_eq!(read_at(&stm, 16), Some([1, 2, 3, 4, 5, 6, 7, 8]));
    assert_eq!(read_at(&stm, 8), Some([0; 8]));
    assert_eq!(read_at(&stm, 24), Some([0; 8]));
}
