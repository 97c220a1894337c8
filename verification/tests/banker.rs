use concurrency::banker::Banker;

#[test]
fn philosophers_cannot_deadlock() {
    // two forks, two philosophers who each need both forks
    let mut banker = Banker::<2, 2>::new([1, 1], [[1, 1], [1, 1]]);
    assert!(banker.is_safe());
    // philosopher 0 takes fork 0
    assert!(banker.take(0, 0));
    // philosopher 1 taking fork 1 now would leave nobody able to finish
    assert!(!banker.take(1, 1));
    // philosopher 0 can take fork 1 and eat
    assert!(banker.take(0, 1));
    banker.release(0, 0);
    banker.release(0, 1);
    // now philosopher 1 may take both
    assert!(banker.take(1, 1));
    assert!(banker.take(1, 0));
    assert!(banker.is_safe());
}

#[test]
fn take_rejects_bad_numbers_and_empty_resources() {
    let mut banker = Banker::<2, 2>::new([1, 0], [[1, 0], [1, 0]]);
    assert!(!banker.take(2, 0));
    assert!(!banker.take(0, 2));
    assert!(!banker.take(0, 1));
    assert!(banker.take(0, 0));
    // the only unit of resource 0 is held
    assert!(!banker.take(1, 0));
}

#[test]
fn release_undoes_take() {
    let mut banker = Banker::<1, 2>::new([2], [[2], [2]]);
    assert!(banker.take(0, 0));
    banker.release(0, 0);
    // back to the initial state: both units free again
    assert!(banker.take(1, 0));
    assert!(banker.take(1, 0));
}

#[test]
fn release_without_holding_changes_nothing() {
    let mut banker = Banker::<1, 1>::new([1], [[1]]);
    banker.release(0, 0);
    banker.release(5, 0);
    banker.release(0, 5);
    assert!(banker.take(0, 0));
    assert!(banker.exceeds_claim(0, 0) == false);
}

#[test]
fn unsafe_when_a_claim_exceeds_all_units() {
    let mut banker = Banker::<1, 1>::new([1], [[2]]);
    assert!(!banker.is_safe());
    assert!(!banker.take(0, 0));
}

#[test]
fn exceeds_claim_detects_requests_beyond_the_declared_maximum() {
    let mut banker = Banker::<1, 1>::new([3], [[1]]);
    assert!(!banker.exceeds_claim(0, 0));
    assert!(banker.take(0, 0));
    assert!(banker.exceeds_claim(0, 0));
    assert!(!banker.exceeds_claim(1, 0));
}

#[test]
fn greedy_search_finds_a_late_order() {
    // thread 0 can only finish after thread 1 has returned its unit
    let mut banker = Banker::<1, 2>::new([2], [[2], [1]]);
    assert!(banker.take(1, 0));
    assert!(banker.take(0, 0));
    assert!(banker.is_safe());
}
