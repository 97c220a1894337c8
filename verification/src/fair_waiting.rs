use vstd::prelude::*;
use crate::fairlock::{NUM_LOCK, next_in_turn, wait_measure, law_bounded_waiting};

verus! {

/// The turn after `holder` releases the lock with the waiting flags `w`,
/// as `unlock` does it, and whether the lock was handed over (to that new
/// turn) rather than freed.
pub open spec fn after_release(turn: int, holder: int, w: Seq<bool>) -> (int, bool) {
    let next = if turn == holder {
        next_in_turn(turn)
    } else {
        turn
    };
    if next != holder && w[next] {
        (next, true)
    } else {
        (next_in_turn(next), false)
    }
}

/// From the turn `turn`, the releases by `holders` with the flags `ws`
/// follow `unlock`: a release that hands the lock over hands it to the next
/// holder.
pub open spec fn handoffs_follow(turn: int, holders: Seq<int>, ws: Seq<Seq<bool>>) -> bool
    decreases holders.len(),
{
    if holders.len() == 0 {
        true
    } else {
        let t1 = after_release(turn, holders[0], ws[0]).0;
        let handed = after_release(turn, holders[0], ws[0]).1;
        &&& handed && holders.len() > 1 ==> holders[1] == t1
        &&& handoffs_follow(t1, holders.drop_first(), ws.drop_first())
    }
}

/// A run of releases from the turn `turn`: the `i`-th release is made by
/// `holders[i]` with the waiting flags `ws[i]`, thread `idx` waits all along
/// without holding the lock, and a release that hands the lock over hands
/// it to the next holder.
pub open spec fn waiting_run(turn: int, holders: Seq<int>, ws: Seq<Seq<bool>>, idx: int) -> bool {
    &&& ws.len() >= holders.len()
    &&& forall|i: int|
        0 <= i < holders.len() ==> {
            &&& 0 <= #[trigger] holders[i] < NUM_LOCK
            &&& holders[i] != idx
            &&& ws[i].len() == NUM_LOCK
            &&& ws[i][idx]
        }
    &&& handoffs_follow(turn, holders, ws)
}

proof fn lemma_waiting_run_len(turn: int, holders: Seq<int>, ws: Seq<Seq<bool>>, idx: int)
    requires
        0 <= turn < NUM_LOCK,
        0 <= idx < NUM_LOCK,
        holders.len() > 0,
        waiting_run(turn, holders, ws, idx),
    ensures
        holders.len() <= wait_measure(turn, holders[0], idx) + 1,
    decreases holders.len(),
{
    let h = holders[0];
    let w = ws[0];
    let t1 = after_release(turn, h, w).0;
    let handed = after_release(turn, h, w).1;
    let m0 = wait_measure(turn, h, idx);
    assert(0 <= m0) by {
        law_bounded_waiting(turn, h, idx, w);
    }
    if holders.len() > 1 {
        let rest = holders.drop_first();
        let wrest = ws.drop_first();
        let h1 = holders[1];
        assert(rest[0] == h1);
        assert(h1 != idx);
        assert(0 <= t1 < NUM_LOCK);
        assert(wait_measure(t1, h1, idx) < m0) by {
            law_bounded_waiting(turn, h, idx, w);
        }
        assert forall|i: int| 0 <= i < rest.len() implies {
            &&& 0 <= #[trigger] rest[i] < NUM_LOCK
            &&& rest[i] != idx
            &&& wrest[i].len() == NUM_LOCK
            &&& wrest[i][idx]
        } by {
            assert(rest[i] == holders[i + 1]);
            assert(wrest[i] == ws[i + 1]);
        }
        lemma_waiting_run_len(t1, rest, wrest, idx);
    }
}

/// Law: bounded waiting, over runs. While thread `idx` waits with its flag
/// raised, however the other threads come and go, at most `2 * NUM_LOCK`
/// releases happen before `idx` holds the lock: no run of releases in which
/// it waits without getting the lock is longer.
pub proof fn law_waiting_is_bounded(turn: int, holders: Seq<int>, ws: Seq<Seq<bool>>, idx: int)
    requires
        0 <= turn < NUM_LOCK,
        0 <= idx < NUM_LOCK,
        waiting_run(turn, holders, ws, idx),
    ensures
        holders.len() <= 2 * NUM_LOCK,
{
    if holders.len() > 0 {
        lemma_waiting_run_len(turn, holders, ws, idx);
        law_bounded_waiting(turn, holders[0], idx, ws[0]);
    }
}

} // verus!
