use vstd::prelude::*;

verus! {

/// The number of threads that may use a fair lock.
pub const NUM_LOCK: usize = 8;

/// The mask that takes a thread number modulo `NUM_LOCK`.
pub const MASK: usize = 7;

/// Where a thread is in the protocol of a fair lock.
#[derive(PartialEq, Eq, Structural, Clone, Copy)]
pub enum Stage {
    /// Not trying to take the lock.
    Idle,
    /// Has announced that it wants the lock and spins.
    Waiting,
    /// Holds the lock.
    Critical,
}

/// A fair lock for up to `NUM_LOCK` threads.
///
/// A thread that wants the lock raises its waiting flag and spins until it
/// either wins the lock flag or finds its waiting flag lowered by the thread
/// that releases the lock, which hands the lock over directly to the next
/// waiting thread in turn order. The lock also records where each thread is
/// in this protocol.
pub struct FairLock<T> {
    waiting: Vec<bool>,
    lock: bool,
    turn: usize,
    data: T,
    stage: Vec<Stage>,
}

/// The right to the data of a fair lock, held by thread `idx` between a
/// successful `lock` and `unlock`.
pub struct FairLockGuard {
    idx: usize,
}

/// Whether thread `i` owns the lock: it is inside, or the lock has been
/// handed over to it while it spins.
pub open spec fn owns(stage: Seq<Stage>, waiting: Seq<bool>, i: int) -> bool {
    stage[i] == Stage::Critical || (stage[i] == Stage::Waiting && !waiting[i])
}

/// The next thread in turn order.
pub open spec fn next_in_turn(i: int) -> int {
    (i + 1) % NUM_LOCK as int
}

impl FairLockGuard {
    /// The thread that holds the lock.
    pub closed spec fn thread(&self) -> int {
        self.idx as int
    }

    /// The holder is a thread number, so never negative.
    pub proof fn lemma_thread_nonneg(&self)
        ensures
            0 <= self.thread(),
    {
    }

    /// The thread that holds the lock.
    pub fn idx(&self) -> (r: usize)
        ensures
            r == self.thread(),
    {
        self.idx
    }
}

impl<T> FairLock<T> {
    /// The waiting flags.
    pub closed spec fn waiting_flags(&self) -> Seq<bool> {
        self.waiting@
    }

    /// The lock flag.
    pub closed spec fn locked(&self) -> bool {
        self.lock
    }

    /// The thread that has priority for the lock.
    pub closed spec fn turn_of(&self) -> int {
        self.turn as int
    }

    /// Where each thread is in the protocol.
    pub closed spec fn stages(&self) -> Seq<Stage> {
        self.stage@
    }

    /// The protected data.
    pub closed spec fn value(&self) -> T {
        self.data
    }

    /// The invariant of the protocol: an idle thread does not wait; the lock
    /// flag is up exactly when some thread owns the lock; and at most one
    /// thread owns it.
    pub open spec fn wf(&self) -> bool {
        &&& self.waiting_flags().len() == NUM_LOCK
        &&& self.stages().len() == NUM_LOCK
        &&& 0 <= self.turn_of() < NUM_LOCK
        &&& forall|i: int|
            0 <= i < NUM_LOCK && #[trigger] self.stages()[i] == Stage::Idle ==> !self.waiting_flags()[i]
        &&& self.locked() <==> exists|i: int|
            0 <= i < NUM_LOCK && #[trigger] owns(self.stages(), self.waiting_flags(), i)
        &&& forall|i: int, j: int|
            0 <= i < NUM_LOCK && 0 <= j < NUM_LOCK && #[trigger] owns(
                self.stages(),
                self.waiting_flags(),
                i,
            ) && #[trigger] owns(self.stages(), self.waiting_flags(), j) ==> i == j
    }

    /// An unlocked fair lock around `v` with every thread idle.
    pub fn new(v: T) -> (r: Self)
        ensures
            r.wf(),
            r.value() == v,
            !r.locked(),
            r.turn_of() == 0,
            forall|i: int| 0 <= i < NUM_LOCK ==> #[trigger] r.stages()[i] == Stage::Idle,
    {
        let mut vec: Vec<bool> = Vec::new();
        let mut stage: Vec<Stage> = Vec::new();
        let mut k: usize = 0;
        while k < NUM_LOCK
            invariant
                0 <= k <= NUM_LOCK,
                vec@.len() == k,
                stage@.len() == k,
                forall|i: int| 0 <= i < k ==> !vec@[i] && stage@[i] == Stage::Idle,
            decreases NUM_LOCK - k,
        {
            vec.push(false);
            stage.push(Stage::Idle);
            k = k + 1;
        }
        FairLock { waiting: vec, lock: false, data: v, turn: 0, stage }
    }

    /// Where thread `idx` is in the protocol.
    pub fn stage_of(&self, idx: usize) -> (r: Stage)
        requires
            self.wf(),
            idx < NUM_LOCK,
        ensures
            r == self.stages()[idx as int],
    {
        self.stage[idx]
    }

    /// One step of taking the lock for thread `idx`. A thread that was idle
    /// first raises its waiting flag. Then the thread enters when the lock
    /// has been handed over to it (its waiting flag was lowered by the
    /// releasing thread) or when it wins the free lock flag; otherwise it
    /// stays waiting and `None` tells it to spin and try again.
    pub fn lock(&mut self, idx: usize) -> (r: Option<FairLockGuard>)
        requires
            old(self).wf(),
            idx < NUM_LOCK,
            old(self).stages()[idx as int] != Stage::Critical,
        ensures
            final(self).wf(),
            final(self).value() == old(self).value(),
            final(self).turn_of() == old(self).turn_of(),
            final(self).waiting_flags() == if old(self).stages()[idx as int] == Stage::Idle {
                old(self).waiting_flags().update(idx as int, true)
            } else {
                old(self).waiting_flags()
            },
            forall|j: int|
                0 <= j < NUM_LOCK && j != idx && #[trigger] owns(
                    old(self).stages(),
                    old(self).waiting_flags(),
                    j,
                ) ==> owns(final(self).stages(), final(self).waiting_flags(), j),
            ({
                let handed = old(self).stages()[idx as int] == Stage::Waiting
                    && !old(self).waiting_flags()[idx as int];
                let entered = handed || !old(self).locked();
                &&& entered ==> (r matches Some(g) && g.thread() == idx)
                &&& entered ==> final(self).stages() == old(self).stages().update(
                    idx as int,
                    Stage::Critical,
                )
                &&& entered ==> final(self).locked()
                &&& !entered ==> r is None
                &&& !entered ==> final(self).stages() == old(self).stages().update(
                    idx as int,
                    Stage::Waiting,
                )
                &&& !entered ==> final(self).locked() == old(self).locked()
            }),
    {
        if self.stage[idx] == Stage::Idle {
            self.waiting.set(idx, true);
            self.stage.set(idx, Stage::Waiting);
            proof {
                assert forall|i: int| 0 <= i < NUM_LOCK implies #[trigger] owns(
                    self.stages(),
                    self.waiting_flags(),
                    i,
                ) == owns(old(self).stages(), old(self).waiting_flags(), i) by {
                    if i != idx {
                        assert(self.stages()[i] == old(self).stages()[i]);
                        assert(self.waiting_flags()[i] == old(self).waiting_flags()[i]);
                    }
                }
                lemma_wf_from_owners(*old(self), *self);
            }
        }
        if !self.waiting[idx] {
            proof {
                assert(owns(old(self).stages(), old(self).waiting_flags(), idx as int));
            }
            self.stage.set(idx, Stage::Critical);
            proof {
                assert(owns(self.stages(), self.waiting_flags(), idx as int));
                assert forall|i: int| 0 <= i < NUM_LOCK implies #[trigger] owns(
                    self.stages(),
                    self.waiting_flags(),
                    i,
                ) == owns(old(self).stages(), old(self).waiting_flags(), i) by {
                    if i != idx {
                        assert(self.stages()[i] == old(self).stages()[i]);
                        assert(self.waiting_flags()[i] == old(self).waiting_flags()[i]);
                    }
                }
            }
            return Some(FairLockGuard { idx });
        }
        if !self.lock {
            self.lock = true;
            self.stage.set(idx, Stage::Critical);
            proof {
                assert(owns(self.stages(), self.waiting_flags(), idx as int));
                assert forall|i: int| 0 <= i < NUM_LOCK && i != idx implies !#[trigger] owns(
                    self.stages(),
                    self.waiting_flags(),
                    i,
                ) by {
                    assert(!owns(old(self).stages(), old(self).waiting_flags(), i));
                }
            }
            return Some(FairLockGuard { idx });
        }
        None
    }

    /// Releases the lock held by the guard's thread. The thread becomes
    /// idle. If the thread next in turn order waits, the lock is handed over
    /// to it (its waiting flag is lowered and the lock flag stays up);
    /// otherwise the turn moves one further and the lock flag is lowered.
    pub fn unlock(&mut self, guard: FairLockGuard)
        requires
            old(self).wf(),
            guard.thread() < NUM_LOCK,
            old(self).stages()[guard.thread()] == Stage::Critical,
        ensures
            final(self).wf(),
            final(self).value() == old(self).value(),
            final(self).stages()[guard.thread()] == Stage::Idle,
            ({
                let idx = guard.thread();
                let next = if old(self).turn_of() == idx {
                    next_in_turn(old(self).turn_of())
                } else {
                    old(self).turn_of()
                };
                if next != idx && old(self).waiting_flags()[next] {
                    &&& final(self).turn_of() == next
                    &&& final(self).locked()
                    &&& owns(final(self).stages(), final(self).waiting_flags(), next)
                    &&& final(self).waiting_flags() == old(self).waiting_flags().update(
                        idx,
                        false,
                    ).update(next, false)
                } else {
                    &&& final(self).turn_of() == next_in_turn(next)
                    &&& !final(self).locked()
                    &&& final(self).waiting_flags() == old(self).waiting_flags().update(idx, false)
                }
            }),
            forall|i: int|
                0 <= i < NUM_LOCK && i != guard.thread() ==> #[trigger] final(self).stages()[i]
                    == old(self).stages()[i],
    {
        let idx = guard.idx;
        self.waiting.set(idx, false);
        self.stage.set(idx, Stage::Idle);
        let turn = self.turn;
        let next = if turn == idx {
            let t1 = turn + 1;
            proof {
                assert(t1 & 7usize == t1 % 8) by (bit_vector)
                    requires
                        t1 <= 8usize,
                ;
            }
            t1 & MASK
        } else {
            turn
        };
        proof {
            assert(owns(old(self).stages(), old(self).waiting_flags(), idx as int));
            assert(old(self).locked());
            assert forall|i: int| 0 <= i < NUM_LOCK && i != idx implies !#[trigger] owns(
                old(self).stages(),
                old(self).waiting_flags(),
                i,
            ) by {
                assert(owns(old(self).stages(), old(self).waiting_flags(), idx as int));
            }
        }
        if self.waiting[next] {
            self.turn = next;
            self.waiting.set(next, false);
            proof {
                assert(next != idx);
                assert(old(self).waiting_flags()[next as int]);
                assert(old(self).stages()[next as int] != Stage::Idle);
                assert(!owns(old(self).stages(), old(self).waiting_flags(), next as int));
                assert(old(self).stages()[next as int] != Stage::Critical);
                assert(old(self).stages()[next as int] == Stage::Waiting);
                assert(owns(self.stages(), self.waiting_flags(), next as int));
                assert forall|i: int| 0 <= i < NUM_LOCK && i != next implies !#[trigger] owns(
                    self.stages(),
                    self.waiting_flags(),
                    i,
                ) by {
                    if i != idx {
                        assert(self.stages()[i] == old(self).stages()[i]);
                        assert(self.waiting_flags()[i] == old(self).waiting_flags()[i]);
                        assert(!owns(old(self).stages(), old(self).waiting_flags(), i));
                    }
                }
                assert forall|i: int|
                    0 <= i < NUM_LOCK && #[trigger] self.stages()[i] == Stage::Idle implies !self.waiting_flags()[i] by {
                    if i != idx && i != next {
                        assert(old(self).stages()[i] == Stage::Idle);
                    }
                }
                lemma_wf_one_owner(*self, next as int);
            }
        } else {
            let n1 = next + 1;
            proof {
                assert(n1 & 7usize == n1 % 8) by (bit_vector)
                    requires
                        n1 <= 8usize,
                ;
            }
            self.turn = n1 & MASK;
            self.lock = false;
            proof {
                assert forall|i: int| 0 <= i < NUM_LOCK implies !#[trigger] owns(
                    self.stages(),
                    self.waiting_flags(),
                    i,
                ) by {
                    if i != idx {
                        assert(self.stages()[i] == old(self).stages()[i]);
                        assert(self.waiting_flags()[i] == old(self).waiting_flags()[i]);
                        assert(!owns(old(self).stages(), old(self).waiting_flags(), i));
                    }
                }
                assert forall|i: int|
                    0 <= i < NUM_LOCK && #[trigger] self.stages()[i] == Stage::Idle implies !self.waiting_flags()[i] by {
                    if i != idx {
                        assert(old(self).stages()[i] == Stage::Idle);
                    }
                }
                lemma_wf_no_owner(*self);
            }
        }
    }

    /// The protected data, for the holder of the lock.
    pub fn get(&self, guard: &FairLockGuard) -> (r: &T)
        requires
            self.wf(),
            guard.thread() < NUM_LOCK,
            self.stages()[guard.thread()] == Stage::Critical,
        ensures
            *r == self.value(),
    {
        &self.data
    }

    /// Replaces the protected data, for the holder of the lock.
    pub fn set(&mut self, guard: &FairLockGuard, v: T)
        requires
            old(self).wf(),
            guard.thread() < NUM_LOCK,
            old(self).stages()[guard.thread()] == Stage::Critical,
        ensures
            final(self).wf(),
            final(self).value() == v,
            final(self).stages() == old(self).stages(),
            final(self).locked() == old(self).locked(),
            final(self).turn_of() == old(self).turn_of(),
            final(self).waiting_flags() == old(self).waiting_flags(),
    {
        self.data = v;
    }
}

/// The protocol invariant depends only on who owns the lock, on the lock
/// flag, and on idle threads not waiting.
proof fn lemma_wf_from_owners<T>(a: FairLock<T>, b: FairLock<T>)
    requires
        a.wf(),
        b.waiting_flags().len() == NUM_LOCK,
        b.stages().len() == NUM_LOCK,
        0 <= b.turn_of() < NUM_LOCK,
        forall|i: int|
            0 <= i < NUM_LOCK && #[trigger] b.stages()[i] == Stage::Idle ==> !b.waiting_flags()[i],
        forall|i: int|
            0 <= i < NUM_LOCK ==> #[trigger] owns(b.stages(), b.waiting_flags(), i) == owns(
                a.stages(),
                a.waiting_flags(),
                i,
            ),
        b.locked() == a.locked(),
    ensures
        b.wf(),
{
    if b.locked() {
        let i = choose|i: int| 0 <= i < NUM_LOCK && #[trigger] owns(a.stages(), a.waiting_flags(), i);
        assert(owns(b.stages(), b.waiting_flags(), i));
    }
    assert forall|i: int, j: int|
        0 <= i < NUM_LOCK && 0 <= j < NUM_LOCK && #[trigger] owns(
            b.stages(),
            b.waiting_flags(),
            i,
        ) && #[trigger] owns(b.stages(), b.waiting_flags(), j) implies i == j by {
        assert(owns(a.stages(), a.waiting_flags(), i));
        assert(owns(a.stages(), a.waiting_flags(), j));
    }
    if exists|i: int| 0 <= i < NUM_LOCK && #[trigger] owns(b.stages(), b.waiting_flags(), i) {
        let i = choose|i: int| 0 <= i < NUM_LOCK && #[trigger] owns(b.stages(), b.waiting_flags(), i);
        assert(owns(a.stages(), a.waiting_flags(), i));
    }
}

/// A state with exactly one owner, and the lock flag up, keeps the protocol
/// invariant.
proof fn lemma_wf_one_owner<T>(b: FairLock<T>, k: int)
    requires
        b.waiting_flags().len() == NUM_LOCK,
        b.stages().len() == NUM_LOCK,
        0 <= b.turn_of() < NUM_LOCK,
        forall|i: int|
            0 <= i < NUM_LOCK && #[trigger] b.stages()[i] == Stage::Idle ==> !b.waiting_flags()[i],
        0 <= k < NUM_LOCK,
        owns(b.stages(), b.waiting_flags(), k),
        forall|i: int| 0 <= i < NUM_LOCK && i != k ==> !#[trigger] owns(b.stages(), b.waiting_flags(), i),
        b.locked(),
    ensures
        b.wf(),
{
}

/// A state with no owner, and the lock flag down, keeps the protocol
/// invariant.
proof fn lemma_wf_no_owner<T>(b: FairLock<T>)
    requires
        b.waiting_flags().len() == NUM_LOCK,
        b.stages().len() == NUM_LOCK,
        0 <= b.turn_of() < NUM_LOCK,
        forall|i: int|
            0 <= i < NUM_LOCK && #[trigger] b.stages()[i] == Stage::Idle ==> !b.waiting_flags()[i],
        forall|i: int| 0 <= i < NUM_LOCK ==> !#[trigger] owns(b.stages(), b.waiting_flags(), i),
        !b.locked(),
    ensures
        b.wf(),
{
}

/// Law: mutual exclusion. In every state of the protocol at most one thread
/// is inside, and while one is inside the lock flag is up.
pub proof fn law_mutual_exclusion<T>(l: FairLock<T>, i: int, j: int)
    requires
        l.wf(),
        0 <= i < NUM_LOCK,
        0 <= j < NUM_LOCK,
        l.stages()[i] == Stage::Critical,
        l.stages()[j] == Stage::Critical,
    ensures
        i == j,
        l.locked(),
{
    assert(owns(l.stages(), l.waiting_flags(), i));
    assert(owns(l.stages(), l.waiting_flags(), j));
}

/// How long thread `idx` may still wait while `holder` holds the lock: twice
/// the distance in turn order from the turn to `idx`, plus one when the
/// holder is not the thread whose turn it is.
pub open spec fn wait_measure(turn: int, holder: int, idx: int) -> int {
    2 * ((idx - turn) % NUM_LOCK as int) + if holder == turn {
        0int
    } else {
        1int
    }
}

/// Law: bounded waiting. While thread `idx` waits with its flag raised, the
/// measure is below `2 * NUM_LOCK`, and each release by the holder (with the
/// turn and flags as `unlock` finds them) either hands the lock to `idx`, or
/// hands it to the next thread in turn with a smaller measure, or frees it
/// with the measure smaller whoever takes the lock next. So `idx` owns the
/// lock after at most `2 * NUM_LOCK` releases; a release never skips it.
#[verifier::rlimit(40)]
pub proof fn law_bounded_waiting(turn: int, holder: int, idx: int, waiting: Seq<bool>)
    requires
        0 <= turn < NUM_LOCK,
        0 <= holder < NUM_LOCK,
        0 <= idx < NUM_LOCK,
        holder != idx,
        waiting.len() == NUM_LOCK,
        waiting[idx],
    ensures
        0 <= wait_measure(turn, holder, idx) < 2 * NUM_LOCK,
        ({
            let next = if turn == holder {
                next_in_turn(turn)
            } else {
                turn
            };
            if next != holder && waiting[next] {
                next == idx || wait_measure(next, next, idx) < wait_measure(turn, holder, idx)
            } else {
                forall|h: int|
                    #[trigger] wait_measure(next_in_turn(next), h, idx) < wait_measure(
                        turn,
                        holder,
                        idx,
                    )
            }
        }),
{
    let d = (idx - turn) % NUM_LOCK as int;
    assert(0 <= d < NUM_LOCK);
    let next = if turn == holder {
        next_in_turn(turn)
    } else {
        turn
    };
    if turn == holder {
        assert(d >= 1);
        assert((idx - next) % NUM_LOCK as int == d - 1);
        if !(next != holder && waiting[next]) {
            assert(next != idx);
            assert(d >= 2);
            assert((idx - next_in_turn(next)) % NUM_LOCK as int == d - 2);
        }
    } else {
        if !(next != holder && waiting[next]) {
            assert(turn != idx);
            assert(d >= 1);
            assert((idx - next_in_turn(next)) % NUM_LOCK as int == d - 1);
        }
    }
}

} // verus!
