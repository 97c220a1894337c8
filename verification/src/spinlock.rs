use vstd::prelude::*;

verus! {

/// A spin lock: a flag that a thread sets to enter, spinning while it is
/// set, and clears to leave.
pub struct SpinLock<T> {
    lock: bool,
    data: T,
}

/// The right to the data of a spin lock, held between a successful `lock`
/// and `unlock`.
pub struct SpinLockGuard {
    taken: bool,
}

impl<T> SpinLock<T> {
    /// Whether the lock is held.
    pub closed spec fn locked(&self) -> bool {
        self.lock
    }

    /// The protected data.
    pub closed spec fn value(&self) -> T {
        self.data
    }

    /// An unlocked spin lock around `v`.
    pub fn new(v: T) -> (r: Self)
        ensures
            !r.locked(),
            r.value() == v,
    {
        SpinLock { lock: false, data: v }
    }

    /// Whether the lock is held.
    pub fn is_locked(&self) -> (r: bool)
        ensures
            r == self.locked(),
    {
        self.lock
    }

    /// One attempt to take the lock: when the flag is clear it is set and a
    /// guard returned; otherwise `None` tells the caller to spin and try
    /// again.
    pub fn lock(&mut self) -> (r: Option<SpinLockGuard>)
        ensures
            final(self).locked(),
            final(self).value() == old(self).value(),
            r is Some <==> !old(self).locked(),
    {
        if self.lock {
            None
        } else {
            self.lock = true;
            Some(SpinLockGuard { taken: true })
        }
    }

    /// Releases the lock.
    pub fn unlock(&mut self, guard: SpinLockGuard)
        requires
            old(self).locked(),
        ensures
            !final(self).locked(),
            final(self).value() == old(self).value(),
    {
        self.lock = false;
    }

    /// The protected data, for the holder of the lock.
    pub fn get(&self, guard: &SpinLockGuard) -> (r: &T)
        requires
            self.locked(),
        ensures
            *r == self.value(),
    {
        &self.data
    }

    /// Replaces the protected data, for the holder of the lock.
    pub fn set(&mut self, guard: &SpinLockGuard, v: T)
        requires
            old(self).locked(),
        ensures
            final(self).locked(),
            final(self).value() == v,
    {
        self.data = v;
    }
}

/// Threads that count under a spin lock, as the lock's steps state it: the
/// lock flag, the thread holding it, the counter, each thread's phase (0
/// idle, 1 holding the lock, 2 holding it and having read the counter),
/// what each thread read, and the number of increments completed.
pub struct CountingState {
    pub locked: bool,
    pub holder: int,
    pub value: int,
    pub phase: Seq<int>,
    pub read: Seq<int>,
    pub done: int,
}

/// One step of thread `t`: an idle thread tries `lock` (it succeeds exactly
/// when the flag is clear); a holder reads the counter with `get`; a holder
/// that has read writes one more with `set` and releases with `unlock`.
pub open spec fn counting_step(s: CountingState, t: int) -> CountingState {
    if s.phase[t] == 0 {
        if !s.locked {
            CountingState { locked: true, holder: t, phase: s.phase.update(t, 1), ..s }
        } else {
            s
        }
    } else if s.phase[t] == 1 {
        CountingState { phase: s.phase.update(t, 2), read: s.read.update(t, s.value), ..s }
    } else {
        CountingState {
            locked: false,
            value: s.read[t] + 1,
            phase: s.phase.update(t, 0),
            done: s.done + 1,
            ..s
        }
    }
}

/// The state after the threads in `ops` take their steps in turn.
pub open spec fn counting_run(s: CountingState, ops: Seq<int>) -> CountingState
    decreases ops.len(),
{
    if ops.len() == 0 {
        s
    } else {
        counting_run(counting_step(s, ops[0]), ops.drop_first())
    }
}

/// At most the holder is past idle, and only while the flag is set; a
/// thread that has read holds the current counter; the counter is the
/// start plus the increments done.
spec fn counting_ok(s: CountingState, k: int, v0: int) -> bool {
    &&& s.phase.len() == k
    &&& s.read.len() == k
    &&& forall|t: int| 0 <= t < k ==> 0 <= #[trigger] s.phase[t] <= 2
    &&& s.locked ==> 0 <= s.holder < k
    &&& forall|t: int| 0 <= t < k && #[trigger] s.phase[t] != 0 ==> s.locked && t == s.holder
    &&& forall|t: int| 0 <= t < k && #[trigger] s.phase[t] == 2 ==> s.read[t] == s.value
    &&& s.value == v0 + s.done
}

proof fn lemma_counting_run(s: CountingState, k: int, v0: int, ops: Seq<int>)
    requires
        counting_ok(s, k, v0),
        forall|i: int| 0 <= i < ops.len() ==> 0 <= #[trigger] ops[i] < k,
    ensures
        counting_ok(counting_run(s, ops), k, v0),
    decreases ops.len(),
{
    if ops.len() > 0 {
        let t = ops[0];
        let s1 = counting_step(s, t);
        assert(counting_ok(s1, k, v0)) by {
            assert forall|u: int| 0 <= u < k && #[trigger] s1.phase[u] != 0 implies s1.locked && u
                == s1.holder by {
                if u != t {
                    assert(s.phase[u] != 0);
                }
            }
            assert forall|u: int| 0 <= u < k && #[trigger] s1.phase[u] == 2 implies s1.read[u]
                == s1.value by {
                if u != t {
                    assert(s.phase[u] == 2);
                }
            }
        }
        assert forall|i: int| 0 <= i < ops.drop_first().len() implies 0 <= #[trigger] ops.drop_first()[i]
            < k by {
            assert(ops.drop_first()[i] == ops[i + 1]);
        }
        lemma_counting_run(s1, k, v0, ops.drop_first());
    }
}

/// Law: no increment is lost. `k` threads start idle with the lock free
/// and the counter at `v0`; however their steps interleave, at most one
/// thread is ever past `lock`, and the counter is always `v0` plus the
/// number of increments completed. When every thread has finished its
/// rounds, the counter is the start plus all the rounds.
pub proof fn law_no_increment_lost(k: int, v0: int, ops: Seq<int>)
    requires
        0 <= k,
        forall|i: int| 0 <= i < ops.len() ==> 0 <= #[trigger] ops[i] < k,
    ensures
        ({
            let s = counting_run(
                CountingState {
                    locked: false,
                    holder: 0,
                    value: v0,
                    phase: Seq::new(k as nat, |t: int| 0int),
                    read: Seq::new(k as nat, |t: int| 0int),
                    done: 0,
                },
                ops,
            );
            &&& s.value == v0 + s.done
            &&& forall|t: int, u: int|
                0 <= t < k && 0 <= u < k && #[trigger] s.phase[t] != 0 && #[trigger] s.phase[u]
                    != 0 ==> t == u
        }),
{
    let s0 = CountingState {
        locked: false,
        holder: 0,
        value: v0,
        phase: Seq::new(k as nat, |t: int| 0int),
        read: Seq::new(k as nat, |t: int| 0int),
        done: 0,
    };
    lemma_counting_run(s0, k, v0, ops);
}

} // verus!
