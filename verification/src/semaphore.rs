use vstd::prelude::*;

verus! {

/// A counting semaphore over a counter and a bound.
///
/// The counter holds the number of current holders. A holder enters with
/// `wait`, which succeeds only while the counter is below the bound, and
/// leaves with `post`. Blocking (waiting on a condition variable until an
/// attempt succeeds) is left to the caller: each call here is one step made
/// while the semaphore's mutex is held.
pub struct Semaphore {
    count: isize,
    max: isize,
}

/// What `wait` does to a counter under a bound: the new counter and whether
/// the caller entered.
pub open spec fn wait_step(count: int, max: int) -> (int, bool) {
    if count < max {
        (count + 1, true)
    } else {
        (count, false)
    }
}

/// What `post` does to a counter under a bound: the new counter and whether
/// a waiter is to be woken.
pub open spec fn post_step(count: int, max: int) -> (int, bool) {
    (count - 1, count - 1 <= max)
}

impl Semaphore {
    /// The number of current holders.
    pub closed spec fn count(&self) -> int {
        self.count as int
    }

    /// The bound on holders given at construction.
    pub closed spec fn max(&self) -> int {
        self.max as int
    }

    /// The counter never exceeds the bound, or zero where the bound is
    /// not positive.
    pub open spec fn bounded(&self) -> bool {
        self.count() <= if self.max() > 0 { self.max() } else { 0 }
    }

    /// A semaphore with no holders and the given bound.
    pub fn new(max: isize) -> (s: Self)
        ensures
            s.count() == 0,
            s.max() == max,
            s.bounded(),
    {
        Semaphore { count: 0, max }
    }

    /// The bound given at construction.
    pub fn get_max(&self) -> (r: isize)
        ensures
            r == self.max(),
    {
        self.max
    }

    /// The current number of holders.
    pub fn get_count(&self) -> (r: isize)
        ensures
            r == self.count(),
    {
        self.count
    }

    /// One attempt to enter: while the counter is below the bound it is
    /// incremented and `true` is returned; otherwise nothing changes and the
    /// caller has to wait and try again.
    pub fn wait(&mut self) -> (entered: bool)
        ensures
            (final(self).count(), entered) == wait_step(old(self).count(), old(self).max()),
            final(self).max() == old(self).max(),
            old(self).bounded() ==> final(self).bounded(),
    {
        if self.count < self.max {
            self.count = self.count + 1;
            true
        } else {
            false
        }
    }

    /// Leave: the counter is decremented; the result tells whether a waiter
    /// is to be notified (the counter is then at most the bound).
    pub fn post(&mut self) -> (notify: bool)
        requires
            old(self).count() > isize::MIN,
        ensures
            (final(self).count(), notify) == post_step(old(self).count(), old(self).max()),
            final(self).max() == old(self).max(),
            old(self).bounded() ==> final(self).bounded(),
    {
        self.count = self.count - 1;
        self.count <= self.max
    }
}

/// Law: a successful `wait` followed by a `post` leaves the counter where it
/// was.
pub proof fn law_post_undoes_wait(count: int, max: int)
    requires
        wait_step(count, max).1,
    ensures
        post_step(wait_step(count, max).0, max).0 == count,
        post_step(wait_step(count, max).0, max).1,
{
}

/// Law: `wait` succeeds exactly while the counter is below the bound, and never
/// takes the counter past the bound.
pub proof fn law_wait_respects_bound(count: int, max: int)
    ensures
        wait_step(count, max).1 <==> count < max,
        wait_step(count, max).1 ==> wait_step(count, max).0 <= max,
{
}

/// The counter after a run of operations from `count`: `true` is an attempt
/// to enter (`wait`), `false` a leave (`post`).
pub open spec fn run_count(count: int, max: int, ops: Seq<bool>) -> int
    decreases ops.len(),
{
    if ops.len() == 0 {
        count
    } else {
        let next = if ops[0] {
            wait_step(count, max).0
        } else {
            post_step(count, max).0
        };
        run_count(next, max, ops.drop_first())
    }
}

/// Every leave in the run is made by a holder: whenever a `post` comes,
/// some `wait` has entered and not yet left, so the counter is positive.
pub open spec fn posts_matched(count: int, max: int, ops: Seq<bool>) -> bool
    decreases ops.len(),
{
    if ops.len() == 0 {
        true
    } else {
        let next = if ops[0] {
            wait_step(count, max).0
        } else {
            post_step(count, max).0
        };
        &&& (ops[0] || count > 0)
        &&& posts_matched(next, max, ops.drop_first())
    }
}

/// Law: a semaphore used as it should be, every `post` by a thread that
/// entered with `wait`, keeps its counter between zero and the bound:
/// from a counter in that range, after any such run of attempts to enter
/// and leaves, `0 <= count <= max` (for a positive bound).
pub proof fn law_count_in_range(count: int, max: int, ops: Seq<bool>)
    requires
        0 <= count,
        count <= if max > 0 {
            max
        } else {
            0
        },
        posts_matched(count, max, ops),
    ensures
        0 <= run_count(count, max, ops),
        run_count(count, max, ops) <= if max > 0 {
            max
        } else {
            0
        },
    decreases ops.len(),
{
    if ops.len() > 0 {
        let next = if ops[0] {
            wait_step(count, max).0
        } else {
            post_step(count, max).0
        };
        law_count_in_range(next, max, ops.drop_first());
    }
}

} // verus!
