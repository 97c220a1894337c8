use vstd::prelude::*;

verus! {

/// The mathematical state of the banker's algorithm: `n` threads and `m`
/// resource kinds.
///
/// `avail[j]` units of resource `j` are free, thread `i` holds `alloc[i][j]`
/// of them and may ask for at most `maxc[i][j]` in all.
pub struct BankModel {
    pub avail: Seq<int>,
    pub alloc: Seq<Seq<int>>,
    pub maxc: Seq<Seq<int>>,
}

/// The set of threads whose run has been simulated, as one flag per thread.
pub open spec fn no_thread_finished(n: nat) -> Seq<bool> {
    Seq::new(n, |i: int| false)
}

/// Every flag of `f` among the first `n` is set.
pub open spec fn all_finished(f: Seq<bool>, n: int) -> bool {
    forall|i: int| 0 <= i < n ==> f[i]
}

/// Every thread finished in `f` is finished in `g` too.
pub open spec fn finished_subset(f: Seq<bool>, g: Seq<bool>, n: int) -> bool {
    forall|i: int| 0 <= i < n && f[i] ==> g[i]
}

/// The number of set flags among the first `k` of `f`.
pub open spec fn count_finished(f: Seq<bool>, k: int) -> int
    decreases k,
{
    if k <= 0 {
        0
    } else {
        count_finished(f, k - 1) + if f[k - 1] { 1int } else { 0int }
    }
}

impl BankModel {
    /// The number of threads.
    pub open spec fn n(self) -> int {
        self.alloc.len() as int
    }

    /// The number of resource kinds.
    pub open spec fn m(self) -> int {
        self.avail.len() as int
    }

    /// The units of resource `j` held by the threads among the first `k`
    /// that are finished in `f`.
    pub open spec fn held_by(self, f: Seq<bool>, j: int, k: int) -> int
        decreases k,
    {
        if k <= 0 {
            0
        } else {
            self.held_by(f, j, k - 1) + if f[k - 1] { self.alloc[k - 1][j] } else { 0int }
        }
    }

    /// The units of resource `j` free once the threads finished in `f` have
    /// run to completion and given back what they hold.
    pub open spec fn work(self, f: Seq<bool>, j: int) -> int {
        self.avail[j] + self.held_by(f, j, self.n())
    }

    /// All units of resource `j`, free or held.
    pub open spec fn total(self, j: int) -> int {
        self.work(Seq::new(self.n() as nat, |i: int| true), j)
    }

    /// What thread `i` may still ask for of resource `j`.
    pub open spec fn need(self, i: int, j: int) -> int {
        self.maxc[i][j] - self.alloc[i][j]
    }

    /// Thread `i` can obtain all it may still ask for once the threads
    /// finished in `f` have given back what they hold.
    pub open spec fn can_run(self, i: int, f: Seq<bool>) -> bool {
        forall|j: int| 0 <= j < self.m() ==> self.need(i, j) <= self.work(f, j)
    }

    /// `order` lists the threads not finished in `f`, each once, in an order
    /// in which each can run to completion after those before it.
    pub open spec fn valid_order(self, f: Seq<bool>, order: Seq<int>) -> bool
        decreases order.len(),
    {
        if order.len() == 0 {
            all_finished(f, self.n())
        } else {
            let i = order[0];
            &&& 0 <= i < self.n()
            &&& !f[i]
            &&& self.can_run(i, f)
            &&& self.valid_order(f.update(i, true), order.drop_first())
        }
    }

    /// Starting from the threads finished in `f`, all others can run to
    /// completion in some order.
    pub open spec fn safe_from(self, f: Seq<bool>) -> bool {
        exists|order: Seq<int>| self.valid_order(f, order)
    }

    /// The state is safe: there is an order in which every thread can obtain
    /// what it may still ask for and run to completion.
    pub open spec fn is_safe(self) -> bool {
        self.safe_from(no_thread_finished(self.n() as nat))
    }

    /// The shape and ranges that every state of the banker keeps.
    pub open spec fn wf(self) -> bool {
        &&& self.maxc.len() == self.n()
        &&& forall|i: int| 0 <= i < self.n() ==> #[trigger] self.alloc[i].len() == self.m()
        &&& forall|i: int| 0 <= i < self.n() ==> #[trigger] self.maxc[i].len() == self.m()
        &&& forall|j: int| 0 <= j < self.m() ==> 0 <= #[trigger] self.avail[j]
        &&& forall|i: int, j: int|
            0 <= i < self.n() && 0 <= j < self.m() ==> 0 <= #[trigger] self.alloc[i][j]
                <= self.maxc[i][j]
        &&& forall|j: int| 0 <= j < self.m() ==> #[trigger] self.total(j) <= usize::MAX
    }

    /// Thread `id` obtains one unit of resource `res`.
    pub open spec fn take_unit(self, id: int, res: int) -> BankModel {
        BankModel {
            avail: self.avail.update(res, self.avail[res] - 1),
            alloc: self.alloc.update(id, self.alloc[id].update(res, self.alloc[id][res] + 1)),
            maxc: self.maxc,
        }
    }

    /// Thread `id` gives back one unit of resource `res`.
    pub open spec fn release_unit(self, id: int, res: int) -> BankModel {
        BankModel {
            avail: self.avail.update(res, self.avail[res] + 1),
            alloc: self.alloc.update(id, self.alloc[id].update(res, self.alloc[id][res] - 1)),
            maxc: self.maxc,
        }
    }

    /// The outcome of a request by thread `id` for one unit of `res`: the
    /// unit is granted when both numbers are in range, a unit is free and the
    /// state after granting it is safe.
    pub open spec fn grants(self, id: int, res: int) -> bool {
        &&& 0 <= id < self.n()
        &&& 0 <= res < self.m()
        &&& self.avail[res] > 0
        &&& self.take_unit(id, res).is_safe()
    }

    /// A release by thread `id` of one unit of `res` changes the state when
    /// both numbers are in range and the thread holds such a unit.
    pub open spec fn releases(self, id: int, res: int) -> bool {
        &&& 0 <= id < self.n()
        &&& 0 <= res < self.m()
        &&& self.alloc[id][res] > 0
    }
}

/// Held units only grow when more threads are finished.
pub proof fn lemma_held_by_monotone(s: BankModel, f: Seq<bool>, g: Seq<bool>, j: int, k: int)
    requires
        s.wf(),
        0 <= j < s.m(),
        0 <= k <= s.n(),
        finished_subset(f, g, s.n()),
    ensures
        0 <= s.held_by(f, j, k) <= s.held_by(g, j, k),
    decreases k,
{
    if k > 0 {
        lemma_held_by_monotone(s, f, g, j, k - 1);
        assert(0 <= s.alloc[k - 1][j]);
    }
}

/// Finishing thread `i` adds what it holds to the units held by finished
/// threads.
pub proof fn lemma_held_by_finish(s: BankModel, f: Seq<bool>, i: int, j: int, k: int)
    requires
        0 <= i < f.len(),
        !f[i],
        0 <= k <= f.len(),
    ensures
        s.held_by(f.update(i, true), j, k) == s.held_by(f, j, k) + if i < k {
            s.alloc[i][j]
        } else {
            0int
        },
    decreases k,
{
    if k > 0 {
        lemma_held_by_finish(s, f, i, j, k - 1);
    }
}

/// Finishing thread `i` adds one to the count of finished threads.
pub proof fn lemma_count_finish(f: Seq<bool>, i: int, k: int)
    requires
        0 <= i < f.len(),
        !f[i],
        0 <= k <= f.len(),
    ensures
        count_finished(f.update(i, true), k) == count_finished(f, k) + if i < k {
            1int
        } else {
            0int
        },
    decreases k,
{
    if k > 0 {
        lemma_count_finish(f, i, k - 1);
    }
}

/// The count of finished threads lies between zero and the number of flags
/// looked at, and reaches it only when all are set.
pub proof fn lemma_count_bounds(f: Seq<bool>, k: int)
    requires
        0 <= k <= f.len(),
    ensures
        0 <= count_finished(f, k) <= k,
        count_finished(f, k) == k <==> all_finished(f, k),
    decreases k,
{
    if k > 0 {
        lemma_count_bounds(f, k - 1);
        if count_finished(f, k) == k {
            assert forall|i: int| 0 <= i < k implies f[i] by {
                if i < k - 1 {
                }
            }
        }
    }
}

/// If the threads of `f` can be completed in `order`, the threads of any
/// larger set `g` can be completed too: finishing more threads frees more.
pub proof fn lemma_safe_superset(s: BankModel, f: Seq<bool>, g: Seq<bool>, order: Seq<int>) -> (order2: Seq<int>)
    requires
        s.wf(),
        f.len() == s.n(),
        g.len() == s.n(),
        finished_subset(f, g, s.n()),
        s.valid_order(f, order),
    ensures
        s.valid_order(g, order2),
    decreases order.len(),
{
    if order.len() == 0 {
        Seq::empty()
    } else {
        let i = order[0];
        let f1 = f.update(i, true);
        if g[i] {
            assert(finished_subset(f1, g, s.n()));
            lemma_safe_superset(s, f1, g, order.drop_first())
        } else {
            let g1 = g.update(i, true);
            assert(finished_subset(f1, g1, s.n()));
            assert forall|j: int| 0 <= j < s.m() implies s.need(i, j) <= s.work(g, j) by {
                lemma_held_by_monotone(s, f, g, j, s.n());
            }
            let rest = lemma_safe_superset(s, f1, g1, order.drop_first());
            let order2 = seq![i] + rest;
            assert(order2.drop_first() =~= rest);
            order2
        }
    }
}

/// Running a thread that can run does not change whether the rest can be
/// completed: this is what makes the greedy search of the banker exact.
pub proof fn lemma_safe_step(s: BankModel, f: Seq<bool>, i: int)
    requires
        s.wf(),
        f.len() == s.n(),
        0 <= i < s.n(),
        !f[i],
        s.can_run(i, f),
    ensures
        s.safe_from(f) == s.safe_from(f.update(i, true)),
{
    let f1 = f.update(i, true);
    if s.safe_from(f) {
        let order = choose|order: Seq<int>| s.valid_order(f, order);
        assert(finished_subset(f, f1, s.n()));
        let order2 = lemma_safe_superset(s, f, f1, order);
        assert(s.valid_order(f1, order2));
    }
    if s.safe_from(f1) {
        let order = choose|order: Seq<int>| s.valid_order(f1, order);
        let order2 = seq![i] + order;
        assert(order2.drop_first() =~= order);
        assert(s.valid_order(f, order2));
    }
}

/// When some thread is not finished and none of the unfinished threads can
/// run, the rest cannot be completed.
pub proof fn lemma_stuck_unsafe(s: BankModel, f: Seq<bool>)
    requires
        !all_finished(f, s.n()),
        forall|i: int| 0 <= i < s.n() && !f[i] ==> !s.can_run(i, f),
    ensures
        !s.safe_from(f),
{
    if s.safe_from(f) {
        let order = choose|order: Seq<int>| s.valid_order(f, order);
        assert(order.len() > 0);
    }
}

/// When all threads are finished the rest is trivially completed.
pub proof fn lemma_finished_safe(s: BankModel, f: Seq<bool>)
    requires
        all_finished(f, s.n()),
    ensures
        s.safe_from(f),
{
    assert(s.valid_order(f, Seq::empty()));
}

/// Two states with the same numbers everywhere are the same state.
pub proof fn lemma_model_ext(a: BankModel, b: BankModel)
    requires
        a.avail.len() == b.avail.len(),
        forall|j: int| 0 <= j < a.avail.len() ==> a.avail[j] == b.avail[j],
        a.alloc.len() == b.alloc.len(),
        forall|i: int| 0 <= i < a.alloc.len() ==> #[trigger] a.alloc[i].len() == b.alloc[i].len(),
        forall|i: int, j: int|
            0 <= i < a.alloc.len() && 0 <= j < a.alloc[i].len() ==> #[trigger] a.alloc[i][j]
                == b.alloc[i][j],
        a.maxc.len() == b.maxc.len(),
        forall|i: int| 0 <= i < a.maxc.len() ==> #[trigger] a.maxc[i].len() == b.maxc[i].len(),
        forall|i: int, j: int|
            0 <= i < a.maxc.len() && 0 <= j < a.maxc[i].len() ==> #[trigger] a.maxc[i][j]
                == b.maxc[i][j],
    ensures
        a == b,
{
    assert(a.avail =~= b.avail);
    assert forall|i: int| 0 <= i < a.alloc.len() implies a.alloc[i] =~= b.alloc[i] by {}
    assert(a.alloc =~= b.alloc);
    assert forall|i: int| 0 <= i < a.maxc.len() implies a.maxc[i] =~= b.maxc[i] by {}
    assert(a.maxc =~= b.maxc);
}

/// Changing what thread `id` holds of `res` by `d` changes the units held by
/// finished threads by `d` exactly where that thread is counted.
pub proof fn lemma_held_by_change(
    s: BankModel,
    t: BankModel,
    id: int,
    res: int,
    d: int,
    f: Seq<bool>,
    j: int,
    k: int,
)
    requires
        0 <= id < s.n(),
        t.alloc.len() == s.alloc.len(),
        forall|i: int| 0 <= i < s.n() && i != id ==> #[trigger] t.alloc[i] == s.alloc[i],
        forall|jj: int|
            0 <= jj < s.m() && jj != res ==> #[trigger] t.alloc[id][jj] == s.alloc[id][jj],
        t.alloc[id][res] == s.alloc[id][res] + d,
        0 <= k <= s.n(),
        0 <= j < s.m(),
        0 <= res < s.m(),
    ensures
        t.held_by(f, j, k) == s.held_by(f, j, k) + if j == res && id < k && f[id] {
            d
        } else {
            0int
        },
    decreases k,
{
    if k > 0 {
        lemma_held_by_change(s, t, id, res, d, f, j, k - 1);
    }
}

/// After a release, the free units of `res` grow by one wherever the
/// releasing thread has not yet been simulated to completion.
proof fn lemma_release_work(s: BankModel, id: int, res: int, f: Seq<bool>, j: int)
    requires
        s.wf(),
        s.releases(id, res),
        f.len() == s.n(),
        0 <= j < s.m(),
    ensures
        s.release_unit(id, res).work(f, j) == s.work(f, j) + if j == res && !f[id] {
            1int
        } else {
            0int
        },
{
    lemma_held_by_change(s, s.release_unit(id, res), id, res, -1, f, j, s.n());
}

/// Every order that completes the threads before a release still completes
/// them after it.
proof fn lemma_release_keeps_order(s: BankModel, id: int, res: int, f: Seq<bool>, order: Seq<int>)
    requires
        s.wf(),
        s.releases(id, res),
        f.len() == s.n(),
        s.valid_order(f, order),
    ensures
        s.release_unit(id, res).valid_order(f, order),
    decreases order.len(),
{
    let t = s.release_unit(id, res);
    if order.len() > 0 {
        let i = order[0];
        assert forall|j: int| 0 <= j < t.m() implies t.need(i, j) <= t.work(f, j) by {
            lemma_release_work(s, id, res, f, j);
            assert(s.need(i, j) <= s.work(f, j));
        }
        lemma_release_keeps_order(s, id, res, f.update(i, true), order.drop_first());
    }
}

/// Law: giving back a unit never makes a safe state unsafe.
pub proof fn law_release_keeps_safe(s: BankModel, id: int, res: int)
    requires
        s.wf(),
        s.is_safe(),
        s.releases(id, res),
    ensures
        s.release_unit(id, res).is_safe(),
{
    let f = no_thread_finished(s.n() as nat);
    let order = choose|order: Seq<int>| s.valid_order(f, order);
    lemma_release_keeps_order(s, id, res, f, order);
    assert(s.release_unit(id, res).valid_order(
        no_thread_finished(s.release_unit(id, res).n() as nat),
        order,
    ));
}

/// Law: the banker only moves between safe states. From a safe state, a
/// request leaves a safe state whether it is granted or refused, and so does
/// a release.
pub proof fn law_safety_invariant(s: BankModel, id: int, res: int)
    requires
        s.wf(),
        s.is_safe(),
    ensures
        (if s.grants(id, res) {
            s.take_unit(id, res)
        } else {
            s
        }).is_safe(),
        (if s.releases(id, res) {
            s.release_unit(id, res)
        } else {
            s
        }).is_safe(),
{
    if s.releases(id, res) {
        law_release_keeps_safe(s, id, res);
    }
}

/// Law: a release undoes a granted request.
pub proof fn law_release_undoes_take(s: BankModel, id: int, res: int)
    requires
        s.wf(),
        s.grants(id, res),
    ensures
        s.take_unit(id, res).releases(id, res),
        s.take_unit(id, res).release_unit(id, res) == s,
{
    let t = s.take_unit(id, res).release_unit(id, res);
    assert(t.alloc[id] =~= s.alloc[id]);
    lemma_model_ext(t, s);
}

/// Law: units are neither created nor lost; a granted request and a release
/// keep the total of every resource.
pub proof fn law_totals_conserved(s: BankModel, id: int, res: int, j: int)
    requires
        s.wf(),
        0 <= id < s.n(),
        0 <= res < s.m(),
        0 <= j < s.m(),
    ensures
        s.take_unit(id, res).total(j) == s.total(j),
        s.release_unit(id, res).total(j) == s.total(j),
{
    let all = Seq::new(s.n() as nat, |i: int| true);
    lemma_held_by_change(s, s.take_unit(id, res), id, res, 1, all, j, s.n());
    lemma_held_by_change(s, s.release_unit(id, res), id, res, -1, all, j, s.n());
}

/// Two states with the same holdings have the same units held by any set of
/// finished threads.
proof fn lemma_held_by_same_alloc(s: BankModel, t: BankModel, f: Seq<bool>, j: int, k: int)
    requires
        s.alloc == t.alloc,
    ensures
        s.held_by(f, j, k) == t.held_by(f, j, k),
    decreases k,
{
    if k > 0 {
        lemma_held_by_same_alloc(s, t, f, j, k - 1);
    }
}

/// An order in which every thread can finish stays such an order when more
/// units are free.
proof fn lemma_more_free_keeps_order(s: BankModel, t: BankModel, f: Seq<bool>, order: Seq<int>)
    requires
        s.valid_order(f, order),
        t.alloc == s.alloc,
        t.maxc == s.maxc,
        t.avail.len() == s.avail.len(),
        forall|j: int| 0 <= j < s.m() ==> #[trigger] t.avail[j] >= s.avail[j],
    ensures
        t.valid_order(f, order),
    decreases order.len(),
{
    if order.len() > 0 {
        let i = order[0];
        assert forall|j: int| 0 <= j < t.m() implies t.need(i, j) <= t.work(f, j) by {
            lemma_held_by_same_alloc(s, t, f, j, s.n());
            assert(s.need(i, j) <= s.work(f, j));
        }
        lemma_more_free_keeps_order(s, t, f.update(i, true), order.drop_first());
    }
}

/// Law: more free units never make a safe state unsafe. A state that differs
/// from a safe one only by having at least as many free units of every
/// resource is safe too.
pub proof fn law_more_free_keeps_safe(s: BankModel, t: BankModel)
    requires
        s.is_safe(),
        t.alloc == s.alloc,
        t.maxc == s.maxc,
        t.avail.len() == s.avail.len(),
        forall|j: int| 0 <= j < s.m() ==> #[trigger] t.avail[j] >= s.avail[j],
    ensures
        t.is_safe(),
{
    let f = no_thread_finished(s.n() as nat);
    let order = choose|order: Seq<int>| s.valid_order(f, order);
    lemma_more_free_keeps_order(s, t, f, order);
    assert(t.valid_order(no_thread_finished(t.n() as nat), order));
}

} // verus!
