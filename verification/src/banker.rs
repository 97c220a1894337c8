use vstd::prelude::*;
use crate::banker_model::{
    law_totals_conserved,
    BankModel, no_thread_finished, finished_subset, count_finished, lemma_held_by_monotone, lemma_held_by_finish,
    lemma_count_finish, lemma_count_bounds, lemma_safe_step, lemma_stuck_unsafe,
    lemma_finished_safe, lemma_model_ext, lemma_held_by_change,
};

verus! {

/// The resources of the banker's algorithm for `NTH` threads and `NRES`
/// resource kinds: free units, units held by each thread, and each thread's
/// maximal claim.
pub struct Resource<const NRES: usize, const NTH: usize> {
    available: [usize; NRES],
    allocation: [[usize; NRES]; NTH],
    max: [[usize; NRES]; NTH],
}

/// The state that `Resource::new` builds from the free units and the claims.
pub open spec fn initial_model<const NRES: usize, const NTH: usize>(
    available: [usize; NRES],
    max: [[usize; NRES]; NTH],
) -> BankModel {
    BankModel {
        avail: Seq::new(NRES as nat, |j: int| available@[j] as int),
        alloc: Seq::new(NTH as nat, |i: int| Seq::new(NRES as nat, |j: int| 0int)),
        maxc: Seq::new(NTH as nat, |i: int| Seq::new(NRES as nat, |j: int| max@[i]@[j] as int)),
    }
}

/// A request by thread `id` for one unit of `res` that goes beyond what the
/// thread declared it may ask for. The safety check of the banker cannot
/// compute the thread's remaining need in such a state.
pub open spec fn over_claim(s: BankModel, id: int, res: int) -> bool {
    &&& 0 <= id < s.n()
    &&& 0 <= res < s.m()
    &&& s.avail[res] > 0
    &&& s.alloc[id][res] >= s.maxc[id][res]
}

/// No thread holds anything.
proof fn lemma_held_by_zero(s: BankModel, f: Seq<bool>, j: int, k: int)
    requires
        forall|i: int| 0 <= i < k ==> #[trigger] s.alloc[i][j] == 0,
    ensures
        s.held_by(f, j, k) == 0,
    decreases k,
{
    if k > 0 {
        lemma_held_by_zero(s, f, j, k - 1);
    }
}

/// A thread holds no more of a resource than all threads together.
proof fn lemma_held_le_total(s: BankModel, id: int, j: int)
    requires
        s.wf(),
        0 <= id < s.n(),
        0 <= j < s.m(),
    ensures
        s.alloc[id][j] <= s.held_by(Seq::new(s.n() as nat, |i: int| true), j, s.n()),
{
    let e = no_thread_finished(s.n() as nat);
    let all = Seq::new(s.n() as nat, |i: int| true);
    lemma_held_by_finish(s, e, id, j, s.n());
    lemma_held_by_monotone(s, e, e, j, s.n());
    lemma_held_by_monotone(s, e.update(id, true), all, j, s.n());
}

/// Taking a unit keeps the totals and the shape of the state.
proof fn lemma_take_unit_wf(s: BankModel, id: int, res: int)
    requires
        s.wf(),
        0 <= id < s.n(),
        0 <= res < s.m(),
        s.avail[res] > 0,
        s.alloc[id][res] < s.maxc[id][res],
    ensures
        s.take_unit(id, res).wf(),
        forall|j: int| 0 <= j < s.m() ==> #[trigger] s.take_unit(id, res).total(j) == s.total(j),
{
    let t = s.take_unit(id, res);
    let all = Seq::new(s.n() as nat, |i: int| true);
    assert forall|j: int| 0 <= j < s.m() implies #[trigger] t.total(j) == s.total(j) by {
        lemma_held_by_change(s, t, id, res, 1, all, j, s.n());
    }
}

/// Releasing a held unit keeps the totals and the shape of the state.
proof fn lemma_release_unit_wf(s: BankModel, id: int, res: int)
    requires
        s.wf(),
        s.releases(id, res),
    ensures
        s.release_unit(id, res).wf(),
        forall|j: int| 0 <= j < s.m() ==> #[trigger] s.release_unit(id, res).total(j) == s.total(
            j,
        ),
        s.avail[res] + 1 <= usize::MAX,
{
    let t = s.release_unit(id, res);
    let all = Seq::new(s.n() as nat, |i: int| true);
    assert forall|j: int| 0 <= j < s.m() implies #[trigger] t.total(j) == s.total(j) by {
        lemma_held_by_change(s, t, id, res, -1, all, j, s.n());
    }
    lemma_held_le_total(s, id, res);
    assert(s.total(res) <= usize::MAX);
}

/// A granted request and a release keep every resource's total.
proof fn lemma_step_totals(s: BankModel, id: int, res: int)
    requires
        s.wf(),
    ensures
        forall|j: int|
            0 <= j < s.m() && s.grants(id, res) ==> #[trigger] s.take_unit(id, res).total(j)
                == s.total(j),
        forall|j: int|
            0 <= j < s.m() && s.releases(id, res) ==> #[trigger] s.release_unit(id, res).total(j)
                == s.total(j),
{
    assert forall|j: int| 0 <= j < s.m() && s.grants(id, res) implies #[trigger] s.take_unit(
        id,
        res,
    ).total(j) == s.total(j) by {
        law_totals_conserved(s, id, res, j);
    }
    assert forall|j: int| 0 <= j < s.m() && s.releases(id, res) implies #[trigger] s.release_unit(
        id,
        res,
    ).total(j) == s.total(j) by {
        law_totals_conserved(s, id, res, j);
    }
}

impl<const NRES: usize, const NTH: usize> Resource<NRES, NTH> {
    /// The state's shape: a row per thread and a column per resource.
    pub proof fn lemma_model_shape(&self)
        ensures
            self.model().n() == NTH,
            self.model().m() == NRES,
            self.model().maxc.len() == NTH,
            forall|i: int| 0 <= i < NTH ==> #[trigger] self.model().alloc[i].len() == NRES,
            forall|i: int| 0 <= i < NTH ==> #[trigger] self.model().maxc[i].len() == NRES,
    {
    }

    /// The state as numbers.
    pub closed spec fn model(&self) -> BankModel {
        BankModel {
            avail: Seq::new(NRES as nat, |j: int| self.available@[j] as int),
            alloc: Seq::new(
                NTH as nat,
                |i: int| Seq::new(NRES as nat, |j: int| self.allocation@[i]@[j] as int),
            ),
            maxc: Seq::new(
                NTH as nat,
                |i: int| Seq::new(NRES as nat, |j: int| self.max@[i]@[j] as int),
            ),
        }
    }

    /// A state with the given free units and claims, where no thread holds
    /// anything.
    pub fn new(available: [usize; NRES], max: [[usize; NRES]; NTH]) -> (r: Self)
        ensures
            r.model() == initial_model(available, max),
            r.model().wf(),
    {
        let r = Resource { available, allocation: [[0; NRES]; NTH], max };
        proof {
            let s = r.model();
            let t = initial_model::<NRES, NTH>(available, max);
            assert forall|i: int, j: int| 0 <= i < NTH && 0 <= j < NRES implies #[trigger] s.alloc[i][j]
                == t.alloc[i][j] by {
                assert(r.allocation@[i]@[j] == 0);
            }
            lemma_model_ext(s, t);
            let all = Seq::new(s.n() as nat, |i: int| true);
            assert forall|j: int| 0 <= j < s.m() implies #[trigger] s.total(j) <= usize::MAX by {
                lemma_held_by_zero(s, all, j, s.n());
            }
        }
        r
    }

    /// Whether every thread's remaining need of every resource fits in `work`.
    fn need_fits(&self, i: usize, work: &[usize; NRES]) -> (r: bool)
        requires
            self.model().wf(),
            i < NTH,
        ensures
            r == (forall|j: int| 0 <= j < NRES ==> self.model().need(i as int, j) <= work@[j]),
    {
        let ghost s = self.model();
        let mut j: usize = 0;
        while j < NRES
            invariant
                s == self.model(),
                s.wf(),
                i < NTH,
                0 <= j <= NRES,
                forall|jj: int| 0 <= jj < j ==> s.need(i as int, jj) <= work@[jj],
            decreases NRES - j,
        {
            proof {
                assert(s.alloc[i as int][j as int] == self.allocation@[i as int]@[j as int]);
                assert(s.maxc[i as int][j as int] == self.max@[i as int]@[j as int]);
            }
            let need = self.max[i][j] - self.allocation[i][j];
            if work[j] < need {
                return false;
            }
            j = j + 1;
        }
        true
    }

    /// Whether the current state is safe: every thread can, in some order,
    /// obtain all it may still ask for and then give everything back.
    ///
    /// The search is greedy: it repeatedly lets the first thread that can run
    /// complete, and answers `false` once no remaining thread can run.
    pub fn is_safe(&self) -> (r: bool)
        requires
            self.model().wf(),
        ensures
            r == self.model().is_safe(),
    {
        let ghost s = self.model();
        let mut finish = [false; NTH];
        let mut work = self.available;
        proof {
            assert(finish@ =~= no_thread_finished(NTH as nat));
            assert forall|j: int| 0 <= j < NRES implies work@[j] == s.work(finish@, j) by {
                lemma_held_by_monotone(s, finish@, finish@, j, s.n());
                lemma_held_by_zero_flags(s, finish@, j, s.n());
            }
        }
        loop
            invariant
                s == self.model(),
                s.wf(),
                finish@.len() == NTH,
                forall|j: int| 0 <= j < NRES ==> work@[j] == s.work(finish@, j),
                s.is_safe() == s.safe_from(finish@),
            ensures
                !s.is_safe(),
            decreases NTH - count_finished(finish@, NTH as int),
        {
            let ghost f0 = finish@;
            let mut found = false;
            let mut num_true: usize = 0;
            let mut i: usize = 0;
            proof {
                lemma_count_bounds(f0, NTH as int);
            }
            while i < NTH
                invariant_except_break
                    !found,
                    finish@ == f0,
                    num_true == count_finished(f0, i as int),
                    forall|k: int| 0 <= k < i && !f0[k] ==> !s.can_run(k, f0),
                invariant
                    s == self.model(),
                    s.wf(),
                    f0.len() == NTH,
                    finish@.len() == NTH,
                    0 <= i <= NTH,
                    num_true <= i,
                    forall|j: int| 0 <= j < NRES ==> work@[j] == s.work(finish@, j),
                    s.is_safe() == s.safe_from(finish@),
                    0 <= count_finished(f0, NTH as int) <= NTH,
                ensures
                    found ==> num_true < NTH && count_finished(finish@, NTH as int)
                        == count_finished(f0, NTH as int) + 1 && count_finished(finish@, NTH as int)
                        <= NTH,
                    !found ==> finish@ == f0 && num_true == count_finished(f0, NTH as int)
                        && forall|k: int| 0 <= k < NTH && !f0[k] ==> !s.can_run(k, f0),
                decreases NTH - i,
            {
                if finish[i] {
                    num_true = num_true + 1;
                    i = i + 1;
                    continue;
                }
                let is_avail = self.need_fits(i, &work);
                if is_avail {
                    found = true;
                    let ghost f1 = f0.update(i as int, true);
                    finish[i] = true;
                    assert(finish@ =~= f1);
                    proof {
                        assert forall|j: int| 0 <= j < s.m() implies s.need(i as int, j) <= s.work(
                            f0,
                            j,
                        ) by {
                            assert(work@[j] == s.work(f0, j));
                        }
                        lemma_safe_step(s, f0, i as int);
                        lemma_count_finish(f0, i as int, NTH as int);
                    }
                    let mut j: usize = 0;
                    while j < NRES
                        invariant
                            s == self.model(),
                            s.wf(),
                            i < NTH,
                            !f0[i as int],
                            f0.len() == NTH,
                            f1 == f0.update(i as int, true),
                            0 <= j <= NRES,
                            forall|jj: int| 0 <= jj < j ==> work@[jj] == s.work(f1, jj),
                            forall|jj: int| j <= jj < NRES ==> work@[jj] == s.work(f0, jj),
                        decreases NRES - j,
                    {
                        proof {
                            let all = Seq::new(s.n() as nat, |k: int| true);
                            lemma_held_by_finish(s, f0, i as int, j as int, s.n());
                            assert(finished_subset(f1, all, s.n()));
                            lemma_held_by_monotone(s, f1, all, j as int, s.n());
                            assert(s.total(j as int) <= usize::MAX);
                            let jj = j as int;
                            assert(s.alloc[i as int][jj] == self.allocation@[i as int]@[jj]);
                            assert(work@[jj] == s.work(f0, jj));
                            assert(s.held_by(f1, jj, s.n()) == s.held_by(f0, jj, s.n()) + s.alloc[i as int][jj]);
                            assert(s.work(f1, jj) == s.work(f0, jj) + s.alloc[i as int][jj]);
                            assert(s.work(f1, jj) <= s.total(jj));
                        }
                        work[j] = work[j] + self.allocation[i][j];
                        j = j + 1;
                    }
                    proof {
                        lemma_count_bounds(finish@, NTH as int);
                    }
                    break;
                }
                i = i + 1;
            }
            if num_true == NTH {
                proof {
                    lemma_count_bounds(f0, NTH as int);
                    lemma_finished_safe(s, f0);
                }
                return true;
            }
            if !found {
                proof {
                    lemma_count_bounds(f0, NTH as int);
                    lemma_stuck_unsafe(s, f0);
                }
                break;
            }
        }
        false
    }

    /// Thread `id` asks for one unit of `resource`. The unit is granted, and
    /// `true` returned, when both numbers are in range, a unit is free and the
    /// state after granting it is safe; otherwise nothing changes.
    pub fn take(&mut self, id: usize, resource: usize) -> (r: bool)
        requires
            old(self).model().wf(),
            !over_claim(old(self).model(), id as int, resource as int),
        ensures
            final(self).model().wf(),
            r == old(self).model().grants(id as int, resource as int),
            r ==> final(self).model() == old(self).model().take_unit(id as int, resource as int),
            !r ==> final(self).model() == old(self).model(),
            forall|j: int| 0 <= j < NRES ==> #[trigger] final(self).model().total(j) == old(
                self,
            ).model().total(j),
            final(self).model().maxc == old(self).model().maxc,
    {
        let ghost s = self.model();
        proof {
            lemma_step_totals(s, id as int, resource as int);
        }
        if id >= NTH || resource >= NRES || self.available[resource] == 0 {
            return false;
        }
        let mut row = self.allocation[id];
        row[resource] = row[resource] + 1;
        self.allocation[id] = row;
        self.available[resource] = self.available[resource] - 1;
        proof {
            let t = s.take_unit(id as int, resource as int);
            assert forall|i: int, j: int| 0 <= i < NTH && 0 <= j < NRES implies #[trigger] self.model().alloc[i][j]
                == t.alloc[i][j] by {
                assert(s.alloc[i][j] == old(self).allocation@[i]@[j]);
            }
            assert forall|j: int| 0 <= j < NRES implies self.model().avail[j] == t.avail[j] by {
                assert(s.avail[j] == old(self).available@[j]);
            }
            lemma_model_ext(self.model(), t);
            lemma_take_unit_wf(s, id as int, resource as int);
        }
        if self.is_safe() {
            true
        } else {
            let mut row = self.allocation[id];
            row[resource] = row[resource] - 1;
            self.allocation[id] = row;
            self.available[resource] = self.available[resource] + 1;
            proof {
                assert forall|i: int, j: int| 0 <= i < NTH && 0 <= j < NRES implies #[trigger] self.model().alloc[i][j]
                    == s.alloc[i][j] by {
                    assert(s.alloc[i][j] == old(self).allocation@[i]@[j]);
                }
                assert forall|j: int| 0 <= j < NRES implies self.model().avail[j] == s.avail[j] by {
                    assert(s.avail[j] == old(self).available@[j]);
                }
                lemma_model_ext(self.model(), s);
            }
            false
        }
    }

    /// Thread `id` gives back one unit of `resource`, when both numbers are
    /// in range and it holds such a unit; otherwise nothing changes.
    pub fn release(&mut self, id: usize, resource: usize)
        requires
            old(self).model().wf(),
        ensures
            final(self).model().wf(),
            old(self).model().releases(id as int, resource as int) ==> final(self).model()
                == old(self).model().release_unit(id as int, resource as int),
            !old(self).model().releases(id as int, resource as int) ==> final(self).model()
                == old(self).model(),
            forall|j: int| 0 <= j < NRES ==> #[trigger] final(self).model().total(j) == old(
                self,
            ).model().total(j),
            final(self).model().maxc == old(self).model().maxc,
    {
        let ghost s = self.model();
        proof {
            lemma_step_totals(s, id as int, resource as int);
        }
        if id >= NTH || resource >= NRES || self.allocation[id][resource] == 0 {
            return;
        }
        proof {
            lemma_release_unit_wf(s, id as int, resource as int);
        }
        let mut row = self.allocation[id];
        row[resource] = row[resource] - 1;
        self.allocation[id] = row;
        self.available[resource] = self.available[resource] + 1;
        proof {
            let t = s.release_unit(id as int, resource as int);
            assert forall|i: int, j: int| 0 <= i < NTH && 0 <= j < NRES implies #[trigger] self.model().alloc[i][j]
                == t.alloc[i][j] by {
                assert(s.alloc[i][j] == old(self).allocation@[i]@[j]);
            }
            assert forall|j: int| 0 <= j < NRES implies self.model().avail[j] == t.avail[j] by {
                assert(s.avail[j] == old(self).available@[j]);
            }
            lemma_model_ext(self.model(), t);
        }
    }

    /// Whether a request by thread `id` for one unit of `resource` would go
    /// beyond its declared claim while a unit is free.
    pub fn exceeds_claim(&self, id: usize, resource: usize) -> (r: bool)
        requires
            self.model().wf(),
        ensures
            r == over_claim(self.model(), id as int, resource as int),
    {
        id < NTH && resource < NRES && self.available[resource] > 0 && self.allocation[id][resource]
            >= self.max[id][resource]
    }
}

/// With no thread finished, no units are held by finished threads.
proof fn lemma_held_by_zero_flags(s: BankModel, f: Seq<bool>, j: int, k: int)
    requires
        forall|i: int| 0 <= i < k ==> !f[i],
    ensures
        s.held_by(f, j, k) == 0,
    decreases k,
{
    if k > 0 {
        lemma_held_by_zero_flags(s, f, j, k - 1);
    }
}

/// The banker: grants a unit of a resource to a thread only when the state
/// stays safe, so that the threads cannot deadlock on the resources.
pub struct Banker<const NRES: usize, const NTH: usize> {
    resource: Resource<NRES, NTH>,
}

impl<const NRES: usize, const NTH: usize> Banker<NRES, NTH> {
    /// The banker's state as numbers.
    pub closed spec fn model(&self) -> BankModel {
        self.resource.model()
    }

    /// The state's shape: a row per thread and a column per resource.
    pub proof fn lemma_model_shape(&self)
        ensures
            self.model().n() == NTH,
            self.model().m() == NRES,
            self.model().maxc.len() == NTH,
            forall|i: int| 0 <= i < NTH ==> #[trigger] self.model().alloc[i].len() == NRES,
            forall|i: int| 0 <= i < NTH ==> #[trigger] self.model().maxc[i].len() == NRES,
    {
        self.resource.lemma_model_shape();
    }

    /// A banker with the given free units and claims; no thread holds
    /// anything.
    pub fn new(available: [usize; NRES], max: [[usize; NRES]; NTH]) -> (r: Self)
        ensures
            r.model() == initial_model(available, max),
            r.model().wf(),
    {
        Banker { resource: Resource::new(available, max) }
    }

    /// Thread `id` asks for one unit of `resource`; see `Resource::take`.
    pub fn take(&mut self, id: usize, resource: usize) -> (r: bool)
        requires
            old(self).model().wf(),
            !over_claim(old(self).model(), id as int, resource as int),
        ensures
            final(self).model().wf(),
            r == old(self).model().grants(id as int, resource as int),
            r ==> final(self).model() == old(self).model().take_unit(id as int, resource as int),
            !r ==> final(self).model() == old(self).model(),
            forall|j: int| 0 <= j < NRES ==> #[trigger] final(self).model().total(j) == old(
                self,
            ).model().total(j),
            final(self).model().maxc == old(self).model().maxc,
    {
        self.resource.take(id, resource)
    }

    /// Thread `id` gives back one unit of `resource`; see `Resource::release`.
    pub fn release(&mut self, id: usize, resource: usize)
        requires
            old(self).model().wf(),
        ensures
            final(self).model().wf(),
            old(self).model().releases(id as int, resource as int) ==> final(self).model()
                == old(self).model().release_unit(id as int, resource as int),
            !old(self).model().releases(id as int, resource as int) ==> final(self).model()
                == old(self).model(),
            forall|j: int| 0 <= j < NRES ==> #[trigger] final(self).model().total(j) == old(
                self,
            ).model().total(j),
            final(self).model().maxc == old(self).model().maxc,
    {
        self.resource.release(id, resource)
    }

    /// Whether `take(id, resource)` would ask beyond the thread's claim.
    pub fn exceeds_claim(&self, id: usize, resource: usize) -> (r: bool)
        requires
            self.model().wf(),
        ensures
            r == over_claim(self.model(), id as int, resource as int),
    {
        self.resource.exceeds_claim(id, resource)
    }

    /// Whether the current state is safe.
    pub fn is_safe(&self) -> (r: bool)
        requires
            self.model().wf(),
        ensures
            r == self.model().is_safe(),
    {
        self.resource.is_safe()
    }
}

} // verus!
