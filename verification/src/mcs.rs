use vstd::prelude::*;
use std::marker::PhantomData;

verus! {

/// A thread's node in the queue of an MCS lock: the node queued after it,
/// and whether the thread must still spin.
pub struct MCSNode<T> {
    next: Option<usize>,
    locked: bool,
    marker: PhantomData<T>,
}

impl<T> MCSNode<T> {
    /// The node queued after this one.
    pub closed spec fn successor(&self) -> Option<usize> {
        self.next
    }

    /// Whether the node's thread must spin.
    pub closed spec fn must_spin(&self) -> bool {
        self.locked
    }

    /// A node with no successor, not spinning.
    pub fn new() -> (r: Self)
        ensures
            r.successor() is None,
            !r.must_spin(),
    {
        MCSNode { next: None, locked: false, marker: PhantomData }
    }
}

/// An MCS queue lock: threads queue up behind the last node and each spins
/// on its own node until its predecessor hands the lock over.
///
/// The lock keeps the nodes of the threads that use it, by number, and the
/// queue of node numbers in arrival order; the head of the queue holds the
/// lock. Taking a place in the queue (swapping the last node and linking
/// behind the predecessor) is one step here.
pub struct MCSLock<T> {
    last: Option<usize>,
    data: T,
    nodes: Vec<MCSNode<T>>,
    queue: Ghost<Seq<usize>>,
}

/// The right to the data of an MCS lock, held by the thread of the node at
/// the head of the queue.
pub struct MCSLockGuard {
    node: usize,
}

impl MCSLockGuard {
    /// The node of the holder.
    pub closed spec fn node_of(&self) -> usize {
        self.node
    }
}

impl<T> MCSLock<T> {
    /// The node numbers in the queue, the holder first.
    pub closed spec fn waiters(&self) -> Seq<usize> {
        self.queue@
    }

    /// The number of nodes known to the lock.
    pub closed spec fn num_nodes(&self) -> nat {
        self.nodes@.len()
    }

    /// The last node of the queue.
    pub closed spec fn last_node(&self) -> Option<usize> {
        self.last
    }

    /// Whether the thread of node `i` must spin.
    pub closed spec fn spinning(&self, i: int) -> bool {
        self.nodes@[i].locked
    }

    /// The node queued after node `i`.
    pub closed spec fn next_of(&self, i: int) -> Option<usize> {
        self.nodes@[i].next
    }

    /// The protected data.
    pub closed spec fn value(&self) -> T {
        self.data
    }

    /// The shape of the queue: the nodes in it are distinct and known; the
    /// last one is the lock's last node; each links to the next; and only
    /// the head does not spin.
    pub open spec fn wf(&self) -> bool {
        let q = self.waiters();
        &&& q.no_duplicates()
        &&& forall|k: int| 0 <= k < q.len() ==> #[trigger] q[k] < self.num_nodes()
        &&& self.last_node() == if q.len() == 0 {
            None
        } else {
            Some(q.last())
        }
        &&& forall|k: int|
            0 <= k < q.len() - 1 ==> self.next_of(#[trigger] q[k] as int) == Some(q[k + 1])
        &&& q.len() > 0 ==> self.next_of(q.last() as int) is None
        &&& forall|k: int| 0 <= k < q.len() ==> self.spinning(#[trigger] q[k] as int) == (k != 0)
    }

    /// An unlocked MCS lock around `v`, knowing no nodes yet.
    pub fn new(v: T) -> (r: Self)
        ensures
            r.wf(),
            r.waiters() == Seq::<usize>::empty(),
            r.num_nodes() == 0,
            r.value() == v,
    {
        MCSLock { last: None, data: v, nodes: Vec::new(), queue: Ghost(Seq::empty()) }
    }

    /// Makes a thread's node known to the lock and returns its number.
    pub fn register(&mut self, node: MCSNode<T>) -> (r: usize)
        requires
            old(self).wf(),
            old(self).num_nodes() < usize::MAX,
        ensures
            final(self).wf(),
            r == old(self).num_nodes(),
            final(self).num_nodes() == old(self).num_nodes() + 1,
            final(self).waiters() == old(self).waiters(),
            final(self).value() == old(self).value(),
    {
        let r = self.nodes.len();
        self.nodes.push(node);
        proof {
            let q = self.waiters();
            assert forall|k: int| 0 <= k < q.len() implies self.spinning(#[trigger] q[k] as int)
                == (k != 0) by {
                assert(q[k] < r);
            }
            assert forall|k: int| 0 <= k < q.len() - 1 implies self.next_of(#[trigger] q[k] as int)
                == Some(q[k + 1]) by {
                assert(q[k] < r);
            }
        }
        r
    }

    /// Whether node `me` is queued.
    pub closed spec fn queued(&self, me: usize) -> bool {
        self.waiters().contains(me)
    }

    /// Node `me` takes its place at the end of the queue: it is reset, made
    /// the last node, and linked behind its predecessor, if any, on which it
    /// then spins. With no predecessor the lock is free and the guard is
    /// returned at once; otherwise `None`, and the thread waits with `wait`.
    pub fn lock(&mut self, me: usize) -> (r: Option<MCSLockGuard>)
        requires
            old(self).wf(),
            me < old(self).num_nodes(),
            !old(self).waiters().contains(me),
        ensures
            final(self).wf(),
            final(self).waiters() == old(self).waiters().push(me),
            final(self).num_nodes() == old(self).num_nodes(),
            final(self).value() == old(self).value(),
            r is Some <==> old(self).waiters().len() == 0,
            r matches Some(g) ==> g.node_of() == me,
    {
        let ghost q = self.queue@;
        self.nodes.set(me, MCSNode { next: None, locked: false, marker: PhantomData });
        let prev = self.last;
        self.last = Some(me);
        match prev {
            Some(p) => {
                self.nodes.set(me, MCSNode { next: None, locked: true, marker: PhantomData });
                let pn = MCSNode { next: Some(me), locked: self.nodes[p].locked, marker: PhantomData };
                self.nodes.set(p, pn);
                self.queue = Ghost(q.push(me));
                proof {
                    let q2 = self.queue@;
                    assert(q.len() > 0);
                    assert forall|k: int| 0 <= k < q2.len() implies self.spinning(
                        #[trigger] q2[k] as int,
                    ) == (k != 0) by {
                        if k < q.len() {
                            assert(q[k] != me);
                        }
                    }
                    assert forall|k: int| 0 <= k < q2.len() - 1 implies self.next_of(
                        #[trigger] q2[k] as int,
                    ) == Some(q2[k + 1]) by {
                        if k < q.len() - 1 {
                            assert(q[k] != me);
                            assert(q[k] != p) by {
                                assert(q[q.len() - 1] == p);
                            }
                        }
                    }
                    assert forall|k: int| 0 <= k < q2.len() implies #[trigger] q2[k]
                        < self.num_nodes() by {}
                    assert(q2.no_duplicates());
                }
                None
            },
            None => {
                self.queue = Ghost(q.push(me));
                proof {
                    assert(q.len() == 0);
                    assert(self.queue@ =~= seq![me]);
                }
                Some(MCSLockGuard { node: me })
            },
        }
    }

    /// One step of spinning for the thread of node `me`: it enters once its
    /// predecessor has handed the lock over, that is once it is at the head
    /// of the queue.
    pub fn wait(&self, me: usize) -> (r: Option<MCSLockGuard>)
        requires
            self.wf(),
            self.waiters().contains(me),
        ensures
            r is Some <==> self.waiters()[0] == me,
            r matches Some(g) ==> g.node_of() == me,
    {
        let ghost q = self.queue@;
        proof {
            let k = choose|k: int| 0 <= k < q.len() && q[k] == me;
            assert(self.spinning(q[k] as int) == (k != 0));
            if q[0] == me {
                assert(k == 0);
            }
        }
        if self.nodes[me].locked {
            None
        } else {
            Some(MCSLockGuard { node: me })
        }
    }

    /// Releases the lock held by the head of the queue. Without a successor
    /// the queue becomes empty; otherwise the successor stops spinning and
    /// becomes the head.
    pub fn unlock(&mut self, guard: MCSLockGuard)
        requires
            old(self).wf(),
            old(self).waiters().len() > 0,
            old(self).waiters()[0] == guard.node_of(),
        ensures
            final(self).wf(),
            final(self).waiters() == old(self).waiters().drop_first(),
            final(self).num_nodes() == old(self).num_nodes(),
            final(self).value() == old(self).value(),
    {
        let ghost q = self.queue@;
        let me = guard.node;
        if self.nodes[me].next.is_none() {
            proof {
                if q.len() > 1 {
                    assert(self.next_of(q[0] as int) == Some(q[1]));
                }
            }
            if self.last == Some(me) {
                self.last = None;
                self.queue = Ghost(q.drop_first());
                proof {
                    assert(self.queue@ =~= Seq::<usize>::empty());
                }
                return;
            }
        }
        match self.nodes[me].next {
            Some(n) => {
                proof {
                    assert(q.len() > 1);
                    assert(n == q[1]);
                }
                let nn = MCSNode { next: self.nodes[n].next, locked: false, marker: PhantomData };
                self.nodes.set(n, nn);
                self.queue = Ghost(q.drop_first());
                proof {
                    let q2 = self.queue@;
                    assert forall|k: int| 0 <= k < q2.len() implies self.spinning(
                        #[trigger] q2[k] as int,
                    ) == (k != 0) by {
                        assert(q2[k] == q[k + 1]);
                        if k != 0 {
                            assert(q[k + 1] != q[1]);
                        }
                    }
                    assert forall|k: int| 0 <= k < q2.len() - 1 implies self.next_of(
                        #[trigger] q2[k] as int,
                    ) == Some(q2[k + 1]) by {
                        assert(q2[k] == q[k + 1]);
                    }
                    assert forall|k: int| 0 <= k < q2.len() implies #[trigger] q2[k]
                        < self.num_nodes() by {
                        assert(q2[k] == q[k + 1]);
                    }
                    assert(q2.last() == q.last());
                    assert(q2.no_duplicates());
                }
            },
            None => {
                proof {
                    assert(q.len() == 1);
                }
            },
        }
    }

    /// The protected data, for the holder of the lock.
    pub fn get(&self, guard: &MCSLockGuard) -> (r: &T)
        requires
            self.wf(),
            self.waiters().len() > 0,
            self.waiters()[0] == guard.node_of(),
        ensures
            *r == self.value(),
    {
        &self.data
    }

    /// Replaces the protected data, for the holder of the lock.
    pub fn set(&mut self, guard: &MCSLockGuard, v: T)
        requires
            old(self).wf(),
            old(self).waiters().len() > 0,
            old(self).waiters()[0] == guard.node_of(),
        ensures
            final(self).wf(),
            final(self).value() == v,
            final(self).waiters() == old(self).waiters(),
            final(self).num_nodes() == old(self).num_nodes(),
    {
        self.data = v;
    }
}

/// Law: mutual exclusion. Of the queued threads only the head may stop
/// spinning.
pub proof fn law_only_head_proceeds<T>(l: MCSLock<T>, a: int, b: int)
    requires
        l.wf(),
        0 <= a < l.waiters().len(),
        0 <= b < l.waiters().len(),
        !l.spinning(l.waiters()[a] as int),
        !l.spinning(l.waiters()[b] as int),
    ensures
        a == b,
        a == 0,
{
}

/// Law: first come, first served. A release passes the lock to the thread
/// that queued right after the holder.
pub proof fn law_fifo_handover(q: Seq<usize>, me: usize)
    requires
        q.len() > 1,
    ensures
        q.drop_first()[0] == q[1],
        q.push(me).drop_first() == q.drop_first().push(me),
{
    assert(q.push(me).drop_first() =~= q.drop_first().push(me));
}

} // verus!
