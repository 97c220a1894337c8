use vstd::prelude::*;
use std::collections::{HashMap, HashSet, VecDeque};

verus! {

broadcast use vstd::std_specs::hash::group_hash_axioms;

/// A FIFO queue of items per key.
pub struct MappedList<T> {
    map: HashMap<u64, VecDeque<T>>,
}

impl<T> MappedList<T> {
    /// The queue under each key that has items.
    pub closed spec fn lists(&self) -> Map<u64, Seq<T>> {
        self.map@.map_values(|l: VecDeque<T>| l@)
    }

    /// The queue under `key`, oldest first; empty when the key has none.
    pub open spec fn queue(&self, key: u64) -> Seq<T> {
        if self.lists().contains_key(key) {
            self.lists()[key]
        } else {
            Seq::empty()
        }
    }

    /// Only keys with items are kept.
    pub open spec fn wf(&self) -> bool {
        forall|k: u64| #[trigger] self.lists().contains_key(k) ==> self.lists()[k].len() > 0
    }

    /// No queues.
    pub fn new() -> (r: Self)
        ensures
            r.wf(),
            forall|k: u64| #[trigger] r.queue(k) == Seq::<T>::empty(),
    {
        let r = MappedList { map: HashMap::new() };
        assert(r.lists() =~= Map::empty());
        r
    }

    /// Appends `val` to the queue under `key`.
    pub fn push_back(&mut self, key: u64, val: T)
        requires
            old(self).wf(),
        ensures
            final(self).wf(),
            final(self).queue(key) == old(self).queue(key).push(val),
            forall|k: u64| k != key ==> #[trigger] final(self).queue(k) == old(self).queue(k),
    {
        match self.map.remove(&key) {
            Some(mut list) => {
                list.push_back(val);
                self.map.insert(key, list);
            },
            None => {
                let mut list = VecDeque::new();
                list.push_back(val);
                self.map.insert(key, list);
                assert(list@ =~= Seq::<T>::empty().push(val));
            },
        }
        proof {
            assert(self.lists() =~= old(self).lists().insert(key, old(self).queue(key).push(val)));
            assert forall|k: u64| #[trigger] self.lists().contains_key(k) implies self.lists()[k].len()
                > 0 by {
                if k != key {
                    assert(old(self).lists().contains_key(k));
                }
            }
        }
    }

    /// Takes the oldest item out of the queue under `key`; a queue left
    /// empty is dropped. With no items under `key` the answer is `None`.
    pub fn pop_front(&mut self, key: u64) -> (r: Option<T>)
        requires
            old(self).wf(),
        ensures
            final(self).wf(),
            old(self).queue(key).len() == 0 ==> r is None,
            old(self).queue(key).len() > 0 ==> r == Some(old(self).queue(key)[0]),
            final(self).queue(key) == if old(self).queue(key).len() == 0 {
                old(self).queue(key)
            } else {
                old(self).queue(key).drop_first()
            },
            forall|k: u64| k != key ==> #[trigger] final(self).queue(k) == old(self).queue(k),
    {
        match self.map.remove(&key) {
            Some(mut list) => {
                let val = list.pop_front();
                if list.len() > 0 {
                    self.map.insert(key, list);
                    proof {
                        assert(self.lists() =~= old(self).lists().insert(
                            key,
                            old(self).queue(key).drop_first(),
                        ));
                    }
                } else {
                    proof {
                        assert(old(self).queue(key).drop_first() =~= Seq::<T>::empty());
                        assert(self.lists() =~= old(self).lists().remove(key));
                    }
                }
                proof {
                    assert forall|k: u64| #[trigger] self.lists().contains_key(k) implies self.lists()[k].len()
                        > 0 by {
                        if k != key {
                            assert(old(self).lists().contains_key(k));
                        }
                    }
                }
                val
            },
            None => {
                proof {
                    assert(self.lists() =~= old(self).lists());
                }
                None
            },
        }
    }

    /// Drops every queue.
    pub fn clear(&mut self)
        ensures
            final(self).wf(),
            forall|k: u64| #[trigger] final(self).queue(k) == Seq::<T>::empty(),
    {
        self.map.clear();
        assert(self.lists() =~= Map::empty());
    }
}

/// Law: per key, items come out in the order they went in, and keys do
/// not disturb each other.
pub proof fn law_fifo_per_key<T>(q: Seq<T>, v: T)
    ensures
        q.len() == 0 ==> q.push(v)[0] == v && q.push(v).drop_first() == q,
        q.len() > 0 ==> q.push(v)[0] == q[0] && q.push(v).drop_first() == q.drop_first().push(v),
{
    assert(q.len() == 0 ==> q.push(v).drop_first() =~= q);
    assert(q.len() > 0 ==> q.push(v).drop_first() =~= q.drop_first().push(v));
}

/// The callee-saved registers of a green thread, its return address and its
/// stack pointer.
pub struct Registers {
    pub d8: u64,
    pub d9: u64,
    pub d10: u64,
    pub d11: u64,
    pub d12: u64,
    pub d13: u64,
    pub d14: u64,
    pub d15: u64,
    pub x19: u64,
    pub x20: u64,
    pub x21: u64,
    pub x22: u64,
    pub x23: u64,
    pub x24: u64,
    pub x25: u64,
    pub x26: u64,
    pub x27: u64,
    pub x28: u64,
    pub x30: u64,
    pub sp: u64,
}

impl Registers {
    /// The registers of a thread that has not run yet: zero, except that it
    /// returns to `entry` (the address of the entry point) on the stack
    /// `sp`.
    pub fn new(sp: u64, entry: u64) -> (r: Self)
        ensures
            r.sp == sp,
            r.x30 == entry,
            r.d8 == 0 && r.d9 == 0 && r.d10 == 0 && r.d11 == 0 && r.d12 == 0,
            r.d13 == 0 && r.d14 == 0 && r.d15 == 0 && r.x19 == 0 && r.x20 == 0,
            r.x21 == 0 && r.x22 == 0 && r.x23 == 0 && r.x24 == 0 && r.x25 == 0,
            r.x26 == 0 && r.x27 == 0 && r.x28 == 0,
    {
        Registers {
            d8: 0,
            d9: 0,
            d10: 0,
            d11: 0,
            d12: 0,
            d13: 0,
            d14: 0,
            d15: 0,
            x19: 0,
            x20: 0,
            x21: 0,
            x22: 0,
            x23: 0,
            x24: 0,
            x25: 0,
            x26: 0,
            x27: 0,
            x28: 0,
            x30: entry,
            sp,
        }
    }
}

/// `rand::random::<u64>()`: a number from the thread-local generator.
/// Nothing is stated of it: any `u64` may come back, on every call anew.
/// The generator panics only when the operating system cannot seed it,
/// which no argument governs.
#[verifier::external_body]
fn random_id() -> (r: u64) {
    rand::random::<u64>()
}

/// What a receiving green thread is to do.
pub enum RecvStep {
    /// A message was waiting; here it is.
    Got(u64),
    /// No thread could ever send: the program is deadlocked.
    Deadlock,
    /// The thread now waits; switch to this thread.
    SwitchTo(u64),
}

/// The scheduling state of green threads, by thread id: the run queue (the
/// running thread first), the threads waiting for a message, the ids in
/// use, and the message queues.
pub struct Scheduler {
    contexts: VecDeque<u64>,
    waiting: HashSet<u64>,
    ids: HashSet<u64>,
    messages: MappedList<u64>,
}

impl Scheduler {
    /// The run queue, the running thread first.
    pub closed spec fn run_queue(&self) -> Seq<u64> {
        self.contexts@
    }

    /// The threads waiting for a message.
    pub closed spec fn waiters(&self) -> Set<u64> {
        self.waiting@
    }

    /// The thread ids in use.
    pub closed spec fn live(&self) -> Set<u64> {
        self.ids@
    }

    /// The messages waiting for each thread.
    pub closed spec fn inbox(&self, key: u64) -> Seq<u64> {
        self.messages.queue(key)
    }

    /// No thread is lost or counted twice: the run queue has distinct live
    /// threads, and the waiting threads are live and not in the run queue.
    pub open spec fn wf(&self) -> bool {
        &&& self.run_queue().no_duplicates()
        &&& forall|id: u64| #[trigger] self.run_queue().contains(id) ==> self.live().contains(id)
        &&& forall|id: u64| #[trigger] self.waiters().contains(id) ==> self.live().contains(id)
            && !self.run_queue().contains(id)
        &&& self.mailboxes_wf()
    }

    /// The message queues keep only keys with messages.
    pub closed spec fn mailboxes_wf(&self) -> bool {
        self.messages.wf()
    }

    /// No threads, no messages.
    pub fn new() -> (r: Self)
        ensures
            r.wf(),
            r.run_queue() == Seq::<u64>::empty(),
            r.waiters() == Set::<u64>::empty(),
            r.live() == Set::<u64>::empty(),
    {
        Scheduler {
            contexts: VecDeque::new(),
            waiting: HashSet::new(),
            ids: HashSet::new(),
            messages: MappedList::new(),
        }
    }

    /// The running thread: the head of the run queue, if any.
    pub fn running(&self) -> (r: Option<u64>)
        ensures
            r == if self.run_queue().len() > 0 {
                Some(self.run_queue()[0])
            } else {
                None::<u64>
            },
    {
        if self.contexts.len() > 0 {
            Some(self.contexts[0])
        } else {
            None
        }
    }

    /// The number of runnable threads.
    pub fn num_runnable(&self) -> (r: usize)
        ensures
            r == self.run_queue().len(),
    {
        self.contexts.len()
    }

    /// Takes `rnd` as the id of a new thread when it is not in use, and
    /// tells whether it did; an id in use must be drawn again.
    pub fn claim_id(&mut self, rnd: u64) -> (r: bool)
        requires
            old(self).wf(),
        ensures
            final(self).wf(),
            r == !old(self).live().contains(rnd),
            final(self).live() == old(self).live().insert(rnd),
            final(self).run_queue() == old(self).run_queue(),
            final(self).waiters() == old(self).waiters(),
            forall|k: u64| #[trigger] final(self).inbox(k) == old(self).inbox(k),
    {
        let r = if !self.ids.contains(&rnd) {
            self.ids.insert(rnd);
            true
        } else {
            false
        };
        proof {
            assert(self.live() =~= old(self).live().insert(rnd));
            lemma_wf_keep(*old(self), *self);
        }
        r
    }

    /// Draws random ids until one is not in use, claims it and gives it
    /// back. Should `u64::MAX` draws all hit ids in use, it claims the least
    /// id not in use instead. `None` only when every id is in use; in
    /// particular, with no id in use the first draw is free and is given.
    pub fn get_id(&mut self) -> (r: Option<u64>)
        requires
            old(self).wf(),
        ensures
            final(self).wf(),
            old(self).live() == Set::<u64>::empty() ==> r is Some,
            r is None ==> forall|x: u64| #[trigger] old(self).live().contains(x),
            match r {
                Some(id) => !old(self).live().contains(id) && final(self).live() == old(
                    self,
                ).live().insert(id),
                None => final(self).live() == old(self).live(),
            },
            final(self).run_queue() == old(self).run_queue(),
            final(self).waiters() == old(self).waiters(),
            forall|k: u64| #[trigger] final(self).inbox(k) == old(self).inbox(k),
    {
        let mut attempts: u64 = 0;
        while attempts < u64::MAX
            invariant
                self.wf(),
                self.live() == old(self).live(),
                self.run_queue() == old(self).run_queue(),
                self.waiters() == old(self).waiters(),
                forall|k: u64| #[trigger] self.inbox(k) == old(self).inbox(k),
                old(self).live() == Set::<u64>::empty() ==> attempts == 0,
            decreases u64::MAX - attempts,
        {
            let rnd = random_id();
            if self.claim_id(rnd) {
                return Some(rnd);
            }
            proof {
                assert(self.live() =~= old(self).live());
                assert(old(self).live().contains(rnd));
            }
            attempts = attempts + 1;
        }
        let mut x: u64 = 0;
        while x < u64::MAX
            invariant
                self.wf(),
                self.live() == old(self).live(),
                self.run_queue() == old(self).run_queue(),
                self.waiters() == old(self).waiters(),
                forall|k: u64| #[trigger] self.inbox(k) == old(self).inbox(k),
                forall|y: u64| y < x ==> #[trigger] old(self).live().contains(y),
            decreases u64::MAX - x,
        {
            if self.claim_id(x) {
                return Some(x);
            }
            proof {
                assert(self.live() =~= old(self).live());
            }
            x = x + 1;
        }
        if self.claim_id(u64::MAX) {
            return Some(u64::MAX);
        }
        proof {
            assert(self.live() =~= old(self).live());
            assert forall|y: u64| #[trigger] old(self).live().contains(y) by {
                if y < u64::MAX {
                } else {
                    assert(y == u64::MAX);
                }
            }
        }
        None
    }

    /// A new thread: gets a free id for it (see `get_id`) and puts it at the
    /// end of the run queue; `None`, with nothing changed, only when every id
    /// is in use. The first thread, with no id in use, is always spawned.
    pub fn spawn(&mut self) -> (r: Option<u64>)
        requires
            old(self).wf(),
        ensures
            final(self).wf(),
            old(self).live() == Set::<u64>::empty() ==> r is Some,
            r is None ==> forall|x: u64| #[trigger] old(self).live().contains(x),
            match r {
                Some(id) => {
                    &&& !old(self).live().contains(id)
                    &&& final(self).live() == old(self).live().insert(id)
                    &&& final(self).run_queue() == old(self).run_queue().push(id)
                },
                None => final(self).live() == old(self).live() && final(self).run_queue() == old(
                    self,
                ).run_queue(),
            },
            final(self).waiters() == old(self).waiters(),
            forall|k: u64| #[trigger] final(self).inbox(k) == old(self).inbox(k),
    {
        let id = self.get_id();
        match id {
            Some(id) => {
                let ghost before = *self;
                self.contexts.push_back(id);
                proof {
                    lemma_push(before.run_queue(), id);
                    lemma_wf_keep(before, *self);
                    assert forall|k: u64| #[trigger] self.inbox(k) == before.inbox(k) by {}
                }
                Some(id)
            },
            None => None,
        }
    }

    /// The running thread gives way: with other runnable threads it moves to
    /// the end of the run queue and the answer is the thread to switch to;
    /// alone, it keeps running and the answer is `None`.
    pub fn schedule(&mut self) -> (r: Option<u64>)
        requires
            old(self).wf(),
            old(self).run_queue().len() > 0,
        ensures
            final(self).wf(),
            final(self).waiters() == old(self).waiters(),
            final(self).live() == old(self).live(),
            forall|k: u64| #[trigger] final(self).inbox(k) == old(self).inbox(k),
            old(self).run_queue().len() == 1 ==> r is None && final(self).run_queue() == old(
                self,
            ).run_queue(),
            old(self).run_queue().len() > 1 ==> {
                &&& final(self).run_queue() == old(self).run_queue().drop_first().push(
                    old(self).run_queue()[0],
                )
                &&& r == Some(old(self).run_queue()[1])
            },
    {
        if self.contexts.len() == 1 {
            return None;
        }
        let cur = match self.contexts.pop_front() {
            Some(c) => c,
            None => {
                return None;
            },
        };
        self.contexts.push_back(cur);
        proof {
            let q = old(self).run_queue();
            assert(self.run_queue() =~= q.drop_first().push(q[0]));
            lemma_rotate(q);
            lemma_wf_keep(*old(self), *self);
        }
        if self.contexts.len() > 0 {
            Some(self.contexts[0])
        } else {
            None
        }
    }

    /// The running thread has finished: it leaves the run queue and its id
    /// is freed. The answer is the thread to switch to, or `None` when no
    /// thread is left.
    pub fn finish(&mut self) -> (r: Option<u64>)
        requires
            old(self).wf(),
            old(self).run_queue().len() > 0,
        ensures
            final(self).wf(),
            final(self).run_queue() == old(self).run_queue().drop_first(),
            final(self).live() == old(self).live().remove(old(self).run_queue()[0]),
            final(self).waiters() == old(self).waiters(),
            forall|k: u64| #[trigger] final(self).inbox(k) == old(self).inbox(k),
            r == if old(self).run_queue().len() > 1 {
                Some(old(self).run_queue()[1])
            } else {
                None::<u64>
            },
    {
        let ghost q = self.contexts@;
        match self.contexts.pop_front() {
            Some(id) => {
                self.ids.remove(&id);
            },
            None => {},
        }
        proof {
            assert(self.run_queue() =~= q.drop_first());
            assert(self.live() =~= old(self).live().remove(q[0]));
            lemma_drop_first(q);
            assert(q.contains(q[0]));
            assert forall|id: u64| #[trigger] self.run_queue().contains(id) implies self.live().contains(id) by {
                assert(q.drop_first().contains(id));
                assert(old(self).run_queue().contains(id));
            }
            assert forall|id: u64| #[trigger] self.waiters().contains(id) implies self.live().contains(id)
                && !self.run_queue().contains(id) by {
                assert(old(self).waiters().contains(id));
                assert(!old(self).run_queue().contains(id));
                assert(!q.drop_first().contains(id));
            }
        }
        if self.contexts.len() > 0 {
            Some(self.contexts[0])
        } else {
            None
        }
    }

    /// Sends `msg` to the thread `key`: the message joins its queue, and a
    /// thread waiting for it becomes runnable again at the end of the run
    /// queue.
    pub fn send(&mut self, key: u64, msg: u64)
        requires
            old(self).wf(),
        ensures
            final(self).wf(),
            final(self).inbox(key) == old(self).inbox(key).push(msg),
            forall|k: u64| k != key ==> #[trigger] final(self).inbox(k) == old(self).inbox(k),
            final(self).waiters() == old(self).waiters().remove(key),
            final(self).live() == old(self).live(),
            old(self).waiters().contains(key) ==> final(self).run_queue() == old(
                self,
            ).run_queue().push(key),
            !old(self).waiters().contains(key) ==> final(self).run_queue() == old(
                self,
            ).run_queue(),
    {
        self.messages.push_back(key, msg);
        let was_waiting = self.waiting.remove(&key);
        if was_waiting {
            self.contexts.push_back(key);
        }
        proof {
            assert(self.waiters() =~= old(self).waiters().remove(key));
            if was_waiting {
                lemma_push(old(self).run_queue(), key);
            }
            lemma_wf_keep(*old(self), *self);
        }
    }

    /// The running thread asks for a message. One that is waiting for it is
    /// handed over. Otherwise, with no other runnable thread the program is
    /// deadlocked; with others, the thread starts waiting and the answer is
    /// the thread to switch to.
    pub fn recv(&mut self) -> (r: RecvStep)
        requires
            old(self).wf(),
            old(self).run_queue().len() > 0,
        ensures
            final(self).wf(),
            final(self).live() == old(self).live(),
            ({
                let key = old(self).run_queue()[0];
                &&& forall|k: u64| k != key ==> #[trigger] final(self).inbox(k) == old(self).inbox(k)
                &&& if old(self).inbox(key).len() > 0 {
                    &&& r == RecvStep::Got(old(self).inbox(key)[0])
                    &&& final(self).inbox(key) == old(self).inbox(key).drop_first()
                    &&& final(self).run_queue() == old(self).run_queue()
                    &&& final(self).waiters() == old(self).waiters()
                } else if old(self).run_queue().len() == 1 {
                    &&& r is Deadlock
                    &&& final(self).inbox(key) == old(self).inbox(key)
                    &&& final(self).run_queue() == old(self).run_queue()
                    &&& final(self).waiters() == old(self).waiters()
                } else {
                    &&& r == RecvStep::SwitchTo(old(self).run_queue()[1])
                    &&& final(self).inbox(key) == old(self).inbox(key)
                    &&& final(self).run_queue() == old(self).run_queue().drop_first()
                    &&& final(self).waiters() == old(self).waiters().insert(key)
                }
            }),
    {
        let ghost q = self.contexts@;
        if self.contexts.len() == 0 {
            return RecvStep::Deadlock;
        }
        let key = self.contexts[0];
        match self.messages.pop_front(key) {
            Some(msg) => {
                proof {
                    lemma_wf_keep(*old(self), *self);
                }
                return RecvStep::Got(msg);
            },
            None => {},
        }
        if self.contexts.len() == 1 {
            proof {
                lemma_wf_keep(*old(self), *self);
            }
            return RecvStep::Deadlock;
        }
        let _ = self.contexts.pop_front();
        self.waiting.insert(key);
        proof {
            assert(self.run_queue() =~= q.drop_first());
            assert(self.waiters() =~= old(self).waiters().insert(key));
            lemma_drop_first(q);
            assert(q.contains(q[0]));
            assert forall|id: u64| #[trigger] self.run_queue().contains(id) implies self.live().contains(id) by {
                assert(q.drop_first().contains(id));
                assert(old(self).run_queue().contains(id));
            }
            assert forall|id: u64| #[trigger] self.waiters().contains(id) implies self.live().contains(id)
                && !self.run_queue().contains(id) by {
                assert(!q.drop_first().contains(id)) by {
                    if id != key {
                        assert(old(self).waiters().contains(id));
                        assert(!old(self).run_queue().contains(id));
                    }
                }
                if id != key {
                    assert(old(self).waiters().contains(id));
                } else {
                    assert(old(self).run_queue().contains(id));
                }
            }
        }
        if self.contexts.len() > 0 {
            RecvStep::SwitchTo(self.contexts[0])
        } else {
            RecvStep::Deadlock
        }
    }

    /// A thread resumed after waiting takes the message sent to it.
    pub fn take_message(&mut self, key: u64) -> (r: Option<u64>)
        requires
            old(self).wf(),
        ensures
            final(self).wf(),
            final(self).run_queue() == old(self).run_queue(),
            final(self).waiters() == old(self).waiters(),
            final(self).live() == old(self).live(),
            old(self).inbox(key).len() == 0 ==> r is None,
            old(self).inbox(key).len() > 0 ==> r == Some(old(self).inbox(key)[0]),
            final(self).inbox(key) == if old(self).inbox(key).len() == 0 {
                old(self).inbox(key)
            } else {
                old(self).inbox(key).drop_first()
            },
    {
        let r = self.messages.pop_front(key);
        proof {
            lemma_wf_keep(*old(self), *self);
        }
        r
    }

    /// Forgets every thread and message.
    pub fn clear(&mut self)
        ensures
            final(self).wf(),
            final(self).run_queue() == Seq::<u64>::empty(),
            final(self).waiters() == Set::<u64>::empty(),
            final(self).live() == Set::<u64>::empty(),
    {
        self.contexts.clear();
        self.waiting.clear();
        self.ids.clear();
        self.messages.clear();
    }
}

/// Rotating a queue keeps its members and their distinctness.
proof fn lemma_rotate(q: Seq<u64>)
    requires
        q.len() > 0,
        q.no_duplicates(),
    ensures
        q.drop_first().push(q[0]).no_duplicates(),
        forall|x: u64| #[trigger] q.drop_first().push(q[0]).contains(x) == q.contains(x),
{
    let r = q.drop_first().push(q[0]);
    assert forall|i: int, j: int| 0 <= i < r.len() && 0 <= j < r.len() && i != j implies r[i] != r[j] by {
        let k = if i == q.len() - 1 { 0 } else { i + 1 };
        let l = if j == q.len() - 1 { 0 } else { j + 1 };
        assert(r[i] == q[k]);
        assert(r[j] == q[l]);
    }
    assert forall|x: u64| #[trigger] r.contains(x) == q.contains(x) by {
        if r.contains(x) {
            let i = choose|i: int| 0 <= i < r.len() && r[i] == x;
            let k = if i == q.len() - 1 { 0 } else { i + 1 };
            assert(q[k] == x);
        }
        if q.contains(x) {
            let k = choose|k: int| 0 <= k < q.len() && q[k] == x;
            let i = if k == 0 { q.len() - 1 } else { k - 1 };
            assert(r[i] == x);
        }
    }
}

/// Dropping the first element of a queue of distinct elements removes
/// exactly that element.
proof fn lemma_drop_first(q: Seq<u64>)
    requires
        q.len() > 0,
        q.no_duplicates(),
    ensures
        q.drop_first().no_duplicates(),
        forall|x: u64| #[trigger] q.drop_first().contains(x) == (q.contains(x) && x != q[0]),
{
    let r = q.drop_first();
    assert forall|x: u64| #[trigger] r.contains(x) == (q.contains(x) && x != q[0]) by {
        if r.contains(x) {
            let i = choose|i: int| 0 <= i < r.len() && r[i] == x;
            assert(q[i + 1] == x);
        }
        if q.contains(x) && x != q[0] {
            let k = choose|k: int| 0 <= k < q.len() && q[k] == x;
            assert(r[k - 1] == x);
        }
    }
}

/// Appending a new element to a queue of distinct elements keeps them
/// distinct.
proof fn lemma_push(q: Seq<u64>, v: u64)
    requires
        q.no_duplicates(),
        !q.contains(v),
    ensures
        q.push(v).no_duplicates(),
        forall|x: u64| #[trigger] q.push(v).contains(x) == (q.contains(x) || x == v),
{
    let r = q.push(v);
    assert forall|i: int, j: int| 0 <= i < r.len() && 0 <= j < r.len() && i != j implies r[i] != r[j] by {
        if i < q.len() && j < q.len() {
        } else if i < q.len() {
            assert(q.contains(r[i]));
        } else if j < q.len() {
            assert(q.contains(r[j]));
        }
    }
    assert forall|x: u64| #[trigger] r.contains(x) == (q.contains(x) || x == v) by {
        if r.contains(x) {
            let i = choose|i: int| 0 <= i < r.len() && r[i] == x;
            if i < q.len() {
                assert(q[i] == x);
            }
        }
        if q.contains(x) {
            let k = choose|k: int| 0 <= k < q.len() && q[k] == x;
            assert(r[k] == x);
        }
        if x == v {
            assert(r[q.len() as int] == x);
        }
    }
}

/// The scheduler's invariant from its parts.
proof fn lemma_wf_keep(a: Scheduler, b: Scheduler)
    requires
        a.wf(),
        b.run_queue().no_duplicates(),
        b.mailboxes_wf(),
        forall|id: u64| #[trigger] b.run_queue().contains(id) ==> a.run_queue().contains(id) || (
        b.live().contains(id) && !b.waiters().contains(id)),
        forall|id: u64| #[trigger] b.waiters().contains(id) ==> a.waiters().contains(id) || (
        b.live().contains(id) && !b.run_queue().contains(id)),
        forall|id: u64| #[trigger] a.live().contains(id) && (a.run_queue().contains(id) || a.waiters().contains(id)) ==> b.live().contains(id),
        forall|id: u64| #[trigger] a.waiters().contains(id) && b.waiters().contains(id) ==> !b.run_queue().contains(id),
    ensures
        b.wf(),
{
}

} // verus!
