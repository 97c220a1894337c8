use vstd::prelude::*;
use crate::tl2::{
    Memory, ReadTrans, WriteTrans, STMResult, STM, STRIPE_SIZE, MEM_SIZE,
    NUM_STRIPES, LOCK_BIT, stripe_addr, stripe_bytes, is_locked, version_of, stripe_of,
    stripe_start, apply_writes, fresh_read, fresh_write,
};

verus! {

/// The number of philosophers, and of forks, at the table.
pub const NUM_PHILOSOPHERS: usize = 8;

/// The address of fork `i`: each fork has a stripe of its own, and its first
/// byte is one while the fork is held.
pub open spec fn fork_addr(i: int) -> int {
    STRIPE_SIZE * i
}

/// The forks of philosopher `n`: the fork on its left and the one on its
/// right, which it shares with the next philosopher.
pub fn forks(n: usize) -> (r: (usize, usize))
    requires
        n < NUM_PHILOSOPHERS,
    ensures
        r.0 == fork_addr(n as int),
        r.1 == fork_addr((n as int + 1) % NUM_PHILOSOPHERS as int),
        stripe_addr(r.0 as int),
        stripe_addr(r.1 as int),
        r.0 != r.1,
{
    (8 * n, 8 * ((n + 1) % NUM_PHILOSOPHERS))
}

/// What a read-write transaction sees at a stripe address: what it wrote
/// there, or else the memory.
pub open spec fn seen(tr: WriteTrans, mem: Memory, addr: usize) -> Seq<u8> {
    if tr.writes().dom().contains(addr) {
        tr.writes()[addr]@
    } else {
        stripe_bytes(mem.bytes(), addr as int)
    }
}

/// Whether a read of a stripe the transaction has not written succeeds.
pub open spec fn readable(tr: WriteTrans, mem: Memory, addr: usize) -> bool {
    tr.writes().dom().contains(addr) || {
        let w = mem.words()[stripe_of(addr as int)];
        !is_locked(w) && version_of(w) <= tr.read_version()
    }
}

/// Reads a stripe, or tells the caller to retry the transaction.
fn load_or_retry(tr: &mut WriteTrans, mem: &Memory, addr: usize) -> (r: Option<
    [u8; STRIPE_SIZE],
>)
    requires
        old(tr).wf(),
        mem.wf(),
        stripe_addr(addr as int),
        old(tr).read_version() < LOCK_BIT,
    ensures
        final(tr).wf(),
        final(tr).read_version() == old(tr).read_version(),
        final(tr).writes() == old(tr).writes(),
        final(tr).held() == old(tr).held(),
        old(tr).aborted() ==> r is None && final(tr).aborted(),
        !old(tr).aborted() && readable(*old(tr), *mem, addr) ==> !final(tr).aborted() && (r matches Some(
            v,
        ) && v@ == seen(*old(tr), *mem, addr)),
        !old(tr).aborted() && !readable(*old(tr), *mem, addr) ==> r is None
            && final(tr).aborted(),
{
    tr.load(mem, addr)
}

/// The body of the transaction in which philosopher `n` picks up both its
/// forks: when both are free it marks both as held and answers `true`;
/// otherwise it leaves them and answers `false`. A failed read asks for a
/// retry.
pub fn pick_up_forks(tr: &mut WriteTrans, mem: &Memory, n: usize) -> (r: STMResult<bool>)
    requires
        old(tr).wf(),
        mem.wf(),
        n < NUM_PHILOSOPHERS,
        old(tr).read_version() < LOCK_BIT,
    ensures
        final(tr).wf(),
        final(tr).read_version() == old(tr).read_version(),
        final(tr).held() == old(tr).held(),
        ({
            let left = fork_addr(n as int) as usize;
            let right = fork_addr((n as int + 1) % NUM_PHILOSOPHERS as int) as usize;
            let l = seen(*old(tr), *mem, left);
            let rt = seen(*old(tr), *mem, right);
            if !old(tr).aborted() && readable(*old(tr), *mem, left) && readable(
                *old(tr),
                *mem,
                right,
            ) {
                &&& !final(tr).aborted()
                &&& r == STMResult::Done(l[0] == 0 && rt[0] == 0)
                &&& if l[0] == 0 && rt[0] == 0 {
                    &&& final(tr).writes().dom() == old(tr).writes().dom().insert(left).insert(right)
                    &&& final(tr).writes()[left]@ == l.update(0, 1)
                    &&& final(tr).writes()[right]@ == rt.update(0, 1)
                    &&& forall|a: usize|
                        a != left && a != right && #[trigger] old(tr).writes().dom().contains(a)
                            ==> final(tr).writes()[a] == old(tr).writes()[a]
                } else {
                    final(tr).writes() == old(tr).writes()
                }
            } else {
                &&& final(tr).aborted()
                &&& r is Retry
                &&& final(tr).writes() == old(tr).writes()
            }
        }),
{
    let (left, right) = forks(n);
    let mut f1 = match load_or_retry(tr, mem, left) {
        Some(v) => v,
        None => return STMResult::Retry,
    };
    let mut f2 = match load_or_retry(tr, mem, right) {
        Some(v) => v,
        None => return STMResult::Retry,
    };
    if f1[0] == 0 && f2[0] == 0 {
        f1[0] = 1;
        f2[0] = 1;
        tr.store(left, f1);
        tr.store(right, f2);
        STMResult::Done(true)
    } else {
        STMResult::Done(false)
    }
}

/// The body of the transaction in which philosopher `n` puts down both its
/// forks: both are marked as free. A failed read asks for a retry.
pub fn put_down_forks(tr: &mut WriteTrans, mem: &Memory, n: usize) -> (r: STMResult<()>)
    requires
        old(tr).wf(),
        mem.wf(),
        n < NUM_PHILOSOPHERS,
        old(tr).read_version() < LOCK_BIT,
    ensures
        final(tr).wf(),
        final(tr).read_version() == old(tr).read_version(),
        final(tr).held() == old(tr).held(),
        ({
            let left = fork_addr(n as int) as usize;
            let right = fork_addr((n as int + 1) % NUM_PHILOSOPHERS as int) as usize;
            let l = seen(*old(tr), *mem, left);
            let rt = seen(*old(tr), *mem, right);
            if !old(tr).aborted() && readable(*old(tr), *mem, left) && readable(
                *old(tr),
                *mem,
                right,
            ) {
                &&& !final(tr).aborted()
                &&& r is Done
                &&& final(tr).writes().dom() == old(tr).writes().dom().insert(left).insert(right)
                &&& final(tr).writes()[left]@ == l.update(0, 0)
                &&& final(tr).writes()[right]@ == rt.update(0, 0)
            } else {
                &&& final(tr).aborted()
                &&& r is Retry
                &&& final(tr).writes() == old(tr).writes()
            }
        }),
{
    let (left, right) = forks(n);
    let mut f1 = match load_or_retry(tr, mem, left) {
        Some(v) => v,
        None => return STMResult::Retry,
    };
    let mut f2 = match load_or_retry(tr, mem, right) {
        Some(v) => v,
        None => return STMResult::Retry,
    };
    f1[0] = 0;
    f2[0] = 0;
    tr.store(left, f1);
    tr.store(right, f2);
    STMResult::Done(())
}

/// The body of the observer's read-only transaction: the first byte of
/// every fork, or a retry when a read fails.
pub fn observe(tr: &mut ReadTrans, mem: &Memory) -> (r: STMResult<[u8; NUM_PHILOSOPHERS]>)
    requires
        mem.wf(),
        old(tr).read_version() < LOCK_BIT,
    ensures
        final(tr).read_version() == old(tr).read_version(),
        r is Done ==> !final(tr).aborted() && forall|i: int|
            0 <= i < NUM_PHILOSOPHERS ==> #[trigger] r->Done_0@[i] == mem.bytes()[fork_addr(i)],
        !old(tr).aborted() && (forall|i: int|
            0 <= i < NUM_PHILOSOPHERS ==> {
                let w = #[trigger] mem.words()[i];
                !is_locked(w) && version_of(w) <= old(tr).read_version()
            }) ==> r is Done,
{
    let mut v = [0u8; NUM_PHILOSOPHERS];
    let mut i: usize = 0;
    while i < NUM_PHILOSOPHERS
        invariant
            mem.wf(),
            tr.read_version() == old(tr).read_version(),
            old(tr).read_version() < LOCK_BIT,
            0 <= i <= NUM_PHILOSOPHERS,
            i > 0 ==> !tr.aborted() && !old(tr).aborted(),
            i == 0 ==> tr.aborted() == old(tr).aborted(),
            forall|k: int| 0 <= k < i ==> v@[k] == mem.bytes()[fork_addr(k)],
        decreases NUM_PHILOSOPHERS - i,
    {
        assert(stripe_addr(8 * i as int));
        assert(stripe_of(8 * i as int) == i);
        let f = match tr.load(mem, 8 * i) {
            Some(f) => f,
            None => {
                assert(mem.words()[i as int] == mem.words()[stripe_of(8 * i as int)]);
                return STMResult::Retry;
            },
        };
        assert(f@[0] == stripe_bytes(mem.bytes(), 8 * i as int)[0]);
        v[i] = f[0];
        i = i + 1;
    }
    STMResult::Done(v)
}

/// The number of forks held according to an observation.
pub open spec fn held_count(v: Seq<u8>, k: int) -> int
    decreases k,
{
    if k <= 0 {
        0
    } else {
        held_count(v, k - 1) + if v[k - 1] == 1 {
            1int
        } else {
            0int
        }
    }
}

/// The observer's check: forks are taken and put down in pairs, so the
/// number of held forks must be even.
pub fn is_consistent(chopsticks: &[u8; NUM_PHILOSOPHERS]) -> (r: bool)
    ensures
        r == (held_count(chopsticks@, NUM_PHILOSOPHERS as int) % 2 == 0),
{
    let mut n: usize = 0;
    let mut i: usize = 0;
    while i < NUM_PHILOSOPHERS
        invariant
            0 <= i <= NUM_PHILOSOPHERS,
            n == held_count(chopsticks@, i as int),
            n <= i,
        decreases NUM_PHILOSOPHERS - i,
    {
        if chopsticks[i] == 1 {
            n = n + 1;
        }
        i = i + 1;
    }
    assert(n & 1 == n % 2) by (bit_vector);
    n & 1 == 0
}

/// The first byte of every fork's stripe: one while the fork is held.
pub open spec fn fork_bytes(bytes: Seq<u8>) -> Seq<u8> {
    Seq::new(NUM_PHILOSOPHERS as nat, |i: int| bytes[fork_addr(i)])
}

/// Between transactions every stripe is readable by a transaction that
/// begins now.
proof fn lemma_quiescent_readable(tr: WriteTrans, mem: Memory, addr: usize)
    requires
        mem.quiescent(),
        tr.read_version() == mem.clock(),
        stripe_addr(addr as int),
    ensures
        readable(tr, mem, addr),
{
    let w = mem.words()[stripe_of(addr as int)];
    assert(0 <= stripe_of(addr as int) < NUM_STRIPES);
    assert(!is_locked(w) && w <= mem.clock());
    vstd::arithmetic::div_mod::lemma_small_mod(w as nat, LOCK_BIT as nat);
}

/// Writing two stripes, each a copy of the old stripe with its first byte
/// replaced, changes just those two bytes.
proof fn lemma_apply_two(
    bytes: Seq<u8>,
    ws: Map<usize, [u8; STRIPE_SIZE]>,
    left: usize,
    right: usize,
    x: u8,
    y: u8,
)
    requires
        bytes.len() == MEM_SIZE,
        stripe_addr(left as int),
        stripe_addr(right as int),
        left != right,
        ws.dom() == set![left, right],
        ws[left]@ == stripe_bytes(bytes, left as int).update(0, x),
        ws[right]@ == stripe_bytes(bytes, right as int).update(0, y),
    ensures
        apply_writes(bytes, ws) == bytes.update(left as int, x).update(right as int, y),
{
    let a = apply_writes(bytes, ws);
    let e = bytes.update(left as int, x).update(right as int, y);
    assert forall|b: int| 0 <= b < MEM_SIZE implies #[trigger] a[b] == e[b] by {
        let st = stripe_start(b);
        if st == left {
            assert(b - left == b % 8);
        } else if st == right {
            assert(b - right == b % 8);
        } else {
            assert(b != left && b != right);
        }
    }
    assert(a =~= e);
}

/// A fresh transaction that then wrote at most the two stripes `left` and
/// `right`, both in memory, writes only inside the memory.
proof fn lemma_two_writes_in_memory(tr0: WriteTrans, tr1: WriteTrans, left: usize, right: usize)
    requires
        tr0.writes() == Map::<usize, [u8; STRIPE_SIZE]>::empty(),
        stripe_addr(left as int),
        stripe_addr(right as int),
        tr1.writes() == tr0.writes() || tr1.writes().dom() == tr0.writes().dom().insert(
            left,
        ).insert(right),
    ensures
        tr1.in_memory(),
{
    assert forall|a: usize| #[trigger] tr1.writes().dom().contains(a) implies stripe_addr(
        a as int,
    ) by {
        if tr1.writes() == tr0.writes() {
            assert(!tr0.writes().dom().contains(a));
        }
    }
}

/// Philosopher `n` tries, in one read-write transaction on a memory it
/// holds alone, to pick up both its forks: when both are free they become
/// held and the answer is `true`; otherwise nothing is written and the
/// answer is `false`. Either way the transaction commits and the clock
/// advances.
pub fn pick_up(stm: &mut STM, n: usize) -> (r: bool)
    requires
        old(stm).memory().quiescent(),
        old(stm).memory().clock() + 1 < LOCK_BIT,
        n < NUM_PHILOSOPHERS,
    ensures
        final(stm).memory().quiescent(),
        final(stm).memory().clock() == old(stm).memory().clock() + 1,
        ({
            let b = old(stm).memory().bytes();
            let left = fork_addr(n as int);
            let right = fork_addr((n as int + 1) % NUM_PHILOSOPHERS as int);
            &&& r == (b[left] == 0 && b[right] == 0)
            &&& r ==> final(stm).memory().bytes() == b.update(left, 1).update(right, 1)
            &&& !r ==> final(stm).memory().bytes() == b
        }),
{
    let ghost m = stm.memory();
    let (left, right) = forks(n);
    let body = |tr: WriteTrans, mem: &Memory| -> (out: (WriteTrans, STMResult<bool>))
        requires
            tr.wf(),
            mem.wf(),
            tr.read_version() < LOCK_BIT,
        ensures
            out.0.wf(),
            out.0.held() == tr.held(),
            out.0.read_version() == tr.read_version(),
            fresh_write(tr, *mem) ==> out.0.in_memory(),
            fresh_write(tr, *mem) && mem.quiescent() ==> {
                let b = mem.bytes();
                let got = b[left as int] == 0 && b[right as int] == 0;
                &&& !out.0.aborted()
                &&& out.1 == STMResult::Done(got)
                &&& got ==> out.0.writes().dom() == set![left, right]
                &&& got ==> out.0.writes()[left]@ == stripe_bytes(b, left as int).update(0, 1)
                &&& got ==> out.0.writes()[right]@ == stripe_bytes(b, right as int).update(0, 1)
                &&& !got ==> out.0.writes() == Map::<usize, [u8; STRIPE_SIZE]>::empty()
            },
        {
            let mut tr = tr;
            let ghost tr0 = tr;
            proof {
                if fresh_write(tr0, *mem) && mem.quiescent() {
                    lemma_quiescent_readable(tr0, *mem, left);
                    lemma_quiescent_readable(tr0, *mem, right);
                }
            }
            let res = pick_up_forks(&mut tr, mem, n);
            proof {
                if fresh_write(tr0, *mem) {
                    lemma_two_writes_in_memory(tr0, tr, left, right);
                }
            }
            (tr, res)
        };
    let r = stm.write_transaction(body);
    match r {
        Some(got) => {
            proof {
                let (tr0, tr1) = choose|tr0: WriteTrans, tr1: WriteTrans|
                    #[trigger] body.ensures((tr0, &m), (tr1, STMResult::Done(got))) && fresh_write(
                        tr0,
                        m,
                    ) && !tr1.aborted() && stm.memory().bytes() == apply_writes(
                        m.bytes(),
                        tr1.writes(),
                    );
                assert(body.ensures((tr0, &m), (tr1, STMResult::Done(got))));
                if got {
                    lemma_apply_two(m.bytes(), tr1.writes(), left, right, 1, 1);
                } else {
                    assert(apply_writes(m.bytes(), tr1.writes()) =~= m.bytes());
                }
            }
            got
        },
        None => false,
    }
}

/// Philosopher `n` puts down both its forks in one read-write transaction
/// on a memory it holds alone: both become free, and the clock advances.
pub fn put_down(stm: &mut STM, n: usize)
    requires
        old(stm).memory().quiescent(),
        old(stm).memory().clock() + 1 < LOCK_BIT,
        n < NUM_PHILOSOPHERS,
    ensures
        final(stm).memory().quiescent(),
        final(stm).memory().clock() == old(stm).memory().clock() + 1,
        final(stm).memory().bytes() == old(stm).memory().bytes().update(fork_addr(n as int), 0).update(
            fork_addr((n as int + 1) % NUM_PHILOSOPHERS as int),
            0,
        ),
{
    let ghost m = stm.memory();
    let (left, right) = forks(n);
    let body = |tr: WriteTrans, mem: &Memory| -> (out: (WriteTrans, STMResult<()>))
        requires
            tr.wf(),
            mem.wf(),
            tr.read_version() < LOCK_BIT,
        ensures
            out.0.wf(),
            out.0.held() == tr.held(),
            out.0.read_version() == tr.read_version(),
            fresh_write(tr, *mem) ==> out.0.in_memory(),
            fresh_write(tr, *mem) && mem.quiescent() ==> {
                let b = mem.bytes();
                &&& !out.0.aborted()
                &&& out.1 is Done
                &&& out.0.writes().dom() == set![left, right]
                &&& out.0.writes()[left]@ == stripe_bytes(b, left as int).update(0, 0)
                &&& out.0.writes()[right]@ == stripe_bytes(b, right as int).update(0, 0)
            },
        {
            let mut tr = tr;
            let ghost tr0 = tr;
            proof {
                if fresh_write(tr0, *mem) && mem.quiescent() {
                    lemma_quiescent_readable(tr0, *mem, left);
                    lemma_quiescent_readable(tr0, *mem, right);
                }
            }
            let res = put_down_forks(&mut tr, mem, n);
            proof {
                if fresh_write(tr0, *mem) {
                    lemma_two_writes_in_memory(tr0, tr, left, right);
                }
            }
            (tr, res)
        };
    let r = stm.write_transaction(body);
    match r {
        Some(u) => {
            proof {
                let (tr0, tr1) = choose|tr0: WriteTrans, tr1: WriteTrans|
                    #[trigger] body.ensures((tr0, &m), (tr1, STMResult::Done(u))) && fresh_write(
                        tr0,
                        m,
                    ) && !tr1.aborted() && stm.memory().bytes() == apply_writes(
                        m.bytes(),
                        tr1.writes(),
                    );
                assert(body.ensures((tr0, &m), (tr1, STMResult::Done(u))));
                lemma_apply_two(m.bytes(), tr1.writes(), left, right, 0, 0);
            }
        },
        None => {},
    }
}

/// The observer looks at every fork in one read-only transaction on a
/// memory it holds alone: the answer is the first byte of each fork.
pub fn look(stm: &STM) -> (r: [u8; NUM_PHILOSOPHERS])
    requires
        stm.memory().quiescent(),
    ensures
        r@ == fork_bytes(stm.memory().bytes()),
{
    let ghost m = stm.memory();
    let body = |tr: ReadTrans, mem: &Memory| -> (out: (ReadTrans, STMResult<[u8; NUM_PHILOSOPHERS]>))
        requires
            mem.wf(),
            tr.read_version() < LOCK_BIT,
        ensures
            out.1 is Done ==> !out.0.aborted() && out.1->Done_0@ == fork_bytes(mem.bytes()),
            fresh_read(tr, *mem) && mem.quiescent() ==> out.1 is Done && !out.0.aborted(),
        {
            let mut tr = tr;
            proof {
                if fresh_read(tr, *mem) && mem.quiescent() {
                    assert forall|i: int| 0 <= i < NUM_PHILOSOPHERS implies {
                        let w = #[trigger] mem.words()[i];
                        !is_locked(w) && version_of(w) <= tr.read_version()
                    } by {
                        vstd::arithmetic::div_mod::lemma_small_mod(
                            mem.words()[i] as nat,
                            LOCK_BIT as nat,
                        );
                    }
                }
            }
            let res = observe(&mut tr, mem);
            proof {
                if res is Done {
                    assert(res->Done_0@ =~= fork_bytes(mem.bytes()));
                }
            }
            (tr, res)
        };
    let r = stm.read_transaction(body);
    match r {
        Some(v) => {
            proof {
                let (tr0, tr1) = choose|tr0: ReadTrans, tr1: ReadTrans|
                    #[trigger] body.ensures((tr0, &m), (tr1, STMResult::Done(v))) && fresh_read(
                        tr0,
                        m,
                    ) && !tr1.aborted();
                assert(body.ensures((tr0, &m), (tr1, STMResult::Done(v))));
            }
            v
        },
        None => [0u8; NUM_PHILOSOPHERS],
    }
}

/// Setting one fork's byte changes the count of held forks by what the
/// fork was and what it becomes.
proof fn lemma_held_count_update(v: Seq<u8>, i: int, x: u8, k: int)
    requires
        0 <= i < v.len(),
        k <= v.len(),
    ensures
        held_count(v.update(i, x), k) == held_count(v, k) + if i < k {
            (if x == 1 {
                1int
            } else {
                0int
            }) - (if v[i] == 1 {
                1int
            } else {
                0int
            })
        } else {
            0int
        },
    decreases k,
{
    if k > 0 {
        lemma_held_count_update(v, i, x, k - 1);
    }
}

/// The forks as bytes after two forks' bytes are set.
proof fn lemma_fork_bytes_update(b: Seq<u8>, n: int, m: int, x: u8, y: u8)
    requires
        b.len() == MEM_SIZE,
        0 <= n < NUM_PHILOSOPHERS,
        0 <= m < NUM_PHILOSOPHERS,
    ensures
        fork_bytes(b.update(fork_addr(n), x).update(fork_addr(m), y)) == fork_bytes(b).update(
            n,
            x,
        ).update(m, y),
{
    let l = fork_bytes(b.update(fork_addr(n), x).update(fork_addr(m), y));
    let r = fork_bytes(b).update(n, x).update(m, y);
    assert forall|i: int| 0 <= i < NUM_PHILOSOPHERS implies l[i] == r[i] by {
        assert(fork_addr(i) == fork_addr(n) <==> i == n);
        assert(fork_addr(i) == fork_addr(m) <==> i == m);
    }
    assert(l =~= r);
}

/// Law: a successful pick-up takes two free forks, so the number of held
/// forks grows by exactly two; the observer's count stays even.
pub proof fn law_pick_up_takes_two(b: Seq<u8>, n: usize)
    requires
        b.len() == MEM_SIZE,
        n < NUM_PHILOSOPHERS,
        b[fork_addr(n as int)] == 0,
        b[fork_addr((n as int + 1) % NUM_PHILOSOPHERS as int)] == 0,
    ensures
        held_count(
            fork_bytes(
                b.update(fork_addr(n as int), 1).update(
                    fork_addr((n as int + 1) % NUM_PHILOSOPHERS as int),
                    1,
                ),
            ),
            NUM_PHILOSOPHERS as int,
        ) == held_count(fork_bytes(b), NUM_PHILOSOPHERS as int) + 2,
{
    let m = (n as int + 1) % NUM_PHILOSOPHERS as int;
    let f = fork_bytes(b);
    lemma_fork_bytes_update(b, n as int, m, 1, 1);
    lemma_held_count_update(f, n as int, 1, NUM_PHILOSOPHERS as int);
    lemma_held_count_update(f.update(n as int, 1), m, 1, NUM_PHILOSOPHERS as int);
}

/// Law: putting down two held forks makes the number of held forks drop by
/// exactly two.
pub proof fn law_put_down_frees_two(b: Seq<u8>, n: usize)
    requires
        b.len() == MEM_SIZE,
        n < NUM_PHILOSOPHERS,
        b[fork_addr(n as int)] == 1,
        b[fork_addr((n as int + 1) % NUM_PHILOSOPHERS as int)] == 1,
    ensures
        held_count(
            fork_bytes(
                b.update(fork_addr(n as int), 0).update(
                    fork_addr((n as int + 1) % NUM_PHILOSOPHERS as int),
                    0,
                ),
            ),
            NUM_PHILOSOPHERS as int,
        ) + 2 == held_count(fork_bytes(b), NUM_PHILOSOPHERS as int),
{
    let m = (n as int + 1) % NUM_PHILOSOPHERS as int;
    let f = fork_bytes(b);
    lemma_fork_bytes_update(b, n as int, m, 0, 0);
    lemma_held_count_update(f, n as int, 0, NUM_PHILOSOPHERS as int);
    lemma_held_count_update(f.update(n as int, 0), m, 0, NUM_PHILOSOPHERS as int);
}

/// Law: putting down the forks just picked up gives back the memory as it
/// was.
pub proof fn law_put_down_undoes_pick_up(b: Seq<u8>, n: usize)
    requires
        b.len() == MEM_SIZE,
        n < NUM_PHILOSOPHERS,
        b[fork_addr(n as int)] == 0,
        b[fork_addr((n as int + 1) % NUM_PHILOSOPHERS as int)] == 0,
    ensures
        ({
            let l = fork_addr(n as int);
            let r = fork_addr((n as int + 1) % NUM_PHILOSOPHERS as int);
            b.update(l, 1).update(r, 1).update(l, 0).update(r, 0) == b
        }),
{
    let l = fork_addr(n as int);
    let r = fork_addr((n as int + 1) % NUM_PHILOSOPHERS as int);
    assert(b.update(l, 1).update(r, 1).update(l, 0).update(r, 0) =~= b);
}

/// The number of philosophers among the first `k` that are eating.
pub open spec fn eating_count(e: Seq<bool>, k: int) -> int
    decreases k,
{
    if k <= 0 {
        0
    } else {
        eating_count(e, k - 1) + if e[k - 1] {
            1int
        } else {
            0int
        }
    }
}

/// One step of the protocol by philosopher `n` on the memory's bytes and on
/// who is eating, as `pick_up` and `put_down` do it: an eating philosopher
/// puts both forks down; any other picks both up when both are free, and
/// otherwise nothing changes.
pub open spec fn protocol_step(b: Seq<u8>, e: Seq<bool>, n: int) -> (Seq<u8>, Seq<bool>) {
    let l = fork_addr(n);
    let r = fork_addr((n + 1) % NUM_PHILOSOPHERS as int);
    if e[n] {
        (b.update(l, 0).update(r, 0), e.update(n, false))
    } else if b[l] == 0 && b[r] == 0 {
        (b.update(l, 1).update(r, 1), e.update(n, true))
    } else {
        (b, e)
    }
}

/// The state after the philosophers in `ops` take their steps in turn.
pub open spec fn protocol_run(b: Seq<u8>, e: Seq<bool>, ops: Seq<int>) -> (Seq<u8>, Seq<bool>)
    decreases ops.len(),
{
    if ops.len() == 0 {
        (b, e)
    } else {
        let (b1, e1) = protocol_step(b, e, ops[0]);
        protocol_run(b1, e1, ops.drop_first())
    }
}

/// The table is in order: an eating philosopher holds both its forks, no
/// two neighbours eat, and exactly their forks are held.
spec fn table_ok(b: Seq<u8>, e: Seq<bool>) -> bool {
    &&& b.len() == MEM_SIZE
    &&& e.len() == NUM_PHILOSOPHERS
    &&& forall|n: int|
        0 <= n < NUM_PHILOSOPHERS && #[trigger] e[n] ==> b[fork_addr(n)] == 1 && b[fork_addr(
            (n + 1) % NUM_PHILOSOPHERS as int,
        )] == 1 && !e[(n + 1) % NUM_PHILOSOPHERS as int]
    &&& held_count(fork_bytes(b), NUM_PHILOSOPHERS as int) == 2 * eating_count(
        e,
        NUM_PHILOSOPHERS as int,
    )
    &&& forall|i: int|
        0 <= i < NUM_PHILOSOPHERS ==> #[trigger] b[fork_addr(i)] == 0 || b[fork_addr(i)] == 1
}

/// Changing one philosopher's flag changes the count of eaters by one.
proof fn lemma_eating_count_update(e: Seq<bool>, i: int, x: bool, k: int)
    requires
        0 <= i < e.len(),
        k <= e.len(),
    ensures
        eating_count(e.update(i, x), k) == eating_count(e, k) + if i < k {
            (if x {
                1int
            } else {
                0int
            }) - (if e[i] {
                1int
            } else {
                0int
            })
        } else {
            0int
        },
    decreases k,
{
    if k > 0 {
        lemma_eating_count_update(e, i, x, k - 1);
    }
}

/// One step of the protocol keeps the table in order.
proof fn lemma_step_keeps_table(b: Seq<u8>, e: Seq<bool>, n: int)
    requires
        table_ok(b, e),
        0 <= n < NUM_PHILOSOPHERS,
    ensures
        table_ok(protocol_step(b, e, n).0, protocol_step(b, e, n).1),
{
    let m = (n + 1) % NUM_PHILOSOPHERS as int;
    let l = fork_addr(n);
    let r = fork_addr(m);
    let (b1, e1) = protocol_step(b, e, n);
    assert forall|i: int| 0 <= i < NUM_PHILOSOPHERS implies #[trigger] b1[fork_addr(i)] == 0
        || b1[fork_addr(i)] == 1 by {
        assert(fork_addr(i) == l <==> i == n);
        assert(fork_addr(i) == r <==> i == m);
    }
    if e[n] {
        law_put_down_frees_two(b, n as usize);
        lemma_eating_count_update(e, n, false, NUM_PHILOSOPHERS as int);
        assert forall|k: int| 0 <= k < NUM_PHILOSOPHERS && #[trigger] e1[k] implies b1[fork_addr(
            k,
        )] == 1 && b1[fork_addr((k + 1) % NUM_PHILOSOPHERS as int)] == 1 && !e1[(k + 1)
            % NUM_PHILOSOPHERS as int] by {
            let k1 = (k + 1) % NUM_PHILOSOPHERS as int;
            assert(e[k]);
            assert(k != n);
            assert(k != m);
            assert(k1 != n) by {
                if k1 == n {
                    assert(!e[n]);
                }
            }
            assert(fork_addr(k) != l && fork_addr(k) != r);
            assert(fork_addr(k1) != l && fork_addr(k1) != r);
        }
    } else if b[l] == 0 && b[r] == 0 {
        law_pick_up_takes_two(b, n as usize);
        lemma_eating_count_update(e, n, true, NUM_PHILOSOPHERS as int);
        let p = (n + NUM_PHILOSOPHERS as int - 1) % NUM_PHILOSOPHERS as int;
        assert(!e[p]) by {
            if e[p] {
                assert((p + 1) % NUM_PHILOSOPHERS as int == n);
            }
        }
        assert(!e[m]) by {
            if e[m] {
                assert(b[fork_addr(m)] == 1);
            }
        }
        assert forall|k: int| 0 <= k < NUM_PHILOSOPHERS && #[trigger] e1[k] implies b1[fork_addr(
            k,
        )] == 1 && b1[fork_addr((k + 1) % NUM_PHILOSOPHERS as int)] == 1 && !e1[(k + 1)
            % NUM_PHILOSOPHERS as int] by {
            let k1 = (k + 1) % NUM_PHILOSOPHERS as int;
            if k != n {
                assert(e[k]);
                assert(k1 != n) by {
                    if k1 == n {
                        assert(k == p);
                    }
                }
            }
        }
    }
}

/// Every run of the protocol keeps the table in order.
proof fn lemma_run_keeps_table(b: Seq<u8>, e: Seq<bool>, ops: Seq<int>)
    requires
        table_ok(b, e),
        forall|i: int| 0 <= i < ops.len() ==> 0 <= #[trigger] ops[i] < NUM_PHILOSOPHERS,
    ensures
        table_ok(protocol_run(b, e, ops).0, protocol_run(b, e, ops).1),
    decreases ops.len(),
{
    if ops.len() > 0 {
        lemma_step_keeps_table(b, e, ops[0]);
        let (b1, e1) = protocol_step(b, e, ops[0]);
        assert forall|i: int| 0 <= i < ops.drop_first().len() implies 0 <= #[trigger] ops.drop_first()[i]
            < NUM_PHILOSOPHERS by {
            assert(ops.drop_first()[i] == ops[i + 1]);
        }
        lemma_run_keeps_table(b1, e1, ops.drop_first());
    }
}

/// No byte held, no philosopher eating: both counts are zero.
proof fn lemma_counts_zero(v: Seq<u8>, e: Seq<bool>, k: int)
    requires
        0 <= k <= v.len(),
        k <= e.len(),
        forall|i: int| 0 <= i < k ==> v[i] == 0 && !e[i],
    ensures
        held_count(v, k) == 0,
        eating_count(e, k) == 0,
    decreases k,
{
    if k > 0 {
        lemma_counts_zero(v, e, k - 1);
    }
}

/// Law: forks are held in pairs over any run of the protocol. Starting from
/// the zeroed memory with nobody eating, after any sequence of philosopher
/// steps (`pick_up` by one who is not eating, `put_down` by one who is),
/// each eating philosopher holds both its forks, no two neighbours eat, and
/// the held forks number exactly twice the eaters, and every fork's byte is
/// zero or one. So every snapshot the observer takes (`look`) has an even
/// count, and `is_consistent` holds of it.
pub proof fn law_forks_held_in_pairs(ops: Seq<int>)
    requires
        forall|i: int| 0 <= i < ops.len() ==> 0 <= #[trigger] ops[i] < NUM_PHILOSOPHERS,
    ensures
        ({
            let (b, e) = protocol_run(
                Seq::new(MEM_SIZE as nat, |i: int| 0u8),
                Seq::new(NUM_PHILOSOPHERS as nat, |i: int| false),
                ops,
            );
            &&& forall|n: int|
                0 <= n < NUM_PHILOSOPHERS && #[trigger] e[n] ==> b[fork_addr(n)] == 1 && b[fork_addr(
                    (n + 1) % NUM_PHILOSOPHERS as int,
                )] == 1 && !e[(n + 1) % NUM_PHILOSOPHERS as int]
            &&& held_count(fork_bytes(b), NUM_PHILOSOPHERS as int) == 2 * eating_count(
                e,
                NUM_PHILOSOPHERS as int,
            )
            &&& held_count(fork_bytes(b), NUM_PHILOSOPHERS as int) % 2 == 0
            &&& forall|i: int|
                0 <= i < NUM_PHILOSOPHERS ==> #[trigger] b[fork_addr(i)] == 0 || b[fork_addr(i)]
                    == 1
        }),
{
    let b0 = Seq::new(MEM_SIZE as nat, |i: int| 0u8);
    let e0 = Seq::new(NUM_PHILOSOPHERS as nat, |i: int| false);
    lemma_counts_zero(fork_bytes(b0), e0, NUM_PHILOSOPHERS as int);
    lemma_run_keeps_table(b0, e0, ops);
}

} // verus!
