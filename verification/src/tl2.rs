use vstd::prelude::*;
use std::collections::{HashMap, HashSet};

verus! {

/// The size in bytes of a stripe, the unit of locking and versioning.
pub const STRIPE_SIZE: usize = 8;

/// The size in bytes of the transactional memory.
pub const MEM_SIZE: usize = 512;

/// The number of stripes of the memory.
pub const NUM_STRIPES: usize = 64;

/// The top bit of a stripe's lock-and-version word: set while the stripe is
/// locked by a committing transaction.
pub const LOCK_BIT: u64 = 0x8000_0000_0000_0000;

/// Two to the power `n`.
pub open spec fn two_pow(n: nat) -> nat
    decreases n,
{
    if n == 0 {
        1
    } else {
        2 * two_pow((n - 1) as nat)
    }
}

/// Whether a lock-and-version word has its lock bit set.
pub open spec fn is_locked(w: u64) -> bool {
    w >= LOCK_BIT
}

/// The version held in a lock-and-version word.
pub open spec fn version_of(w: u64) -> u64 {
    (w % LOCK_BIT) as u64
}

/// An address at which a whole stripe starts inside the memory.
pub open spec fn stripe_addr(addr: int) -> bool {
    &&& 0 <= addr
    &&& addr + STRIPE_SIZE <= MEM_SIZE
    &&& addr % STRIPE_SIZE as int == 0
}

/// An address at which a stripe starts, inside the memory or not.
pub open spec fn aligned(addr: int) -> bool {
    addr % STRIPE_SIZE as int == 0
}

/// The stripe that holds an address.
pub open spec fn stripe_of(addr: int) -> int {
    addr / STRIPE_SIZE as int
}

/// The bytes of the stripe starting at `addr`.
pub open spec fn stripe_bytes(bytes: Seq<u8>, addr: int) -> Seq<u8> {
    bytes.subrange(addr, addr + STRIPE_SIZE)
}

/// Bit facts about the lock bit.
proof fn lemma_lock_bits(w: u64)
    ensures
        w & !LOCK_BIT == version_of(w),
        (w & LOCK_BIT == 0) == !is_locked(w),
        !is_locked(w) ==> w | LOCK_BIT == w + LOCK_BIT,
        !is_locked(w) ==> version_of(w) == w,
        is_locked(w) ==> version_of(w) == w - LOCK_BIT,
{
    assert(w & !0x8000_0000_0000_0000u64 == w % 0x8000_0000_0000_0000u64) by (bit_vector);
    assert((w & 0x8000_0000_0000_0000u64 == 0) == (w < 0x8000_0000_0000_0000u64)) by (bit_vector);
    assert(w < 0x8000_0000_0000_0000u64 ==> w | 0x8000_0000_0000_0000u64 == w
        + 0x8000_0000_0000_0000u64) by (bit_vector);
}

/// Shifting right by three divides by eight.
proof fn lemma_shift_stripe(addr: usize, s: u32)
    requires
        s == 3,
    ensures
        addr >> s == addr / 8,
{
    assert(addr >> s == addr / 8) by (bit_vector)
        requires
            s == 3u32,
    ;
}

/// Powers of two from four on exceed eight.
proof fn lemma_two_pow_ge_16(n: nat)
    requires
        n >= 4,
    ensures
        two_pow(n) >= 16,
    decreases n,
{
    reveal_with_fuel(two_pow, 5);
    if n > 4 {
        lemma_two_pow_ge_16((n - 1) as nat);
    }
}

/// The only way to write eight as an odd number times a power of two.
proof fn lemma_eight_exponent(odd: int, n: nat)
    requires
        odd % 2 == 1,
        odd * two_pow(n) == 8,
    ensures
        n == 3,
{
    reveal_with_fuel(two_pow, 5);
    if n >= 4 {
        lemma_two_pow_ge_16(n);
        assert(odd >= 1) by (nonlinear_arith)
            requires
                odd * two_pow(n) == 8,
                two_pow(n) >= 16,
        ;
        assert(odd * two_pow(n) >= 16) by (nonlinear_arith)
            requires
                odd >= 1,
                two_pow(n) >= 16,
        ;
    } else if n == 0 {
        assert(two_pow(0) == 1);
        assert(odd == 8) by (nonlinear_arith)
            requires
                odd * two_pow(n) == 8,
                two_pow(n) == 1,
        ;
    } else if n == 1 {
        assert(two_pow(1) == 2);
        assert(odd == 4) by (nonlinear_arith)
            requires
                odd * two_pow(n) == 8,
                two_pow(n) == 2,
        ;
    } else if n == 2 {
        assert(two_pow(2) == 4);
        assert(odd == 2) by (nonlinear_arith)
            requires
                odd * two_pow(n) == 8,
                two_pow(n) == 4,
        ;
    }
}

/// The number of trailing zero bits of a positive number: `x` is an odd
/// number times two to the result.
fn trailing_zeros(x: usize) -> (r: u32)
    requires
        x > 0,
    ensures
        r < 64,
        exists|odd: int| odd % 2 == 1 && #[trigger] (odd * two_pow(r as nat)) == x,
{
    let mut v = x;
    let mut n: u32 = 0;
    assert(two_pow(0) == 1);
    while v % 2 == 0
        invariant
            v > 0,
            n < 64,
            v * two_pow(n as nat) == x,
            two_pow(n as nat) <= x,
        decreases v,
    {
        let ghost p = two_pow(n as nat);
        assert(v == 2 * (v / 2));
        assert((v / 2) * two_pow((n + 1) as nat) == x) by (nonlinear_arith)
            requires
                v * p == x,
                v == 2 * (v / 2),
                two_pow((n + 1) as nat) == 2 * p,
        ;
        assert(two_pow((n + 1) as nat) <= x) by (nonlinear_arith)
            requires
                (v / 2) * two_pow((n + 1) as nat) == x,
                v / 2 >= 1,
        ;
        assert(n + 1 < 64) by {
            if n + 1 >= 64 {
                lemma_two_pow_ge_64_bits((n + 1) as nat);
            }
        }
        v = v / 2;
        n = n + 1;
    }
    assert((v as int) * two_pow(n as nat) == x);
    n
}

/// Powers of two with exponent 64 or more do not fit in a machine word.
proof fn lemma_two_pow_ge_64_bits(n: nat)
    requires
        n >= 64,
    ensures
        two_pow(n) > usize::MAX,
    decreases n,
{
    if n > 64 {
        lemma_two_pow_ge_64_bits((n - 1) as nat);
    } else {
        lemma_two_pow_64();
    }
}

proof fn lemma_two_pow_64()
    ensures
        two_pow(64) == 0x1_0000_0000_0000_0000,
{
    reveal_with_fuel(two_pow, 65);
}

/// The memory of the transactional memory: its bytes, one lock-and-version
/// word per stripe, and the global version clock.
pub struct Memory {
    mem: Vec<u8>,
    lock_ver: Vec<u64>,
    global_clock: u64,
    shift_size: u32,
}

impl Memory {
    /// The bytes of the memory.
    pub closed spec fn bytes(&self) -> Seq<u8> {
        self.mem@
    }

    /// The lock-and-version words, one per stripe.
    pub closed spec fn words(&self) -> Seq<u64> {
        self.lock_ver@
    }

    /// The global version clock.
    pub closed spec fn clock(&self) -> u64 {
        self.global_clock
    }

    /// The memory's shape: its sizes, and that addresses map to stripes by a
    /// shift of three.
    pub open spec fn wf(&self) -> bool {
        &&& self.bytes().len() == MEM_SIZE
        &&& self.words().len() == NUM_STRIPES
        &&& self.maps_stripes()
    }

    /// Addresses map to stripes by a shift of three.
    pub closed spec fn maps_stripes(&self) -> bool {
        self.shift_size == 3
    }

    /// The state between transactions: no stripe is locked, every version is
    /// at most the clock, and the clock leaves room below the lock bit.
    pub open spec fn quiescent(&self) -> bool {
        &&& self.wf()
        &&& self.clock() < LOCK_BIT
        &&& forall|i: int| 0 <= i < NUM_STRIPES ==> !is_locked(#[trigger] self.words()[i])
        &&& forall|i: int| 0 <= i < NUM_STRIPES ==> #[trigger] self.words()[i] <= self.clock()
    }

    /// A zeroed memory with every version at zero and the clock at zero.
    pub fn new() -> (r: Self)
        ensures
            r.wf(),
            r.quiescent(),
            r.bytes() == Seq::new(MEM_SIZE as nat, |i: int| 0u8),
            r.words() == Seq::new(NUM_STRIPES as nat, |i: int| 0u64),
            r.clock() == 0,
    {
        let mem = vec![0u8; MEM_SIZE];
        let shift = trailing_zeros(STRIPE_SIZE);
        proof {
            let odd = choose|odd: int| odd % 2 == 1 && #[trigger] (odd * two_pow(shift as nat)) == 8;
            lemma_eight_exponent(odd, shift as nat);
        }
        let mut lock_ver: Vec<u64> = Vec::new();
        let count = MEM_SIZE >> shift;
        assert(count == 64) by {
            assert((512usize >> 3u32) == 64usize) by (bit_vector);
        }
        let mut i: usize = 0;
        while i < count
            invariant
                count == 64,
                i <= count,
                lock_ver@ == Seq::new(i as nat, |k: int| 0u64),
            decreases count - i,
        {
            lock_ver.push(0);
            i = i + 1;
            assert(lock_ver@ =~= Seq::new(i as nat, |k: int| 0u64));
        }
        let r = Memory { mem, lock_ver, global_clock: 0, shift_size: shift };
        assert(r.bytes() =~= Seq::new(MEM_SIZE as nat, |i: int| 0u8));
        r
    }

    /// The global version clock.
    pub fn global_clock(&self) -> (r: u64)
        ensures
            r == self.clock(),
    {
        self.global_clock
    }

    /// Increments the global version clock and returns its value before.
    pub fn inc_global_clock(&mut self) -> (r: u64)
        requires
            old(self).wf(),
        ensures
            final(self).wf(),
            r == old(self).clock(),
            final(self).clock() == old(self).clock().wrapping_add(1),
            final(self).bytes() == old(self).bytes(),
            final(self).words() == old(self).words(),
    {
        let r = self.global_clock;
        self.global_clock = self.global_clock.wrapping_add(1);
        r
    }

    /// The version of the stripe that holds `addr`, without its lock bit.
    pub fn get_addr_ver(&self, addr: usize) -> (r: u64)
        requires
            self.wf(),
            addr < MEM_SIZE,
        ensures
            r == version_of(self.words()[stripe_of(addr as int)]),
    {
        proof {
            lemma_shift_stripe(addr, self.shift_size);
        }
        let idx = addr >> self.shift_size;
        let n = self.lock_ver[idx];
        proof {
            lemma_lock_bits(n);
        }
        n & !LOCK_BIT
    }

    /// Whether the stripe that holds `addr` is unlocked with a version at
    /// most `rv`. As the lock bit is the top bit, one comparison of the whole
    /// word decides both when `rv` is below the lock bit.
    pub fn test_not_modify(&self, addr: usize, rv: u64) -> (r: bool)
        requires
            self.wf(),
            addr < MEM_SIZE,
        ensures
            r == (self.words()[stripe_of(addr as int)] <= rv),
            rv < LOCK_BIT ==> r == (!is_locked(self.words()[stripe_of(addr as int)]) && version_of(
                self.words()[stripe_of(addr as int)],
            ) <= rv),
    {
        proof {
            lemma_shift_stripe(addr, self.shift_size);
            lemma_lock_bits(self.lock_ver@[stripe_of(addr as int)]);
        }
        let idx = addr >> self.shift_size;
        let n = self.lock_ver[idx];
        n <= rv
    }

    /// Locks the stripe that holds `addr` when it is unlocked, and tells
    /// whether it did.
    pub fn lock_addr(&mut self, addr: usize) -> (r: bool)
        requires
            old(self).wf(),
            addr < MEM_SIZE,
        ensures
            final(self).wf(),
            r == !is_locked(old(self).words()[stripe_of(addr as int)]),
            r ==> final(self).words() == old(self).words().update(
                stripe_of(addr as int),
                (old(self).words()[stripe_of(addr as int)] + LOCK_BIT) as u64,
            ),
            !r ==> final(self).words() == old(self).words(),
            final(self).bytes() == old(self).bytes(),
            final(self).clock() == old(self).clock(),
    {
        proof {
            lemma_shift_stripe(addr, self.shift_size);
        }
        let idx = addr >> self.shift_size;
        let val = self.lock_ver[idx];
        proof {
            lemma_lock_bits(val);
        }
        if val & LOCK_BIT == 0 {
            self.lock_ver.set(idx, val | LOCK_BIT);
            true
        } else {
            false
        }
    }

    /// Clears the lock bit of the stripe that holds `addr`.
    pub fn unlock_addr(&mut self, addr: usize)
        requires
            old(self).wf(),
            addr < MEM_SIZE,
        ensures
            final(self).wf(),
            final(self).words() == old(self).words().update(
                stripe_of(addr as int),
                version_of(old(self).words()[stripe_of(addr as int)]),
            ),
            final(self).bytes() == old(self).bytes(),
            final(self).clock() == old(self).clock(),
    {
        proof {
            lemma_shift_stripe(addr, self.shift_size);
        }
        let idx = addr >> self.shift_size;
        let val = self.lock_ver[idx];
        proof {
            lemma_lock_bits(val);
        }
        self.lock_ver.set(idx, val & !LOCK_BIT);
    }
}

/// Whether the set of addresses holds the start of stripe `i`.
pub open spec fn covers(addrs: Set<usize>, i: int) -> bool {
    addrs.contains((i * STRIPE_SIZE) as usize)
}

/// The words after locking the stripes that start at `addrs`.
pub open spec fn lock_all(words: Seq<u64>, addrs: Set<usize>) -> Seq<u64> {
    Seq::new(
        words.len(),
        |i: int|
            if covers(addrs, i) {
                (words[i] + LOCK_BIT) as u64
            } else {
                words[i]
            },
    )
}

/// The words after clearing the lock bits of the stripes that start at
/// `addrs`.
pub open spec fn unlock_all(words: Seq<u64>, addrs: Set<usize>) -> Seq<u64> {
    Seq::new(
        words.len(),
        |i: int|
            if covers(addrs, i) {
                version_of(words[i])
            } else {
                words[i]
            },
    )
}

/// The words after giving the stripes that start at `addrs` the version
/// `ver`, unlocked.
pub open spec fn set_versions(words: Seq<u64>, addrs: Set<usize>, ver: u64) -> Seq<u64> {
    Seq::new(
        words.len(),
        |i: int|
            if covers(addrs, i) {
                ver
            } else {
                words[i]
            },
    )
}

/// The start of the stripe that holds byte `b`.
pub open spec fn stripe_start(b: int) -> usize {
    (stripe_of(b) * STRIPE_SIZE) as usize
}

/// The bytes after writing each stripe of a write-set.
pub open spec fn apply_writes(bytes: Seq<u8>, ws: Map<usize, [u8; STRIPE_SIZE]>) -> Seq<u8> {
    Seq::new(
        bytes.len(),
        |b: int|
            if ws.dom().contains(stripe_start(b)) {
                ws[stripe_start(b)]@[b % STRIPE_SIZE as int]
            } else {
                bytes[b]
            },
    )
}

/// Whether a read of stripe address `a` is still valid for a transaction
/// with read-version `rv` that writes the addresses `ws`: a stripe it writes
/// (and so has locked itself) must have a version at most `rv`; any other
/// must be unlocked with a version at most `rv`.
pub open spec fn read_valid(words: Seq<u64>, ws: Set<usize>, rv: u64, a: usize) -> bool {
    if ws.contains(a) {
        version_of(words[stripe_of(a as int)]) <= rv
    } else {
        words[stripe_of(a as int)] <= rv
    }
}

/// Law: what validation accepts. A read of a stripe that is not locked is
/// valid exactly when the stripe's word is at most the read-version,
/// whether or not the transaction writes it. A stripe the transaction
/// writes (and so has locked itself) is valid exactly when its word less
/// the lock bit is at most the read-version. A locked stripe the
/// transaction does not write is never valid.
pub proof fn law_read_valid_checks_versions(words: Seq<u64>, ws: Set<usize>, rv: u64, a: usize)
    ensures
        words[stripe_of(a as int)] < LOCK_BIT ==> (read_valid(words, ws, rv, a) <==> words[stripe_of(
            a as int,
        )] <= rv),
        words[stripe_of(a as int)] >= LOCK_BIT && ws.contains(a) ==> (read_valid(
            words,
            ws,
            rv,
            a,
        ) <==> words[stripe_of(a as int)] - LOCK_BIT <= rv),
        words[stripe_of(a as int)] >= LOCK_BIT && !ws.contains(a) && rv < LOCK_BIT ==> !read_valid(
            words,
            ws,
            rv,
            a,
        ),
{
    lemma_lock_bits(words[stripe_of(a as int)]);
}

/// Copies the stripe at `addr` out of the memory.
fn read_stripe(mem: &Memory, addr: usize) -> (r: [u8; STRIPE_SIZE])
    requires
        mem.wf(),
        stripe_addr(addr as int),
    ensures
        r@ == stripe_bytes(mem.bytes(), addr as int),
{
    let mut buf = [0u8; STRIPE_SIZE];
    let mut k: usize = 0;
    while k < STRIPE_SIZE
        invariant
            mem.wf(),
            stripe_addr(addr as int),
            0 <= k <= STRIPE_SIZE,
            forall|j: int| 0 <= j < k ==> buf@[j] == mem.bytes()[addr + j],
        decreases STRIPE_SIZE - k,
    {
        buf[k] = mem.mem[addr + k];
        k = k + 1;
    }
    assert(buf@ =~= stripe_bytes(mem.bytes(), addr as int));
    buf
}

/// A read-only transaction: its read-version and whether it has seen a
/// conflict.
pub struct ReadTrans {
    read_ver: u64,
    is_abort: bool,
}

impl ReadTrans {
    /// The global clock when the transaction began.
    pub closed spec fn read_version(&self) -> u64 {
        self.read_ver
    }

    /// Whether the transaction has seen a conflict.
    pub closed spec fn aborted(&self) -> bool {
        self.is_abort
    }

    /// Begins a read-only transaction on `mem`: its read-version is the
    /// global clock.
    pub fn new(mem: &Memory) -> (r: Self)
        ensures
            r.read_version() == mem.clock(),
            !r.aborted(),
    {
        ReadTrans { is_abort: false, read_ver: mem.global_clock }
    }

    /// Whether the transaction has seen a conflict.
    pub fn is_abort(&self) -> (r: bool)
        ensures
            r == self.aborted(),
    {
        self.is_abort
    }

    /// Reads the stripe at `addr`. An aborted transaction reads nothing. A
    /// stripe that is locked or newer than the read-version aborts the
    /// transaction; otherwise its bytes are returned.
    pub fn load(&mut self, mem: &Memory, addr: usize) -> (r: Option<[u8; STRIPE_SIZE]>)
        requires
            mem.wf(),
            !old(self).aborted() ==> stripe_addr(addr as int),
            old(self).read_version() < LOCK_BIT,
        ensures
            final(self).read_version() == old(self).read_version(),
            old(self).aborted() ==> r is None && final(self).aborted(),
            !old(self).aborted() ==> {
                let w = mem.words()[stripe_of(addr as int)];
                if !is_locked(w) && version_of(w) <= old(self).read_version() {
                    &&& !final(self).aborted()
                    &&& r matches Some(v) && v@ == stripe_bytes(mem.bytes(), addr as int)
                } else {
                    &&& final(self).aborted()
                    &&& r is None
                }
            },
    {
        if self.is_abort {
            return None;
        }
        if !mem.test_not_modify(addr, self.read_ver) {
            self.is_abort = true;
            return None;
        }
        let buf = read_stripe(mem, addr);
        if !mem.test_not_modify(addr, self.read_ver) {
            self.is_abort = true;
            return None;
        }
        Some(buf)
    }
}

/// A read-write transaction: its read-version, the addresses it read, the
/// stripes it will write, the addresses whose stripes it has locked, and
/// whether it has seen a conflict.
pub struct WriteTrans {
    read_ver: u64,
    read_set: HashSet<usize>,
    write_set: HashMap<usize, [u8; STRIPE_SIZE]>,
    locked: Vec<usize>,
    is_abort: bool,
}

impl WriteTrans {
    /// The global clock when the transaction began.
    pub closed spec fn read_version(&self) -> u64 {
        self.read_ver
    }

    /// The addresses the transaction has read.
    pub closed spec fn reads(&self) -> Set<usize> {
        self.read_set@
    }

    /// The stripes the transaction will write, by address.
    pub closed spec fn writes(&self) -> Map<usize, [u8; STRIPE_SIZE]> {
        self.write_set@
    }

    /// The addresses whose stripes the transaction holds locked.
    pub closed spec fn held(&self) -> Seq<usize> {
        self.locked@
    }

    /// Whether the transaction has seen a conflict.
    pub closed spec fn aborted(&self) -> bool {
        self.is_abort
    }

    /// Every address read or written is aligned to a stripe; an address read
    /// from memory (not from the write-set) starts a stripe of the memory;
    /// and the locked addresses are written ones, each once.
    pub closed spec fn wf(&self) -> bool {
        &&& forall|a: usize| #[trigger]
            self.read_set@.contains(a) ==> aligned(a as int) && (self.write_set@.dom().contains(a)
                || stripe_addr(a as int))
        &&& forall|a: usize| #[trigger] self.write_set@.dom().contains(a) ==> aligned(a as int)
        &&& forall|i: int|
            0 <= i < self.locked@.len() ==> self.write_set@.dom().contains(#[trigger] self.locked@[i])
        &&& self.locked@.no_duplicates()
        &&& self.write_set@.dom().finite()
    }

    /// Every stripe the transaction will write lies inside the memory.
    pub open spec fn in_memory(&self) -> bool {
        forall|a: usize| #[trigger] self.writes().dom().contains(a) ==> stripe_addr(a as int)
    }

    /// What committing relies on: every address read or written starts a
    /// stripe of the memory, and the locked ones are written ones, each once.
    closed spec fn wf_full(&self) -> bool {
        &&& forall|a: usize| #[trigger] self.read_set@.contains(a) ==> stripe_addr(a as int)
        &&& forall|a: usize| #[trigger] self.write_set@.dom().contains(a) ==> stripe_addr(a as int)
        &&& forall|i: int|
            0 <= i < self.locked@.len() ==> self.write_set@.dom().contains(#[trigger] self.locked@[i])
        &&& self.locked@.no_duplicates()
        &&& self.write_set@.dom().finite()
    }

    /// A transaction whose writes lie inside the memory is ready to commit.
    proof fn lemma_wf_full(&self)
        requires
            self.wf(),
            self.in_memory(),
        ensures
            self.wf_full(),
    {
        assert forall|a: usize| #[trigger] self.read_set@.contains(a) implies stripe_addr(
            a as int,
        ) by {
            if self.write_set@.dom().contains(a) {
                assert(self.writes().dom().contains(a));
            }
        }
        assert forall|a: usize| #[trigger] self.write_set@.dom().contains(a) implies stripe_addr(
            a as int,
        ) by {
            assert(self.writes().dom().contains(a));
        }
    }

    /// Begins a read-write transaction on `mem`: its read-version is the
    /// global clock and its sets are empty.
    pub fn new(mem: &Memory) -> (r: Self)
        ensures
            r.wf(),
            r.read_version() == mem.clock(),
            r.reads() == Set::<usize>::empty(),
            r.writes() == Map::<usize, [u8; STRIPE_SIZE]>::empty(),
            r.held() == Seq::<usize>::empty(),
            !r.aborted(),
    {
        WriteTrans {
            read_set: HashSet::new(),
            write_set: HashMap::new(),
            locked: Vec::new(),
            is_abort: false,
            read_ver: mem.global_clock,
        }
    }

    /// Whether the transaction has seen a conflict.
    pub fn is_abort(&self) -> (r: bool)
        ensures
            r == self.aborted(),
    {
        self.is_abort
    }

    /// The global clock when the transaction began.
    pub fn get_read_version(&self) -> (r: u64)
        ensures
            r == self.read_version(),
    {
        self.read_ver
    }

    /// Records a write of `val` to the stripe at `addr`; the memory is not
    /// touched before the commit.
    pub fn store(&mut self, addr: usize, val: [u8; STRIPE_SIZE])
        requires
            old(self).wf(),
            aligned(addr as int),
        ensures
            final(self).wf(),
            final(self).writes() == old(self).writes().insert(addr, val),
            final(self).reads() == old(self).reads(),
            final(self).held() == old(self).held(),
            final(self).read_version() == old(self).read_version(),
            final(self).aborted() == old(self).aborted(),
    {
        broadcast use vstd::std_specs::hash::group_hash_axioms;
        self.write_set.insert(addr, val);
    }

    /// Reads the stripe at `addr`. An aborted transaction reads nothing.
    /// Otherwise the address joins the read-set; a stripe the transaction
    /// wrote reads back what it wrote; any other stripe is read from memory
    /// as by a read-only transaction.
    pub fn load(&mut self, mem: &Memory, addr: usize) -> (r: Option<[u8; STRIPE_SIZE]>)
        requires
            old(self).wf(),
            mem.wf(),
            !old(self).aborted() ==> aligned(addr as int) && (old(self).writes().dom().contains(
                addr,
            ) || stripe_addr(addr as int)),
            old(self).read_version() < LOCK_BIT,
        ensures
            final(self).wf(),
            final(self).read_version() == old(self).read_version(),
            final(self).writes() == old(self).writes(),
            final(self).held() == old(self).held(),
            old(self).aborted() ==> r is None && *final(self) == *old(self),
            !old(self).aborted() ==> final(self).reads() == old(self).reads().insert(addr),
            !old(self).aborted() ==> if old(self).writes().dom().contains(addr) {
                &&& !final(self).aborted()
                &&& r == Some(old(self).writes()[addr])
            } else {
                let w = mem.words()[stripe_of(addr as int)];
                if !is_locked(w) && version_of(w) <= old(self).read_version() {
                    &&& !final(self).aborted()
                    &&& r matches Some(v) && v@ == stripe_bytes(mem.bytes(), addr as int)
                } else {
                    &&& final(self).aborted()
                    &&& r is None
                }
            },
    {
        broadcast use vstd::std_specs::hash::group_hash_axioms;
        if self.is_abort {
            return None;
        }
        self.read_set.insert(addr);
        if let Some(m) = self.write_set.get(&addr) {
            return Some(*m);
        }
        if !mem.test_not_modify(addr, self.read_ver) {
            self.is_abort = true;
            return None;
        }
        let buf = read_stripe(mem, addr);
        if !mem.test_not_modify(addr, self.read_ver) {
            self.is_abort = true;
            return None;
        }
        Some(buf)
    }
}

impl Memory {
    /// Writes `val` into the stripe at `addr`.
    fn write_stripe(&mut self, addr: usize, val: &[u8; STRIPE_SIZE])
        requires
            old(self).wf(),
            stripe_addr(addr as int),
        ensures
            final(self).wf(),
            final(self).words() == old(self).words(),
            final(self).clock() == old(self).clock(),
            final(self).bytes() == Seq::new(
                MEM_SIZE as nat,
                |b: int|
                    if addr <= b < addr + STRIPE_SIZE {
                        val@[b - addr]
                    } else {
                        old(self).bytes()[b]
                    },
            ),
    {
        let mut k: usize = 0;
        while k < STRIPE_SIZE
            invariant
                self.wf(),
                stripe_addr(addr as int),
                0 <= k <= STRIPE_SIZE,
                self.words() == old(self).words(),
                self.clock() == old(self).clock(),
                self.bytes() == Seq::new(
                    MEM_SIZE as nat,
                    |b: int|
                        if addr <= b < addr + k {
                            val@[b - addr]
                        } else {
                            old(self).bytes()[b]
                        },
                ),
            decreases STRIPE_SIZE - k,
        {
            self.mem.set(addr + k, val[k]);
            k = k + 1;
            assert(self.bytes() =~= Seq::new(
                MEM_SIZE as nat,
                |b: int|
                    if addr <= b < addr + k {
                        val@[b - addr]
                    } else {
                        old(self).bytes()[b]
                    },
            ));
        }
    }

    /// Stores the word `w` for the stripe that holds `addr`.
    fn set_word(&mut self, addr: usize, w: u64)
        requires
            old(self).wf(),
            addr < MEM_SIZE,
        ensures
            final(self).wf(),
            final(self).words() == old(self).words().update(stripe_of(addr as int), w),
            final(self).bytes() == old(self).bytes(),
            final(self).clock() == old(self).clock(),
    {
        proof {
            lemma_shift_stripe(addr, self.shift_size);
        }
        let idx = addr >> self.shift_size;
        self.lock_ver.set(idx, w);
    }
}

/// A stripe address is eight times its stripe, and starts no other stripe.
proof fn lemma_stripe_addr(a: usize)
    requires
        stripe_addr(a as int),
    ensures
        a == stripe_of(a as int) * STRIPE_SIZE,
        0 <= stripe_of(a as int) < NUM_STRIPES,
{
}

/// Locking one more stripe address updates just its stripe.
proof fn lemma_lock_all_insert(w: Seq<u64>, held: Set<usize>, a: usize)
    requires
        stripe_addr(a as int),
        w.len() == NUM_STRIPES,
        !covers(held, stripe_of(a as int)),
    ensures
        lock_all(w, held.insert(a)) == lock_all(w, held).update(
            stripe_of(a as int),
            (w[stripe_of(a as int)] + LOCK_BIT) as u64,
        ),
{
    lemma_stripe_addr(a);
    assert(lock_all(w, held.insert(a)) =~= lock_all(w, held).update(
        stripe_of(a as int),
        (w[stripe_of(a as int)] + LOCK_BIT) as u64,
    ));
}

impl WriteTrans {
    /// Locks the stripes of the write-set one by one, in the order in which
    /// the write-set is walked, recording each locked address. It stops with
    /// `false` at the first stripe that is already locked, and answers `true`
    /// when it has locked them all.
    fn lock_write_set(&mut self, mem: &mut Memory) -> (r: bool)
        requires
            old(self).wf_full(),
            old(self).held().len() == 0,
            old(mem).wf(),
        ensures
            final(self).wf_full(),
            final(self).writes() == old(self).writes(),
            final(self).reads() == old(self).reads(),
            final(self).read_version() == old(self).read_version(),
            final(self).aborted() == old(self).aborted(),
            final(mem).wf(),
            final(mem).bytes() == old(mem).bytes(),
            final(mem).clock() == old(mem).clock(),
            final(self).held().to_set().subset_of(old(self).writes().dom()),
            forall|i: int|
                0 <= i < final(self).held().len() ==> !is_locked(
                    old(mem).words()[stripe_of(#[trigger] final(self).held()[i] as int)],
                ),
            final(mem).words() == lock_all(old(mem).words(), final(self).held().to_set()),
            r == forall|a: usize| #[trigger]
                old(self).writes().dom().contains(a) ==> !is_locked(
                    old(mem).words()[stripe_of(a as int)],
                ),
            r ==> final(self).held().to_set() == old(self).writes().dom(),
    {
        broadcast use vstd::std_specs::hash::group_hash_axioms;
        let ghost ks = vstd::std_specs::iter::IteratorSpec::remaining(
            &vstd::std_specs::hash::spec_keys_iter(&self.write_set),
        ).unref();
        let ghost w0 = mem.words();
        let ghost dom = self.write_set@.dom();
        proof {
            assert(lock_all(w0, Set::empty()) =~= w0);
            assert(self.locked@.to_set() =~= Set::empty());
        }
        for addr in it: self.write_set.keys()
            invariant
                it.seq().unref() == ks,
                ks.to_set() == dom,
                ks.no_duplicates(),
                self.write_set@.dom() == dom,
                self.wf_full(),
                forall|a: usize| #[trigger] dom.contains(a) ==> stripe_addr(a as int),
                self.locked@ == ks.take(it.index()),
                self.writes() == old(self).writes(),
                self.reads() == old(self).reads(),
                self.read_version() == old(self).read_version(),
                self.aborted() == old(self).aborted(),
                mem.wf(),
                mem.bytes() == old(mem).bytes(),
                mem.clock() == old(mem).clock(),
                w0 == old(mem).words(),
                mem.words() == lock_all(w0, self.locked@.to_set()),
                forall|j: int|
                    0 <= j < it.index() ==> !is_locked(w0[stripe_of(#[trigger] ks[j] as int)]),
        {
            let ghost j = it.index();
            let ghost a = *addr;
            let ghost held = self.locked@.to_set();
            proof {
                assert(ks[j] == a);
                assert(dom.contains(a));
                lemma_stripe_addr(a);
                if covers(held, stripe_of(a as int)) {
                    assert(held.contains(a));
                    let k = choose|k: int| 0 <= k < j && self.locked@[k] == a;
                    assert(ks[k] == ks[j]);
                }
                assert(mem.words()[stripe_of(a as int)] == w0[stripe_of(a as int)]);
                lemma_lock_all_insert(w0, held, a);
            }
            if mem.lock_addr(*addr) {
                self.locked.push(*addr);
                proof {
                    assert(self.locked@ =~= ks.take(j + 1));
                    self.locked@.drop_last().lemma_push_to_set_commute(a);
                    assert(self.locked@.drop_last() =~= ks.take(j));
                    assert(self.locked@ == self.locked@.drop_last().push(a));
                }
            } else {
                proof {
                    assert(dom.contains(a));
                }
                return false;
            }
        }
        proof {
            assert(ks.take(ks.len() as int) =~= ks);
            assert forall|a: usize| #[trigger] dom.contains(a) implies !is_locked(
                w0[stripe_of(a as int)],
            ) by {
                assert(ks.to_set().contains(a));
                let k = choose|k: int| 0 <= k < ks.len() && ks[k] == a;
            }
        }
        true
    }
}

/// Giving one more stripe address the version `ver` updates just its stripe.
proof fn lemma_set_versions_insert(w: Seq<u64>, done: Set<usize>, a: usize, ver: u64)
    requires
        stripe_addr(a as int),
        w.len() == NUM_STRIPES,
    ensures
        set_versions(w, done.insert(a), ver) == set_versions(w, done, ver).update(
            stripe_of(a as int),
            ver,
        ),
{
    lemma_stripe_addr(a);
    assert(set_versions(w, done.insert(a), ver) =~= set_versions(w, done, ver).update(
        stripe_of(a as int),
        ver,
    ));
}

/// Unlocking one more stripe address updates just its stripe.
proof fn lemma_unlock_all_insert(w: Seq<u64>, done: Set<usize>, a: usize)
    requires
        stripe_addr(a as int),
        w.len() == NUM_STRIPES,
    ensures
        unlock_all(w, done.insert(a)) == unlock_all(w, done).update(
            stripe_of(a as int),
            version_of(unlock_all(w, done)[stripe_of(a as int)]),
        ),
{
    lemma_stripe_addr(a);
    let st = stripe_of(a as int);
    lemma_lock_bits(w[st]);
    lemma_lock_bits(version_of(w[st]));
    assert(unlock_all(w, done.insert(a)) =~= unlock_all(w, done).update(
        st,
        version_of(unlock_all(w, done)[st]),
    ));
}

/// Writing one more stripe of the write-set writes just that stripe.
proof fn lemma_apply_writes_insert(
    b0: Seq<u8>,
    ws: Map<usize, [u8; STRIPE_SIZE]>,
    done: Set<usize>,
    a: usize,
)
    requires
        stripe_addr(a as int),
        ws.dom().contains(a),
        b0.len() == MEM_SIZE,
    ensures
        apply_writes(b0, ws.restrict(done.insert(a))) == Seq::new(
            MEM_SIZE as nat,
            |b: int|
                if a <= b < a + STRIPE_SIZE {
                    ws[a]@[b - a]
                } else {
                    apply_writes(b0, ws.restrict(done))[b]
                },
        ),
{
    lemma_stripe_addr(a);
    let lhs = apply_writes(b0, ws.restrict(done.insert(a)));
    let rhs = Seq::new(
        MEM_SIZE as nat,
        |b: int|
            if a <= b < a + STRIPE_SIZE {
                ws[a]@[b - a]
            } else {
                apply_writes(b0, ws.restrict(done))[b]
            },
    );
    assert forall|b: int| 0 <= b < MEM_SIZE implies lhs[b] == rhs[b] by {
        if a <= b < a + STRIPE_SIZE {
            assert(stripe_start(b) == a);
            assert(b % 8 == b - a);
        } else {
            assert(stripe_start(b) != a);
        }
    }
    assert(lhs =~= rhs);
}

/// Locking the stripes one writes does not change whether a read is valid.
proof fn lemma_read_valid_locked(w: Seq<u64>, ws: Set<usize>, rv: u64, a: usize)
    requires
        w.len() == NUM_STRIPES,
        stripe_addr(a as int),
        forall|i: int| 0 <= i < NUM_STRIPES ==> !is_locked(#[trigger] w[i]),
    ensures
        read_valid(lock_all(w, ws), ws, rv, a) == read_valid(w, ws, rv, a),
{
    lemma_stripe_addr(a);
    let st = stripe_of(a as int);
    lemma_lock_bits(w[st]);
    lemma_lock_bits((w[st] + LOCK_BIT) as u64);
    if ws.contains(a) {
        assert(covers(ws, st));
    } else {
        assert(!covers(ws, st));
    }
}

impl WriteTrans {
    /// Checks the read-set against the memory: every address read must
    /// still be valid for the transaction's read-version.
    fn validate_read_set(&self, mem: &Memory) -> (r: bool)
        requires
            self.wf_full(),
            mem.wf(),
        ensures
            r == forall|a: usize| #[trigger]
                self.reads().contains(a) ==> read_valid(
                    mem.words(),
                    self.writes().dom(),
                    self.read_version(),
                    a,
                ),
    {
        broadcast use vstd::std_specs::hash::group_hash_axioms;
        let ghost ks = vstd::std_specs::iter::IteratorSpec::remaining(
            &vstd::std_specs::hash::spec_hash_keys_iter(&self.read_set),
        ).unref();
        for addr in it: self.read_set.iter()
            invariant
                it.seq().unref() == ks,
                ks.to_set() == self.read_set@,
                self.wf_full(),
                mem.wf(),
                forall|j: int|
                    0 <= j < it.index() ==> read_valid(
                        mem.words(),
                        self.writes().dom(),
                        self.read_version(),
                        #[trigger] ks[j],
                    ),
        {
            let ghost a = *addr;
            proof {
                assert(ks[it.index()] == a);
                assert(self.read_set@.contains(a));
            }
            if self.write_set.contains_key(addr) {
                let ver = mem.get_addr_ver(*addr);
                if ver > self.read_ver {
                    proof {
                        assert(!read_valid(mem.words(), self.writes().dom(), self.read_version(), a));
                        assert(self.reads().contains(a));
                    }
                    return false;
                }
            } else {
                if !mem.test_not_modify(*addr, self.read_ver) {
                    proof {
                        assert(!read_valid(mem.words(), self.writes().dom(), self.read_version(), a));
                        assert(self.reads().contains(a));
                    }
                    return false;
                }
            }
        }
        proof {
            assert forall|a: usize| #[trigger] self.reads().contains(a) implies read_valid(
                mem.words(),
                self.writes().dom(),
                self.read_version(),
                a,
            ) by {
                assert(ks.to_set().contains(a));
                let k = choose|k: int| 0 <= k < ks.len() && ks[k] == a;
            }
        }
        true
    }

    /// Writes every stripe of the write-set into the memory, then gives
    /// each written stripe the version `ver` (which also unlocks it), and
    /// forgets the locks.
    fn commit(&mut self, mem: &mut Memory, ver: u64)
        requires
            old(self).wf_full(),
            old(mem).wf(),
        ensures
            final(self).wf_full(),
            final(self).held() == Seq::<usize>::empty(),
            final(self).writes() == old(self).writes(),
            final(self).reads() == old(self).reads(),
            final(self).read_version() == old(self).read_version(),
            final(self).aborted() == old(self).aborted(),
            final(mem).wf(),
            final(mem).bytes() == apply_writes(old(mem).bytes(), old(self).writes()),
            final(mem).words() == set_versions(old(mem).words(), old(self).writes().dom(), ver),
            final(mem).clock() == old(mem).clock(),
    {
        broadcast use vstd::std_specs::hash::group_hash_axioms;
        let ghost ks = vstd::std_specs::iter::IteratorSpec::remaining(
            &vstd::std_specs::hash::spec_keys_iter(&self.write_set),
        ).unref();
        let ghost ws = self.write_set@;
        let ghost b0 = mem.bytes();
        let ghost w0 = mem.words();
        proof {
            assert(apply_writes(b0, ws.restrict(Set::empty())) =~= b0);
            assert(ks.take(0).to_set() =~= Set::empty());
        }
        for addr in it: self.write_set.keys()
            invariant
                it.seq().unref() == ks,
                ks.to_set() == ws.dom(),
                self.write_set@ == ws,
                self.wf_full(),
                mem.wf(),
                mem.words() == w0,
                mem.clock() == old(mem).clock(),
                b0 == old(mem).bytes(),
                mem.bytes() == apply_writes(b0, ws.restrict(ks.take(it.index()).to_set())),
        {
            let ghost j = it.index();
            let ghost a = *addr;
            proof {
                assert(ks[j] == a);
                assert(ws.dom().contains(a));
                lemma_apply_writes_insert(b0, ws, ks.take(j).to_set(), a);
                ks.take(j).lemma_push_to_set_commute(a);
                assert(ks.take(j + 1) =~= ks.take(j).push(a));
            }
            match self.write_set.get(addr) {
                Some(val) => {
                    mem.write_stripe(*addr, val);
                },
                None => {},
            }
        }
        proof {
            assert(ks.take(ks.len() as int) =~= ks);
            assert(ws.restrict(ws.dom()) =~= ws);
            assert(set_versions(w0, Set::empty(), ver) =~= w0);
        }
        for addr in it: self.write_set.keys()
            invariant
                it.seq().unref() == ks,
                ks.to_set() == ws.dom(),
                self.write_set@ == ws,
                self.wf_full(),
                mem.wf(),
                mem.bytes() == apply_writes(b0, ws),
                mem.clock() == old(mem).clock(),
                w0 == old(mem).words(),
                mem.words() == set_versions(w0, ks.take(it.index()).to_set(), ver),
        {
            let ghost j = it.index();
            let ghost a = *addr;
            proof {
                assert(ks[j] == a);
                assert(ws.dom().contains(a));
                lemma_set_versions_insert(w0, ks.take(j).to_set(), a, ver);
                ks.take(j).lemma_push_to_set_commute(a);
                assert(ks.take(j + 1) =~= ks.take(j).push(a));
            }
            mem.set_word(*addr, ver);
        }
        proof {
            assert(ks.take(ks.len() as int) =~= ks);
        }
        self.locked.clear();
    }

    /// Unlocks every stripe the transaction holds locked; this ends a
    /// transaction that does not commit.
    fn release_locks(self, mem: &mut Memory)
        requires
            self.wf_full(),
            old(mem).wf(),
        ensures
            final(mem).wf(),
            final(mem).words() == unlock_all(old(mem).words(), self.held().to_set()),
            final(mem).bytes() == old(mem).bytes(),
            final(mem).clock() == old(mem).clock(),
    {
        let ghost w0 = mem.words();
        let ghost hs = self.locked@;
        proof {
            assert(unlock_all(w0, Set::empty()) =~= w0);
            assert(hs.take(0).to_set() =~= Set::empty());
        }
        let mut i: usize = 0;
        while i < self.locked.len()
            invariant
                self.wf_full(),
                hs == self.locked@,
                0 <= i <= hs.len(),
                mem.wf(),
                mem.bytes() == old(mem).bytes(),
                mem.clock() == old(mem).clock(),
                w0 == old(mem).words(),
                mem.words() == unlock_all(w0, hs.take(i as int).to_set()),
            decreases hs.len() - i,
        {
            let ghost a = hs[i as int];
            proof {
                assert(self.write_set@.dom().contains(a));
                lemma_unlock_all_insert(w0, hs.take(i as int).to_set(), a);
                hs.take(i as int).lemma_push_to_set_commute(a);
                assert(hs.take(i + 1) =~= hs.take(i as int).push(a));
            }
            mem.unlock_addr(self.locked[i]);
            i = i + 1;
        }
        proof {
            assert(hs.take(hs.len() as int) =~= hs);
        }
    }
}

/// What a transaction's body returns.
pub enum STMResult<T> {
    /// The body finished with a value.
    Done(T),
    /// The body asks to run again (a read failed).
    Retry,
    /// The body gives up.
    Abort,
}

/// What is to be done after a transaction's body has run.
pub enum Settle<T> {
    /// The transaction ends with this result.
    Finish(Option<T>),
    /// The transaction starts over.
    Restart,
    /// The body's value is kept; a read-write transaction goes on to commit.
    Proceed(T),
}

/// Decides what follows a transaction's body from what it returned and
/// whether the transaction saw a conflict: a body that gives up ends the
/// transaction with nothing; a conflict restarts it; a retry without a
/// conflict ends it with nothing; a value without a conflict is kept.
pub fn settle<T>(result: STMResult<T>, aborted: bool) -> (r: Settle<T>)
    ensures
        result is Abort ==> r is Finish && r->Finish_0 is None,
        result is Retry ==> if aborted {
            r is Restart
        } else {
            r is Finish && r->Finish_0 is None
        },
        result is Done ==> if aborted {
            r is Restart
        } else {
            r == Settle::Proceed(result->Done_0)
        },
{
    match result {
        STMResult::Abort => Settle::Finish(None),
        STMResult::Retry => {
            if aborted {
                Settle::Restart
            } else {
                Settle::Finish(None)
            }
        },
        STMResult::Done(val) => {
            if aborted {
                Settle::Restart
            } else {
                Settle::Proceed(val)
            }
        },
    }
}

/// A read-only transaction as `STM::read_transaction` hands it to its body:
/// just begun on the well-formed memory `m`, whose clock is its
/// read-version, with no conflict yet.
pub open spec fn fresh_read(tr: ReadTrans, m: Memory) -> bool {
    &&& m.wf()
    &&& m.clock() < LOCK_BIT
    &&& tr.read_version() == m.clock()
    &&& !tr.aborted()
}

/// A read-write transaction as `STM::write_transaction` hands it to its
/// body: just begun on the well-formed memory `m`, whose clock is its
/// read-version, with nothing read, written or locked, and no conflict.
pub open spec fn fresh_write(tr: WriteTrans, m: Memory) -> bool {
    &&& m.wf()
    &&& m.clock() < LOCK_BIT
    &&& tr.wf()
    &&& tr.read_version() == m.clock()
    &&& tr.reads() == Set::<usize>::empty()
    &&& tr.writes() == Map::<usize, [u8; STRIPE_SIZE]>::empty()
    &&& tr.held().len() == 0
    &&& !tr.aborted()
}

/// The body `f` of a read-only transaction can give the value `v` on
/// `mem`: run on a fresh transaction it returns `v` with the transaction
/// still free of conflicts.
pub open spec fn body_gave<F: Fn(ReadTrans, &Memory) -> (ReadTrans, STMResult<R>), R>(
    f: F,
    mem: Memory,
    v: R,
) -> bool {
    exists|tr0: ReadTrans, tr1: ReadTrans|
        #[trigger] f.ensures((tr0, &mem), (tr1, STMResult::Done(v))) && fresh_read(tr0, mem)
            && !tr1.aborted()
}

/// Every run of the body `f` of a read-only transaction on a fresh
/// transaction on `mem` finishes with a value and without a conflict.
pub open spec fn read_done_on<F: Fn(ReadTrans, &Memory) -> (ReadTrans, STMResult<R>), R>(
    f: F,
    mem: Memory,
) -> bool {
    forall|tr: ReadTrans, out: (ReadTrans, STMResult<R>)|
        #[trigger] f.ensures((tr, &mem), out) && fresh_read(tr, mem) ==> out.1 is Done
            && !out.0.aborted()
}

/// The body `f` of a read-write transaction can finish on `mem` with the
/// value `v` without a conflict, and committing what it wrote turns the
/// bytes of `mem` into `bytes` and its words into `words`: every stripe it
/// wrote gets the version one past the clock, every other stripe keeps its
/// word.
pub open spec fn write_body_gave<F: Fn(WriteTrans, &Memory) -> (WriteTrans, STMResult<R>), R>(
    f: F,
    mem: Memory,
    v: R,
    bytes: Seq<u8>,
    words: Seq<u64>,
) -> bool {
    exists|tr0: WriteTrans, tr1: WriteTrans|
        #[trigger] f.ensures((tr0, &mem), (tr1, STMResult::Done(v))) && fresh_write(tr0, mem)
            && !tr1.aborted() && bytes == apply_writes(mem.bytes(), tr1.writes()) && words.len()
            == NUM_STRIPES && forall|i: int|
            0 <= i < NUM_STRIPES ==> #[trigger] words[i] == if tr1.writes().dom().contains(
                (i * STRIPE_SIZE) as usize,
            ) {
                (mem.clock() + 1) as u64
            } else {
                mem.words()[i]
            }
}

/// Every run of the body `f` of a read-write transaction on a fresh
/// transaction on `mem` finishes with a value and without a conflict.
pub open spec fn write_done_on<F: Fn(WriteTrans, &Memory) -> (WriteTrans, STMResult<R>), R>(
    f: F,
    mem: Memory,
) -> bool {
    forall|tr: WriteTrans, out: (WriteTrans, STMResult<R>)|
        #[trigger] f.ensures((tr, &mem), out) && fresh_write(tr, mem) ==> out.1 is Done
            && !out.0.aborted()
}

/// The body `f` of a read-write transaction can run on every fresh
/// transaction, and hands back one that can commit: well formed, holding no
/// locks, with the same read-version, and writing only inside the memory.
pub open spec fn write_body_ok<F: Fn(WriteTrans, &Memory) -> (WriteTrans, STMResult<R>), R>(
    f: F,
) -> bool {
    &&& forall|tr: WriteTrans, m: &Memory| fresh_write(tr, *m) ==> #[trigger] f.requires((tr, m))
    &&& forall|tr: WriteTrans, m: &Memory, out: (WriteTrans, STMResult<R>)|
        #[trigger] f.ensures((tr, m), out) && fresh_write(tr, *m) ==> {
            &&& out.0.wf()
            &&& out.0.in_memory()
            &&& out.0.held().len() == 0
            &&& out.0.read_version() == tr.read_version()
        }
}

/// A software transactional memory after TL2: a memory of versioned stripes
/// on which read-only and read-write transactions run.
pub struct STM {
    mem: Memory,
}

impl STM {
    /// The memory.
    pub closed spec fn memory(&self) -> Memory {
        self.mem
    }

    /// A transactional memory over a zeroed memory.
    pub fn new() -> (r: Self)
        ensures
            r.memory().quiescent(),
            r.memory().bytes() == Seq::new(MEM_SIZE as nat, |i: int| 0u8),
            r.memory().words() == Seq::new(NUM_STRIPES as nat, |i: int| 0u64),
            r.memory().clock() == 0,
    {
        STM { mem: Memory::new() }
    }

    /// The memory, for transactions to read.
    pub fn mem(&self) -> (r: &Memory)
        ensures
            *r == self.memory(),
    {
        &self.mem
    }

    /// Begins a read-only transaction.
    pub fn begin_read(&self) -> (r: ReadTrans)
        ensures
            r.read_version() == self.memory().clock(),
            !r.aborted(),
    {
        ReadTrans::new(&self.mem)
    }

    /// Begins a read-write transaction.
    pub fn begin_write(&self) -> (r: WriteTrans)
        ensures
            r.wf(),
            r.read_version() == self.memory().clock(),
            r.reads() == Set::<usize>::empty(),
            r.writes() == Map::<usize, [u8; STRIPE_SIZE]>::empty(),
            r.held() == Seq::<usize>::empty(),
            !r.aborted(),
    {
        WriteTrans::new(&self.mem)
    }

    /// Runs a read-only transaction: its body gets a new transaction and the
    /// memory, and hands the transaction back with its result. A body that
    /// gives up ends the transaction with `None`; a conflict runs the body
    /// again; a retry without a conflict ends with `None`; a value without a
    /// conflict is the answer. (After `u64::MAX` restarts it gives up with
    /// `None`.)
    pub fn read_transaction<F, R>(&self, f: F) -> (r: Option<R>) where
        F: Fn(ReadTrans, &Memory) -> (ReadTrans, STMResult<R>),

        requires
            self.memory().quiescent(),
            forall|tr: ReadTrans, m: &Memory| fresh_read(tr, *m) ==> #[trigger] f.requires((tr, m)),
        ensures
            r matches Some(v) ==> body_gave(f, self.memory(), v),
            read_done_on(f, self.memory()) ==> r is Some,
    {
        let mut attempts: u64 = 0;
        while attempts < u64::MAX
            invariant
                self.memory().quiescent(),
                forall|tr: ReadTrans, m: &Memory| fresh_read(tr, *m) ==> #[trigger] f.requires(
                    (tr, m),
                ),
                read_done_on(f, self.memory()) ==> attempts == 0,
            decreases u64::MAX - attempts,
        {
            let tr0 = self.begin_read();
            assert(fresh_read(tr0, self.memory()));
            let (tr1, res) = f(tr0, &self.mem);
            let aborted = tr1.is_abort();
            match settle(res, aborted) {
                Settle::Finish(v) => {
                    return v;
                },
                Settle::Proceed(v) => {
                    assert(f.ensures((tr0, &self.memory()), (tr1, STMResult::Done(v))));
                    return Some(v);
                },
                Settle::Restart => {},
            }
            attempts = attempts + 1;
        }
        None
    }

    /// Runs a read-write transaction on a memory held alone: its body gets a
    /// new transaction and the memory, and hands the transaction back with
    /// its result. A body that gives up, or asks for a retry without a
    /// conflict, ends the transaction with `None` and nothing written; a
    /// conflict runs the body again; a value without a conflict is
    /// committed, and is the answer. (After `u64::MAX` restarts it gives up
    /// with `None`.)
    pub fn write_transaction<F, R>(&mut self, f: F) -> (r: Option<R>) where
        F: Fn(WriteTrans, &Memory) -> (WriteTrans, STMResult<R>),

        requires
            old(self).memory().quiescent(),
            old(self).memory().clock() + 1 < LOCK_BIT,
            write_body_ok(f),
        ensures
            final(self).memory().quiescent(),
            r matches Some(v) ==> write_body_gave(
                f,
                old(self).memory(),
                v,
                final(self).memory().bytes(),
                final(self).memory().words(),
            )
                && final(self).memory().clock() == old(self).memory().clock() + 1,
            r is None ==> final(self).memory() == old(self).memory(),
            write_done_on(f, old(self).memory()) ==> r is Some,
    {
        let mut attempts: u64 = 0;
        while attempts < u64::MAX
            invariant
                self.memory() == old(self).memory(),
                self.memory().quiescent(),
                self.memory().clock() + 1 < LOCK_BIT,
                write_body_ok(f),
                write_done_on(f, old(self).memory()) ==> attempts == 0,
            decreases u64::MAX - attempts,
        {
            let tr0 = self.begin_write();
            let ghost m = self.memory();
            assert(fresh_write(tr0, m));
            let (tr1, res) = f(tr0, &self.mem);
            let aborted = tr1.is_abort();
            match settle(res, aborted) {
                Settle::Finish(v) => {
                    return v;
                },
                Settle::Proceed(v) => {
                    assert(f.ensures((tr0, &m), (tr1, STMResult::Done(v))));
                    let ghost ws = tr1.writes();
                    let ok = self.write_commit(tr1);
                    assert(ok);
                    assert(write_body_gave(f, m, v, self.memory().bytes(), self.memory().words()));
                    return Some(v);
                },
                Settle::Restart => {},
            }
            attempts = attempts + 1;
        }
        None
    }

    /// Tries to commit a read-write transaction whose body has run without
    /// conflict: locks its write-set, advances the global clock to the
    /// commit version, validates its read-set (unless no transaction
    /// committed since it began), then writes its stripes with the new
    /// version. When a step fails the locks are released, nothing is
    /// written, and `false` tells the caller to run the transaction again.
    /// Every stripe it writes must lie inside the memory, whose lock words
    /// it indexes.
    pub fn write_commit(&mut self, tr: WriteTrans) -> (r: bool)
        requires
            old(self).memory().quiescent(),
            old(self).memory().clock() + 1 < LOCK_BIT,
            tr.wf(),
            tr.in_memory(),
            tr.held().len() == 0,
            tr.read_version() <= old(self).memory().clock(),
        ensures
            final(self).memory().quiescent(),
            final(self).memory().clock() == old(self).memory().clock() + 1,
            r == (tr.read_version() == old(self).memory().clock() || forall|a: usize| #[trigger]
                tr.reads().contains(a) ==> read_valid(
                    old(self).memory().words(),
                    tr.writes().dom(),
                    tr.read_version(),
                    a,
                )),
            r == (tr.read_version() == old(self).memory().clock() || forall|a: usize| #[trigger]
                tr.reads().contains(a) ==> old(self).memory().words()[stripe_of(a as int)]
                    <= tr.read_version()),
            r ==> final(self).memory().bytes() == apply_writes(
                old(self).memory().bytes(),
                tr.writes(),
            ),
            r ==> final(self).memory().words() == set_versions(
                old(self).memory().words(),
                tr.writes().dom(),
                (old(self).memory().clock() + 1) as u64,
            ),
            !r ==> final(self).memory().bytes() == old(self).memory().bytes(),
            !r ==> final(self).memory().words() == old(self).memory().words(),
    {
        proof {
            tr.lemma_wf_full();
            assert forall|a: usize| #[trigger] tr.reads().contains(a) implies read_valid(
                self.memory().words(),
                tr.writes().dom(),
                tr.read_version(),
                a,
            ) == (self.memory().words()[stripe_of(a as int)] <= tr.read_version()) by {
                lemma_stripe_addr(a);
                law_read_valid_checks_versions(
                    self.memory().words(),
                    tr.writes().dom(),
                    tr.read_version(),
                    a,
                );
            }
        }
        let ghost m0 = self.mem;
        let ghost tr0 = tr;
        let mut tr = tr;
        let locked_all = tr.lock_write_set(&mut self.mem);
        proof {
            assert forall|a: usize| #[trigger] tr0.writes().dom().contains(a) implies !is_locked(
                m0.words()[stripe_of(a as int)],
            ) by {
                lemma_stripe_addr(a);
            }
        }
        if !locked_all {
            tr.release_locks(&mut self.mem);
            return false;
        }
        let ver = 1 + self.mem.inc_global_clock();
        proof {
            let w = m0.words();
            let ws = tr0.writes().dom();
            assert(self.mem.words() == lock_all(w, ws));
            assert forall|a: usize| #[trigger] tr0.reads().contains(a) implies read_valid(
                self.mem.words(),
                ws,
                tr0.read_version(),
                a,
            ) == read_valid(w, ws, tr0.read_version(), a) by {
                lemma_read_valid_locked(w, ws, tr0.read_version(), a);
            }
        }
        if tr.read_ver + 1 != ver && !tr.validate_read_set(&self.mem) {
            proof {
                let w = m0.words();
                let ws = tr0.writes().dom();
                assert forall|i: int| 0 <= i < NUM_STRIPES implies #[trigger] unlock_all(
                    lock_all(w, ws),
                    ws,
                )[i] == w[i] by {
                    lemma_lock_bits(w[i]);
                    lemma_lock_bits((w[i] + LOCK_BIT) as u64);
                }
                assert(unlock_all(lock_all(w, ws), ws) =~= w);
            }
            tr.release_locks(&mut self.mem);
            return false;
        }
        tr.commit(&mut self.mem, ver);
        proof {
            let w = m0.words();
            let ws = tr0.writes().dom();
            assert(set_versions(lock_all(w, ws), ws, ver) =~= set_versions(w, ws, ver));
            assert forall|i: int| 0 <= i < NUM_STRIPES implies !is_locked(
                #[trigger] self.mem.words()[i],
            ) && self.mem.words()[i] <= self.mem.clock() by {
                assert(!is_locked(w[i]));
                assert(w[i] <= m0.clock());
            }
        }
        true
    }
}

/// Law: within a read-write transaction, a read of a stripe the
/// transaction has written gives back what it wrote.
pub proof fn law_read_own_write(ws: Map<usize, [u8; STRIPE_SIZE]>, addr: usize, val: [u8; STRIPE_SIZE])
    ensures
        ws.insert(addr, val).dom().contains(addr),
        ws.insert(addr, val)[addr] == val,
{
}

/// Law: what a committed transaction wrote is what a later read gives
/// back. After a commit with version `ver`, every written stripe holds the
/// written bytes and is unlocked with version `ver`, so a transaction that
/// begins afterwards (read-version `ver`) reads exactly those bytes.
pub proof fn law_read_after_commit(
    bytes: Seq<u8>,
    words: Seq<u64>,
    ws: Map<usize, [u8; STRIPE_SIZE]>,
    ver: u64,
    addr: usize,
)
    requires
        bytes.len() == MEM_SIZE,
        words.len() == NUM_STRIPES,
        ver < LOCK_BIT,
        ws.dom().contains(addr),
        stripe_addr(addr as int),
    ensures
        stripe_bytes(apply_writes(bytes, ws), addr as int) == ws[addr]@,
        !is_locked(set_versions(words, ws.dom(), ver)[stripe_of(addr as int)]),
        version_of(set_versions(words, ws.dom(), ver)[stripe_of(addr as int)]) <= ver,
{
    lemma_stripe_addr(addr);
    lemma_lock_bits(ver);
    let got = stripe_bytes(apply_writes(bytes, ws), addr as int);
    assert forall|k: int| 0 <= k < STRIPE_SIZE implies got[k] == ws[addr]@[k] by {
        assert(stripe_start(addr + k) == addr);
        assert((addr + k) % 8 == k);
    }
    assert(got =~= ws[addr]@);
    assert(covers(ws.dom(), stripe_of(addr as int)));
}

/// Law: a committed read-write transaction read a consistent snapshot.
/// When its commit succeeds, no stripe it read had been written by another
/// transaction after it began: each such stripe's version is at most the
/// transaction's read-version.
pub proof fn law_committed_reads_current(
    words: Seq<u64>,
    clock: u64,
    reads: Set<usize>,
    ws: Set<usize>,
    rv: u64,
)
    requires
        words.len() == NUM_STRIPES,
        forall|i: int| 0 <= i < NUM_STRIPES ==> #[trigger] words[i] <= clock,
        forall|a: usize| #[trigger] reads.contains(a) ==> stripe_addr(a as int),
        rv <= clock,
        rv == clock || forall|a: usize| #[trigger]
            reads.contains(a) ==> read_valid(words, ws, rv, a),
    ensures
        forall|a: usize| #[trigger]
            reads.contains(a) ==> version_of(words[stripe_of(a as int)]) <= rv,
{
    assert forall|a: usize| #[trigger] reads.contains(a) implies version_of(
        words[stripe_of(a as int)],
    ) <= rv by {
        lemma_stripe_addr(a);
        lemma_lock_bits(words[stripe_of(a as int)]);
        if rv != clock {
            assert(read_valid(words, ws, rv, a));
        }
    }
}

/// The bytes after the commits `hs`, in order; each commit writes its
/// write-set (a failed commit writes the empty map).
pub open spec fn history_bytes(b: Seq<u8>, hs: Seq<Map<usize, [u8; STRIPE_SIZE]>>) -> Seq<u8>
    decreases hs.len(),
{
    if hs.len() == 0 {
        b
    } else {
        history_bytes(apply_writes(b, hs[0]), hs.drop_first())
    }
}

/// The lock-and-version words after the commits `hs`, in order: the first
/// gives its written stripes the version `ver`, each later one the next
/// version.
pub open spec fn history_words(
    w: Seq<u64>,
    hs: Seq<Map<usize, [u8; STRIPE_SIZE]>>,
    ver: int,
) -> Seq<u64>
    decreases hs.len(),
{
    if hs.len() == 0 {
        w
    } else {
        history_words(set_versions(w, hs[0].dom(), ver as u64), hs.drop_first(), ver + 1)
    }
}

/// One commit leaves the bytes of a stripe it does not write as they were.
proof fn lemma_commit_keeps_unwritten(b: Seq<u8>, ws: Map<usize, [u8; STRIPE_SIZE]>, a: usize)
    requires
        b.len() == MEM_SIZE,
        stripe_addr(a as int),
        !ws.dom().contains(a),
    ensures
        stripe_bytes(apply_writes(b, ws), a as int) == stripe_bytes(b, a as int),
{
    lemma_stripe_addr(a);
    let x = stripe_bytes(apply_writes(b, ws), a as int);
    let y = stripe_bytes(b, a as int);
    assert forall|k: int| 0 <= k < STRIPE_SIZE implies x[k] == y[k] by {
        assert(stripe_start(a + k) == a);
    }
    assert(x =~= y);
}

/// A stripe word above `c0` stays above it under commits whose versions
/// are above `c0`.
proof fn lemma_words_stay_above(
    w: Seq<u64>,
    hs: Seq<Map<usize, [u8; STRIPE_SIZE]>>,
    ver: int,
    c0: int,
    i: int,
)
    requires
        w.len() == NUM_STRIPES,
        0 <= i < NUM_STRIPES,
        w[i] > c0,
        c0 < ver,
        ver + hs.len() <= LOCK_BIT,
    ensures
        history_words(w, hs, ver)[i] > c0,
    decreases hs.len(),
{
    if hs.len() > 0 {
        lemma_words_stay_above(set_versions(w, hs[0].dom(), ver as u64), hs.drop_first(), ver + 1, c0, i);
    }
}

/// Law: what a transaction read is what it would read at its commit.
/// Take the memory when a transaction begins (bytes `b`, words `w`, all at
/// most its read-version `c0`, which is the clock then), and any sequence of
/// commits `hs` by other transactions after it, with versions `c0 + 1`,
/// `c0 + 2`, and so on (a failed commit counts as writing nothing). A stripe
/// whose word is still at most `c0` afterwards was written by none of them,
/// so it holds the bytes it held when the transaction began.
///
/// A load succeeds only when the stripe's word is at most the read-version,
/// and a commit succeeds only when every stripe read still has such a word
/// (`write_commit`). So every stripe a committed transaction read held, at
/// each load and at its commit, the bytes it held when the transaction
/// began; with its writes applied at once by the commit (`apply_writes`),
/// the transaction behaves as if it ran alone at its commit point, in the
/// order of the commits: the transactions are serializable.
pub proof fn law_unwritten_stripes_keep_bytes(
    b: Seq<u8>,
    w: Seq<u64>,
    c0: int,
    hs: Seq<Map<usize, [u8; STRIPE_SIZE]>>,
    a: usize,
)
    requires
        b.len() == MEM_SIZE,
        w.len() == NUM_STRIPES,
        stripe_addr(a as int),
        0 <= c0,
        c0 + 1 + hs.len() <= LOCK_BIT,
        w[stripe_of(a as int)] <= c0,
        history_words(w, hs, c0 + 1)[stripe_of(a as int)] <= c0,
    ensures
        stripe_bytes(history_bytes(b, hs), a as int) == stripe_bytes(b, a as int),
{
    lemma_keep_bytes_from(b, w, c0, c0 + 1, hs, a);
}

/// The induction behind the law, from any version above `c0`.
proof fn lemma_keep_bytes_from(
    b: Seq<u8>,
    w: Seq<u64>,
    c0: int,
    ver: int,
    hs: Seq<Map<usize, [u8; STRIPE_SIZE]>>,
    a: usize,
)
    requires
        b.len() == MEM_SIZE,
        w.len() == NUM_STRIPES,
        stripe_addr(a as int),
        0 <= c0 < ver,
        ver + hs.len() <= LOCK_BIT,
        w[stripe_of(a as int)] <= c0,
        history_words(w, hs, ver)[stripe_of(a as int)] <= c0,
    ensures
        stripe_bytes(history_bytes(b, hs), a as int) == stripe_bytes(b, a as int),
    decreases hs.len(),
{
    if hs.len() > 0 {
        lemma_stripe_addr(a);
        let i = stripe_of(a as int);
        let w1 = set_versions(w, hs[0].dom(), ver as u64);
        if hs[0].dom().contains(a) {
            assert(covers(hs[0].dom(), i));
            assert(w1[i] == ver);
            lemma_words_stay_above(w1, hs.drop_first(), ver + 1, c0, i);
            assert(false);
        } else {
            assert(!covers(hs[0].dom(), i));
            lemma_commit_keeps_unwritten(b, hs[0], a);
            lemma_keep_bytes_from(apply_writes(b, hs[0]), w1, c0, ver + 1, hs.drop_first(), a);
        }
    }
}

/// Law: a commit that fails changes neither bytes nor words, as a commit
/// that writes nothing.
pub proof fn law_failed_commit_writes_nothing(b: Seq<u8>, w: Seq<u64>, ver: u64)
    ensures
        apply_writes(b, Map::<usize, [u8; STRIPE_SIZE]>::empty()) == b,
        set_versions(w, Set::<usize>::empty(), ver) == w,
{
    assert(apply_writes(b, Map::<usize, [u8; STRIPE_SIZE]>::empty()) =~= b);
    assert(set_versions(w, Set::<usize>::empty(), ver) =~= w);
}

/// Law: a commit outdates older readers of what it wrote. After a commit at
/// the clock `clock` (each written stripe gets the version `clock + 1`,
/// every other stripe keeps its word, as `write_transaction` and
/// `write_commit` leave them), a transaction whose read-version is at most
/// `clock` finds every written stripe too new: its load of such a stripe
/// aborts. Stripes not written keep their word, so such a transaction reads
/// them as before.
pub proof fn law_commit_outdates_older_reads(
    old_words: Seq<u64>,
    new_words: Seq<u64>,
    ws: Set<usize>,
    clock: u64,
    rv: u64,
    a: usize,
)
    requires
        old_words.len() == NUM_STRIPES,
        new_words.len() == NUM_STRIPES,
        forall|i: int|
            0 <= i < NUM_STRIPES ==> #[trigger] new_words[i] == if ws.contains(
                (i * STRIPE_SIZE) as usize,
            ) {
                (clock + 1) as u64
            } else {
                old_words[i]
            },
        clock + 1 < LOCK_BIT,
        rv <= clock,
        stripe_addr(a as int),
    ensures
        ws.contains(a) ==> !(!is_locked(new_words[stripe_of(a as int)]) && version_of(
            new_words[stripe_of(a as int)],
        ) <= rv),
        !ws.contains(a) ==> new_words[stripe_of(a as int)] == old_words[stripe_of(a as int)],
{
    lemma_stripe_addr(a);
    let i = stripe_of(a as int);
    assert((i * STRIPE_SIZE) as usize == a);
    lemma_lock_bits(new_words[i]);
}

} // verus!
