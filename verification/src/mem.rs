use vstd::prelude::*;
use vstd::arithmetic::power2::{pow2, lemma_pow2_unfold};
use vstd::bits::{lemma_u64_shl_is_mul, lemma_u64_pow2_no_overflow};
use crate::exec::Cycles;

verus! {

// ----------------------------------------------------------------------------
// The model: replacement order, sets, caches and memory as mathematical values
// ----------------------------------------------------------------------------

/// `order` lists each way `0..n` exactly once (least recently used first).
pub open spec fn is_order(order: Seq<usize>, n: nat) -> bool {
    &&& order.len() == n
    &&& order.no_duplicates()
    &&& forall|i: int| 0 <= i < order.len() ==> (#[trigger] order[i] as nat) < n
    &&& forall|w: usize| (w as nat) < n ==> #[trigger] order.contains(w)
}

/// The first index at which `s` holds `x` (meaningful where it holds `x`).
pub open spec fn first_index<T>(s: Seq<T>, x: T) -> int {
    choose|i: int| 0 <= i < s.len() && s[i] == x && forall|j: int| 0 <= j < i ==> s[j] != x
}

/// `s` holds `x` first at `i`, so `first_index` is `i`.
pub proof fn lemma_first_index<T>(s: Seq<T>, x: T, i: int)
    requires
        0 <= i < s.len(),
        s[i] == x,
        forall|j: int| 0 <= j < i ==> s[j] != x,
    ensures
        first_index(s, x) == i,
{
    let k = first_index(s, x);
    assert(0 <= k < s.len() && s[k] == x && forall|j: int| 0 <= j < k ==> s[j] != x);
    if k < i {
        assert(s[k] != x);
    }
    if i < k {
        assert(s[i] != x);
    }
}

/// `order` with `way` moved to the most recently used end.
pub open spec fn touch(order: Seq<usize>, way: usize) -> Seq<usize> {
    order.remove(first_index(order, way)).push(way)
}

/// No tag is held by two ways.
pub open spec fn distinct_tags(ways: Seq<Option<u32>>) -> bool {
    forall|i: int, j: int|
        0 <= i < ways.len() && 0 <= j < ways.len() && (#[trigger] ways[i]) is Some && ways[i]
            == #[trigger] ways[j] ==> i == j
}

/// One set of a set-associative cache: the tag held by each way, and the ways
/// in order of last use.
#[verifier::ext_equal]
pub struct SetModel {
    pub lru: Seq<usize>,
    pub ways: Seq<Option<u32>>,
}

impl SetModel {
    /// A set of `assoc` empty ways, in order of their index.
    pub open spec fn empty(assoc: nat) -> SetModel {
        SetModel { lru: Seq::new(assoc, |i: int| i as usize), ways: Seq::new(assoc, |i: int| None) }
    }

    pub open spec fn wf(self) -> bool {
        &&& is_order(self.lru, self.ways.len())
        &&& distinct_tags(self.ways)
    }

    pub open spec fn holds(self, tag: u32) -> bool {
        self.ways.contains(Some(tag))
    }

    /// Looks `tag` up. A hit makes its way the most recently used; a miss puts
    /// the tag in the least recently used way and leaves the order as it was.
    pub open spec fn access(self, tag: u32) -> (SetModel, bool) {
        if self.holds(tag) {
            (
                SetModel {
                    lru: touch(self.lru, first_index(self.ways, Some(tag)) as usize),
                    ways: self.ways,
                },
                true,
            )
        } else {
            (SetModel { lru: self.lru, ways: self.ways.update(self.lru[0] as int, Some(tag)) }, false)
        }
    }
}

/// The low `set_bits` bits set, for `1 <= set_bits <= 32`.
pub open spec fn set_mask(set_bits: u32) -> u32 {
    0xFFFF_FFFFu32 >> ((32 - set_bits) as u32)
}

/// A set-associative cache that tracks tags only.
#[verifier::ext_equal]
pub struct CacheModel {
    pub line_bits: u32,
    pub set_bits: u32,
    pub sets: Seq<SetModel>,
}

impl CacheModel {
    /// `num_sets` empty sets of `assoc` ways.
    pub open spec fn fresh(num_sets: nat, assoc: nat, line_bits: u32, set_bits: u32) -> CacheModel {
        CacheModel {
            line_bits,
            set_bits,
            sets: Seq::new(num_sets, |i: int| SetModel::empty(assoc)),
        }
    }

    pub open spec fn wf(self) -> bool {
        &&& pow2(self.set_bits as nat) <= self.sets.len()
        &&& forall|i: int| 0 <= i < self.sets.len() ==> (#[trigger] self.sets[i]).wf()
    }

    /// The index and tag of an address can be computed without a shift
    /// overflowing, and every set has a way to replace.
    pub open spec fn can_access(self) -> bool {
        &&& 1 <= self.set_bits
        &&& self.line_bits + self.set_bits < 32
        &&& forall|i: int| 0 <= i < self.sets.len() ==> (#[trigger] self.sets[i]).ways.len() > 0
    }

    /// The set an address maps to: the `set_bits` bits above the line offset.
    pub open spec fn set_index(self, addr: u32) -> int {
        ((addr >> self.line_bits) & set_mask(self.set_bits)) as int
    }

    /// The bits of an address above the set index.
    pub open spec fn tag(self, addr: u32) -> u32 {
        addr >> ((self.line_bits + self.set_bits) as u32)
    }

    pub open spec fn holds(self, addr: u32) -> bool {
        self.sets[self.set_index(addr)].holds(self.tag(addr))
    }

    /// One access: the cache afterwards, and whether it hit.
    pub open spec fn access(self, addr: u32) -> (CacheModel, bool) {
        let i = self.set_index(addr);
        let (s, hit) = self.sets[i].access(self.tag(addr));
        (CacheModel { line_bits: self.line_bits, set_bits: self.set_bits, sets: self.sets.update(i, s) }, hit)
    }
}

/// The little-endian word at byte address `a`.
pub open spec fn le_word(d: Seq<u8>, a: int) -> u32 {
    (d[a] as u32) | ((d[a + 1] as u32) << 8u32) | ((d[a + 2] as u32) << 16u32) | ((d[a + 3] as u32)
        << 24u32)
}

/// `d` with the little-endian bytes of `v` written at `a`.
pub open spec fn put_word(d: Seq<u8>, a: int, v: u32) -> Seq<u8> {
    d.update(a, v as u8).update(a + 1, (v >> 8u32) as u8).update(a + 2, (v >> 16u32) as u8).update(
        a + 3,
        (v >> 24u32) as u8,
    )
}

/// Main memory behind an instruction cache and a data cache, with the cycle
/// costs of their outcomes.
#[verifier::ext_equal]
pub struct MemModel {
    pub data: Seq<u8>,
    pub icache: CacheModel,
    pub dcache: CacheModel,
    pub l1d_hit_cycles: nat,
    pub l1d_miss_cycles: nat,
    pub l1i_miss_cycles: nat,
}

impl MemModel {
    /// `mem_size` bytes holding `init` from address 0 and zeros after it,
    /// behind two empty caches of the configured geometry.
    pub open spec fn initial(init: Seq<u8>, config: MemConfig) -> MemModel {
        let cache = CacheModel::fresh(
            config.num_sets(),
            config.l1_associativity as nat,
            log2(config.l1_line_size as nat) as u32,
            log2(config.num_sets()) as u32,
        );
        MemModel {
            data: init + Seq::new((config.mem_size - init.len()) as nat, |i: int| 0u8),
            icache: cache,
            dcache: cache,
            l1d_hit_cycles: config.l1d_hit_cycles as nat,
            l1d_miss_cycles: config.l1d_miss_cycles as nat,
            l1i_miss_cycles: config.l1i_miss_cycles as nat,
        }
    }

    pub open spec fn wf(self) -> bool {
        self.icache.wf() && self.dcache.wf()
    }

    /// A data access at `addr` passes the bounds check (made against the
    /// length truncated to 32 bits) and its four bytes lie in memory.
    pub open spec fn can_access_data(self, addr: u32) -> bool {
        &&& addr < (self.data.len() as u32)
        &&& addr + 3 < self.data.len()
        &&& self.dcache.can_access()
    }

    /// An instruction fetch at `pc` reads four bytes that lie in memory.
    pub open spec fn can_fetch(self, pc: u32) -> bool {
        &&& pc + 3 < self.data.len()
        &&& self.icache.can_access()
    }

    pub open spec fn dcache_cost(self, hit: bool) -> nat {
        if hit {
            self.l1d_hit_cycles
        } else {
            self.l1d_miss_cycles
        }
    }

    /// A data load: the memory afterwards, the word read and the cycles taken.
    pub open spec fn load(self, addr: u32) -> (MemModel, u32, nat) {
        let (dc, hit) = self.dcache.access(addr);
        (MemModel { dcache: dc, ..self }, le_word(self.data, addr as int), self.dcache_cost(hit))
    }

    /// A data store: the memory afterwards and the cycles taken.
    pub open spec fn store(self, addr: u32, val: u32) -> (MemModel, nat) {
        let (dc, hit) = self.dcache.access(addr);
        (
            MemModel { data: put_word(self.data, addr as int, val), dcache: dc, ..self },
            self.dcache_cost(hit),
        )
    }

    /// An instruction fetch: a hit costs nothing, a miss its penalty.
    pub open spec fn load_ins(self, pc: u32) -> (MemModel, u32, nat) {
        let (ic, hit) = self.icache.access(pc);
        (
            MemModel { icache: ic, ..self },
            le_word(self.data, pc as int),
            if hit {
                0
            } else {
                self.l1i_miss_cycles
            },
        )
    }
}

/// Floor of the base-2 logarithm (zero for zero).
pub open spec fn log2(n: nat) -> nat
    decreases n,
{
    if n <= 1 {
        0
    } else {
        1 + log2(n / 2)
    }
}

// ----------------------------------------------------------------------------
// Laws of the model
// ----------------------------------------------------------------------------

pub proof fn lemma_pow2_log2(n: nat)
    requires
        n >= 1,
    ensures
        pow2(log2(n)) <= n < pow2(log2(n) + 1),
    decreases n,
{
    if n <= 1 {
        lemma_pow2_unfold(1);
        assert(pow2(0) == 1) by {
            vstd::arithmetic::power2::lemma2_to64();
        }
    } else {
        lemma_pow2_log2(n / 2);
        lemma_pow2_unfold(log2(n));
        lemma_pow2_unfold(log2(n) + 1);
    }
}

pub proof fn lemma_log2_lt(n: nat, k: nat)
    requires
        1 <= n < pow2(k),
    ensures
        log2(n) < k,
    decreases k,
{
    if n > 1 {
        if k == 0 {
            assert(pow2(0) == 1) by {
                vstd::arithmetic::power2::lemma2_to64();
            }
        } else {
            lemma_pow2_unfold(k);
            lemma_log2_lt(n / 2, (k - 1) as nat);
        }
    } else {
        if k == 0 {
            assert(pow2(0) == 1) by {
                vstd::arithmetic::power2::lemma2_to64();
            }
        }
    }
}

/// A set index lies below `2^set_bits`.
pub proof fn lemma_set_index_bound(y: u32, set_bits: u32)
    requires
        1 <= set_bits <= 32,
    ensures
        ((y & set_mask(set_bits)) as nat) < pow2(set_bits as nat),
{
    assert(1u32 <= set_bits <= 32u32 ==> ((y & (0xFFFF_FFFFu32 >> ((32 - set_bits) as u32)))
        as u64) < (1u64 << (set_bits as u64))) by (bit_vector);
    lemma_u64_pow2_no_overflow(set_bits as nat);
    lemma_u64_shl_is_mul(1, set_bits as u64);
}

/// Moving a way to the back of an order keeps it an order.
pub proof fn lemma_touch(order: Seq<usize>, n: nat, w: usize)
    requires
        is_order(order, n),
        (w as nat) < n,
    ensures
        is_order(touch(order, w), n),
        touch(order, w).last() == w,
{
    assert(order.contains(w));
    let q = choose|p: int| 0 <= p < order.len() && order[p] == w;
    assert forall|j: int| 0 <= j < q implies order[j] != w by {
        assert(order[j] != order[q]);
    }
    lemma_first_index(order, w, q);
    let r = order.remove(q);
    assert(r.len() == n - 1);
    assert forall|j: int| 0 <= j < r.len() implies #[trigger] r[j] == (if j < q {
        order[j]
    } else {
        order[j + 1]
    }) by {}
    assert forall|j: int| 0 <= j < r.len() implies #[trigger] r[j] != w by {
        if j < q {
            assert(order[j] != order[q]);
        } else {
            assert(order[j + 1] != order[q]);
        }
    }
    assert(r.no_duplicates()) by {
        assert forall|i: int, j: int| 0 <= i < r.len() && 0 <= j < r.len() && i != j implies r[i]
            != r[j] by {
            let oi = if i < q {
                i
            } else {
                i + 1
            };
            let oj = if j < q {
                j
            } else {
                j + 1
            };
            assert(r[i] == order[oi]);
            assert(r[j] == order[oj]);
        }
    }
    let t = r.push(w);
    assert(t == touch(order, w));
    assert(t.no_duplicates()) by {
        assert forall|i: int, j: int| 0 <= i < t.len() && 0 <= j < t.len() && i != j implies t[i]
            != t[j] by {
            if i < r.len() && j < r.len() {
                assert(t[i] == r[i] && t[j] == r[j]);
            } else if i < r.len() {
                assert(t[i] == r[i]);
            } else if j < r.len() {
                assert(t[j] == r[j]);
            }
        }
    }
    assert forall|i: int| 0 <= i < t.len() implies (#[trigger] t[i] as nat) < n by {
        if i < r.len() {
            assert(t[i] == r[i]);
            if i < q {
                assert(order[i] < n);
            } else {
                assert(order[i + 1] < n);
            }
        }
    }
    assert forall|v: usize| (v as nat) < n implies #[trigger] t.contains(v) by {
        if v == w {
            assert(t[t.len() - 1] == w);
        } else {
            assert(order.contains(v));
            let k = choose|k: int| 0 <= k < order.len() && order[k] == v;
            if k < q {
                assert(t[k] == v);
            } else {
                assert(k != q);
                assert(t[k - 1] == r[k - 1]);
                assert(t[k - 1] == v);
            }
        }
    }
}

impl SetModel {
    /// A fresh set is well formed.
    pub proof fn lemma_empty_wf(assoc: nat)
        requires
            assoc <= usize::MAX,
        ensures
            SetModel::empty(assoc).wf(),
    {
        let s = SetModel::empty(assoc);
        assert forall|w: usize| (w as nat) < assoc implies #[trigger] s.lru.contains(w) by {
            assert(0 <= w < s.lru.len());
            assert(s.lru[w as int] == w);
        }
        assert forall|i: int| 0 <= i < s.lru.len() implies (#[trigger] s.lru[i] as nat) < assoc by {
            assert(s.lru[i] == i as usize);
        }
        assert(s.lru.no_duplicates()) by {
            assert forall|i: int, j: int| 0 <= i < s.lru.len() && 0 <= j < s.lru.len() && i != j
                implies s.lru[i] != s.lru[j] by {
                assert(s.lru[i] == i as usize && s.lru[j] == j as usize);
            }
        }
    }

    /// Every access keeps a set well formed, hits exactly when the tag is
    /// held, and leaves the tag held afterwards.
    pub proof fn lemma_access(self, tag: u32)
        requires
            self.wf(),
            self.ways.len() > 0,
        ensures
            self.access(tag).0.wf(),
            self.access(tag).1 == self.holds(tag),
            self.access(tag).0.holds(tag),
            self.access(tag).0.ways.len() == self.ways.len(),
    {
        let n = self.ways.len();
        if self.holds(tag) {
            let k = choose|k: int| 0 <= k < n && self.ways[k] == Some(tag);
            assert forall|j: int| 0 <= j < k implies self.ways[j] != Some(tag) by {
                if self.ways[j] == Some(tag) {
                    assert(self.ways[j] == self.ways[k]);
                }
            }
            lemma_first_index(self.ways, Some(tag), k);
            let w = first_index(self.ways, Some(tag));
            lemma_touch(self.lru, n, w as usize);
        } else {
            assert(self.lru.contains(0usize));
            assert(self.lru[0] < n);
            let ways2 = self.ways.update(self.lru[0] as int, Some(tag));
            assert(ways2[self.lru[0] as int] == Some(tag));
            assert(distinct_tags(ways2)) by {
                assert forall|i: int, j: int|
                    0 <= i < ways2.len() && 0 <= j < ways2.len() && (#[trigger] ways2[i]) is Some
                        && ways2[i] == #[trigger] ways2[j] implies i == j by {
                    if i != self.lru[0] as int && j != self.lru[0] as int {
                        assert(self.ways[i] == ways2[i] && self.ways[j] == ways2[j]);
                    } else if i != self.lru[0] as int {
                        assert(self.ways[i] == Some(tag));
                        assert(self.ways.contains(Some(tag)));
                    } else if j != self.lru[0] as int {
                        assert(self.ways[j] == Some(tag));
                        assert(self.ways.contains(Some(tag)));
                    }
                }
            }
        }
    }
}

impl CacheModel {
    /// A fresh cache of at least `2^set_bits` sets is well formed.
    pub proof fn lemma_fresh_wf(num_sets: nat, assoc: nat, line_bits: u32, set_bits: u32)
        requires
            assoc <= usize::MAX,
            pow2(set_bits as nat) <= num_sets,
        ensures
            CacheModel::fresh(num_sets, assoc, line_bits, set_bits).wf(),
    {
        SetModel::lemma_empty_wf(assoc);
    }

    /// The set index of every address names a set of the cache.
    pub proof fn lemma_set_index(self, addr: u32)
        requires
            self.wf(),
            self.can_access(),
        ensures
            0 <= self.set_index(addr) < self.sets.len(),
    {
        lemma_set_index_bound(addr >> self.line_bits, self.set_bits);
    }

    /// An access keeps the cache well formed and able to take accesses,
    /// changes only the set that the address maps to, hits exactly when the
    /// address's tag is held there, and leaves it held.
    pub proof fn lemma_access(self, addr: u32)
        requires
            self.wf(),
            self.can_access(),
        ensures
            self.access(addr).0.wf(),
            self.access(addr).0.can_access(),
            self.access(addr).1 == self.holds(addr),
            self.access(addr).0.holds(addr),
            self.access(addr).0.sets.len() == self.sets.len(),
            self.access(addr).0.line_bits == self.line_bits,
            self.access(addr).0.set_bits == self.set_bits,
            forall|j: int|
                0 <= j < self.sets.len() && j != self.set_index(addr) ==> #[trigger] self.access(
                    addr,
                ).0.sets[j] == self.sets[j],
    {
        self.lemma_set_index(addr);
        let i = self.set_index(addr);
        self.sets[i].lemma_access(self.tag(addr));
        let c2 = self.access(addr).0;
        assert(c2.set_index(addr) == i);
        assert forall|j: int| 0 <= j < c2.sets.len() implies (#[trigger] c2.sets[j]).wf() by {
            if j != i {
                assert(c2.sets[j] == self.sets[j]);
            }
        }
        assert forall|j: int| 0 <= j < c2.sets.len() implies (#[trigger] c2.sets[j]).ways.len()
            > 0 by {
            if j != i {
                assert(c2.sets[j] == self.sets[j]);
            }
        }
    }

    /// An address that was just accessed hits on the next access.
    pub proof fn lemma_access_then_hit(self, addr: u32)
        requires
            self.wf(),
            self.can_access(),
        ensures
            self.access(addr).0.access(addr).1,
    {
        self.lemma_access(addr);
        self.access(addr).0.lemma_access(addr);
    }
}

impl MemModel {
    /// A load reads back the word that a store to the same address wrote.
    pub proof fn lemma_load_after_store(self, addr: u32, val: u32)
        requires
            self.wf(),
            self.can_access_data(addr),
        ensures
            self.store(addr, val).0.load(addr).1 == val,
    {
        let a = addr as int;
        let d = put_word(self.data, a, val);
        assert(d[a] == val as u8);
        assert(d[a + 1] == (val >> 8u32) as u8);
        assert(d[a + 2] == (val >> 16u32) as u8);
        assert(d[a + 3] == (val >> 24u32) as u8);
        assert(((val as u8) as u32) | ((((val >> 8u32) as u8) as u32) << 8u32) | ((((val >> 16u32)
            as u8) as u32) << 16u32) | ((((val >> 24u32) as u8) as u32) << 24u32) == val)
            by (bit_vector);
    }

    /// A store changes no byte outside the four it writes, and loads and
    /// fetches change no byte at all.
    pub proof fn lemma_store_frame(self, addr: u32, val: u32, i: int)
        requires
            self.can_access_data(addr),
            0 <= i < self.data.len(),
            !(addr <= i < addr + 4),
        ensures
            self.store(addr, val).0.data[i] == self.data[i],
            self.store(addr, val).0.data.len() == self.data.len(),
            self.load(addr).0.data == self.data,
            self.load_ins(addr).0.data == self.data,
    {
    }

    /// A data access right after another to the same address hits.
    pub proof fn lemma_repeat_access_hits(self, addr: u32, val: u32)
        requires
            self.wf(),
            self.can_access_data(addr),
        ensures
            self.load(addr).0.dcache.access(addr).1,
            self.store(addr, val).0.dcache.access(addr).1,
            self.load(addr).0.store(addr, val).1 == self.l1d_hit_cycles,
    {
        self.dcache.lemma_access_then_hit(addr);
    }
}

// ----------------------------------------------------------------------------
// The implementation
// ----------------------------------------------------------------------------

/// Floor of the base-2 logarithm of a positive number.
fn ilog2(n: usize) -> (r: u32)
    requires
        n > 0,
    ensures
        r as nat == log2(n as nat),
{
    proof {
        vstd::arithmetic::power2::lemma2_to64_rest();
        lemma_log2_lt(n as nat, 64);
    }
    let mut x = n;
    let mut r: u32 = 0;
    while x > 1
        invariant
            1 <= x <= n,
            r as nat + log2(x as nat) == log2(n as nat),
            log2(n as nat) < 64,
        decreases x,
    {
        x = x / 2;
        r = r + 1;
    }
    r
}

/// The order in which the ways of a set were last used.
pub struct Lru {
    list: Vec<usize>,
}

impl View for Lru {
    type V = Seq<usize>;

    closed spec fn view(&self) -> Seq<usize> {
        self.list@
    }
}

impl Lru {
    /// The ways `0..size` in order of index.
    pub fn new(size: usize) -> (l: Lru)
        ensures
            l@ == Seq::new(size as nat, |i: int| i as usize),
    {
        let mut list: Vec<usize> = Vec::new();
        let mut i: usize = 0;
        while i < size
            invariant
                i <= size,
                list@ == Seq::new(i as nat, |k: int| k as usize),
            decreases size - i,
        {
            list.push(i);
            i = i + 1;
        }
        Lru { list }
    }

    /// Marks `idx` as the most recently used; `idx` must be in the order.
    pub fn access(&mut self, idx: usize)
        requires
            old(self)@.contains(idx),
        ensures
            final(self)@ == touch(old(self)@, idx),
    {
        let n = self.list.len();
        let mut pos: usize = 0;
        while self.list[pos] != idx
            invariant
                n == self.list@.len(),
                self.list@ == old(self)@,
                self.list@.contains(idx),
                pos < self.list@.len(),
                forall|j: int| 0 <= j < pos ==> self.list@[j] != idx,
            decreases self.list@.len() - pos,
        {
            pos = pos + 1;
        }
        proof {
            lemma_first_index(self.list@, idx, pos as int);
        }
        self.list.remove(pos);
        self.list.push(idx);
    }

    /// The least recently used way.
    pub fn lru(&self) -> (w: usize)
        requires
            self@.len() > 0,
        ensures
            w == self@[0],
    {
        self.list[0]
    }
}

/// How an access went.
#[derive(Debug, Clone, Copy, PartialEq, Eq, Structural)]
pub enum CacheResult {
    Hit,
    Miss,
}

/// One way of a set: the tag it holds, if any.
#[derive(Clone, Copy)]
pub struct Way {
    tag: Option<u32>,
}

/// One set of a cache.
pub struct CacheSet {
    lru: Lru,
    ways: Vec<Way>,
}

impl View for CacheSet {
    type V = SetModel;

    closed spec fn view(&self) -> SetModel {
        SetModel { lru: self.lru@, ways: self.ways@.map_values(|w: Way| w.tag) }
    }
}

impl CacheSet {
    pub fn new(config: &MemConfig) -> (s: CacheSet)
        ensures
            s@ == SetModel::empty(config.l1_associativity as nat),
    {
        let n = config.l1_associativity;
        let lru = Lru::new(n);
        let mut ways: Vec<Way> = Vec::new();
        let mut i: usize = 0;
        while i < n
            invariant
                i <= n,
                ways@.len() == i,
                forall|k: int| 0 <= k < i ==> (#[trigger] ways@[k]).tag is None,
            decreases n - i,
        {
            ways.push(Way { tag: None });
            i = i + 1;
        }
        let s = CacheSet { lru, ways };
        assert(s@.ways =~= SetModel::empty(n as nat).ways);
        s
    }

    /// The first way that holds `tag`.
    fn find_way(&self, tag: u32) -> (r: Option<usize>)
        ensures
            r is Some ==> r->0 < self@.ways.len() && self@.ways[r->0 as int] == Some(tag)
                && first_index(self@.ways, Some(tag)) == r->0,
            r is None ==> !self@.holds(tag),
    {
        let mut i: usize = 0;
        while i < self.ways.len()
            invariant
                i <= self.ways@.len(),
                forall|k: int| 0 <= k < i ==> self@.ways[k] != Some(tag),
            decreases self.ways@.len() - i,
        {
            match self.ways[i].tag {
                Some(t) => {
                    if t == tag {
                        proof {
                            lemma_first_index(self@.ways, Some(tag), i as int);
                        }
                        return Some(i);
                    }
                },
                None => {},
            }
            i = i + 1;
        }
        None
    }

    /// Looks `tag` up, as `SetModel::access` says.
    pub fn access(&mut self, tag: u32) -> (r: CacheResult)
        requires
            old(self)@.wf(),
            old(self)@.ways.len() > 0,
        ensures
            (final(self)@, r == CacheResult::Hit) == old(self)@.access(tag),
    {
        let way_idx = self.find_way(tag);
        match way_idx {
            Some(way) => {
                proof {
                    assert(self@.ways.contains(Some(tag)));
                    assert(self.lru@.contains(way));
                }
                self.lru.access(way);
                CacheResult::Hit
            },
            None => {
                proof {
                    assert(self.lru@.contains(0usize));
                }
                let lru_idx = self.lru.lru();
                self.ways[lru_idx].tag = Some(tag);
                assert(self@.ways =~= old(self)@.ways.update(lru_idx as int, Some(tag)));
                CacheResult::Miss
            },
        }
    }
}

/// A set-associative cache of tags.
pub struct Cache {
    sets: Vec<CacheSet>,
    line_bits: u32,
    set_bits: u32,
}

impl View for Cache {
    type V = CacheModel;

    closed spec fn view(&self) -> CacheModel {
        CacheModel {
            line_bits: self.line_bits,
            set_bits: self.set_bits,
            sets: self.sets@.map_values(|s: CacheSet| s@),
        }
    }
}

impl Cache {
    pub fn new(config: &MemConfig) -> (c: Cache)
        requires
            config.geometry_ok(),
        ensures
            c@ == CacheModel::fresh(
                config.num_sets(),
                config.l1_associativity as nat,
                log2(config.l1_line_size as nat) as u32,
                log2(config.num_sets()) as u32,
            ),
            c@.wf(),
    {
        proof {
            assert(config.l1_associativity * config.l1_line_size > 0) by (nonlinear_arith)
                requires
                    config.l1_associativity > 0,
                    config.l1_line_size > 0,
            ;
        }
        let set_size = config.l1_associativity * config.l1_line_size;
        let num_sets = config.l1_size / set_size;
        proof {
            assert(num_sets > 0) by (nonlinear_arith)
                requires
                    config.l1_size > 0,
                    config.l1_size as int % set_size as int == 0,
                    set_size > 0,
                    num_sets == config.l1_size / set_size,
            ;
        }
        let mut sets: Vec<CacheSet> = Vec::new();
        let mut i: usize = 0;
        while i < num_sets
            invariant
                i <= num_sets,
                sets@.map_values(|s: CacheSet| s@) =~= Seq::new(
                    i as nat,
                    |k: int| SetModel::empty(config.l1_associativity as nat),
                ),
            decreases num_sets - i,
        {
            let s = CacheSet::new(config);
            let ghost prev = sets@;
            sets.push(s);
            assert(sets@.map_values(|s: CacheSet| s@) =~= prev.map_values(|s: CacheSet| s@).push(
                SetModel::empty(config.l1_associativity as nat),
            ));
            i = i + 1;
        }
        let line_bits = ilog2(config.l1_line_size);
        let set_bits = ilog2(num_sets);
        proof {
            lemma_pow2_log2(num_sets as nat);
            CacheModel::lemma_fresh_wf(
                num_sets as nat,
                config.l1_associativity as nat,
                line_bits,
                set_bits,
            );
        }
        Cache { sets, line_bits, set_bits }
    }

    /// One access, as `CacheModel::access` says.
    pub fn access(&mut self, addr: u32) -> (r: CacheResult)
        requires
            old(self)@.wf(),
            old(self)@.can_access(),
        ensures
            (final(self)@, r == CacheResult::Hit) == old(self)@.access(addr),
    {
        proof {
            self@.lemma_set_index(addr);
            assert(!0u32 == 0xFFFF_FFFFu32) by (bit_vector);
        }
        let set_idx = (addr >> self.line_bits) & ((!0u32) >> (32 - self.set_bits));
        let tag = addr >> (self.line_bits + self.set_bits);
        let ghost old_sets = self.sets@;
        assert(self@.sets[set_idx as int] == old_sets[set_idx as int]@);
        let r = self.sets[set_idx as usize].access(tag);
        assert(self@.sets =~= old(self)@.access(addr).0.sets);
        r
    }

    /// Whether an access to `addr` would hit, without making it.
    pub fn probe(&self, addr: u32) -> (hit: bool)
        requires
            self@.wf(),
            self@.can_access(),
        ensures
            hit == self@.holds(addr),
            hit == self@.access(addr).1,
    {
        proof {
            self@.lemma_set_index(addr);
            self@.lemma_access(addr);
            assert(!0u32 == 0xFFFF_FFFFu32) by (bit_vector);
        }
        let set_idx = (addr >> self.line_bits) & ((!0u32) >> (32 - self.set_bits));
        let tag = addr >> (self.line_bits + self.set_bits);
        self.sets[set_idx as usize].find_way(tag).is_some()
    }
}

/// Sizes and latencies of memory and of its two L1 caches (both caches have
/// the same geometry).
pub struct MemConfig {
    pub mem_size: usize,
    pub l1_size: usize,
    pub l1_line_size: usize,
    pub l1_associativity: usize,
    pub l1d_hit_cycles: usize,
    pub l1d_miss_cycles: usize,
    pub l1i_miss_cycles: usize,
}

impl MemConfig {
    /// The cache geometry can be built: a set's size in bytes is positive and
    /// fits in a `usize`, and the cache size is a positive multiple of it.
    pub open spec fn geometry_ok(&self) -> bool {
        &&& self.l1_associativity > 0
        &&& self.l1_line_size > 0
        &&& self.l1_associativity * self.l1_line_size <= usize::MAX
        &&& self.l1_size > 0
        &&& self.l1_size as int % (self.l1_associativity * self.l1_line_size) == 0
    }

    /// Number of sets in each cache.
    pub open spec fn num_sets(&self) -> nat {
        (self.l1_size as int / (self.l1_associativity * self.l1_line_size)) as nat
    }

    /// Decides `geometry_ok`.
    pub fn check_geometry(&self) -> (ok: bool)
        ensures
            ok == self.geometry_ok(),
    {
        if self.l1_associativity == 0 || self.l1_line_size == 0 {
            return false;
        }
        match self.l1_associativity.checked_mul(self.l1_line_size) {
            None => false,
            Some(set_size) => {
                proof {
                    assert(set_size > 0) by (nonlinear_arith)
                        requires
                            set_size == self.l1_associativity * self.l1_line_size,
                            self.l1_associativity > 0,
                            self.l1_line_size > 0,
                    ;
                }
                self.l1_size > 0 && self.l1_size % set_size == 0
            },
        }
    }
}

/// Byte-addressed main memory behind split L1 instruction and data caches.
pub struct Mem {
    data: Vec<u8>,
    icache: Cache,
    dcache: Cache,
    l1d_hit_cycles: usize,
    l1d_miss_cycles: usize,
    l1i_miss_cycles: usize,
}

impl View for Mem {
    type V = MemModel;

    closed spec fn view(&self) -> MemModel {
        MemModel {
            data: self.data@,
            icache: self.icache@,
            dcache: self.dcache@,
            l1d_hit_cycles: self.l1d_hit_cycles as nat,
            l1d_miss_cycles: self.l1d_miss_cycles as nat,
            l1i_miss_cycles: self.l1i_miss_cycles as nat,
        }
    }
}

impl Mem {
    /// Memory of `mem_size` bytes holding `init_data` from address 0 and
    /// zeros after it, with empty caches.
    pub fn new(init_data: &[u8], config: MemConfig) -> (m: Mem)
        requires
            init_data@.len() <= config.mem_size,
            config.geometry_ok(),
        ensures
            m@ == MemModel::initial(init_data@, config),
            m@.wf(),
    {
        let mut data: Vec<u8> = Vec::new();
        let mut i: usize = 0;
        while i < init_data.len()
            invariant
                i <= init_data@.len(),
                data@ == init_data@.subrange(0, i as int),
            decreases init_data@.len() - i,
        {
            data.push(init_data[i]);
            i = i + 1;
        }
        while i < config.mem_size
            invariant
                init_data@.len() <= i <= config.mem_size,
                data@ == init_data@ + Seq::new((i - init_data@.len()) as nat, |k: int| 0u8),
            decreases config.mem_size - i,
        {
            data.push(0);
            i = i + 1;
        }
        let icache = Cache::new(&config);
        let dcache = Cache::new(&config);
        Mem {
            data,
            icache,
            dcache,
            l1d_hit_cycles: config.l1d_hit_cycles,
            l1d_miss_cycles: config.l1d_miss_cycles,
            l1i_miss_cycles: config.l1i_miss_cycles,
        }
    }

    /// The data-cache access of a load or store at `addr`, with its cycles;
    /// `addr` must pass the bounds check against the length truncated to
    /// 32 bits.
    fn dcache_access(&mut self, cycles: &mut Cycles, addr: u32) -> (hit: bool)
        requires
            old(self)@.wf(),
            addr < (old(self)@.data.len() as u32),
            old(self)@.dcache.can_access(),
            old(cycles)@ + old(self)@.dcache_cost(old(self)@.dcache.access(addr).1) <= usize::MAX,
        ensures
            final(self)@ == (MemModel { dcache: old(self)@.dcache.access(addr).0, ..old(self)@ }),
            hit == old(self)@.dcache.access(addr).1,
            final(cycles)@ == old(cycles)@ + old(self)@.dcache_cost(hit),
    {
        match self.dcache.access(addr) {
            CacheResult::Hit => {
                cycles.add(self.l1d_hit_cycles);
                true
            },
            CacheResult::Miss => {
                cycles.add(self.l1d_miss_cycles);
                false
            },
        }
    }

    /// Loads the little-endian word at `addr` through the data cache.
    pub fn load(&mut self, cycles: &mut Cycles, addr: u32) -> (v: u32)
        requires
            old(self)@.wf(),
            old(self)@.can_access_data(addr),
            old(cycles)@ + old(self)@.load(addr).2 <= usize::MAX,
        ensures
            final(self)@ == old(self)@.load(addr).0,
            v == old(self)@.load(addr).1,
            final(cycles)@ == old(cycles)@ + old(self)@.load(addr).2,
            final(self)@.wf(),
    {
        proof {
            self@.dcache.lemma_access(addr);
        }
        self.dcache_access(cycles, addr);
        let _n = self.data.len();
        let a = addr as usize;
        self.data[a] as u32 | ((self.data[a + 1] as u32) << 8u32) | ((self.data[a + 2] as u32)
            << 16u32) | ((self.data[a + 3] as u32) << 24u32)
    }

    /// Stores `val` little-endian at `addr` through the data cache.
    pub fn store(&mut self, cycles: &mut Cycles, addr: u32, val: u32)
        requires
            old(self)@.wf(),
            old(self)@.can_access_data(addr),
            old(cycles)@ + old(self)@.store(addr, val).1 <= usize::MAX,
        ensures
            final(self)@ == old(self)@.store(addr, val).0,
            final(cycles)@ == old(cycles)@ + old(self)@.store(addr, val).1,
            final(self)@.wf(),
    {
        proof {
            self@.dcache.lemma_access(addr);
        }
        self.dcache_access(cycles, addr);
        let _n = self.data.len();
        let a = addr as usize;
        proof {
            assert((val & 0x0000_00FFu32) as u8 == val as u8 && ((val & 0x0000_FF00u32) >> 8u32) as u8
                == (val >> 8u32) as u8 && ((val & 0x00FF_0000u32) >> 16u32) as u8 == (val >> 16u32)
                as u8 && ((val & 0xFF00_0000u32) >> 24u32) as u8 == (val >> 24u32) as u8)
                by (bit_vector);
        }
        self.data[a] = #[verifier::truncate] ((val & 0x0000_00FF) as u8);
        self.data[a + 1] = #[verifier::truncate] (((val & 0x0000_FF00) >> 8u32) as u8);
        self.data[a + 2] = #[verifier::truncate] (((val & 0x00FF_0000) >> 16u32) as u8);
        self.data[a + 3] = #[verifier::truncate] (((val & 0xFF00_0000) >> 24u32) as u8);
        assert(self.data@ =~= put_word(old(self)@.data, addr as int, val));
    }

    /// Fetches the instruction word at `pc` through the instruction cache.
    pub fn load_ins(&mut self, cycles: &mut Cycles, pc: u32) -> (ins: u32)
        requires
            old(self)@.wf(),
            old(self)@.can_fetch(pc),
            old(cycles)@ + old(self)@.load_ins(pc).2 <= usize::MAX,
        ensures
            final(self)@ == old(self)@.load_ins(pc).0,
            ins == old(self)@.load_ins(pc).1,
            final(cycles)@ == old(cycles)@ + old(self)@.load_ins(pc).2,
            final(self)@.wf(),
    {
        proof {
            self@.icache.lemma_access(pc);
        }
        match self.icache.access(pc) {
            CacheResult::Hit => {},
            CacheResult::Miss => cycles.add(self.l1i_miss_cycles),
        }
        let _n = self.data.len();
        let a = pc as usize;
        self.data[a] as u32 | ((self.data[a + 1] as u32) << 8u32) | ((self.data[a + 2] as u32)
            << 16u32) | ((self.data[a + 3] as u32) << 24u32)
    }

    /// The word at `addr`, read without touching a cache.
    pub fn peek_word(&self, addr: u32) -> (v: u32)
        requires
            addr + 3 < self@.data.len(),
        ensures
            v == le_word(self@.data, addr as int),
    {
        let _n = self.data.len();
        let a = addr as usize;
        self.data[a] as u32 | ((self.data[a + 1] as u32) << 8u32) | ((self.data[a + 2] as u32)
            << 16u32) | ((self.data[a + 3] as u32) << 24u32)
    }

    /// Whether a data access at `addr` would hit, without making it.
    pub fn probe_data(&self, addr: u32) -> (hit: bool)
        requires
            self@.wf(),
            self@.dcache.can_access(),
        ensures
            hit == self@.dcache.access(addr).1,
    {
        self.dcache.probe(addr)
    }

    /// Whether an instruction fetch at `pc` would hit, without making it.
    pub fn probe_ins(&self, pc: u32) -> (hit: bool)
        requires
            self@.wf(),
            self@.icache.can_access(),
        ensures
            hit == self@.icache.access(pc).1,
    {
        self.icache.probe(pc)
    }

    pub fn len(&self) -> (n: usize)
        ensures
            n == self@.data.len(),
    {
        self.data.len()
    }

    /// The latencies of the data cache and the instruction-miss penalty.
    pub fn latencies(&self) -> (l: (usize, usize, usize))
        ensures
            l.0 == self@.l1d_hit_cycles,
            l.1 == self@.l1d_miss_cycles,
            l.2 == self@.l1i_miss_cycles,
    {
        (self.l1d_hit_cycles, self.l1d_miss_cycles, self.l1i_miss_cycles)
    }

    /// Whether the data and instruction caches can take accesses.
    pub fn caches_usable(&self) -> (r: (bool, bool))
        ensures
            r.0 == self@.dcache.can_access(),
            r.1 == self@.icache.can_access(),
    {
        (self.dcache.usable(), self.icache.usable())
    }
}

impl Cache {
    fn usable(&self) -> (ok: bool)
        ensures
            ok == self@.can_access(),
    {
        if self.set_bits < 1 || self.line_bits >= 32 || self.set_bits >= 32 || self.line_bits
            + self.set_bits >= 32 {
            return false;
        }
        let mut i: usize = 0;
        while i < self.sets.len()
            invariant
                i <= self.sets@.len(),
                forall|k: int| 0 <= k < i ==> (#[trigger] self@.sets[k]).ways.len() > 0,
            decreases self.sets@.len() - i,
        {
            if self.sets[i].ways.len() == 0 {
                assert(self@.sets[i as int] == self.sets@[i as int]@);
                return false;
            }
            i = i + 1;
        }
        true
    }
}

} // verus!
