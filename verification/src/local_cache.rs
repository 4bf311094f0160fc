//! A local (temporary) operation cache for nested computations.
//!
//! Unlike the global direct-mapped computed table, a `LocalCache` is
//! lossless: every inserted entry stays until it is overwritten or the
//! cache is cleared.
use vstd::prelude::*;
use crate::node::NodeId;

verus! {

broadcast use vstd::std_specs::hash::group_hash_axioms;

/// The 32-bit encoding of a node handle: twice its index, plus one when
/// complemented.
pub open spec fn node_word(n: NodeId) -> nat {
    2 * n.index_of() + if n.compl_of() {
        1nat
    } else {
        0nat
    }
}

/// `2^32`.
pub open spec fn word_radix() -> nat {
    0x1_0000_0000
}

/// The map key of an entry: the operation tag and the three operand
/// encodings packed into one 128-bit integer.
pub open spec fn cache_key(op: u8, f: NodeId, g: NodeId, h: NodeId) -> u128 {
    (((op as nat * word_radix() + node_word(f)) * word_radix() + node_word(g)) * word_radix()
        + node_word(h)) as u128
}

/// A local operation cache for nested or temporary computations.
pub struct LocalCache {
    /// The cache entries, keyed by the packed `(op, f, g, h)`.
    entries: std::collections::HashMap<u128, NodeId>,
    /// Total number of lookup calls.
    lookups: u64,
    /// Number of successful lookups (hits).
    hits: u64,
}

proof fn lemma_node_word_bound(n: NodeId)
    ensures
        node_word(n) < word_radix(),
{
    NodeId::lemma_parts_range(n);
}

proof fn lemma_node_word_injective(a: NodeId, b: NodeId)
    requires
        node_word(a) == node_word(b),
    ensures
        a == b,
{
    NodeId::lemma_same_parts(a, b);
}

/// `x * B + y` with `y < B` determines `x` and `y`.
proof fn lemma_digit_split(x: nat, y: nat, x2: nat, y2: nat, b: nat)
    requires
        y < b,
        y2 < b,
        x * b + y == x2 * b + y2,
    ensures
        x == x2,
        y == y2,
{
    if x < x2 {
        assert(x * b + b <= x2 * b) by (nonlinear_arith)
            requires
                x < x2,
        ;
    } else if x2 < x {
        assert(x2 * b + b <= x * b) by (nonlinear_arith)
            requires
                x2 < x,
        ;
    }
}

/// The packed value fits in 128 bits.
proof fn lemma_key_bound(op: u8, f: NodeId, g: NodeId, h: NodeId)
    ensures
        ((op as nat * word_radix() + node_word(f)) * word_radix() + node_word(g)) * word_radix()
            + node_word(h) <= u128::MAX,
{
    lemma_node_word_bound(f);
    lemma_node_word_bound(g);
    lemma_node_word_bound(h);
    let r = word_radix();
    let a = op as nat * r + node_word(f);
    assert(a < 256 * r) by (nonlinear_arith)
        requires
            op < 256,
            node_word(f) < r,
            a == op as nat * r + node_word(f),
    ;
    let b = a * r + node_word(g);
    assert(b < 256 * r * r) by (nonlinear_arith)
        requires
            a < 256 * r,
            node_word(g) < r,
            b == a * r + node_word(g),
    ;
    assert(b * r + node_word(h) < 256 * r * r * r) by (nonlinear_arith)
        requires
            b < 256 * r * r,
            node_word(h) < r,
    ;
    assert(256 * r * r * r <= u128::MAX + 1);
}

/// Distinct entries have distinct keys.
pub proof fn lemma_cache_key_injective(
    op: u8,
    f: NodeId,
    g: NodeId,
    h: NodeId,
    op2: u8,
    f2: NodeId,
    g2: NodeId,
    h2: NodeId,
)
    requires
        cache_key(op, f, g, h) == cache_key(op2, f2, g2, h2),
    ensures
        op == op2,
        f == f2,
        g == g2,
        h == h2,
{
    lemma_key_bound(op, f, g, h);
    lemma_key_bound(op2, f2, g2, h2);
    lemma_node_word_bound(f);
    lemma_node_word_bound(g);
    lemma_node_word_bound(h);
    lemma_node_word_bound(f2);
    lemma_node_word_bound(g2);
    lemma_node_word_bound(h2);
    let r = word_radix();
    let a = op as nat * r + node_word(f);
    let a2 = op2 as nat * r + node_word(f2);
    let b = a * r + node_word(g);
    let b2 = a2 * r + node_word(g2);
    lemma_digit_split(b, node_word(h), b2, node_word(h2), r);
    lemma_digit_split(a, node_word(g), a2, node_word(g2), r);
    lemma_digit_split(op as nat, node_word(f), op2 as nat, node_word(f2), r);
    lemma_node_word_injective(f, f2);
    lemma_node_word_injective(g, g2);
    lemma_node_word_injective(h, h2);
}

/// The 32-bit encoding of a node handle.
fn node_word_of(n: NodeId) -> (r: u128)
    ensures
        r as nat == node_word(n),
{
    proof {
        NodeId::lemma_parts_range(n);
    }
    let c: u128 = if n.is_complemented() {
        1
    } else {
        0
    };
    2 * (n.raw_index() as u128) + c
}

/// The packed key of an entry.
pub(crate) fn key_of(op: u8, f: NodeId, g: NodeId, h: NodeId) -> (r: u128)
    ensures
        r == cache_key(op, f, g, h),
{
    proof {
        lemma_key_bound(op, f, g, h);
        lemma_node_word_bound(f);
        lemma_node_word_bound(g);
        let rr = word_radix();
        let a = op as nat * rr + node_word(f);
        let b = a * rr + node_word(g);
        assert(a <= b) by (nonlinear_arith)
            requires
                b == a * rr + node_word(g),
                rr >= 1,
        ;
        assert(b <= b * rr + node_word(h)) by (nonlinear_arith)
            requires
                rr >= 1,
        ;
    }
    let wf = node_word_of(f);
    let wg = node_word_of(g);
    let wh = node_word_of(h);
    ((op as u128 * 0x1_0000_0000 + wf) * 0x1_0000_0000 + wg) * 0x1_0000_0000 + wh
}

impl LocalCache {
    /// The cached entries, by packed key.
    pub closed spec fn view(&self) -> Map<u128, NodeId> {
        self.entries@
    }

    /// Total number of lookup calls since creation or the last clear.
    pub closed spec fn lookup_count(&self) -> u64 {
        self.lookups
    }

    /// Number of those lookups that found their entry.
    pub closed spec fn hit_count(&self) -> u64 {
        self.hits
    }

    /// Hits never outnumber lookups.
    pub closed spec fn wf(&self) -> bool {
        self.hits <= self.lookups
    }

    /// The result stored for `(op, f, g, h)`, if any.
    pub open spec fn cached(&self, op: u8, f: NodeId, g: NodeId, h: NodeId) -> Option<NodeId> {
        let k = cache_key(op, f, g, h);
        if self.view().contains_key(k) {
            Some(self.view()[k])
        } else {
            None
        }
    }

    /// Create a new empty local cache.
    pub fn new() -> (r: LocalCache)
        ensures
            r.wf(),
            r.view() == Map::<u128, NodeId>::empty(),
            r.lookup_count() == 0,
            r.hit_count() == 0,
    {
        LocalCache { entries: std::collections::HashMap::new(), lookups: 0, hits: 0 }
    }

    /// Create a new empty local cache with pre-allocated capacity.
    pub fn with_capacity(cap: usize) -> (r: LocalCache)
        ensures
            r.wf(),
            r.view() == Map::<u128, NodeId>::empty(),
            r.lookup_count() == 0,
            r.hit_count() == 0,
    {
        LocalCache { entries: std::collections::HashMap::with_capacity(cap), lookups: 0, hits: 0 }
    }

    /// Look up a cached result, counting the lookup and, when found, the hit.
    pub fn lookup(&mut self, op: u8, f: NodeId, g: NodeId, h: NodeId) -> (r: Option<NodeId>)
        requires
            old(self).wf(),
            old(self).lookup_count() < u64::MAX,
        ensures
            final(self).wf(),
            r == old(self).cached(op, f, g, h),
            final(self).view() == old(self).view(),
            final(self).lookup_count() == old(self).lookup_count() + 1,
            final(self).hit_count() == old(self).hit_count() + if r is Some {
                1int
            } else {
                0int
            },
    {
        self.lookups += 1;
        let k = key_of(op, f, g, h);
        let result = match self.entries.get(&k) {
            Some(v) => Some(*v),
            None => None,
        };
        if result.is_some() {
            self.hits += 1;
        }
        result
    }

    /// Insert a result into the cache, overwriting an entry with the same key.
    pub fn insert(&mut self, op: u8, f: NodeId, g: NodeId, h: NodeId, result: NodeId)
        requires
            old(self).wf(),
        ensures
            final(self).wf(),
            final(self).view() == old(self).view().insert(cache_key(op, f, g, h), result),
            final(self).lookup_count() == old(self).lookup_count(),
            final(self).hit_count() == old(self).hit_count(),
    {
        let k = key_of(op, f, g, h);
        self.entries.insert(k, result);
    }

    /// Clear all entries, resetting the statistics.
    pub fn clear(&mut self)
        ensures
            final(self).wf(),
            final(self).view() == Map::<u128, NodeId>::empty(),
            final(self).lookup_count() == 0,
            final(self).hit_count() == 0,
    {
        self.entries.clear();
        self.lookups = 0;
        self.hits = 0;
    }

    /// Number of entries currently in the cache.
    pub fn len(&self) -> (r: usize)
        ensures
            r == self.view().len(),
    {
        self.entries.len()
    }

    /// Whether the cache holds no entry.
    pub fn is_empty(&self) -> (r: bool)
        ensures
            r == (self.view().len() == 0),
    {
        proof {
            if self.view().len() == 0 {
                assert(self.view() =~= Map::<u128, NodeId>::empty());
            } else if self.view() =~= Map::<u128, NodeId>::empty() {
                assert(self.view().len() == 0);
            }
        }
        self.entries.is_empty()
    }

    /// Total number of lookups performed.
    pub fn total_lookups(&self) -> (r: u64)
        ensures
            r == self.lookup_count(),
    {
        self.lookups
    }

    /// Total number of cache hits.
    pub fn total_hits(&self) -> (r: u64)
        ensures
            r == self.hit_count(),
    {
        self.hits
    }
}

impl Default for LocalCache {
    /// An empty cache.
    fn default() -> (r: LocalCache)
        ensures
            r.wf(),
            r.view() == Map::<u128, NodeId>::empty(),
            r.lookup_count() == 0,
            r.hit_count() == 0,
    {
        LocalCache::new()
    }
}

/// A lookup right after inserting an entry finds the inserted result,
/// and inserting leaves the results of all other entries unchanged.
pub proof fn lemma_insert_then_lookup(
    m: Map<u128, NodeId>,
    op: u8,
    f: NodeId,
    g: NodeId,
    h: NodeId,
    result: NodeId,
    op2: u8,
    f2: NodeId,
    g2: NodeId,
    h2: NodeId,
)
    ensures
        m.insert(cache_key(op, f, g, h), result).contains_key(cache_key(op, f, g, h)),
        m.insert(cache_key(op, f, g, h), result)[cache_key(op, f, g, h)] == result,
        !(op2 == op && f2 == f && g2 == g && h2 == h) ==> {
            &&& m.insert(cache_key(op, f, g, h), result).contains_key(cache_key(op2, f2, g2, h2))
                == m.contains_key(cache_key(op2, f2, g2, h2))
            &&& m.contains_key(cache_key(op2, f2, g2, h2)) ==> m.insert(cache_key(op, f, g, h), result)[cache_key(op2, f2, g2, h2)]
                == m[cache_key(op2, f2, g2, h2)]
        },
{
    if cache_key(op, f, g, h) == cache_key(op2, f2, g2, h2) {
        lemma_cache_key_injective(op, f, g, h, op2, f2, g2, h2);
    }
}

/// A call on a local cache, as a history records it.
pub enum CacheStep {
    /// `insert(op, f, g, h, result)`.
    Insert(u8, NodeId, NodeId, NodeId, NodeId),
    /// `lookup(op, f, g, h)`.
    Lookup(u8, NodeId, NodeId, NodeId),
    /// `clear()`.
    Clear,
}

/// The entries after the calls `ss`, from `m`: what the contracts of
/// `insert`, `lookup` and `clear` make of them.
pub open spec fn entries_after(m: Map<u128, NodeId>, ss: Seq<CacheStep>) -> Map<u128, NodeId>
    decreases ss.len(),
{
    if ss.len() == 0 {
        m
    } else {
        let e = entries_after(m, ss.drop_last());
        match ss.last() {
            CacheStep::Insert(op, f, g, h, r) => e.insert(cache_key(op, f, g, h), r),
            CacheStep::Lookup(..) => e,
            CacheStep::Clear => Map::empty(),
        }
    }
}

/// The result of the latest insert of the key among `ss` after the last
/// clear, if there is one.
pub open spec fn latest_result(ss: Seq<CacheStep>, op: u8, f: NodeId, g: NodeId, h: NodeId) -> Option<NodeId>
    decreases ss.len(),
{
    if ss.len() == 0 {
        None
    } else {
        match ss.last() {
            CacheStep::Insert(op2, f2, g2, h2, r) => if op2 == op && f2 == f && g2 == g && h2 == h {
                Some(r)
            } else {
                latest_result(ss.drop_last(), op, f, g, h)
            },
            CacheStep::Lookup(..) => latest_result(ss.drop_last(), op, f, g, h),
            CacheStep::Clear => None,
        }
    }
}

/// A local cache loses nothing: after a history of calls from an empty
/// cache (as `new`, `with_capacity` and `clear` make it), a lookup of a
/// key finds the result of the latest insert of that key since the last
/// clear, and nothing when there was none.
pub proof fn lemma_cache_history(ss: Seq<CacheStep>, op: u8, f: NodeId, g: NodeId, h: NodeId)
    ensures
        (if entries_after(Map::empty(), ss).contains_key(cache_key(op, f, g, h)) {
            Some(entries_after(Map::empty(), ss)[cache_key(op, f, g, h)])
        } else {
            None
        }) == latest_result(ss, op, f, g, h),
    decreases ss.len(),
{
    if ss.len() > 0 {
        lemma_cache_history(ss.drop_last(), op, f, g, h);
        match ss.last() {
            CacheStep::Insert(op2, f2, g2, h2, r) => {
                if cache_key(op, f, g, h) == cache_key(op2, f2, g2, h2) {
                    lemma_cache_key_injective(op, f, g, h, op2, f2, g2, h2);
                }
            },
            _ => {},
        }
    }
}

} // verus!
