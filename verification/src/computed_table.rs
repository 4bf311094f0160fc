//! Direct-mapped computed table (operation result cache).
//!
//! A power-of-two array of entries indexed by a hash of the operation and
//! its operands.  Collisions overwrite the previous entry; a lossy cache
//! is fine because results can always be recomputed.
use vstd::prelude::*;
use crate::node::NodeId;

verus! {

/// Operation tags for the computed table.
#[derive(Clone, Copy, PartialEq, Eq, Hash, Debug, Structural)]
pub enum OpTag {
    BddIte,
    BddAnd,
    BddXor,
    BddExist,
    BddAndAbstract,
    BddCompose,
    BddRestrict,
    BddConstrain,
    AddIte,
    /// Sub-tag for +, *, -, /, min, max, etc.
    AddApply(u8),
    AddMonadic(u8),
    ZddUnion,
    ZddIntersect,
    ZddDiff,
    ZddProduct,
    ZddWeakDiv,
    ZddChange,
    ZddIte,
    BddVectorCompose,
    BddPermute,
    BddSwapVars,
    AddVectorCompose,
    AddPermute,
    BddUnderApprox,
    BddOverApprox,
    BddSubsetHeavy,
    BddSupersetHeavy,
    BddSubsetShort,
    BddSupersetShort,
    BddRemapUnderApprox,
    BddSqueeze,
    BddHammingDist,
    AddHamming,
    BddConjDecomp,
    BddDisjDecomp,
    BddSolveEqn,
    BddCompatProj,
}

/// The number mixed into the hash for each operation tag.
pub open spec fn tag_number(op: OpTag) -> u64 {
    match op {
        OpTag::BddIte => 0,
        OpTag::BddAnd => 1,
        OpTag::BddXor => 2,
        OpTag::BddExist => 3,
        OpTag::BddAndAbstract => 5,
        OpTag::BddCompose => 6,
        OpTag::BddRestrict => 7,
        OpTag::BddConstrain => 8,
        OpTag::AddIte => 9,
        OpTag::AddApply(t) => (10 + t) as u64,
        OpTag::AddMonadic(t) => (30 + t) as u64,
        OpTag::ZddUnion => 50,
        OpTag::ZddIntersect => 51,
        OpTag::ZddDiff => 52,
        OpTag::ZddProduct => 53,
        OpTag::ZddWeakDiv => 54,
        OpTag::ZddChange => 55,
        OpTag::ZddIte => 56,
        OpTag::BddVectorCompose => 60,
        OpTag::BddPermute => 61,
        OpTag::BddSwapVars => 62,
        OpTag::AddVectorCompose => 63,
        OpTag::AddPermute => 64,
        OpTag::BddUnderApprox => 70,
        OpTag::BddOverApprox => 71,
        OpTag::BddSubsetHeavy => 72,
        OpTag::BddSupersetHeavy => 73,
        OpTag::BddSubsetShort => 74,
        OpTag::BddSupersetShort => 75,
        OpTag::BddRemapUnderApprox => 76,
        OpTag::BddSqueeze => 77,
        OpTag::BddHammingDist => 78,
        OpTag::AddHamming => 79,
        OpTag::BddConjDecomp => 80,
        OpTag::BddDisjDecomp => 81,
        OpTag::BddSolveEqn => 82,
        OpTag::BddCompatProj => 83,
    }
}

impl OpTag {
    /// A number for hashing purposes.
    pub fn discriminant(self) -> (r: u64)
        ensures
            r == tag_number(self),
    {
        match self {
            OpTag::BddIte => 0,
            OpTag::BddAnd => 1,
            OpTag::BddXor => 2,
            OpTag::BddExist => 3,
            OpTag::BddAndAbstract => 5,
            OpTag::BddCompose => 6,
            OpTag::BddRestrict => 7,
            OpTag::BddConstrain => 8,
            OpTag::AddIte => 9,
            OpTag::AddApply(t) => 10 + t as u64,
            OpTag::AddMonadic(t) => 30 + t as u64,
            OpTag::ZddUnion => 50,
            OpTag::ZddIntersect => 51,
            OpTag::ZddDiff => 52,
            OpTag::ZddProduct => 53,
            OpTag::ZddWeakDiv => 54,
            OpTag::ZddChange => 55,
            OpTag::ZddIte => 56,
            OpTag::BddVectorCompose => 60,
            OpTag::BddPermute => 61,
            OpTag::BddSwapVars => 62,
            OpTag::AddVectorCompose => 63,
            OpTag::AddPermute => 64,
            OpTag::BddUnderApprox => 70,
            OpTag::BddOverApprox => 71,
            OpTag::BddSubsetHeavy => 72,
            OpTag::BddSupersetHeavy => 73,
            OpTag::BddSubsetShort => 74,
            OpTag::BddSupersetShort => 75,
            OpTag::BddRemapUnderApprox => 76,
            OpTag::BddSqueeze => 77,
            OpTag::BddHammingDist => 78,
            OpTag::AddHamming => 79,
            OpTag::BddConjDecomp => 80,
            OpTag::BddDisjDecomp => 81,
            OpTag::BddSolveEqn => 82,
            OpTag::BddCompatProj => 83,
        }
    }
}

/// The FNV-1a multiplier.
pub open spec fn fnv_prime() -> u64 {
    0x100000001b3
}

/// The 64-bit word mixed into the hash for an operand: its index, with the
/// complement flag at bit `shift`.
pub open spec fn operand_word(n: NodeId, shift: u64) -> u64 {
    (n.index_of() as u64) | ((if n.compl_of() {
        1u64
    } else {
        0u64
    }) << shift)
}

/// The 64-bit FNV-style hash of a key.
#[verifier::opaque]
pub open spec fn key_hash(op: OpTag, f: NodeId, g: NodeId, h: NodeId) -> u64 {
    let h0 = 0xcbf29ce484222325u64 ^ tag_number(op);
    let h1 = h0.wrapping_mul(fnv_prime()) ^ operand_word(f, 32);
    let h2 = h1.wrapping_mul(fnv_prime()) ^ operand_word(g, 33);
    let h3 = h2.wrapping_mul(fnv_prime()) ^ operand_word(h, 34);
    h3.wrapping_mul(fnv_prime())
}

/// The slot of a key in a table with the given mask.
pub open spec fn slot_of(op: OpTag, f: NodeId, g: NodeId, h: NodeId, mask: usize) -> int {
    ((key_hash(op, f, g, h) as usize) & mask) as int
}

/// A single cache entry.
#[derive(Clone, Copy, Debug, PartialEq, Eq, Structural)]
pub struct CacheEntry {
    pub op: OpTag,
    pub f: NodeId,
    pub g: NodeId,
    pub h: NodeId,
    pub result: NodeId,
}

/// Direct-mapped computed table (cache).
pub struct ComputedTable {
    entries: Vec<Option<CacheEntry>>,
    mask: usize,
    hits: u64,
    misses: u64,
}

impl ComputedTable {
    /// The slots of the table.
    pub closed spec fn slots(&self) -> Seq<Option<CacheEntry>> {
        self.entries@
    }

    /// Number of lookups that found their key.
    pub closed spec fn hit_count(&self) -> u64 {
        self.hits
    }

    /// Number of lookups that did not find their key.
    pub closed spec fn miss_count(&self) -> u64 {
        self.misses
    }

    /// Number of lookups that found their key.
    pub fn hits(&self) -> (r: u64)
        ensures
            r == self.hit_count(),
    {
        self.hits
    }

    /// Number of lookups that did not find their key.
    pub fn misses(&self) -> (r: u64)
        ensures
            r == self.miss_count(),
    {
        self.misses
    }

    /// The index mask (table size minus one).
    pub closed spec fn mask_of(&self) -> usize {
        self.mask
    }

    /// The table has `mask + 1` slots and every entry sits in the slot its
    /// key hashes to.
    pub open spec fn wf(&self) -> bool {
        &&& self.slots().len() == self.mask_of() as nat + 1
        &&& forall|i: int|
            0 <= i < self.slots().len() && (#[trigger] self.slots()[i]) is Some ==> slot_of(
                self.slots()[i]->Some_0.op,
                self.slots()[i]->Some_0.f,
                self.slots()[i]->Some_0.g,
                self.slots()[i]->Some_0.h,
                self.mask_of(),
            ) == i
    }

    /// What a lookup of the key finds: the stored result when the key's
    /// slot holds that key.
    pub open spec fn cached(&self, op: OpTag, f: NodeId, g: NodeId, h: NodeId) -> Option<NodeId> {
        cached_in(self.slots(), self.mask_of(), op, f, g, h)
    }

    /// An empty table of `2^size_log2` slots.
    pub fn new(size_log2: u32) -> (r: ComputedTable)
        requires
            size_log2 < usize::BITS,
        ensures
            r.wf(),
            r.slots().len() == vstd::arithmetic::power2::pow2(size_log2 as nat),
            forall|i: int| 0 <= i < r.slots().len() ==> r.slots()[i] is None,
            r.hit_count() == 0,
            r.miss_count() == 0,
    {
        proof {
            vstd::bits::lemma_usize_pow2_no_overflow(size_log2 as nat);
            vstd::bits::lemma_usize_shl_is_mul(1usize, size_log2 as usize);
        }
        let size = 1usize << size_log2;
        let mut entries: Vec<Option<CacheEntry>> = Vec::new();
        while entries.len() < size
            invariant
                entries@.len() <= size,
                forall|i: int| 0 <= i < entries@.len() ==> entries@[i] is None,
            decreases size - entries@.len(),
        {
            entries.push(None);
        }
        ComputedTable { entries, mask: size - 1, hits: 0, misses: 0 }
    }

    /// The slot a key hashes to.
    pub fn hash(&self, op: OpTag, f: NodeId, g: NodeId, h: NodeId) -> (r: usize)
        requires
            self.wf(),
        ensures
            r == slot_of(op, f, g, h, self.mask_of()),
            r < self.slots().len(),
    {
        let mut hash = 0xcbf29ce484222325u64;
        hash ^= op.discriminant();
        hash = hash.wrapping_mul(0x100000001b3);
        let fc: u64 = if f.is_complemented() {
            1
        } else {
            0
        };
        hash ^= f.regular().raw_index() as u64 | (fc << 32);
        hash = hash.wrapping_mul(0x100000001b3);
        let gc: u64 = if g.is_complemented() {
            1
        } else {
            0
        };
        hash ^= g.regular().raw_index() as u64 | (gc << 33);
        hash = hash.wrapping_mul(0x100000001b3);
        let hc: u64 = if h.is_complemented() {
            1
        } else {
            0
        };
        hash ^= h.regular().raw_index() as u64 | (hc << 34);
        hash = hash.wrapping_mul(0x100000001b3);
        proof {
            reveal(key_hash);
        }
        let r = hash as usize & self.mask;
        let m = self.mask;
        assert(r <= m) by (bit_vector)
            requires
                r == (hash as usize) & m,
        ;
        r
    }

    /// Look up a cached result, counting the hit or miss.
    pub fn lookup(&mut self, op: OpTag, f: NodeId, g: NodeId, h: NodeId) -> (r: Option<NodeId>)
        requires
            old(self).wf(),
            old(self).hit_count() < u64::MAX,
            old(self).miss_count() < u64::MAX,
        ensures
            final(self).wf(),
            r == old(self).cached(op, f, g, h),
            final(self).slots() == old(self).slots(),
            final(self).mask_of() == old(self).mask_of(),
            r is Some ==> final(self).hit_count() == old(self).hit_count() + 1 && final(self).miss_count() == old(self).miss_count(),
            r is None ==> final(self).miss_count() == old(self).miss_count() + 1 && final(self).hit_count() == old(self).hit_count(),
    {
        let idx = self.hash(op, f, g, h);
        if let Some(entry) = &self.entries[idx] {
            if entry.op == op && entry.f == f && entry.g == g && entry.h == h {
                self.hits += 1;
                return Some(entry.result);
            }
        }
        self.misses += 1;
        None
    }

    /// Insert a result into the cache (overwrites on collision).
    pub fn insert(&mut self, op: OpTag, f: NodeId, g: NodeId, h: NodeId, result: NodeId)
        requires
            old(self).wf(),
        ensures
            final(self).wf(),
            final(self).mask_of() == old(self).mask_of(),
            final(self).slots() == old(self).slots().update(
                slot_of(op, f, g, h, old(self).mask_of()),
                Some(CacheEntry { op, f, g, h, result }),
            ),
            final(self).hit_count() == old(self).hit_count(),
            final(self).miss_count() == old(self).miss_count(),
    {
        let idx = self.hash(op, f, g, h);
        self.entries.set(idx, Some(CacheEntry { op, f, g, h, result }));
    }

    /// Clear the entire cache.
    pub fn clear(&mut self)
        requires
            old(self).wf(),
        ensures
            final(self).wf(),
            final(self).mask_of() == old(self).mask_of(),
            final(self).slots().len() == old(self).slots().len(),
            forall|i: int| 0 <= i < final(self).slots().len() ==> final(self).slots()[i] is None,
            final(self).hit_count() == old(self).hit_count(),
            final(self).miss_count() == old(self).miss_count(),
    {
        let mut i: usize = 0;
        while i < self.entries.len()
            invariant
                self.wf(),
                self.mask_of() == old(self).mask_of(),
                self.hit_count() == old(self).hit_count(),
                self.miss_count() == old(self).miss_count(),
                self.slots().len() == old(self).slots().len(),
                i <= self.slots().len(),
                forall|j: int| 0 <= j < i ==> self.slots()[j] is None,
            decreases self.slots().len() - i,
        {
            self.entries.set(i, None);
            i += 1;
        }
    }
}

/// Reading a key right after inserting it gives the inserted result.
pub proof fn lemma_read_after_write(
    before: ComputedTable,
    after: ComputedTable,
    op: OpTag,
    f: NodeId,
    g: NodeId,
    h: NodeId,
    result: NodeId,
)
    requires
        before.wf(),
        after.mask_of() == before.mask_of(),
        after.slots() == before.slots().update(
            slot_of(op, f, g, h, before.mask_of()),
            Some(CacheEntry { op, f, g, h, result }),
        ),
    ensures
        after.cached(op, f, g, h) == Some(result),
{
    let m = before.mask_of();
    let hh = key_hash(op, f, g, h) as usize;
    assert(hh & m <= m) by (bit_vector);
}

/// Inserting one key leaves every key of another slot as it was.
pub proof fn lemma_insert_keeps_other_slots(
    before: ComputedTable,
    after: ComputedTable,
    op: OpTag,
    f: NodeId,
    g: NodeId,
    h: NodeId,
    result: NodeId,
    op2: OpTag,
    f2: NodeId,
    g2: NodeId,
    h2: NodeId,
)
    requires
        before.wf(),
        after.mask_of() == before.mask_of(),
        after.slots() == before.slots().update(
            slot_of(op, f, g, h, before.mask_of()),
            Some(CacheEntry { op, f, g, h, result }),
        ),
        slot_of(op2, f2, g2, h2, before.mask_of()) != slot_of(op, f, g, h, before.mask_of()),
    ensures
        after.cached(op2, f2, g2, h2) == before.cached(op2, f2, g2, h2),
{
    let m = before.mask_of();
    let hh = key_hash(op2, f2, g2, h2) as usize;
    assert(hh & m <= m) by (bit_vector);
    let i2 = slot_of(op2, f2, g2, h2, m);
    assert(0 <= i2 < before.slots().len());
    let h1 = key_hash(op, f, g, h) as usize;
    assert(h1 & m <= m) by (bit_vector);
    let i1 = slot_of(op, f, g, h, m);
    assert(0 <= i1 < before.slots().len());
    assert(after.slots()[i2] == before.slots()[i2]);
}

/// A hit is always a result that was stored under exactly that key.
pub proof fn lemma_hit_is_stored(t: ComputedTable, op: OpTag, f: NodeId, g: NodeId, h: NodeId)
    requires
        t.wf(),
        t.cached(op, f, g, h) is Some,
    ensures
        t.slots().contains(
            Some(CacheEntry { op, f, g, h, result: t.cached(op, f, g, h)->Some_0 }),
        ),
{
    let i = slot_of(op, f, g, h, t.mask_of());
    let m = t.mask_of();
    let hh = key_hash(op, f, g, h) as usize;
    assert(hh & m <= m) by (bit_vector);
    assert(t.slots()[i] == Some(CacheEntry { op, f, g, h, result: t.cached(op, f, g, h)->Some_0 }));
}

/// A call on a computed table, as a history records it.
pub enum TableStep {
    /// `insert(op, f, g, h, result)`.
    Insert(OpTag, NodeId, NodeId, NodeId, NodeId),
    /// `lookup(op, f, g, h)`.
    Lookup(OpTag, NodeId, NodeId, NodeId),
    /// `clear()`.
    Clear,
}

/// The slots after the calls `ss`, from `slots`, in a table with index
/// mask `mask`: what the contracts of `insert`, `lookup` and `clear` make
/// of them.
pub open spec fn slots_after(
    slots: Seq<Option<CacheEntry>>,
    mask: usize,
    ss: Seq<TableStep>,
) -> Seq<Option<CacheEntry>>
    decreases ss.len(),
{
    if ss.len() == 0 {
        slots
    } else {
        let s = slots_after(slots, mask, ss.drop_last());
        match ss.last() {
            TableStep::Insert(op, f, g, h, result) => s.update(
                slot_of(op, f, g, h, mask),
                Some(CacheEntry { op, f, g, h, result }),
            ),
            TableStep::Lookup(..) => s,
            TableStep::Clear => Seq::new(s.len(), |i: int| None::<CacheEntry>),
        }
    }
}

/// What a lookup of the key finds in the slots.
pub open spec fn cached_in(
    slots: Seq<Option<CacheEntry>>,
    mask: usize,
    op: OpTag,
    f: NodeId,
    g: NodeId,
    h: NodeId,
) -> Option<NodeId> {
    match slots[slot_of(op, f, g, h, mask)] {
        Some(e) => if e.op == op && e.f == f && e.g == g && e.h == h {
            Some(e.result)
        } else {
            None
        },
        None => None,
    }
}

/// The result of the latest insert of the key among the calls `ss` after
/// the last clear, if there is one.
pub open spec fn latest_insert(ss: Seq<TableStep>, op: OpTag, f: NodeId, g: NodeId, h: NodeId) -> Option<
    NodeId,
>
    decreases ss.len(),
{
    if ss.len() == 0 {
        None
    } else {
        match ss.last() {
            TableStep::Insert(op2, f2, g2, h2, r) => if op2 == op && f2 == f && g2 == g && h2 == h {
                Some(r)
            } else {
                latest_insert(ss.drop_last(), op, f, g, h)
            },
            TableStep::Lookup(..) => latest_insert(ss.drop_last(), op, f, g, h),
            TableStep::Clear => None,
        }
    }
}

/// The last insert or clear among the calls `ss` is an insert of the key.
pub open spec fn last_write_of(ss: Seq<TableStep>, op: OpTag, f: NodeId, g: NodeId, h: NodeId) -> bool
    decreases ss.len(),
{
    if ss.len() == 0 {
        false
    } else {
        match ss.last() {
            TableStep::Insert(op2, f2, g2, h2, _) => op2 == op && f2 == f && g2 == g && h2 == h,
            TableStep::Lookup(..) => last_write_of(ss.drop_last(), op, f, g, h),
            TableStep::Clear => false,
        }
    }
}

/// A slot index lies inside a table of `mask + 1` slots.
proof fn lemma_slot_in_range(op: OpTag, f: NodeId, g: NodeId, h: NodeId, mask: usize)
    ensures
        0 <= slot_of(op, f, g, h, mask) <= mask,
{
    let hh = key_hash(op, f, g, h) as usize;
    assert(hh & mask <= mask) by (bit_vector);
}

/// After any calls from empty slots, every stored entry sits in its slot
/// and holds the latest result inserted under its key since the last
/// clear; the key of the last write is stored.
proof fn lemma_slots_after(slots: Seq<Option<CacheEntry>>, mask: usize, ss: Seq<TableStep>)
    requires
        slots.len() == mask as nat + 1,
        forall|i: int| 0 <= i < slots.len() ==> slots[i] is None,
    ensures
        slots_after(slots, mask, ss).len() == slots.len(),
        forall|i: int|
            0 <= i < slots.len() && (#[trigger] slots_after(slots, mask, ss)[i]) is Some ==> {
                let e = slots_after(slots, mask, ss)[i]->Some_0;
                &&& slot_of(e.op, e.f, e.g, e.h, mask) == i
                &&& latest_insert(ss, e.op, e.f, e.g, e.h) == Some(e.result)
            },
        forall|op: OpTag, f: NodeId, g: NodeId, h: NodeId|
            #[trigger] last_write_of(ss, op, f, g, h) ==> slots_after(slots, mask, ss)[slot_of(
                op,
                f,
                g,
                h,
                mask,
            )] == Some(CacheEntry { op, f, g, h, result: latest_insert(ss, op, f, g, h)->Some_0 }),
    decreases ss.len(),
{
    if ss.len() > 0 {
        let d = ss.drop_last();
        lemma_slots_after(slots, mask, d);
        let s = slots_after(slots, mask, d);
        let t = slots_after(slots, mask, ss);
        match ss.last() {
            TableStep::Insert(op, f, g, h, result) => {
                lemma_slot_in_range(op, f, g, h, mask);
                let j = slot_of(op, f, g, h, mask);
                assert forall|i: int| 0 <= i < slots.len() && (#[trigger] t[i]) is Some implies {
                    let e = t[i]->Some_0;
                    &&& slot_of(e.op, e.f, e.g, e.h, mask) == i
                    &&& latest_insert(ss, e.op, e.f, e.g, e.h) == Some(e.result)
                } by {
                    if i != j {
                        assert(t[i] == s[i]);
                        let e = s[i]->Some_0;
                        assert(!(e.op == op && e.f == f && e.g == g && e.h == h));
                    }
                }
                assert forall|op2: OpTag, f2: NodeId, g2: NodeId, h2: NodeId|
                    #[trigger] last_write_of(ss, op2, f2, g2, h2) implies t[slot_of(op2, f2, g2, h2, mask)]
                    == Some(CacheEntry { op: op2, f: f2, g: g2, h: h2, result: latest_insert(ss, op2, f2, g2, h2)->Some_0 }) by {
                }
            },
            TableStep::Lookup(..) => {
                assert forall|op2: OpTag, f2: NodeId, g2: NodeId, h2: NodeId|
                    #[trigger] last_write_of(ss, op2, f2, g2, h2) implies t[slot_of(op2, f2, g2, h2, mask)]
                    == Some(CacheEntry { op: op2, f: f2, g: g2, h: h2, result: latest_insert(ss, op2, f2, g2, h2)->Some_0 }) by {
                    assert(last_write_of(d, op2, f2, g2, h2));
                }
            },
            TableStep::Clear => {},
        }
    }
}

/// What a table gives back after a history of calls: from empty slots (as
/// `new` and `clear` leave them), a lookup of a key finds nothing, or the
/// result of the latest insert of that key since the last clear, never a
/// result stored under another key; nothing when there was no such
/// insert; and that result when the last insert or clear was an insert of
/// the key.
pub proof fn lemma_table_history(
    slots: Seq<Option<CacheEntry>>,
    mask: usize,
    ss: Seq<TableStep>,
    op: OpTag,
    f: NodeId,
    g: NodeId,
    h: NodeId,
)
    requires
        slots.len() == mask as nat + 1,
        forall|i: int| 0 <= i < slots.len() ==> slots[i] is None,
    ensures
        cached_in(slots_after(slots, mask, ss), mask, op, f, g, h) is None || cached_in(
            slots_after(slots, mask, ss),
            mask,
            op,
            f,
            g,
            h,
        ) == latest_insert(ss, op, f, g, h),
        latest_insert(ss, op, f, g, h) is None ==> cached_in(slots_after(slots, mask, ss), mask, op, f, g, h) is None,
        last_write_of(ss, op, f, g, h) ==> cached_in(slots_after(slots, mask, ss), mask, op, f, g, h)
            == latest_insert(ss, op, f, g, h),
{
    lemma_slots_after(slots, mask, ss);
    lemma_slot_in_range(op, f, g, h, mask);
    let t = slots_after(slots, mask, ss);
    let i = slot_of(op, f, g, h, mask);
    if t[i] is Some {
        assert(0 <= i < slots.len());
    }
    if last_write_of(ss, op, f, g, h) {
        assert(t[i] == Some(CacheEntry { op, f, g, h, result: latest_insert(ss, op, f, g, h)->Some_0 }));
    }
}

} // verus!
