//! Multi-way tree (MTR) of variable groups.
//!
//! A group is a contiguous range of variable levels `[low .. low + size)`.
//! Groups nest: the children of a group are sorted, non-overlapping
//! sub-ranges of it.  During group-constrained reordering a variable only
//! moves inside its innermost group, and a group moves as a unit inside
//! its parent.
use vstd::prelude::*;

verus! {

// -----------------------------------------------------------------------
// GroupFlags
// -----------------------------------------------------------------------

/// Flags that control how a variable group behaves during reordering.
///
/// Bit 0 is FIXED (the relative order inside the group is fixed), bit 1
/// is TERMINAL (no sub-groups allowed); no bit set is the default.
#[derive(Clone, Copy, Debug, PartialEq, Eq, Hash, Structural)]
pub struct GroupFlags {
    bits: u8,
}

impl GroupFlags {
    /// The raw flag bits.
    pub closed spec fn bits_of(self) -> u8 {
        self.bits
    }

    /// The FIXED bit is set.
    pub open spec fn is_fixed(self) -> bool {
        self.bits_of() & 1 == 1
    }

    /// The TERMINAL bit is set.
    pub open spec fn is_terminal(self) -> bool {
        self.bits_of() & 2 == 2
    }

    /// Flags are determined by their bits.
    pub proof fn lemma_bits_determine(a: GroupFlags, b: GroupFlags)
        requires
            a.bits_of() == b.bits_of(),
        ensures
            a == b,
    {
    }

    /// No flag: the group can be reordered freely.
    pub fn default_flags() -> (r: GroupFlags)
        ensures
            r.bits_of() == 0,
            !r.is_fixed(),
            !r.is_terminal(),
    {
        assert(0u8 & 1 == 0 && 0u8 & 2 == 0) by (bit_vector);
        GroupFlags { bits: 0 }
    }

    /// The relative order of variables inside the group is fixed.
    pub fn fixed() -> (r: GroupFlags)
        ensures
            r.bits_of() == 1,
            r.is_fixed(),
            !r.is_terminal(),
    {
        assert(1u8 & 1 == 1 && 1u8 & 2 == 0) by (bit_vector);
        GroupFlags { bits: 1 }
    }

    /// Leaf group: no sub-groups are allowed.
    pub fn terminal() -> (r: GroupFlags)
        ensures
            r.bits_of() == 2,
            !r.is_fixed(),
            r.is_terminal(),
    {
        assert(2u8 & 1 == 0 && 2u8 & 2 == 2) by (bit_vector);
        GroupFlags { bits: 2 }
    }

    /// The raw flag bits.
    pub fn bits(&self) -> (r: u8)
        ensures
            r == self.bits_of(),
    {
        self.bits
    }

    /// Flags from raw bits, dropping bits that name no flag.
    pub fn from_bits_truncate(bits: u8) -> (r: GroupFlags)
        ensures
            r.bits_of() == bits & 3,
    {
        GroupFlags { bits: bits & 3 }
    }

    /// Whether every flag set in `other` is also set in `self`.
    pub fn contains(&self, other: GroupFlags) -> (r: bool)
        ensures
            r == (self.bits_of() & other.bits_of() == other.bits_of()),
    {
        self.bits & other.bits == other.bits
    }

    /// The flags set in either operand.
    pub fn union(self, other: GroupFlags) -> (r: GroupFlags)
        ensures
            r.bits_of() == self.bits_of() | other.bits_of(),
    {
        GroupFlags { bits: self.bits | other.bits }
    }
}

impl Default for GroupFlags {
    /// The default flags: none set.
    fn default() -> (r: GroupFlags)
        ensures
            r.bits_of() == 0,
    {
        GroupFlags::default_flags()
    }
}

// -----------------------------------------------------------------------
// MtrNode: model
// -----------------------------------------------------------------------

/// A single node in the multi-way group tree, covering the levels
/// `[low .. low + size)`.
#[derive(Debug)]
pub struct MtrNode {
    /// Lowest variable level in this group.
    pub low: u16,
    /// Number of variable levels in this group.
    pub size: u16,
    /// Behavioural flags (FIXED, TERMINAL, ...).
    pub flags: GroupFlags,
    /// Child groups, sorted by `low` and non-overlapping, each contained
    /// in the parent's range.
    pub children: Vec<MtrNode>,
}

/// Exclusive upper bound of a node's range.
pub open spec fn hi(n: MtrNode) -> nat {
    n.low as nat + n.size as nat
}

/// Every node of the tree has a range whose end fits in `u16`.
pub open spec fn fits(n: MtrNode) -> bool
    decreases n,
{
    &&& hi(n) <= 0xFFFF
    &&& forall|i: int| 0 <= i < n.children@.len() ==> fits(#[trigger] n.children@[i])
}

/// The children of `n` are sorted, pairwise non-overlapping and inside `n`.
pub open spec fn children_ordered(n: MtrNode) -> bool {
    &&& forall|i: int|
        0 <= i < n.children@.len() ==> n.low <= (#[trigger] n.children@[i]).low && hi(
            n.children@[i],
        ) <= hi(n)
    &&& forall|i: int, j: int|
        0 <= i < j < n.children@.len() ==> hi(#[trigger] n.children@[i]) <= (
        #[trigger] n.children@[j]).low
}

/// The tree invariants checked by `validate`: ranges fit, TERMINAL
/// nodes have no children, and at every node the children are sorted,
/// non-overlapping and contained in their parent.
pub open spec fn valid(n: MtrNode) -> bool
    decreases n,
{
    &&& hi(n) <= 0xFFFF
    &&& (n.flags.is_terminal() ==> n.children@.len() == 0)
    &&& children_ordered(n)
    &&& forall|i: int| 0 <= i < n.children@.len() ==> valid(#[trigger] n.children@[i])
}

/// The innermost group of the tree rooted at `n` that contains `level`,
/// following the first child that contains it; `n` itself when none does.
pub open spec fn group_of(n: MtrNode, level: u16) -> MtrNode
    decreases n,
{
    let i = first_containing(n.children@, level);
    if 0 <= i < n.children@.len() {
        group_of(n.children@[i], level)
    } else {
        n
    }
}

/// Whether `level` lies in the node's range.
pub open spec fn in_range(n: MtrNode, level: u16) -> bool {
    n.low <= level && (level as nat) < hi(n)
}

/// Index of the first node of `s` that contains `level` (`s.len()` if none).
pub open spec fn first_containing(s: Seq<MtrNode>, level: u16) -> int
    decreases s.len(),
{
    if s.len() == 0 {
        0
    } else if in_range(s[0], level) {
        0
    } else {
        1 + first_containing(s.skip(1), level)
    }
}

proof fn lemma_first_containing(s: Seq<MtrNode>, level: u16)
    ensures
        0 <= first_containing(s, level) <= s.len(),
        forall|j: int| 0 <= j < first_containing(s, level) ==> !in_range(#[trigger] s[j], level),
        first_containing(s, level) < s.len() ==> in_range(s[first_containing(s, level)], level),
    decreases s.len(),
{
    if s.len() > 0 && !in_range(s[0], level) {
        lemma_first_containing(s.skip(1), level);
        assert forall|j: int| 0 <= j < first_containing(s, level) implies !in_range(
            #[trigger] s[j],
            level,
        ) by {
            if j > 0 {
                assert(s[j] == s.skip(1)[j - 1]);
            }
        }
    }
}

impl MtrNode {
    /// Create a new MTR node covering `[low .. low + size)`, without children.
    pub fn new(low: u16, size: u16, flags: GroupFlags) -> (r: MtrNode)
        ensures
            r.low == low,
            r.size == size,
            r.flags == flags,
            r.children@.len() == 0,
    {
        MtrNode { low, size, flags, children: Vec::new() }
    }

    /// The (exclusive) upper bound of the level range.
    pub fn high(&self) -> (r: u16)
        requires
            hi(*self) <= 0xFFFF,
        ensures
            r == hi(*self),
    {
        self.low + self.size
    }

    /// Returns `true` when `level` falls inside this group.
    pub fn contains(&self, level: u16) -> (r: bool)
        requires
            hi(*self) <= 0xFFFF,
        ensures
            r == in_range(*self, level),
    {
        level >= self.low && level < self.high()
    }

    /// Find the innermost group that contains `level`.
    ///
    /// Returns `self` when no child covers `level`.
    pub fn find_group(&self, level: u16) -> (r: &MtrNode)
        requires
            fits(*self),
        ensures
            *r == group_of(*self, level),
        decreases *self,
    {
        let mut i: usize = 0;
        while i < self.children.len()
            invariant
                fits(*self),
                i <= self.children@.len(),
                forall|j: int| 0 <= j < i ==> !in_range(#[trigger] self.children@[j], level),
            decreases self.children@.len() - i,
        {
            proof {
                reveal_with_fuel(fits, 2);
            }
            assert(fits(self.children@[i as int]));
            if self.children[i].contains(level) {
                proof {
                    lemma_first_containing(self.children@, level);
                }
                return self.children[i].find_group(level);
            }
            i += 1;
        }
        proof {
            lemma_first_containing(self.children@, level);
        }
        self
    }

    /// Check the tree invariants.
    ///
    /// Every child is contained in its parent, children are sorted by
    /// `low` and non-overlapping, and TERMINAL nodes have no children.
    pub fn validate(&self)
        requires
            valid(*self),
        decreases *self,
    {
        let mut i: usize = 0;
        while i < self.children.len()
            invariant
                valid(*self),
                i <= self.children@.len(),
            decreases self.children@.len() - i,
        {
            assert(valid(self.children@[i as int]));
            self.children[i].validate();
            i += 1;
        }
    }
}

// -----------------------------------------------------------------------
// Leaf sifting blocks
// -----------------------------------------------------------------------

/// A sifting block: `(low, size, fixed)`.
pub type Block = (u16, u16, bool);

/// One singleton, non-fixed block per level in `[from .. to)`.
pub open spec fn gap_blocks(from: nat, to: nat) -> Seq<Block> {
    Seq::new(
        if to > from {
            (to - from) as nat
        } else {
            0
        },
        |k: int| ((from + k) as u16, 1u16, false),
    )
}

/// The leaf blocks of the tree rooted at `n`, in level order: a leaf is
/// one block; an inner node contributes its children's blocks and one
/// singleton block for every level no child covers.
pub open spec fn blocks_of(n: MtrNode) -> Seq<Block>
    decreases n, n.children@.len() + 1,
{
    if n.children@.len() == 0 {
        seq![(n.low, n.size, n.flags.is_fixed())]
    } else {
        blocks_from(n, 0, n.low as nat)
    }
}

/// The blocks of `n` from child `i` on, the levels before that child
/// starting at `cursor`.
pub open spec fn blocks_from(n: MtrNode, i: nat, cursor: nat) -> Seq<Block>
    decreases n, n.children@.len() - i,
{
    if i >= n.children@.len() {
        gap_blocks(cursor, hi(n))
    } else {
        let c = n.children@[i as int];
        gap_blocks(cursor, c.low as nat) + blocks_of(c) + blocks_from(n, i + 1, hi(c))
    }
}

/// The blocks `s` lie end to end, starting at level `a` and ending at `b`.
pub open spec fn tiles(s: Seq<Block>, a: nat, b: nat) -> bool
    decreases s.len(),
{
    if s.len() == 0 {
        a == b
    } else {
        s[0].0 as nat == a && tiles(s.skip(1), a + s[0].1 as nat, b)
    }
}

proof fn lemma_tiles_concat(s1: Seq<Block>, s2: Seq<Block>, a: nat, b: nat, c: nat)
    requires
        tiles(s1, a, b),
        tiles(s2, b, c),
    ensures
        tiles(s1 + s2, a, c),
    decreases s1.len(),
{
    if s1.len() == 0 {
        assert(s1 + s2 =~= s2);
    } else {
        lemma_tiles_concat(s1.skip(1), s2, a + s1[0].1 as nat, b, c);
        assert((s1 + s2).skip(1) =~= s1.skip(1) + s2);
    }
}

proof fn lemma_gap_tiles(from: nat, to: nat)
    requires
        from <= to <= 0xFFFF,
    ensures
        tiles(gap_blocks(from, to), from, to),
    decreases to - from,
{
    if from < to {
        lemma_gap_tiles(from + 1, to);
        assert(gap_blocks(from, to).skip(1) =~= gap_blocks(from + 1, to));
    } else {
        assert(gap_blocks(from, to).len() == 0);
    }
}

/// In a valid tree the leaf blocks lie end to end and cover exactly the
/// root's range.
pub proof fn lemma_blocks_tile(n: MtrNode)
    requires
        valid(n),
    ensures
        tiles(blocks_of(n), n.low as nat, hi(n)),
    decreases n, n.children@.len() + 1,
{
    if n.children@.len() == 0 {
        let s = seq![(n.low, n.size, n.flags.is_fixed())];
        assert(s.skip(1) =~= Seq::<Block>::empty());
        assert(tiles(s.skip(1), n.low as nat + n.size as nat, hi(n)));
        assert(tiles(s, n.low as nat, hi(n)));
    } else {
        lemma_blocks_from_tile(n, 0, n.low as nat);
    }
}

proof fn lemma_blocks_from_tile(n: MtrNode, i: nat, cursor: nat)
    requires
        valid(n),
        i <= n.children@.len(),
        i < n.children@.len() ==> cursor <= n.children@[i as int].low,
        i == n.children@.len() ==> cursor <= hi(n),
        n.low <= cursor,
    ensures
        tiles(blocks_from(n, i, cursor), cursor, hi(n)),
    decreases n, n.children@.len() - i,
{
    if i >= n.children@.len() {
        lemma_gap_tiles(cursor, hi(n));
    } else {
        let c = n.children@[i as int];
        assert(valid(c));
        lemma_gap_tiles(cursor, c.low as nat);
        lemma_blocks_tile(c);
        if i + 1 < n.children@.len() {
            assert(hi(c) <= n.children@[i + 1int].low);
        }
        lemma_blocks_from_tile(n, i + 1, hi(c));
        lemma_tiles_concat(blocks_of(c), blocks_from(n, i + 1, hi(c)), c.low as nat, hi(c), hi(n));
        lemma_tiles_concat(
            gap_blocks(cursor, c.low as nat),
            blocks_of(c) + blocks_from(n, i + 1, hi(c)),
            cursor,
            c.low as nat,
            hi(n),
        );
        assert(gap_blocks(cursor, c.low as nat) + blocks_of(c) + blocks_from(n, i + 1, hi(c))
            =~= gap_blocks(cursor, c.low as nat) + (blocks_of(c) + blocks_from(n, i + 1, hi(c))));
    }
}

/// Every group of the tree rooted at `n` spans at least one level.
pub open spec fn sizes_positive(n: MtrNode) -> bool
    decreases n,
{
    &&& n.size >= 1
    &&& forall|i: int| 0 <= i < n.children@.len() ==> sizes_positive(#[trigger] n.children@[i])
}

/// Where every group spans at least one level, so does every leaf block.
pub proof fn lemma_blocks_nonempty(n: MtrNode)
    requires
        sizes_positive(n),
    ensures
        forall|k: int| 0 <= k < blocks_of(n).len() ==> (#[trigger] blocks_of(n)[k]).1 >= 1,
    decreases n, n.children@.len() + 1,
{
    if n.children@.len() > 0 {
        lemma_blocks_from_nonempty(n, 0, n.low as nat);
        assert(blocks_of(n) == blocks_from(n, 0, n.low as nat));
    } else {
        let s = seq![(n.low, n.size, n.flags.is_fixed())];
        assert(blocks_of(n) == s);
        assert(s[0].1 == n.size);
    }
}

proof fn lemma_blocks_from_nonempty(n: MtrNode, i: nat, cursor: nat)
    requires
        sizes_positive(n),
        i <= n.children@.len(),
    ensures
        forall|k: int|
            0 <= k < blocks_from(n, i, cursor).len() ==> (#[trigger] blocks_from(n, i, cursor)[k]).1 >= 1,
    decreases n, n.children@.len() - i,
{
    if i < n.children@.len() {
        let c = n.children@[i as int];
        assert(sizes_positive(c));
        lemma_blocks_nonempty(c);
        lemma_blocks_from_nonempty(n, i + 1, hi(c));
        let g = gap_blocks(cursor, c.low as nat);
        let b = blocks_of(c);
        let rest = blocks_from(n, i + 1, hi(c));
        assert forall|k: int| 0 <= k < (g + b + rest).len() implies (#[trigger] (g + b + rest)[k]).1 >= 1 by {
            if k < g.len() {
                assert((g + b + rest)[k] == g[k]);
            } else if k < g.len() + b.len() {
                assert((g + b + rest)[k] == b[k - g.len()]);
            } else {
                assert((g + b + rest)[k] == rest[k - g.len() - b.len()]);
            }
        }
    } else {
        let g = gap_blocks(cursor, hi(n));
        assert forall|k: int| 0 <= k < g.len() implies (#[trigger] g[k]).1 >= 1 by {}
    }
}

/// A block of the tree rooted at `n` is a group's own range or a single
/// free level: the innermost group `g` containing the block's first level
/// either has no children and the block is exactly `g`'s range and FIXED
/// flag, or has children and the block is one level, not fixed, that none
/// of them covers.
pub open spec fn block_of_group(n: MtrNode, b: Block) -> bool {
    let g = group_of(n, b.0);
    ||| g.children@.len() == 0 && b == (g.low, g.size, g.flags.is_fixed())
    ||| g.children@.len() > 0 && b.1 == 1 && !b.2
}

/// Blocks laid end to end from `a` to `b`, each at least one level long,
/// start inside `[a, b)` and end by `b`.
proof fn lemma_tiles_in_range(s: Seq<Block>, a: nat, b: nat)
    requires
        tiles(s, a, b),
        forall|k: int| 0 <= k < s.len() ==> (#[trigger] s[k]).1 >= 1,
    ensures
        forall|k: int| 0 <= k < s.len() ==> a <= (#[trigger] s[k]).0 && s[k].0 as nat + s[k].1 as nat <= b,
    decreases s.len(),
{
    if s.len() > 0 {
        let t = s.skip(1);
        assert forall|k: int| 0 <= k < t.len() implies (#[trigger] t[k]).1 >= 1 by {
            assert(t[k] == s[k + 1]);
        }
        lemma_tiles_in_range(t, a + s[0].1 as nat, b);
        lemma_tiles_bound(t, a + s[0].1 as nat, b);
        assert forall|k: int| 0 <= k < s.len() implies a <= (#[trigger] s[k]).0 && s[k].0 as nat + s[k].1 as nat <= b by {
            if k > 0 {
                assert(s[k] == t[k - 1]);
            }
        }
    }
}

proof fn lemma_tiles_bound(s: Seq<Block>, a: nat, b: nat)
    requires
        tiles(s, a, b),
    ensures
        a <= b,
    decreases s.len(),
{
    if s.len() > 0 {
        lemma_tiles_bound(s.skip(1), a + s[0].1 as nat, b);
    }
}

/// The innermost group of a level that the `i`-th child of `n` covers is
/// found inside that child.
proof fn lemma_group_in_child(n: MtrNode, i: int, level: u16)
    requires
        valid(n),
        0 <= i < n.children@.len(),
        in_range(n.children@[i], level),
    ensures
        group_of(n, level) == group_of(n.children@[i], level),
{
    let s = n.children@;
    lemma_first_containing(s, level);
    let f = first_containing(s, level);
    if f < i {
        assert(hi(s[f]) <= s[i].low);
    } else if f > i {
        assert(!in_range(s[i], level));
    }
}

/// A level that no child of `n` covers has `n` as its innermost group.
proof fn lemma_group_uncovered(n: MtrNode, level: u16)
    requires
        forall|j: int| 0 <= j < n.children@.len() ==> !in_range(#[trigger] n.children@[j], level),
    ensures
        group_of(n, level) == n,
{
    lemma_first_containing(n.children@, level);
}

/// Every leaf block of a valid tree whose groups are non-empty is a
/// childless group's range or a single level no child of its group covers.
pub proof fn lemma_blocks_are_groups(n: MtrNode)
    requires
        valid(n),
        sizes_positive(n),
    ensures
        forall|k: int| 0 <= k < blocks_of(n).len() ==> block_of_group(n, #[trigger] blocks_of(n)[k]),
    decreases n, n.children@.len() + 1,
{
    if n.children@.len() == 0 {
        let s = seq![(n.low, n.size, n.flags.is_fixed())];
        assert(blocks_of(n) == s);
        lemma_first_containing(n.children@, n.low);
        assert(group_of(n, n.low) == n);
        assert(block_of_group(n, s[0]));
    } else {
        lemma_blocks_from_groups(n, 0, n.low as nat);
        assert(blocks_of(n) == blocks_from(n, 0, n.low as nat));
    }
}

proof fn lemma_blocks_from_groups(n: MtrNode, i: nat, cursor: nat)
    requires
        valid(n),
        sizes_positive(n),
        n.children@.len() > 0,
        i <= n.children@.len(),
        n.low <= cursor,
        forall|j: int| 0 <= j < i ==> hi(#[trigger] n.children@[j]) <= cursor,
    ensures
        forall|k: int|
            0 <= k < blocks_from(n, i, cursor).len() ==> block_of_group(n, #[trigger] blocks_from(n, i, cursor)[k]),
    decreases n, n.children@.len() - i,
{
    let s = n.children@;
    if i < s.len() {
        let c = s[i as int];
        assert(valid(c));
        assert(sizes_positive(c));
        let g = gap_blocks(cursor, c.low as nat);
        let b = blocks_of(c);
        let rest = blocks_from(n, i + 1, hi(c));
        lemma_blocks_are_groups(c);
        lemma_blocks_tile(c);
        lemma_blocks_nonempty(c);
        lemma_tiles_in_range(b, c.low as nat, hi(c));
        assert forall|j: int| 0 <= j < i + 1 implies hi(#[trigger] s[j]) <= hi(c) by {
            if j < i {
                assert(hi(s[j]) <= c.low);
            }
        }
        lemma_blocks_from_groups(n, i + 1, hi(c));
        assert(blocks_from(n, i as nat, cursor) == g + b + rest);
        assert forall|k: int| 0 <= k < (g + b + rest).len() implies block_of_group(n, #[trigger] (g + b + rest)[k]) by {
            if k < g.len() {
                assert((g + b + rest)[k] == g[k]);
                let level = g[k].0;
                assert(level as nat == cursor + k);
                assert forall|j: int| 0 <= j < s.len() implies !in_range(#[trigger] s[j], level) by {
                    if j > i {
                        assert(hi(c) <= s[j].low);
                    }
                }
                lemma_group_uncovered(n, level);
            } else if k < g.len() + b.len() {
                assert((g + b + rest)[k] == b[k - g.len()]);
                let bk = b[k - g.len()];
                assert(block_of_group(c, bk));
                assert(in_range(c, bk.0));
                lemma_group_in_child(n, i as int, bk.0);
            } else {
                assert((g + b + rest)[k] == rest[k - g.len() - b.len()]);
            }
        }
    } else {
        let g = gap_blocks(cursor, hi(n));
        assert forall|k: int| 0 <= k < g.len() implies block_of_group(n, #[trigger] g[k]) by {
            let level = g[k].0;
            assert(level as nat == cursor + k);
            lemma_group_uncovered(n, level);
        }
    }
}

/// Append the leaf blocks of the tree rooted at `node` to `out`.
fn collect_leaf_blocks(node: &MtrNode, out: &mut Vec<Block>)
    requires
        fits(*node),
    ensures
        final(out)@ == old(out)@ + blocks_of(*node),
    decreases *node, node.children@.len() + 1,
{
    if node.children.len() == 0 {
        let fixed = node.flags.contains(GroupFlags::fixed());
        out.push((node.low, node.size, fixed));
        proof {
            assert(final(out)@ =~= old(out)@ + blocks_of(*node));
        }
        return;
    }
    let mut cursor = node.low;
    let mut i: usize = 0;
    while i < node.children.len()
        invariant
            fits(*node),
            node.children@.len() > 0,
            i <= node.children@.len(),
            out@ + blocks_from(*node, i as nat, cursor as nat) == old(out)@ + blocks_of(*node),
        decreases node.children@.len() - i,
    {
        let child = &node.children[i];
        assert(fits(*child));
        let ghost out0 = out@;
        let ghost cursor0 = cursor as nat;
        while cursor < child.low
            invariant
                out@ == out0 + gap_blocks(cursor0, cursor as nat),
                cursor0 <= cursor <= child.low || (cursor == cursor0 && cursor0 >= child.low),
            decreases child.low - cursor,
        {
            proof {
                assert(gap_blocks(cursor0, cursor as nat + 1) =~= gap_blocks(cursor0, cursor as nat).push(
                    (cursor, 1u16, false),
                ));
            }
            out.push((cursor, 1, false));
            cursor += 1;
        }
        proof {
            assert(cursor as nat == child.low || cursor0 >= child.low);
            assert(gap_blocks(cursor0, cursor as nat) =~= gap_blocks(cursor0, child.low as nat));
        }
        collect_leaf_blocks(child, out);
        cursor = child.high();
        proof {
            assert(out@ + blocks_from(*node, i as nat + 1, cursor as nat) =~= out0 + blocks_from(
                *node,
                i as nat,
                cursor0,
            ));
        }
        i += 1;
    }
    let ghost out0 = out@;
    let ghost cursor0 = cursor as nat;
    assert(hi(*node) <= 0xFFFF);
    let high = node.high();
    while cursor < high
        invariant
            out@ == out0 + gap_blocks(cursor0, cursor as nat),
            cursor0 <= cursor <= high || (cursor == cursor0 && cursor0 >= high),
            high == hi(*node),
        decreases high - cursor,
    {
        proof {
            assert(gap_blocks(cursor0, cursor as nat + 1) =~= gap_blocks(cursor0, cursor as nat).push(
                (cursor, 1u16, false),
            ));
        }
        out.push((cursor, 1, false));
        cursor += 1;
    }
    proof {
        assert(gap_blocks(cursor0, cursor as nat) =~= gap_blocks(cursor0, hi(*node)));
        assert(blocks_from(*node, i as nat, cursor0) == gap_blocks(cursor0, hi(*node)));
    }
}

// -----------------------------------------------------------------------
// Inserting a child group
// -----------------------------------------------------------------------

/// `c` lies inside `[low .. high)` and is absorbed by a new group there.
pub open spec fn inside(c: MtrNode, low: nat, high: nat) -> bool {
    low <= c.low && hi(c) <= high
}

/// `c` is inside `[low .. high)` or disjoint from it.
pub open spec fn no_partial_overlap(c: MtrNode, low: nat, high: nat) -> bool {
    inside(c, low, high) || hi(c) <= low || c.low >= high
}

/// The first index at or after `i` whose node starts at or above `key`.
pub open spec fn first_at_least(s: Seq<MtrNode>, key: nat, i: nat) -> nat
    decreases s.len() - i,
{
    if i >= s.len() {
        s.len()
    } else if s[i as int].low >= key {
        i
    } else {
        first_at_least(s, key, i + 1)
    }
}

/// The end of the run of nodes inside `[low .. high)` starting at `i`.
pub open spec fn inside_end(s: Seq<MtrNode>, low: nat, high: nat, i: nat) -> nat
    decreases s.len() - i,
{
    if i >= s.len() {
        s.len()
    } else if inside(s[i as int], low, high) {
        inside_end(s, low, high, i + 1)
    } else {
        i
    }
}

/// The first index at or after `i` whose node starts above `key`.
pub open spec fn first_above(s: Seq<MtrNode>, key: nat, i: nat) -> nat
    decreases s.len() - i,
{
    if i >= s.len() {
        s.len()
    } else if s[i as int].low > key {
        i
    } else {
        first_above(s, key, i + 1)
    }
}

/// Insert `e` after every node of `t` that starts at or below it.
pub open spec fn insert_by_low(t: Seq<MtrNode>, e: MtrNode) -> Seq<MtrNode> {
    t.insert(first_above(t, e.low as nat, 0) as int, e)
}

/// Stable insertion sort by `low`.
pub open spec fn sort_by_low(s: Seq<MtrNode>) -> Seq<MtrNode>
    decreases s.len(),
{
    if s.len() == 0 {
        s
    } else {
        insert_by_low(sort_by_low(s.drop_last()), s.last())
    }
}

/// Sorting by `low` keeps every node, as often as it occurs.
proof fn lemma_sort_multiset(s: Seq<MtrNode>)
    ensures
        sort_by_low(s).to_multiset() == s.to_multiset(),
    decreases s.len(),
{
    if s.len() > 0 {
        let d = s.drop_last();
        lemma_sort_multiset(d);
        let t = sort_by_low(d);
        lemma_first_above(t, s.last().low as nat, 0);
        vstd::seq_lib::to_multiset_insert(t, first_above(t, s.last().low as nat, 0) as int, s.last());
        assert(s =~= d.push(s.last()));
        vstd::seq_lib::to_multiset_build(d, s.last());
    }
}

/// Nodes are in non-decreasing order of `low`.
pub open spec fn lows_sorted(s: Seq<MtrNode>) -> bool {
    forall|i: int, j: int| 0 <= i < j < s.len() ==> (#[trigger] s[i]).low <= (#[trigger] s[j]).low
}

/// What inserting the group `[low .. low + size)` with `flags` as a
/// child of `old` produces: the children inside the new range move, in
/// the order of a stable sort by `low` of their reversed sequence, into
/// the new node, which takes their place among the remaining children.
pub open spec fn child_inserted(old: MtrNode, new: MtrNode, low: u16, size: u16, flags: GroupFlags) -> bool {
    let s = old.children@;
    let high = low as nat + size as nat;
    let a = first_at_least(s, low as nat, 0);
    let e = inside_end(s, low as nat, high, a);
    &&& new.low == old.low
    &&& new.size == old.size
    &&& new.flags == old.flags
    &&& a <= e <= s.len()
    &&& new.children@.len() == s.len() - (e - a) + 1
    &&& new.children@.take(a as int) == s.take(a as int)
    &&& new.children@.skip(a + 1int) == s.skip(e as int)
    &&& new.children@[a as int].low == low
    &&& new.children@[a as int].size == size
    &&& new.children@[a as int].flags == flags
    &&& new.children@[a as int].children@ == sort_by_low(s.subrange(a as int, e as int).reverse())
}

/// The conditions under which `insert_child` inserts without panicking.
pub open spec fn can_insert_child(n: MtrNode, low: u16, size: u16) -> bool {
    let high = low as nat + size as nat;
    &&& low >= n.low
    &&& high <= hi(n)
    &&& !n.flags.is_terminal()
    &&& forall|i: int|
        0 <= i < n.children@.len() ==> no_partial_overlap(#[trigger] n.children@[i], low as nat, high)
}

proof fn lemma_first_at_least(s: Seq<MtrNode>, key: nat, i: nat)
    requires
        i <= s.len(),
    ensures
        i <= first_at_least(s, key, i) <= s.len(),
        forall|j: int| i <= j < first_at_least(s, key, i) ==> (#[trigger] s[j]).low < key,
        first_at_least(s, key, i) < s.len() ==> s[first_at_least(s, key, i) as int].low >= key,
    decreases s.len() - i,
{
    if i < s.len() && s[i as int].low < key {
        lemma_first_at_least(s, key, i + 1);
    }
}

proof fn lemma_first_above(s: Seq<MtrNode>, key: nat, i: nat)
    requires
        i <= s.len(),
    ensures
        i <= first_above(s, key, i) <= s.len(),
        forall|j: int| i <= j < first_above(s, key, i) ==> (#[trigger] s[j]).low <= key,
        first_above(s, key, i) < s.len() ==> s[first_above(s, key, i) as int].low > key,
    decreases s.len() - i,
{
    if i < s.len() && s[i as int].low <= key {
        lemma_first_above(s, key, i + 1);
    }
}

proof fn lemma_inside_end(s: Seq<MtrNode>, low: nat, high: nat, i: nat)
    requires
        i <= s.len(),
    ensures
        i <= inside_end(s, low, high, i) <= s.len(),
        forall|j: int| i <= j < inside_end(s, low, high, i) ==> inside(#[trigger] s[j], low, high),
        inside_end(s, low, high, i) < s.len() ==> !inside(s[inside_end(s, low, high, i) as int], low, high),
    decreases s.len() - i,
{
    if i < s.len() && inside(s[i as int], low, high) {
        lemma_inside_end(s, low, high, i + 1);
    }
}

/// In an ordered child list without partial overlaps, the children
/// inside `[low .. high)` are exactly those from `first_at_least` to
/// `inside_end`; those after start at or above `high`.
proof fn lemma_inside_range(n: MtrNode, low: nat, high: nat)
    requires
        children_ordered(n),
        low <= high,
        forall|i: int| 0 <= i < n.children@.len() ==> no_partial_overlap(#[trigger] n.children@[i], low, high),
    ensures
        ({
            let s = n.children@;
            let a = first_at_least(s, low, 0);
            let e = inside_end(s, low, high, a);
            &&& a <= e <= s.len()
            &&& forall|j: int| 0 <= j < s.len() ==> (inside(#[trigger] s[j], low, high) <==> a <= j < e)
            &&& forall|j: int| 0 <= j < a ==> hi(#[trigger] s[j]) <= low
            &&& forall|j: int| e <= j < s.len() ==> (#[trigger] s[j]).low >= high && (s[j].low > low || hi(s[j]) > high)
        }),
{
    let s = n.children@;
    lemma_first_at_least(s, low, 0);
    let a = first_at_least(s, low, 0);
    lemma_inside_end(s, low, high, a);
    let e = inside_end(s, low, high, a);
    assert forall|j: int| 0 <= j < s.len() implies (inside(#[trigger] s[j], low, high) <==> a <= j < e) by {
        if j < a {
            assert(s[j].low < low);
        } else if j >= e {
            assert(e < s.len());
            assert(s[e as int].low >= low) by {
                if e > a {
                    assert(hi(s[a as int]) <= s[e as int].low);
                }
            }
            assert(!inside(s[e as int], low, high));
            assert(hi(s[e as int]) > high);
            assert(s[e as int].low >= high);
            if j > e {
                assert(hi(s[e as int]) <= s[j].low);
            }
        }
    }
    assert forall|j: int| 0 <= j < a implies hi(#[trigger] s[j]) <= low by {
        assert(s[j].low < low);
        assert(no_partial_overlap(s[j], low, high));
    }
    assert forall|j: int| e <= j < s.len() implies (#[trigger] s[j]).low >= high && (s[j].low > low || hi(s[j]) > high) by {
        assert(s[e as int].low >= low) by {
            if e > a {
                assert(hi(s[a as int]) <= s[e as int].low);
            }
        }
        assert(!inside(s[e as int], low, high));
        if j > e {
            assert(hi(s[e as int]) <= s[j].low);
        }
        assert(!inside(s[j], low, high));
        assert(no_partial_overlap(s[j], low, high));
    }
}

/// Insert `e` into `v` after the nodes that start at or below it.
fn insert_sorted(v: &mut Vec<MtrNode>, e: MtrNode)
    ensures
        final(v)@ == insert_by_low(old(v)@, e),
{
    let mut i: usize = 0;
    proof {
        lemma_first_above(old(v)@, e.low as nat, 0);
    }
    while i < v.len() && v[i].low <= e.low
        invariant
            v@ == old(v)@,
            i <= v@.len(),
            first_above(v@, e.low as nat, i as nat) == first_above(v@, e.low as nat, 0),
        decreases v@.len() - i,
    {
        i += 1;
    }
    v.insert(i, e);
}

/// Stable sort of `v` by `low`.
fn sort_children(v: &mut Vec<MtrNode>)
    ensures
        final(v)@ == sort_by_low(old(v)@),
{
    let mut src: Vec<MtrNode> = Vec::new();
    std::mem::swap(&mut src, v);
    let ghost orig = src@;
    let mut j: usize = 0;
    let n = src.len();
    proof {
        assert(orig.take(0) =~= Seq::<MtrNode>::empty());
        assert(orig.skip(0) =~= orig);
    }
    while src.len() > 0
        invariant
            n == orig.len(),
            j + src@.len() == n,
            src@ == orig.skip(j as int),
            v@ == sort_by_low(orig.take(j as int)),
        decreases src@.len(),
    {
        let e = src.remove(0);
        proof {
            assert(orig.take(j + 1).drop_last() =~= orig.take(j as int));
            assert(orig.take(j + 1).last() == e);
            assert(src@ =~= orig.skip(j + 1));
        }
        insert_sorted(v, e);
        j += 1;
    }
    proof {
        assert(orig.take(n as int) =~= orig);
    }
}

/// The first position in `v` (sorted by `low`) whose node starts at or
/// above `key`, found by binary search.
fn lower_bound_by_low(v: &Vec<MtrNode>, key: u16) -> (r: usize)
    requires
        lows_sorted(v@),
    ensures
        r <= v@.len(),
        forall|j: int| 0 <= j < r ==> (#[trigger] v@[j]).low < key,
        forall|j: int| r <= j < v@.len() ==> (#[trigger] v@[j]).low >= key,
{
    let mut lo: usize = 0;
    let mut hi_: usize = v.len();
    while lo < hi_
        invariant
            lo <= hi_ <= v@.len(),
            lows_sorted(v@),
            forall|j: int| 0 <= j < lo ==> (#[trigger] v@[j]).low < key,
            forall|j: int| hi_ <= j < v@.len() ==> (#[trigger] v@[j]).low >= key,
        decreases hi_ - lo,
    {
        let mid = lo + (hi_ - lo) / 2;
        if v[mid].low < key {
            lo = mid + 1;
        } else {
            hi_ = mid;
        }
    }
    lo
}

/// The indices of the children of `node` inside `[low .. high)`: the
/// contiguous run from `first_at_least` to `inside_end`.
fn inside_indices(node: &MtrNode, low: u16, high: u16) -> (r: Vec<usize>)
    requires
        valid(*node),
        low <= high,
        forall|i: int|
            0 <= i < node.children@.len() ==> no_partial_overlap(#[trigger] node.children@[i], low as nat, high as nat),
    ensures
        ({
            let s = node.children@;
            let a = first_at_least(s, low as nat, 0);
            let e = inside_end(s, low as nat, high as nat, a);
            &&& r@.len() == e - a
            &&& forall|t: int| 0 <= t < r@.len() ==> #[trigger] r@[t] == a + t
        }),
{
    let ghost s = node.children@;
    proof {
        lemma_inside_range(*node, low as nat, high as nat);
    }
    let ghost a = first_at_least(s, low as nat, 0);
    let ghost e = inside_end(s, low as nat, high as nat, a);
    let mut absorbed: Vec<usize> = Vec::new();
    let mut i: usize = 0;
    while i < node.children.len()
        invariant
            node.children@ == s,
            valid(*node),
            i <= s.len(),
            a <= e <= s.len(),
            forall|j: int| 0 <= j < s.len() ==> (inside(#[trigger] s[j], low as nat, high as nat) <==> a <= j < e),
            absorbed@.len() == if i <= a { 0int } else if i <= e { i - a } else { e - a },
            forall|t: int| 0 <= t < absorbed@.len() ==> #[trigger] absorbed@[t] == a + t,
        decreases s.len() - i,
    {
        let child = &node.children[i];
        assert(valid(*child));
        if child.low >= low && child.high() <= high {
            absorbed.push(i);
        }
        i += 1;
    }
    absorbed
}

/// Remove the children at the indices `absorbed` (a run starting at `a`),
/// from the last to the first, collecting them in removal order.
fn remove_run(children: &mut Vec<MtrNode>, absorbed: &Vec<usize>, Ghost(a): Ghost<int>) -> (r: Vec<MtrNode>)
    requires
        0 <= a,
        a + absorbed@.len() <= old(children)@.len(),
        forall|t: int| 0 <= t < absorbed@.len() ==> #[trigger] absorbed@[t] == a + t,
    ensures
        ({
            let s = old(children)@;
            let e = a + absorbed@.len();
            &&& final(children)@ == s.take(a) + s.skip(e)
            &&& r@ == s.subrange(a, e).reverse()
        }),
{
    let ghost s = children@;
    let k = absorbed.len();
    let ghost e = a + k;
    let mut out: Vec<MtrNode> = Vec::new();
    let mut t = k;
    proof {
        assert(s.subrange(a + k, e).reverse() =~= Seq::<MtrNode>::empty());
        assert(s.take(a + k) + s.skip(e) =~= s);
    }
    while t > 0
        invariant
            t <= k,
            k == absorbed@.len(),
            e == a + k,
            0 <= a,
            e <= s.len(),
            forall|q: int| 0 <= q < absorbed@.len() ==> #[trigger] absorbed@[q] == a + q,
            children@ == s.take(a + t) + s.skip(e),
            out@ == s.subrange(a + t, e).reverse(),
        decreases t,
    {
        let idx = absorbed[t - 1];
        let removed = children.remove(idx);
        proof {
            assert(removed == s[a + t - 1]);
            assert(children@ =~= s.take(a + t - 1) + s.skip(e));
            assert(s.subrange(a + t - 1, e).reverse() =~= s.subrange(a + t, e).reverse().push(s[a + t - 1]));
        }
        out.push(removed);
        t -= 1;
    }
    out
}

/// The children left after removing a run are still sorted by `low`.
proof fn lemma_kept_sorted(n: MtrNode, a: int, e: int)
    requires
        children_ordered(n),
        0 <= a <= e <= n.children@.len(),
    ensures
        lows_sorted(n.children@.take(a) + n.children@.skip(e)),
{
    let s = n.children@;
    let kept = s.take(a) + s.skip(e);
    assert forall|x: int, y: int| 0 <= x < y < kept.len() implies (#[trigger] kept[x]).low <= (#[trigger] kept[y]).low by {
        let ox = if x < a { x } else { x + (e - a) };
        let oy = if y < a { y } else { y + (e - a) };
        assert(kept[x] == s[ox]);
        assert(kept[y] == s[oy]);
        assert(hi(s[ox]) <= s[oy].low);
    }
}

impl MtrNode {
    /// Insert a new child group `[low .. low + size)` into this node.
    ///
    /// Existing children inside the new range become its children; the
    /// new child takes its sorted place.  Returns the new child.
    #[verifier::rlimit(60)]
    pub fn insert_child(&mut self, low: u16, size: u16, flags: GroupFlags) -> (r: &MtrNode)
        requires
            valid(*old(self)),
            can_insert_child(*old(self), low, size),
        ensures
            child_inserted(*old(self), *final(self), low, size, flags),
            *r == final(self).children@[first_at_least(old(self).children@, low as nat, 0) as int],
            forall|c: MtrNode|
                #[trigger] r.children@.contains(c) <==> old(self).children@.contains(c) && inside(
                    c,
                    low as nat,
                    low as nat + size as nat,
                ),
            insert_keeps_valid(*old(self), low, size, flags) ==> valid(*final(self)),
    {
        let ghost s = self.children@;
        let high = low + size;
        let ghost a = first_at_least(s, low as nat, 0);
        let ghost e = inside_end(s, low as nat, high as nat, a);
        proof {
            lemma_inside_range(*self, low as nat, high as nat);
            lemma_kept_sorted(*self, a as int, e as int);
        }
        let absorbed = inside_indices(self, low, high);
        let mut new_child = MtrNode::new(low, size, flags);
        new_child.children = remove_run(&mut self.children, &absorbed, Ghost(a as int));
        sort_children(&mut new_child.children);
        let pos = lower_bound_by_low(&self.children, low);
        proof {
            let kept = self.children@;
            assert(kept =~= s.take(a as int) + s.skip(e as int));
            if pos < a {
                assert(kept[pos as int] == s[pos as int]);
                assert(s[pos as int].low < low);
            }
            if pos > a {
                assert(kept[a as int] == s[e as int]);
            }
            assert(pos == a);
        }
        self.children.insert(pos, new_child);
        proof {
            assert(self.children@.take(a as int) =~= s.take(a as int));
            assert(self.children@.skip(a + 1int) =~= s.skip(e as int));
            let run = s.subrange(a as int, e as int);
            let got = self.children@[a as int].children@;
            lemma_sort_multiset(run.reverse());
            run.lemma_reverse_to_multiset();
            assert(got.to_multiset() == run.to_multiset());
            assert forall|c: MtrNode|
                #[trigger] got.contains(c) <==> s.contains(c) && inside(c, low as nat, high as nat) by {
                vstd::seq_lib::to_multiset_contains(got, c);
                vstd::seq_lib::to_multiset_contains(run, c);
                if s.contains(c) && inside(c, low as nat, high as nat) {
                    let j = choose|j: int| 0 <= j < s.len() && s[j] == c;
                    assert(run[j - a] == c);
                }
                if run.contains(c) {
                    let j = choose|j: int| 0 <= j < run.len() && run[j] == c;
                    assert(s[a + j] == c);
                }
            }
            if insert_keeps_valid(*old(self), low, size, flags) {
                lemma_child_inserted_valid(*old(self), *self, low, size, flags);
            }
        }
        &self.children[pos]
    }
}

// -----------------------------------------------------------------------
// MtrTree
// -----------------------------------------------------------------------

/// `c` covers all of `[low .. high)`.
pub open spec fn encloses(c: MtrNode, low: nat, high: nat) -> bool {
    c.low <= low && high <= hi(c)
}

/// The first index at or after `i` whose node covers `[low .. high)`.
pub open spec fn first_enclosing(s: Seq<MtrNode>, low: nat, high: nat, i: nat) -> nat
    decreases s.len() - i,
{
    if i >= s.len() {
        s.len()
    } else if encloses(s[i as int], low, high) {
        i
    } else {
        first_enclosing(s, low, high, i + 1)
    }
}

proof fn lemma_first_enclosing(s: Seq<MtrNode>, low: nat, high: nat, i: nat)
    requires
        i <= s.len(),
    ensures
        i <= first_enclosing(s, low, high, i) <= s.len(),
        forall|j: int| i <= j < first_enclosing(s, low, high, i) ==> !encloses(#[trigger] s[j], low, high),
        first_enclosing(s, low, high, i) < s.len() ==> encloses(s[first_enclosing(s, low, high, i) as int], low, high),
    decreases s.len() - i,
{
    if i < s.len() && !encloses(s[i as int], low, high) {
        lemma_first_enclosing(s, low, high, i + 1);
    }
}

/// The node that receives a new group `[low .. high)`: descend into the
/// first child covering the range while there is one.
pub open spec fn target_of(n: MtrNode, low: nat, high: nat) -> MtrNode
    decreases n,
{
    let i = first_enclosing(n.children@, low, high, 0);
    if 0 <= i < n.children@.len() {
        target_of(n.children@[i as int], low, high)
    } else {
        n
    }
}

/// `new` is `old` with the group `[low .. low + size)` inserted as a
/// child of `target_of(old, ..)`; everything off that path is unchanged.
pub open spec fn group_inserted(old: MtrNode, new: MtrNode, low: u16, size: u16, flags: GroupFlags) -> bool
    decreases old,
{
    let high = low as nat + size as nat;
    let i = first_enclosing(old.children@, low as nat, high, 0);
    if 0 <= i < old.children@.len() {
        &&& new.low == old.low
        &&& new.size == old.size
        &&& new.flags == old.flags
        &&& new.children@.len() == old.children@.len()
        &&& forall|j: int| 0 <= j < old.children@.len() && j != i ==> #[trigger] new.children@[j] == old.children@[j]
        &&& group_inserted(old.children@[i as int], new.children@[i as int], low, size, flags)
    } else {
        child_inserted(old, new, low, size, flags)
    }
}

/// The new group node in `new`, following the insertion path of `old`.
pub open spec fn inserted_group(old: MtrNode, new: MtrNode, low: nat, high: nat) -> MtrNode
    decreases old,
{
    let i = first_enclosing(old.children@, low, high, 0);
    if 0 <= i < old.children@.len() {
        inserted_group(old.children@[i as int], new.children@[i as int], low, high)
    } else {
        new.children@[first_at_least(old.children@, low, 0) as int]
    }
}

/// Descending to the insertion target keeps validity.
proof fn lemma_target_valid(n: MtrNode, low: nat, high: nat)
    requires
        valid(n),
    ensures
        valid(target_of(n, low, high)),
    decreases n,
{
    let i = first_enclosing(n.children@, low, high, 0);
    if 0 <= i < n.children@.len() {
        assert(valid(n.children@[i as int]));
        lemma_target_valid(n.children@[i as int], low, high);
    }
}

/// A complete multi-way group tree; the root spans `[0 .. num_vars)`
/// when built by `new`.
#[derive(Debug)]
pub struct MtrTree {
    root: MtrNode,
}

impl MtrTree {
    /// The root node.
    pub closed spec fn root_node(self) -> MtrNode {
        self.root
    }

    /// Create a trivial tree with a single root spanning `[0 .. num_vars)`.
    pub fn new(num_vars: u16) -> (r: MtrTree)
        ensures
            r.root_node().low == 0,
            r.root_node().size == num_vars,
            !r.root_node().flags.is_fixed(),
            !r.root_node().flags.is_terminal(),
            r.root_node().children@.len() == 0,
    {
        MtrTree { root: MtrNode::new(0, num_vars, GroupFlags::default_flags()) }
    }

    /// Access the root node.
    pub fn root(&self) -> (r: &MtrNode)
        ensures
            *r == self.root_node(),
    {
        &self.root
    }

    /// Mutable access to the root node.
    pub fn root_mut(&mut self) -> (r: &mut MtrNode)
        ensures
            *r == old(self).root_node(),
            final(self).root_node() == *final(r),
    {
        &mut self.root
    }

    /// Insert a group covering `[low .. low + size)` into the tree.
    ///
    /// The group becomes a child of the deepest node reached by
    /// descending into the first child that covers the whole range.
    pub fn make_group(&mut self, low: u16, size: u16, flags: GroupFlags) -> (r: &MtrNode)
        requires
            valid(old(self).root_node()),
            low as nat + size as nat <= hi(old(self).root_node()),
            can_insert_child(
                target_of(old(self).root_node(), low as nat, low as nat + size as nat),
                low,
                size,
            ),
        ensures
            group_inserted(old(self).root_node(), final(self).root_node(), low, size, flags),
            *r == inserted_group(old(self).root_node(), final(self).root_node(), low as nat, low as nat + size as nat),
            insert_keeps_valid(
                target_of(old(self).root_node(), low as nat, low as nat + size as nat),
                low,
                size,
                flags,
            ) ==> valid(final(self).root_node()),
    {
        let ghost before = self.root_node();
        proof {
            assert forall|nw: MtrNode|
                #[trigger] group_inserted(before, nw, low, size, flags) && insert_keeps_valid(
                    target_of(before, low as nat, low as nat + size as nat),
                    low,
                    size,
                    flags,
                ) implies valid(nw) by {
                lemma_group_inserted_valid(before, nw, low, size, flags);
            }
        }
        Self::insert_into(&mut self.root, low, size, flags)
    }

    /// Insert into the deepest node whose first covering child chain
    /// reaches it.
    fn insert_into(node: &mut MtrNode, low: u16, size: u16, flags: GroupFlags) -> (r: &MtrNode)
        requires
            valid(*old(node)),
            can_insert_child(target_of(*old(node), low as nat, low as nat + size as nat), low, size),
        ensures
            group_inserted(*old(node), *final(node), low, size, flags),
            *r == inserted_group(*old(node), *final(node), low as nat, low as nat + size as nat),
        decreases *old(node),
    {
        proof {
            lemma_target_valid(*node, low as nat, low as nat + size as nat);
        }
        let high = low + size;
        let ghost s = node.children@;
        proof {
            lemma_first_enclosing(s, low as nat, high as nat, 0);
        }
        let mut i: usize = 0;
        while i < node.children.len()
            invariant
                node.children@ == s,
                *node == *old(node),
                s == old(node).children@,
                can_insert_child(target_of(*old(node), low as nat, low as nat + size as nat), low, size),
                valid(*node),
                i <= s.len(),
                high == low as nat + size as nat,
                first_enclosing(s, low as nat, high as nat, i as nat) == first_enclosing(s, low as nat, high as nat, 0),
            decreases s.len() - i,
        {
            let c = &node.children[i];
            assert(valid(*c));
            if c.low <= low && c.high() >= high {
                let ghost old_child = s[i as int];
                assert(valid(old_child));
                assert(first_enclosing(s, low as nat, high as nat, 0) == i);
                assert(target_of(*old(node), low as nat, high as nat) == target_of(old_child, low as nat, high as nat));
                assert(decreases_to!(*old(node) => old(node).children@[i as int]));
                let child = &mut node.children[i];
                assert(*child == old_child);
                let r = Self::insert_into(child, low, size, flags);
                return r;
            }
            i += 1;
        }
        assert(target_of(*old(node), low as nat, high as nat) == *node);
        node.insert_child(low, size, flags)
    }

    /// Find the innermost group that contains `level`.
    pub fn find_group(&self, level: u16) -> (r: &MtrNode)
        requires
            fits(self.root_node()),
        ensures
            *r == group_of(self.root_node(), level),
    {
        self.root.find_group(level)
    }

    /// Check the tree invariants.
    pub fn validate(&self)
        requires
            valid(self.root_node()),
    {
        self.root.validate();
    }

    /// The leaf-level sifting blocks `(low, size, fixed)` of the tree, in
    /// level order.
    pub fn leaf_blocks(&self) -> (r: Vec<Block>)
        requires
            fits(self.root_node()),
        ensures
            r@ == blocks_of(self.root_node()),
            valid(self.root_node()) && sizes_positive(self.root_node()) ==> forall|k: int|
                0 <= k < r@.len() ==> block_of_group(self.root_node(), #[trigger] r@[k]),
    {
        let mut blocks: Vec<Block> = Vec::new();
        collect_leaf_blocks(&self.root, &mut blocks);
        proof {
            assert(blocks@ =~= blocks_of(self.root_node()));
            if valid(self.root_node()) && sizes_positive(self.root_node()) {
                lemma_blocks_are_groups(self.root_node());
            }
        }
        blocks
    }
}

// -----------------------------------------------------------------------
// Laws of the group tree
// -----------------------------------------------------------------------

/// The innermost group of a level inside the root's range contains it.
pub proof fn lemma_group_of_contains(n: MtrNode, level: u16)
    requires
        in_range(n, level),
    ensures
        in_range(group_of(n, level), level),
    decreases n,
{
    lemma_first_containing(n.children@, level);
    let i = first_containing(n.children@, level);
    if 0 <= i < n.children@.len() {
        lemma_group_of_contains(n.children@[i], level);
    }
}

/// Nodes with strictly increasing starts.
pub open spec fn lows_increasing(s: Seq<MtrNode>) -> bool {
    forall|i: int, j: int| 0 <= i < j < s.len() ==> (#[trigger] s[i]).low < (#[trigger] s[j]).low
}

/// Sorting the reverse of a sequence with strictly increasing starts
/// gives the sequence back.
proof fn lemma_sort_reverse(x: Seq<MtrNode>)
    requires
        lows_increasing(x),
    ensures
        sort_by_low(x.reverse()) == x,
    decreases x.len(),
{
    if x.len() > 0 {
        let y = x.reverse();
        let rest = x.skip(1);
        assert(y.drop_last() =~= rest.reverse());
        assert(y.last() == x[0]);
        assert(lows_increasing(rest));
        lemma_sort_reverse(rest);
        lemma_first_above(rest, x[0].low as nat, 0);
        if rest.len() > 0 {
            assert(rest[0].low > x[0].low);
        }
        assert(first_above(rest, x[0].low as nat, 0) == 0);
        assert(rest.insert(0, x[0]) =~= x);
    } else {
        assert(x.reverse() =~= x);
    }
}

/// When inserting a group keeps the tree valid: a TERMINAL group absorbs
/// no children, and the absorbed children start at distinct levels.
pub open spec fn insert_keeps_valid(n: MtrNode, low: u16, size: u16, flags: GroupFlags) -> bool {
    let s = n.children@;
    let high = low as nat + size as nat;
    let a = first_at_least(s, low as nat, 0);
    let e = inside_end(s, low as nat, high, a);
    &&& (flags.is_terminal() ==> a == e)
    &&& lows_increasing(s.subrange(a as int, e as int))
}

/// Inserting a child group into a valid node keeps it valid.
pub proof fn lemma_child_inserted_valid(old: MtrNode, new: MtrNode, low: u16, size: u16, flags: GroupFlags)
    requires
        valid(old),
        can_insert_child(old, low, size),
        insert_keeps_valid(old, low, size, flags),
        child_inserted(old, new, low, size, flags),
    ensures
        valid(new),
{
    let s = old.children@;
    let high = low as nat + size as nat;
    lemma_inside_range(old, low as nat, high);
    let a = first_at_least(s, low as nat, 0);
    let e = inside_end(s, low as nat, high, a);
    let run = s.subrange(a as int, e as int);
    lemma_sort_reverse(run);
    let nn = new.children@[a as int];
    assert(nn.children@ == run);
    assert(valid(nn)) by {
        assert forall|i: int| 0 <= i < nn.children@.len() implies valid(#[trigger] nn.children@[i]) by {
            assert(nn.children@[i] == s[a + i]);
        }
        assert forall|i: int| 0 <= i < nn.children@.len() implies nn.low <= (#[trigger] nn.children@[i]).low && hi(nn.children@[i]) <= hi(nn) by {
            assert(nn.children@[i] == s[a + i]);
            assert(inside(s[a + i], low as nat, high));
        }
        assert forall|i: int, j: int| 0 <= i < j < nn.children@.len() implies hi(#[trigger] nn.children@[i]) <= (#[trigger] nn.children@[j]).low by {
            assert(nn.children@[i] == s[a + i]);
            assert(nn.children@[j] == s[a + j]);
        }
    }
    let c = new.children@;
    assert forall|i: int| 0 <= i < c.len() implies c[i] == (if i < a { s[i] } else if i == a { nn } else { s[i - 1 + (e - a)] }) by {
        if i < a {
            assert(c.take(a as int)[i] == c[i]);
        } else if i > a {
            assert(c.skip(a + 1int)[i - a - 1] == c[i]);
        }
    }
    assert forall|i: int| 0 <= i < c.len() implies valid(#[trigger] c[i]) by {
        if i != a {
            let oi = if i < a { i } else { i - 1 + (e - a) };
            assert(valid(s[oi]));
        }
    }
    assert forall|i: int| 0 <= i < c.len() implies new.low <= (#[trigger] c[i]).low && hi(c[i]) <= hi(new) by {
        if i != a {
            let oi = if i < a { i } else { i - 1 + (e - a) };
            assert(c[i] == s[oi]);
        }
    }
    assert forall|i: int, j: int| 0 <= i < j < c.len() implies hi(#[trigger] c[i]) <= (#[trigger] c[j]).low by {
        let oi = if i < a { i } else { i - 1 + (e - a) };
        let oj = if j < a { j } else { j - 1 + (e - a) };
        if i != a && j != a {
            assert(c[i] == s[oi]);
            assert(c[j] == s[oj]);
            assert(oi < oj);
        } else if i == a {
            assert(c[j] == s[oj]);
            assert(oj >= e);
        } else {
            assert(c[i] == s[oi]);
            assert(oi < a);
        }
    }
}

/// A group insertion keeps the range and flags of the node it starts at.
proof fn lemma_group_inserted_same_range(old: MtrNode, new: MtrNode, low: u16, size: u16, flags: GroupFlags)
    requires
        group_inserted(old, new, low, size, flags),
    ensures
        new.low == old.low,
        new.size == old.size,
        new.flags == old.flags,
{
}

/// Inserting a group into a valid tree keeps it valid, provided the
/// group is not TERMINAL over existing children and the children it
/// absorbs start at distinct levels.
pub proof fn lemma_group_inserted_valid(old: MtrNode, new: MtrNode, low: u16, size: u16, flags: GroupFlags)
    requires
        valid(old),
        can_insert_child(target_of(old, low as nat, low as nat + size as nat), low, size),
        insert_keeps_valid(target_of(old, low as nat, low as nat + size as nat), low, size, flags),
        group_inserted(old, new, low, size, flags),
    ensures
        valid(new),
    decreases old,
{
    let high = low as nat + size as nat;
    let i = first_enclosing(old.children@, low as nat, high, 0);
    if 0 <= i < old.children@.len() {
        let oc = old.children@[i as int];
        let nc = new.children@[i as int];
        assert(valid(oc));
        lemma_group_inserted_valid(oc, nc, low, size, flags);
        lemma_group_inserted_same_range(oc, nc, low, size, flags);
        let c = new.children@;
        let s = old.children@;
        assert forall|j: int| 0 <= j < c.len() implies valid(#[trigger] c[j]) by {
            if j != i {
                assert(c[j] == s[j]);
            }
        }
        assert forall|j: int| 0 <= j < c.len() implies new.low <= (#[trigger] c[j]).low && hi(c[j]) <= hi(new) by {
            if j != i {
                assert(c[j] == s[j]);
            }
        }
        assert forall|x: int, y: int| 0 <= x < y < c.len() implies hi(#[trigger] c[x]) <= (#[trigger] c[y]).low by {
            assert(hi(s[x]) <= s[y].low);
            if x != i {
                assert(c[x] == s[x]);
            }
            if y != i {
                assert(c[y] == s[y]);
            }
        }
    } else {
        lemma_child_inserted_valid(old, new, low, size, flags);
    }
}

/// The group returned by an insertion covers exactly the requested range
/// with the requested flags.
pub proof fn lemma_inserted_group_range(old: MtrNode, new: MtrNode, low: u16, size: u16, flags: GroupFlags)
    requires
        group_inserted(old, new, low, size, flags),
    ensures
        inserted_group(old, new, low as nat, low as nat + size as nat).low == low,
        inserted_group(old, new, low as nat, low as nat + size as nat).size == size,
        inserted_group(old, new, low as nat, low as nat + size as nat).flags == flags,
    decreases old,
{
    let high = low as nat + size as nat;
    let i = first_enclosing(old.children@, low as nat, high, 0);
    if 0 <= i < old.children@.len() {
        lemma_inserted_group_range(old.children@[i as int], new.children@[i as int], low, size, flags);
    }
}

// -----------------------------------------------------------------------
// Mutable group lookup
// -----------------------------------------------------------------------

/// `new` is `old` with the innermost group of `level` replaced by `g`.
pub open spec fn group_replaced(old: MtrNode, new: MtrNode, level: u16, g: MtrNode) -> bool
    decreases old,
{
    let i = first_containing(old.children@, level);
    if 0 <= i < old.children@.len() {
        &&& new.low == old.low
        &&& new.size == old.size
        &&& new.flags == old.flags
        &&& new.children@ == old.children@.update(i, new.children@[i])
        &&& group_replaced(old.children@[i], new.children@[i], level, g)
    } else {
        new == g
    }
}

impl MtrNode {
    /// Mutable version of [`find_group`](Self::find_group): the innermost
    /// group containing `level`, through which the tree can be changed.
    pub fn find_group_mut(&mut self, level: u16) -> (r: &mut MtrNode)
        requires
            fits(*old(self)),
        ensures
            *r == group_of(*old(self), level),
            group_replaced(*old(self), *final(self), level, *final(r)),
        decreases *old(self),
    {
        let ghost s = self.children@;
        let mut i: usize = 0;
        assert(forall|j: int| 0 <= j < s.len() ==> hi(#[trigger] s[j]) <= 0xFFFF) by {
            assert forall|j: int| 0 <= j < s.len() implies hi(#[trigger] s[j]) <= 0xFFFF by {
                assert(fits(s[j]));
            }
        }
        while i < self.children.len() && !self.children[i].contains(level)
            invariant
                fits(*self),
                forall|j: int| 0 <= j < s.len() ==> hi(#[trigger] s[j]) <= 0xFFFF,
                *self == *old(self),
                self.children@ == s,
                i <= s.len(),
                forall|j: int| 0 <= j < i ==> !in_range(#[trigger] s[j], level),
            decreases s.len() - i,
        {
            i += 1;
        }
        proof {
            lemma_first_containing(s, level);
            if i < s.len() {
                assert(in_range(s[i as int], level));
                assert(first_containing(s, level) == i);
            } else {
                assert(first_containing(s, level) == s.len());
            }
        }
        if i < self.children.len() {
            assert(fits(s[i as int]));
            assert(decreases_to!(*old(self) => old(self).children@[i as int]));
            let child = &mut self.children[i];
            child.find_group_mut(level)
        } else {
            self
        }
    }
}

} // verus!
