//! Node handles with a complemented-edge bit.
use vstd::prelude::*;
use crate::decimal::{decimal, push_decimal};

verus! {

/// A node handle that encodes a complemented-edge bit in the LSB.
///
/// The upper 31 bits store the raw arena index, the lowest bit is the
/// complement flag. This makes NOT an O(1) pointer flip.
#[derive(Clone, Copy, PartialEq, Eq, Hash, Debug, Structural)]
pub struct NodeId(u32);

impl NodeId {
    /// The raw encoding: index shifted left once, complement flag in bit 0.
    pub closed spec fn bits(self) -> u32 {
        self.0
    }

    /// The arena index this handle points to.
    pub open spec fn index_of(self) -> nat {
        self.bits() as nat / 2
    }

    /// Whether the edge is complemented.
    pub open spec fn compl_of(self) -> bool {
        self.bits() as nat % 2 == 1
    }

    /// The handle with the complement flag flipped.
    pub closed spec fn negated(self) -> NodeId {
        NodeId(self.0 ^ 1)
    }

    /// The handle with the complement flag cleared.
    pub closed spec fn regularized(self) -> NodeId {
        NodeId(self.0 & !1u32)
    }

    /// `negated()` when `c` holds, the handle itself otherwise.
    pub open spec fn negated_if(self, c: bool) -> NodeId {
        if c {
            self.negated()
        } else {
            self
        }
    }

    /// What `negated` and `regularized` do to the index and the flag.
    pub proof fn lemma_parts(a: NodeId)
        ensures
            a.negated().index_of() == a.index_of(),
            a.negated().compl_of() == !a.compl_of(),
            a.regularized().index_of() == a.index_of(),
            !a.regularized().compl_of(),
    {
        let b = a.0;
        assert((b ^ 1u32) / 2 == b / 2 && ((b ^ 1u32) % 2 == 1) == (b % 2 != 1)) by (bit_vector);
        assert((b & !1u32) / 2 == b / 2 && (b & !1u32) % 2 == 0) by (bit_vector);
    }

    /// Two handles with the same index and complement flag are equal.
    pub proof fn lemma_same_parts(a: NodeId, b: NodeId)
        requires
            a.index_of() == b.index_of(),
            a.compl_of() == b.compl_of(),
        ensures
            a == b,
    {
    }

    /// Every index below 2^31 and every flag has a handle.
    pub proof fn lemma_parts_range(a: NodeId)
        ensures
            a.index_of() < 0x8000_0000,
    {
    }

    /// The canonical "one" constant (index 0, not complemented).
    pub fn one() -> (r: NodeId)
        ensures
            r.index_of() == 0,
            !r.compl_of(),
    {
        NodeId(0)
    }

    /// The canonical "zero" constant (index 0, complemented).
    pub fn zero() -> (r: NodeId)
        ensures
            r.index_of() == 0,
            r.compl_of(),
    {
        NodeId(1)
    }

    /// Build a handle from a raw index and a complement flag.
    ///
    /// The index keeps its low 31 bits (the top bit is shifted out).
    pub fn from_raw(index: u32, complemented: bool) -> (r: NodeId)
        ensures
            r.index_of() == index as nat % 0x8000_0000,
            r.compl_of() == complemented,
    {
        let c: u32 = if complemented {
            1
        } else {
            0
        };
        let v = (index << 1) | c;
        proof {
            assert(((index << 1u32) | c) / 2 == index % 0x8000_0000 && ((index << 1u32) | c) % 2
                == c) by (bit_vector)
                requires
                    c <= 1,
            ;
        }
        NodeId(v)
    }

    /// The raw arena index (without complement bit).
    pub fn raw_index(self) -> (r: u32)
        ensures
            r as nat == self.index_of(),
    {
        let b = self.0;
        assert(b >> 1u32 == b / 2) by (bit_vector);
        self.0 >> 1
    }

    /// Returns true if this edge is complemented.
    pub fn is_complemented(self) -> (r: bool)
        ensures
            r == self.compl_of(),
    {
        let b = self.0;
        assert((b & 1u32 != 0) == (b % 2 == 1)) by (bit_vector);
        self.0 & 1 != 0
    }

    /// Returns the regular (non-complemented) version of this node.
    pub fn regular(self) -> (r: NodeId)
        ensures
            r == self.regularized(),
            r.index_of() == self.index_of(),
            !r.compl_of(),
    {
        proof {
            NodeId::lemma_parts(self);
        }
        NodeId(self.0 & !1)
    }

    /// Flips the complement bit.
    pub fn not(self) -> (r: NodeId)
        ensures
            r == self.negated(),
            r.index_of() == self.index_of(),
            r.compl_of() == !self.compl_of(),
    {
        proof {
            NodeId::lemma_parts(self);
        }
        NodeId(self.0 ^ 1)
    }

    /// Conditionally complements.
    pub fn not_cond(self, cond: bool) -> (r: NodeId)
        ensures
            r == self.negated_if(cond),
            r.index_of() == self.index_of(),
            r.compl_of() == (self.compl_of() != cond),
    {
        proof {
            NodeId::lemma_parts(self);
        }
        let c: u32 = if cond {
            1
        } else {
            0
        };
        let b = self.0;
        assert((b ^ c) / 2 == b / 2 && ((b ^ c) % 2 == 1) == ((b % 2 == 1) != (c == 1))) by (
        bit_vector)
            requires
                c <= 1,
        ;
        NodeId(self.0 ^ c)
    }

    /// Returns true if this is the constant ONE node.
    pub fn is_one(self) -> (r: bool)
        ensures
            r == (self.index_of() == 0 && !self.compl_of()),
    {
        self.0 == 0
    }

    /// Returns true if this is the constant ZERO node.
    pub fn is_zero(self) -> (r: bool)
        ensures
            r == (self.index_of() == 0 && self.compl_of()),
    {
        self.0 == 1
    }

    /// Returns true if this is a constant (ONE or ZERO for BDD).
    pub fn is_constant(self) -> (r: bool)
        ensures
            r == (self.index_of() == 0),
    {
        self.raw_index() == 0
    }

    /// The text `N<index>`, prefixed by `!` for a complemented edge.
    pub fn to_string(self) -> (r: String)
        ensures
            r@ == (if self.compl_of() {
                seq!['!', 'N']
            } else {
                seq!['N']
            }) + decimal(self.index_of()),
    {
        let mut s = String::new();
        if self.is_complemented() {
            s.append("!N");
            proof {
                reveal_strlit("!N");
            }
        } else {
            s.append("N");
            proof {
                reveal_strlit("N");
            }
        }
        let idx = self.raw_index();
        push_decimal(&mut s, idx as u64);
        proof {
            if self.compl_of() {
                assert(s@ =~= seq!['!', 'N'] + decimal(self.index_of()));
            } else {
                assert(s@ =~= seq!['N'] + decimal(self.index_of()));
            }
        }
        s
    }
}

// ---------------------------------------------------------------------
// Laws of the complemented-edge encoding
// ---------------------------------------------------------------------

/// Complementing twice gives back the same handle.
pub proof fn lemma_not_involutive(a: NodeId)
    ensures
        a.negated().negated() == a,
{
    NodeId::lemma_parts(a);
    NodeId::lemma_parts(a.negated());
    NodeId::lemma_same_parts(a.negated().negated(), a);
}

/// Complementing always yields a different handle with the same index,
/// so constant-ness is kept and ONE and ZERO are each other's complement.
pub proof fn lemma_not_changes_only_polarity(a: NodeId)
    ensures
        a.negated() != a,
        a.negated().index_of() == a.index_of(),
        (a.index_of() == 0 && !a.compl_of()) == (a.negated().index_of() == 0
            && a.negated().compl_of()),
{
    NodeId::lemma_parts(a);
}

/// A handle and its complement have the same regular form, and the
/// regular form is idempotent.
pub proof fn lemma_regular_of_complement(a: NodeId)
    ensures
        a.negated().regularized() == a.regularized(),
        a.regularized().regularized() == a.regularized(),
{
    NodeId::lemma_parts(a);
    NodeId::lemma_parts(a.negated());
    NodeId::lemma_parts(a.regularized());
    NodeId::lemma_same_parts(a.negated().regularized(), a.regularized());
    NodeId::lemma_same_parts(a.regularized().regularized(), a.regularized());
}

/// Conditional complement by `false` is the identity and by `true` is
/// complement.
pub proof fn lemma_not_cond_cases(a: NodeId)
    ensures
        a.negated_if(false) == a,
        a.negated_if(true) == a.negated(),
{
}

} // verus!
