//! The nodes a diagram reaches and how many there are: the size that
//! decomposition compares its parts by.
use vstd::prelude::*;
use crate::count_apa::{node_level, ordered};
use crate::dump_order::ArenaNode;

verus! {

/// Node `z` of `a` is an internal node reachable from node `x` (`x` itself
/// included when it is internal).
pub open spec fn in_reach(a: Seq<ArenaNode>, perm: Seq<u32>, n: nat, x: nat, z: int) -> bool
    decreases n - node_level(a, perm, n, x),
{
    if x == 0 || x >= a.len() {
        false
    } else {
        match a[x as int] {
            ArenaNode::Internal { then_child, else_child, .. } => {
                let l = node_level(a, perm, n, x);
                if l < node_level(a, perm, n, then_child.index_of()) <= n && l < node_level(
                    a,
                    perm,
                    n,
                    else_child.index_of(),
                ) <= n {
                    z == x || in_reach(a, perm, n, then_child.index_of(), z) || in_reach(
                        a,
                        perm,
                        n,
                        else_child.index_of(),
                        z,
                    )
                } else {
                    false
                }
            },
            ArenaNode::Constant => false,
        }
    }
}

/// How many entries of `s` are true.
pub open spec fn count_true(s: Seq<bool>) -> nat
    decreases s.len(),
{
    if s.len() == 0 {
        0
    } else {
        count_true(s.drop_last()) + if s.last() {
            1nat
        } else {
            0nat
        }
    }
}

/// The number of internal nodes that node `x` reaches, itself included.
pub open spec fn node_count(a: Seq<ArenaNode>, perm: Seq<u32>, n: nat, x: nat) -> nat {
    count_true(Seq::new(a.len(), |z: int| in_reach(a, perm, n, x, z)))
}

/// Every node reachable from a seen node at level `lvl` or below is seen.
pub open spec fn nodes_closed(a: Seq<ArenaNode>, perm: Seq<u32>, n: nat, seen: Seq<bool>, lvl: nat) -> bool {
    forall|y: int, z: int|
        0 < y < seen.len() && seen[y] && node_level(a, perm, n, y as nat) >= lvl && #[trigger] in_reach(
            a,
            perm,
            n,
            y as nat,
            z,
        ) ==> 0 <= z < seen.len() && seen[z]
}

/// A closed marking holds every node that a marked node at the level or
/// below reaches.
pub proof fn lemma_closed_at(a: Seq<ArenaNode>, perm: Seq<u32>, n: nat, seen: Seq<bool>, lvl: nat, y: int, z: int)
    requires
        nodes_closed(a, perm, n, seen, lvl),
        0 < y < seen.len(),
        seen[y],
        node_level(a, perm, n, y as nat) >= lvl,
        in_reach(a, perm, n, y as nat, z),
    ensures
        0 <= z < seen.len(),
        seen[z],
{
}

/// What an ordered node reaches lies in the arena, is ordered, and is the
/// node itself or on a deeper level.
pub proof fn lemma_in_reach_bound(a: Seq<ArenaNode>, perm: Seq<u32>, n: nat, x: nat, z: int)
    requires
        ordered(a, perm, n, x),
        in_reach(a, perm, n, x, z),
    ensures
        1 <= z < a.len(),
        ordered(a, perm, n, z as nat),
        z == x || node_level(a, perm, n, z as nat) > node_level(a, perm, n, x),
    decreases n - node_level(a, perm, n, x),
{
    match a[x as int] {
        ArenaNode::Internal { then_child, else_child, .. } => {
            if z != x {
                if in_reach(a, perm, n, then_child.index_of(), z) {
                    lemma_in_reach_bound(a, perm, n, then_child.index_of(), z);
                } else {
                    lemma_in_reach_bound(a, perm, n, else_child.index_of(), z);
                }
            }
        },
        ArenaNode::Constant => {},
    }
}

/// Reachability is transitive.
pub proof fn lemma_in_reach_trans(a: Seq<ArenaNode>, perm: Seq<u32>, n: nat, x: nat, y: int, z: int)
    requires
        ordered(a, perm, n, x),
        in_reach(a, perm, n, x, y),
        in_reach(a, perm, n, y as nat, z),
    ensures
        in_reach(a, perm, n, x, z),
    decreases n - node_level(a, perm, n, x),
{
    match a[x as int] {
        ArenaNode::Internal { then_child, else_child, .. } => {
            if y != x {
                if in_reach(a, perm, n, then_child.index_of(), y) {
                    lemma_in_reach_trans(a, perm, n, then_child.index_of(), y, z);
                } else {
                    lemma_in_reach_trans(a, perm, n, else_child.index_of(), y, z);
                }
            }
        },
        ArenaNode::Constant => {},
    }
}

/// Appending nodes to the arena changes nothing an old ordered node reaches.
pub proof fn lemma_in_reach_extend(a: Seq<ArenaNode>, b: Seq<ArenaNode>, perm: Seq<u32>, n: nat, x: nat, z: int)
    requires
        ordered(a, perm, n, x),
        a.len() <= b.len(),
        forall|i: int| 0 <= i < a.len() ==> b[i] == a[i],
    ensures
        in_reach(b, perm, n, x, z) == in_reach(a, perm, n, x, z),
    decreases n - node_level(a, perm, n, x),
{
    if x != 0 {
        assert(b[x as int] == a[x as int]);
        match a[x as int] {
            ArenaNode::Internal { then_child, else_child, .. } => {
                let t = then_child.index_of();
                let e = else_child.index_of();
                assert(ordered(a, perm, n, t));
                assert(ordered(a, perm, n, e));
                if t != 0 {
                    assert(b[t as int] == a[t as int]);
                }
                if e != 0 {
                    assert(b[e as int] == a[e as int]);
                }
                assert(node_level(b, perm, n, x) == node_level(a, perm, n, x));
                assert(node_level(b, perm, n, t) == node_level(a, perm, n, t));
                assert(node_level(b, perm, n, e) == node_level(a, perm, n, e));
                lemma_in_reach_extend(a, b, perm, n, t, z);
                lemma_in_reach_extend(a, b, perm, n, e, z);
            },
            ArenaNode::Constant => {},
        }
    }
}

/// Trailing false entries do not change the count.
pub proof fn lemma_count_prefix(s: Seq<bool>, t: Seq<bool>)
    requires
        s.len() <= t.len(),
        forall|i: int| 0 <= i < s.len() ==> t[i] == s[i],
        forall|i: int| s.len() <= i < t.len() ==> !t[i],
    ensures
        count_true(t) == count_true(s),
    decreases t.len(),
{
    if t.len() > s.len() {
        lemma_count_prefix(s, t.drop_last());
    } else {
        assert(t =~= s);
    }
}

/// The count of a sequence is the count of its first `k` entries plus the
/// rest, one entry at a time.
pub proof fn lemma_count_take(s: Seq<bool>, k: int)
    requires
        0 <= k < s.len(),
    ensures
        count_true(s.take(k + 1)) == count_true(s.take(k)) + if s[k] {
            1nat
        } else {
            0nat
        },
{
    assert(s.take(k + 1).drop_last() =~= s.take(k));
}

/// Appending nodes to the arena keeps the size of an old ordered node.
pub proof fn lemma_node_count_extend(a: Seq<ArenaNode>, b: Seq<ArenaNode>, perm: Seq<u32>, n: nat, x: nat)
    requires
        ordered(a, perm, n, x),
        a.len() <= b.len(),
        forall|i: int| 0 <= i < a.len() ==> b[i] == a[i],
    ensures
        node_count(b, perm, n, x) == node_count(a, perm, n, x),
{
    let s = Seq::new(a.len(), |z: int| in_reach(a, perm, n, x, z));
    let t = Seq::new(b.len(), |z: int| in_reach(b, perm, n, x, z));
    assert forall|i: int| 0 <= i < s.len() implies t[i] == s[i] by {
        lemma_in_reach_extend(a, b, perm, n, x, i);
    }
    assert forall|i: int| s.len() <= i < t.len() implies !t[i] by {
        lemma_in_reach_extend(a, b, perm, n, x, i);
        if in_reach(a, perm, n, x, i) {
            lemma_in_reach_bound(a, perm, n, x, i);
        }
    }
    lemma_count_prefix(s, t);
}

} // verus!
