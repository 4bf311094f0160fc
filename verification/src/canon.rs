//! Canonicity of the manager's handles: in an arena of reduced, ordered
//! nodes with a complete unique table, two handles with the same function
//! are the same handle.
use vstd::prelude::*;
use crate::count_apa::{node_level, ordered};
use crate::dump_order::ArenaNode;
use crate::manager::{chain_vars, eval_node, lev, min2, unique_key};
use crate::node::NodeId;

verus! {

/// Every internal node of `a` is in the table `u`, under the key of its
/// variable and children.
pub closed spec fn table_complete(a: Seq<ArenaNode>, u: Map<u128, u32>) -> bool {
    forall|x: int|
        1 <= x < a.len() ==> match #[trigger] a[x] {
            ArenaNode::Internal { var_index, then_child, else_child } => {
                &&& u.contains_key(unique_key(var_index, then_child, else_child))
                &&& u[unique_key(var_index, then_child, else_child)] == x
            },
            ArenaNode::Constant => true,
        }
}

/// The arena of the constant alone has a complete table, whatever it holds.
pub proof fn lemma_table_complete_one(u: Map<u128, u32>)
    ensures
        table_complete(seq![ArenaNode::Constant], u),
{
}

/// Adding a node together with its table entry, under a key the table did
/// not hold, keeps the table complete.
pub proof fn lemma_table_complete_push(
    a: Seq<ArenaNode>,
    u: Map<u128, u32>,
    v: u16,
    t: NodeId,
    e: NodeId,
)
    requires
        table_complete(a, u),
        a.len() < 0x1_0000_0000,
        !u.contains_key(unique_key(v, t, e)),
    ensures
        table_complete(
            a.push(ArenaNode::Internal { var_index: v, then_child: t, else_child: e }),
            u.insert(unique_key(v, t, e), a.len() as u32),
        ),
{
    let m = ArenaNode::Internal { var_index: v, then_child: t, else_child: e };
    let b = a.push(m);
    let w = u.insert(unique_key(v, t, e), a.len() as u32);
    assert forall|x: int| 1 <= x < b.len() implies match #[trigger] b[x] {
        ArenaNode::Internal { var_index, then_child, else_child } => {
            &&& w.contains_key(unique_key(var_index, then_child, else_child))
            &&& w[unique_key(var_index, then_child, else_child)] == x
        },
        ArenaNode::Constant => true,
    } by {
        if x < a.len() {
            assert(b[x] == a[x]);
            match a[x] {
                ArenaNode::Internal { var_index, then_child, else_child } => {
                    assert(u.contains_key(unique_key(var_index, then_child, else_child)));
                },
                ArenaNode::Constant => {},
            }
        }
    }
}

/// The function of handle `h` at `asg`.
pub open spec fn ev(a: Seq<ArenaNode>, perm: Seq<u32>, n: nat, h: NodeId, asg: Seq<bool>) -> bool {
    eval_node(a, perm, n, h.index_of(), h.compl_of(), asg)
}

/// Handles `f` and `g` have the same function on every assignment to the
/// `n` variables.
pub open spec fn same_fn(a: Seq<ArenaNode>, perm: Seq<u32>, n: nat, f: NodeId, g: NodeId) -> bool {
    forall|asg: Seq<bool>| asg.len() == n ==> #[trigger] ev(a, perm, n, f, asg) == ev(a, perm, n, g, asg)
}

/// The arena facts that canonicity rests on: the constant one first, every
/// node ordered, every internal node with a regular then-child that
/// differs from its else-child, an injective order, a complete table.
pub open spec fn canon_ready(a: Seq<ArenaNode>, perm: Seq<u32>, n: nat, u: Map<u128, u32>) -> bool {
    &&& a.len() >= 1
    &&& a[0] is Constant
    &&& perm.len() == n
    &&& forall|v: int| 0 <= v < n ==> #[trigger] perm[v] < n
    &&& forall|x: nat| x < a.len() ==> #[trigger] ordered(a, perm, n, x)
    &&& forall|x: int|
        1 <= x < a.len() ==> match #[trigger] a[x] {
            ArenaNode::Internal { then_child, else_child, .. } => !then_child.compl_of()
                && then_child != else_child,
            ArenaNode::Constant => false,
        }
    &&& forall|v1: int, v2: int|
        0 <= v1 < n && 0 <= v2 < n && #[trigger] perm[v1] == #[trigger] perm[v2] ==> v1 == v2
    &&& table_complete(a, u)
}

/// The function of an ordered node does not read a variable whose level is
/// above the node's.
pub proof fn lemma_free_above(
    a: Seq<ArenaNode>,
    perm: Seq<u32>,
    n: nat,
    x: nat,
    c: bool,
    asg: Seq<bool>,
    w: int,
    b: bool,
)
    requires
        ordered(a, perm, n, x),
        perm.len() == n,
        asg.len() == n,
        0 <= w < n,
        (perm[w] as nat) < node_level(a, perm, n, x),
    ensures
        eval_node(a, perm, n, x, c, asg) == eval_node(a, perm, n, x, c, asg.update(w, b)),
    decreases n - node_level(a, perm, n, x),
{
    if x != 0 && x < a.len() {
        match a[x as int] {
            ArenaNode::Internal { var_index, then_child, else_child } => {
                assert(var_index != w);
                assert(asg.update(w, b)[var_index as int] == asg[var_index as int]);
                lemma_free_above(a, perm, n, then_child.index_of(), then_child.compl_of() != c, asg, w, b);
                lemma_free_above(a, perm, n, else_child.index_of(), else_child.compl_of() != c, asg, w, b);
            },
            ArenaNode::Constant => {},
        }
    }
}

/// The children of internal node `x`, negated along with `c`.
spec fn kids(a: Seq<ArenaNode>, x: nat, c: bool) -> (NodeId, NodeId) {
    match a[x as int] {
        ArenaNode::Internal { then_child, else_child, .. } => (
            then_child.negated_if(c),
            else_child.negated_if(c),
        ),
        ArenaNode::Constant => (no_kid(), no_kid()),
    }
}

/// Some handle, for a constant's missing children.
spec fn no_kid() -> NodeId {
    choose|h: NodeId| h.index_of() == 0
}

/// The variable of internal node `x`.
spec fn var_at_node(a: Seq<ArenaNode>, x: nat) -> u16 {
    match a[x as int] {
        ArenaNode::Internal { var_index, .. } => var_index,
        ArenaNode::Constant => 0,
    }
}

/// Fixing the variable of `f`'s top node to `bit` turns `f` into the
/// matching child; `g`, on a deeper level, and the child do not read it.
proof fn lemma_branch(
    a: Seq<ArenaNode>,
    perm: Seq<u32>,
    n: nat,
    u: Map<u128, u32>,
    f: NodeId,
    g: NodeId,
    bit: bool,
    asg: Seq<bool>,
)
    requires
        canon_ready(a, perm, n, u),
        f.index_of() < a.len(),
        g.index_of() < a.len(),
        f.index_of() != 0,
        node_level(a, perm, n, f.index_of()) < node_level(a, perm, n, g.index_of()),
        asg.len() == n,
     ensures
        ({
            let v = var_at_node(a, f.index_of()) as int;
            let k = if bit { kids(a, f.index_of(), f.compl_of()).0 } else { kids(a, f.index_of(), f.compl_of()).1 };
            &&& 0 <= v < n
            &&& ev(a, perm, n, k, asg) == ev(a, perm, n, f, asg.update(v, bit))
            &&& ev(a, perm, n, g, asg) == ev(a, perm, n, g, asg.update(v, bit))
            &&& lev(a, perm, n, k) > node_level(a, perm, n, f.index_of())
        }),
{
    let x = f.index_of();
    assert(ordered(a, perm, n, x));
    assert(ordered(a, perm, n, g.index_of()));
    match a[x as int] {
        ArenaNode::Internal { var_index, then_child, else_child } => {
            let v = var_index as int;
            NodeId::lemma_parts(then_child);
            NodeId::lemma_parts(else_child);
            let k = if bit { then_child.negated_if(f.compl_of()) } else { else_child.negated_if(f.compl_of()) };
            let ch = if bit { then_child } else { else_child };
            assert(k.index_of() == ch.index_of());
            assert(k.compl_of() == (ch.compl_of() != f.compl_of()));
            lemma_free_above(a, perm, n, ch.index_of(), k.compl_of(), asg, v, bit);
            lemma_free_above(a, perm, n, g.index_of(), g.compl_of(), asg, v, bit);
            assert(asg.update(v, bit)[v] == bit);
        },
        ArenaNode::Constant => {},
    }
}

/// A handle on a strictly higher level than another has another function.
proof fn lemma_no_lower(a: Seq<ArenaNode>, perm: Seq<u32>, n: nat, u: Map<u128, u32>, f: NodeId, g: NodeId)
    requires
        canon_ready(a, perm, n, u),
        f.index_of() < a.len(),
        g.index_of() < a.len(),
        node_level(a, perm, n, f.index_of()) < node_level(a, perm, n, g.index_of()),
    ensures
        !same_fn(a, perm, n, f, g),
    decreases n - min2(lev(a, perm, n, f), lev(a, perm, n, g)), 0nat,
{
    if same_fn(a, perm, n, f, g) {
        let x = f.index_of();
        assert(ordered(a, perm, n, x));
        assert(x != 0);
        let (k1, k0) = kids(a, x, f.compl_of());
        assert forall|asg: Seq<bool>| asg.len() == n implies #[trigger] ev(a, perm, n, k1, asg) == ev(a, perm, n, g, asg) by {
            lemma_branch(a, perm, n, u, f, g, true, asg);
            let v = var_at_node(a, x) as int;
            assert(asg.update(v, true).len() == n);
            assert(ev(a, perm, n, f, asg.update(v, true)) == ev(a, perm, n, g, asg.update(v, true)));
        }
        assert forall|asg: Seq<bool>| asg.len() == n implies #[trigger] ev(a, perm, n, k0, asg) == ev(a, perm, n, g, asg) by {
            lemma_branch(a, perm, n, u, f, g, false, asg);
            let v = var_at_node(a, x) as int;
            assert(asg.update(v, false).len() == n);
            assert(ev(a, perm, n, f, asg.update(v, false)) == ev(a, perm, n, g, asg.update(v, false)));
        }
        let asg0 = Seq::new(n, |i: int| false);
        lemma_branch(a, perm, n, u, f, g, true, asg0);
        lemma_branch(a, perm, n, u, f, g, false, asg0);
        lemma_kids_in(a, perm, n, u, x, f.compl_of());
        lemma_canonical(a, perm, n, u, k1, g);
        lemma_canonical(a, perm, n, u, k0, g);
        match a[x as int] {
            ArenaNode::Internal { then_child, else_child, .. } => {
                NodeId::lemma_parts(then_child);
                NodeId::lemma_parts(else_child);
                assert(then_child.index_of() == else_child.index_of());
                assert(then_child.compl_of() == else_child.compl_of());
                NodeId::lemma_same_parts(then_child, else_child);
            },
            ArenaNode::Constant => {},
        }
    }
}

/// The children of an internal node are in the arena.
proof fn lemma_kids_in(a: Seq<ArenaNode>, perm: Seq<u32>, n: nat, u: Map<u128, u32>, x: nat, c: bool)
    requires
        canon_ready(a, perm, n, u),
        1 <= x < a.len(),
    ensures
        kids(a, x, c).0.index_of() < a.len(),
        kids(a, x, c).1.index_of() < a.len(),
{
    assert(ordered(a, perm, n, x));
    match a[x as int] {
        ArenaNode::Internal { then_child, else_child, .. } => {
            NodeId::lemma_parts(then_child);
            NodeId::lemma_parts(else_child);
            assert(ordered(a, perm, n, then_child.index_of()));
            assert(ordered(a, perm, n, else_child.index_of()));
        },
        ArenaNode::Constant => {},
    }
}

/// Two handles of the arena with the same function are the same handle.
pub proof fn lemma_canonical(a: Seq<ArenaNode>, perm: Seq<u32>, n: nat, u: Map<u128, u32>, f: NodeId, g: NodeId)
    requires
        canon_ready(a, perm, n, u),
        f.index_of() < a.len(),
        g.index_of() < a.len(),
        same_fn(a, perm, n, f, g),
    ensures
        f == g,
    decreases n - min2(lev(a, perm, n, f), lev(a, perm, n, g)), 1nat,
{
    let x = f.index_of();
    let y = g.index_of();
    assert(ordered(a, perm, n, x));
    assert(ordered(a, perm, n, y));
    let lf = node_level(a, perm, n, x);
    let lg = node_level(a, perm, n, y);
    if lf < lg {
        lemma_no_lower(a, perm, n, u, f, g);
    } else if lg < lf {
        assert forall|asg: Seq<bool>| asg.len() == n implies #[trigger] ev(a, perm, n, g, asg) == ev(a, perm, n, f, asg) by {
            assert(ev(a, perm, n, f, asg) == ev(a, perm, n, g, asg));
        }
        lemma_no_lower(a, perm, n, u, g, f);
    } else if x == 0 || y == 0 {
        let asg0 = Seq::new(n, |i: int| false);
        assert(ev(a, perm, n, f, asg0) == ev(a, perm, n, g, asg0));
        assert(x == 0 && y == 0);
        NodeId::lemma_same_parts(f, g);
    } else {
        lemma_same_level(a, perm, n, u, f, g);
    }
}

/// Two internal handles on the same level with the same function are the
/// same handle.
proof fn lemma_same_level(a: Seq<ArenaNode>, perm: Seq<u32>, n: nat, u: Map<u128, u32>, f: NodeId, g: NodeId)
    requires
        canon_ready(a, perm, n, u),
        1 <= f.index_of() < a.len(),
        1 <= g.index_of() < a.len(),
        node_level(a, perm, n, f.index_of()) == node_level(a, perm, n, g.index_of()),
        same_fn(a, perm, n, f, g),
    ensures
        f == g,
    decreases n - min2(lev(a, perm, n, f), lev(a, perm, n, g)), 0nat,
{
    let x = f.index_of();
    let y = g.index_of();
    let lf = node_level(a, perm, n, x);
    assert(ordered(a, perm, n, x));
    assert(ordered(a, perm, n, y));
    let (f1, f0) = kids(a, x, f.compl_of());
    let (g1, g0) = kids(a, y, g.compl_of());
    let vf = var_at_node(a, x) as int;
    let vg = var_at_node(a, y) as int;
    let asg0 = Seq::new(n, |i: int| false);
    lemma_same_level_branch(a, perm, n, u, f, true, asg0);
    lemma_same_level_branch(a, perm, n, u, g, true, asg0);
    assert(perm[vf] == perm[vg]);
    assert(vf == vg);
    assert forall|asg: Seq<bool>| asg.len() == n implies #[trigger] ev(a, perm, n, f1, asg) == ev(a, perm, n, g1, asg) by {
        lemma_same_level_branch(a, perm, n, u, f, true, asg);
        lemma_same_level_branch(a, perm, n, u, g, true, asg);
        assert(asg.update(vf, true).len() == n);
        assert(ev(a, perm, n, f, asg.update(vf, true)) == ev(a, perm, n, g, asg.update(vf, true)));
    }
    assert forall|asg: Seq<bool>| asg.len() == n implies #[trigger] ev(a, perm, n, f0, asg) == ev(a, perm, n, g0, asg) by {
        lemma_same_level_branch(a, perm, n, u, f, false, asg);
        lemma_same_level_branch(a, perm, n, u, g, false, asg);
        assert(asg.update(vf, false).len() == n);
        assert(ev(a, perm, n, f, asg.update(vf, false)) == ev(a, perm, n, g, asg.update(vf, false)));
    }
    lemma_same_level_branch(a, perm, n, u, f, false, asg0);
    lemma_same_level_branch(a, perm, n, u, g, false, asg0);
    lemma_kids_in(a, perm, n, u, x, f.compl_of());
    lemma_kids_in(a, perm, n, u, y, g.compl_of());
    lemma_canonical(a, perm, n, u, f1, g1);
    lemma_canonical(a, perm, n, u, f0, g0);
    match a[x as int] {
        ArenaNode::Internal { var_index: v1, then_child: t1, else_child: e1 } => {
            match a[y as int] {
                ArenaNode::Internal { var_index: v2, then_child: t2, else_child: e2 } => {
                    NodeId::lemma_parts(t1);
                    NodeId::lemma_parts(t2);
                    NodeId::lemma_parts(e1);
                    NodeId::lemma_parts(e2);
                    assert(f.compl_of() == g.compl_of());
                    NodeId::lemma_same_parts(t1, t2);
                    NodeId::lemma_same_parts(e1, e2);
                    assert(a[x as int] == a[y as int]);
                    assert(u[unique_key(v1, t1, e1)] == x);
                    assert(u[unique_key(v2, t2, e2)] == y);
                    NodeId::lemma_same_parts(f, g);
                },
                ArenaNode::Constant => {},
            }
        },
        ArenaNode::Constant => {},
    }
}

/// Fixing the variable of internal handle `f`'s node to `bit` turns `f`
/// into the matching child, which does not read that variable.
proof fn lemma_same_level_branch(
    a: Seq<ArenaNode>,
    perm: Seq<u32>,
    n: nat,
    u: Map<u128, u32>,
    f: NodeId,
    bit: bool,
    asg: Seq<bool>,
)
    requires
        canon_ready(a, perm, n, u),
        1 <= f.index_of() < a.len(),
        asg.len() == n,
    ensures
        ({
            let v = var_at_node(a, f.index_of()) as int;
            let k = if bit { kids(a, f.index_of(), f.compl_of()).0 } else { kids(a, f.index_of(), f.compl_of()).1 };
            &&& 0 <= v < n
            &&& perm[v] as nat == node_level(a, perm, n, f.index_of())
            &&& ev(a, perm, n, k, asg) == ev(a, perm, n, f, asg.update(v, bit))
            &&& lev(a, perm, n, k) > node_level(a, perm, n, f.index_of())
        }),
{
    let x = f.index_of();
    assert(ordered(a, perm, n, x));
    match a[x as int] {
        ArenaNode::Internal { var_index, then_child, else_child } => {
            let v = var_index as int;
            NodeId::lemma_parts(then_child);
            NodeId::lemma_parts(else_child);
            let ch = if bit { then_child } else { else_child };
            let k = if bit { then_child.negated_if(f.compl_of()) } else { else_child.negated_if(f.compl_of()) };
            assert(k.index_of() == ch.index_of());
            assert(k.compl_of() == (ch.compl_of() != f.compl_of()));
            lemma_free_above(a, perm, n, ch.index_of(), k.compl_of(), asg, v, bit);
            assert(asg.update(v, bit)[v] == bit);
        },
        ArenaNode::Constant => {},
    }
}

/// A node whose function is the conjunction of the variables in `q` has
/// exactly those variables on its then-chain.
pub proof fn lemma_cube_chain(a: Seq<ArenaNode>, perm: Seq<u32>, n: nat, u: Map<u128, u32>, h: NodeId, q: Set<int>)
    requires
        canon_ready(a, perm, n, u),
        h.index_of() < a.len(),
        forall|w: int| #[trigger] q.contains(w) ==> 0 <= w < n,
        forall|asg: Seq<bool>|
            asg.len() == n ==> #[trigger] ev(a, perm, n, h, asg) == (forall|w: int| #[trigger] q.contains(w) ==> asg[w]),
    ensures
        chain_vars(a, perm, n, h.index_of()) == q,
    decreases n - lev(a, perm, n, h),
{
    let x = h.index_of();
    assert(ordered(a, perm, n, x));
    if x == 0 {
        let all = Seq::new(n, |i: int| true);
        assert(ev(a, perm, n, h, all) == (forall|w: int| #[trigger] q.contains(w) ==> all[w]));
        if exists|w: int| q.contains(w) {
            let w = choose|w: int| q.contains(w);
            let one_off = Seq::new(n, |i: int| i != w);
            assert(ev(a, perm, n, h, one_off) == (forall|w2: int| #[trigger] q.contains(w2) ==> one_off[w2]));
            assert(!one_off[w]);
        }
        assert(q =~= Set::<int>::empty());
    } else {
        let (k1, k0) = kids(a, x, h.compl_of());
        let asg0 = Seq::new(n, |i: int| false);
        lemma_same_level_branch(a, perm, n, u, h, true, asg0);
        let v = var_at_node(a, x) as int;
        lemma_kids_in(a, perm, n, u, x, h.compl_of());
        if !q.contains(v) {
            assert forall|asg: Seq<bool>| asg.len() == n implies #[trigger] ev(a, perm, n, k1, asg) == ev(a, perm, n, k0, asg) by {
                lemma_same_level_branch(a, perm, n, u, h, true, asg);
                lemma_same_level_branch(a, perm, n, u, h, false, asg);
                let s1 = asg.update(v, true);
                let s0 = asg.update(v, false);
                assert(ev(a, perm, n, h, s1) == (forall|w: int| #[trigger] q.contains(w) ==> s1[w]));
                assert(ev(a, perm, n, h, s0) == (forall|w: int| #[trigger] q.contains(w) ==> s0[w]));
                assert forall|w: int| #[trigger] q.contains(w) implies s1[w] == s0[w] by {}
            }
            lemma_canonical(a, perm, n, u, k1, k0);
            match a[x as int] {
                ArenaNode::Internal { then_child, else_child, .. } => {
                    NodeId::lemma_parts(then_child);
                    NodeId::lemma_parts(else_child);
                    NodeId::lemma_same_parts(then_child, else_child);
                },
                ArenaNode::Constant => {},
            }
        }
        let q2 = q.remove(v);
        assert forall|asg: Seq<bool>| asg.len() == n implies #[trigger] ev(a, perm, n, k1, asg) == (forall|w: int|
            #[trigger] q2.contains(w) ==> asg[w]) by {
            lemma_same_level_branch(a, perm, n, u, h, true, asg);
            let s1 = asg.update(v, true);
            assert(ev(a, perm, n, h, s1) == (forall|w: int| #[trigger] q.contains(w) ==> s1[w]));
            if forall|w: int| #[trigger] q2.contains(w) ==> asg[w] {
                assert forall|w: int| #[trigger] q.contains(w) implies s1[w] by {
                    if w != v {
                        assert(q2.contains(w));
                    }
                }
            }
            if forall|w: int| #[trigger] q.contains(w) ==> s1[w] {
                assert forall|w: int| #[trigger] q2.contains(w) implies asg[w] by {
                    assert(q.contains(w));
                    assert(s1[w] == asg[w]);
                }
            }
        }
        lemma_cube_chain(a, perm, n, u, k1, q2);
        match a[x as int] {
            ArenaNode::Internal { var_index, then_child, .. } => {
                NodeId::lemma_parts(then_child);
                assert(k1.index_of() == then_child.index_of());
                assert(chain_vars(a, perm, n, x) == chain_vars(a, perm, n, then_child.index_of()).insert(var_index as int));
                assert(q2.insert(v) =~= q);
            },
            ArenaNode::Constant => {},
        }
    }
}

} // verus!
