//! Listing the nodes of a diagram for a dump: a depth-first walk from the
//! root over a manager's node arena that numbers every node after its
//! children, so that the listing unfolds to the diagram it was made from.
use vstd::prelude::*;
use crate::dddmp::{listed_at, root_seq, well_listed, DumpNode, CONST_INDEX};
use crate::dump_law::terminals_one;
use std::collections::HashMap;
use crate::node::NodeId;

verus! {

broadcast use vstd::std_specs::hash::group_hash_axioms;

/// A node of a manager's arena as the listing reads it. Index 0 holds the
/// constant one.
#[derive(Clone, Copy, Debug)]
pub enum ArenaNode {
    /// A constant node: the constant one at index 0, an ADD terminal
    /// elsewhere.
    Constant,
    /// An internal node: its variable and its two children.
    Internal {
        /// The variable the node tests.
        var_index: u16,
        /// The then-child.
        then_child: NodeId,
        /// The else-child.
        else_child: NodeId,
    },
}

/// The arena of a BDD: its only constant is the constant one at index 0.
pub open spec fn bdd_arena(a: Seq<ArenaNode>) -> bool {
    forall|x: int| 0 < x < a.len() ==> #[trigger] a[x] is Internal
}

/// The decision tree that a node unfolds to.
pub enum Shape {
    /// The constant one.
    One,
    /// Another constant.
    Terminal,
    /// A test of a variable, with the then-tree and whether the edge to it
    /// is complemented, and the same of the else-tree.
    Node(u16, Box<Shape>, bool, Box<Shape>, bool),
}

/// Every path from node `x` of `a` stays inside `a` and ends in a
/// constant within `d` edges, and every internal node on the way tests a
/// variable other than the terminal mark.
pub open spec fn sound_below(a: Seq<ArenaNode>, x: nat, d: nat) -> bool
    decreases d,
{
    x < a.len() && match a[x as int] {
        ArenaNode::Constant => true,
        ArenaNode::Internal { var_index, then_child, else_child } => d > 0 && var_index
            != CONST_INDEX && sound_below(a, then_child.index_of(), (d - 1) as nat) && sound_below(
            a,
            else_child.index_of(),
            (d - 1) as nat,
        ),
    }
}

/// The length of the longest path from node `x` of `a` to a constant,
/// looking at most `d` edges deep.
pub open spec fn height(a: Seq<ArenaNode>, x: nat, d: nat) -> nat
    decreases d,
{
    if x >= a.len() || d == 0 {
        0
    } else {
        match a[x as int] {
            ArenaNode::Constant => 0,
            ArenaNode::Internal { then_child, else_child, .. } => {
                let ht = height(a, then_child.index_of(), (d - 1) as nat);
                let he = height(a, else_child.index_of(), (d - 1) as nat);
                1 + if ht >= he {
                    ht
                } else {
                    he
                }
            },
        }
    }
}

/// Every internal node's children come before it in the arena.
pub closed spec fn children_before(a: Seq<ArenaNode>) -> bool {
    forall|x: int|
        0 <= x < a.len() ==> match #[trigger] a[x] {
            ArenaNode::Internal { then_child, else_child, .. } => then_child.index_of() < x
                && else_child.index_of() < x,
            ArenaNode::Constant => true,
        }
}

/// An arena of the constant alone has its children before their parents.
pub proof fn lemma_children_before_one()
    ensures
        children_before(seq![ArenaNode::Constant]),
{
}

/// A node whose children are already in the arena keeps the children
/// before their parents when it is added.
pub proof fn lemma_children_before_push(a: Seq<ArenaNode>, m: ArenaNode)
    requires
        children_before(a),
        match m {
            ArenaNode::Internal { then_child, else_child, .. } => then_child.index_of() < a.len()
                && else_child.index_of() < a.len(),
            ArenaNode::Constant => true,
        },
    ensures
        children_before(a.push(m)),
{
    assert forall|x: int| 0 <= x < a.push(m).len() implies match #[trigger] a.push(m)[x] {
        ArenaNode::Internal { then_child, else_child, .. } => then_child.index_of() < x
            && else_child.index_of() < x,
        ArenaNode::Constant => true,
    } by {
        if x < a.len() {
            assert(a.push(m)[x] == a[x]);
        }
    }
}

/// In an arena whose children come before their parents and whose internal
/// nodes test variables, every path from a node stays in the arena and ends
/// in a constant within as many edges as the arena has nodes.
pub proof fn lemma_sound_from_children_before(a: Seq<ArenaNode>, x: nat)
    requires
        children_before(a),
        x < a.len(),
        forall|y: int|
            0 <= y < a.len() ==> match #[trigger] a[y] {
                ArenaNode::Internal { var_index, .. } => var_index != CONST_INDEX,
                ArenaNode::Constant => true,
            },
    ensures
        sound_below(a, x, a.len()),
{
    lemma_sound_at_index(a, x);
    lemma_fuel(a, x, x, a.len());
}

proof fn lemma_sound_at_index(a: Seq<ArenaNode>, x: nat)
    requires
        children_before(a),
        x < a.len(),
        forall|y: int|
            0 <= y < a.len() ==> match #[trigger] a[y] {
                ArenaNode::Internal { var_index, .. } => var_index != CONST_INDEX,
                ArenaNode::Constant => true,
            },
    ensures
        sound_below(a, x, x),
    decreases x,
{
    match a[x as int] {
        ArenaNode::Constant => {},
        ArenaNode::Internal { then_child, else_child, .. } => {
            let t = then_child.index_of();
            let e = else_child.index_of();
            lemma_sound_at_index(a, t);
            lemma_sound_at_index(a, e);
            lemma_fuel(a, t, t, (x - 1) as nat);
            lemma_fuel(a, e, e, (x - 1) as nat);
        },
    }
}

/// The tree that node `x` of `a` unfolds to, looking at most `d` edges
/// deep; index 0 is the constant one.
pub open spec fn arena_shape(a: Seq<ArenaNode>, x: nat, d: nat) -> Shape
    decreases d,
{
    if x == 0 {
        Shape::One
    } else if x >= a.len() || d == 0 {
        Shape::Terminal
    } else {
        match a[x as int] {
            ArenaNode::Constant => Shape::Terminal,
            ArenaNode::Internal { var_index, then_child, else_child } => Shape::Node(
                var_index,
                Box::new(arena_shape(a, then_child.index_of(), (d - 1) as nat)),
                then_child.compl_of(),
                Box::new(arena_shape(a, else_child.index_of(), (d - 1) as nat)),
                else_child.compl_of(),
            ),
        }
    }
}

/// The tree that the node numbered `k` of the listing `ns` unfolds to.
pub open spec fn dump_shape(ns: Seq<DumpNode>, k: nat) -> Shape
    decreases k,
{
    if k == 0 || k > ns.len() {
        Shape::Terminal
    } else {
        let n = ns[k - 1];
        if n.var_index == CONST_INDEX {
            if n.is_one {
                Shape::One
            } else {
                Shape::Terminal
            }
        } else if n.then_seq < k && n.else_seq < k {
            Shape::Node(
                n.var_index,
                Box::new(dump_shape(ns, n.then_seq as nat)),
                n.then_comp,
                Box::new(dump_shape(ns, n.else_seq as nat)),
                n.else_comp,
            )
        } else {
            Shape::Terminal
        }
    }
}

/// More depth changes nothing once every path fits.
proof fn lemma_fuel(a: Seq<ArenaNode>, x: nat, d1: nat, d2: nat)
    requires
        sound_below(a, x, d1),
        d1 <= d2,
    ensures
        sound_below(a, x, d2),
        height(a, x, d1) == height(a, x, d2),
        arena_shape(a, x, d1) == arena_shape(a, x, d2),
    decreases d1,
{
    match a[x as int] {
        ArenaNode::Constant => {},
        ArenaNode::Internal { then_child, else_child, .. } => {
            lemma_fuel(a, then_child.index_of(), (d1 - 1) as nat, (d2 - 1) as nat);
            lemma_fuel(a, else_child.index_of(), (d1 - 1) as nat, (d2 - 1) as nat);
        },
    }
}

/// A node listed after the first `k` leaves what they unfold to alone.
proof fn lemma_dump_shape_push(ns: Seq<DumpNode>, m: DumpNode, k: nat)
    requires
        k <= ns.len(),
    ensures
        dump_shape(ns.push(m), k) == dump_shape(ns, k),
    decreases k,
{
    if k > 0 {
        let n = ns[k - 1];
        assert(ns.push(m)[k - 1] == n);
        if n.var_index != CONST_INDEX && n.then_seq < k && n.else_seq < k {
            lemma_dump_shape_push(ns, m, n.then_seq as nat);
            lemma_dump_shape_push(ns, m, n.else_seq as nat);
        }
    }
}

/// A finite set of `u32`s below `n` has at most `n` elements.
pub(crate) proof fn lemma_u32_set_bound(s: Set<u32>, n: nat)
    requires
        s.finite(),
        forall|r: u32| #[trigger] s.contains(r) ==> r < n,
    ensures
        s.len() <= n,
{
    let f = |r: u32| r as int;
    let t = s.map(f);
    assert(vstd::relations::injective_on(f, s));
    vstd::set_lib::lemma_map_size(s, t, f);
    vstd::set_lib::lemma_int_range(0, n as int);
    assert(t.subset_of(vstd::set_lib::set_int_range(0, n as int)));
    vstd::set_lib::lemma_len_subset(t, vstd::set_lib::set_int_range(0, n as int));
}

/// The constant one as the first entry of a listing.
pub open spec fn one_entry() -> DumpNode {
    DumpNode {
        seq_id: 1,
        var_index: CONST_INDEX,
        then_seq: 0,
        else_seq: 0,
        then_comp: false,
        else_comp: false,
        is_one: true,
    }
}

/// One more than the largest variable an internal node of `a` tests (0
/// when there is none).
pub open spec fn var_bound(a: Seq<ArenaNode>) -> nat
    decreases a.len(),
{
    if a.len() == 0 {
        0
    } else {
        let rest = var_bound(a.drop_last());
        match a.last() {
            ArenaNode::Internal { var_index, .. } => if var_index as nat + 1 > rest {
                var_index as nat + 1
            } else {
                rest
            },
            ArenaNode::Constant => rest,
        }
    }
}

/// Every internal node of `a` tests a variable below `var_bound(a)`.
pub proof fn lemma_var_bound(a: Seq<ArenaNode>, x: int)
    requires
        0 <= x < a.len(),
    ensures
        match a[x] {
            ArenaNode::Internal { var_index, .. } => (var_index as nat) < var_bound(a),
            ArenaNode::Constant => true,
        },
    decreases a.len(),
{
    if x < a.len() - 1 {
        lemma_var_bound(a.drop_last(), x);
        assert(a.drop_last()[x] == a[x]);
    }
}

/// Where every internal node tests a variable below `b`, so does the bound.
pub proof fn lemma_var_bound_le(a: Seq<ArenaNode>, b: nat)
    requires
        forall|x: int|
            0 <= x < a.len() ==> match #[trigger] a[x] {
                ArenaNode::Internal { var_index, .. } => (var_index as nat) < b,
                ArenaNode::Constant => true,
            },
    ensures
        var_bound(a) <= b,
    decreases a.len(),
{
    if a.len() > 0 {
        let p = a.drop_last();
        assert forall|x: int| 0 <= x < p.len() implies match #[trigger] p[x] {
            ArenaNode::Internal { var_index, .. } => (var_index as nat) < b,
            ArenaNode::Constant => true,
        } by {
            assert(p[x] == a[x]);
        }
        lemma_var_bound_le(p, b);
        assert(a.last() == a[a.len() - 1]);
    }
}

/// Every internal node listed in `ns` tests a variable below `b`.
pub open spec fn vars_below(ns: Seq<DumpNode>, b: nat) -> bool {
    forall|i: int| 0 <= i < ns.len() && (#[trigger] ns[i]).var_index != CONST_INDEX ==> (ns[i].var_index as nat) < b
}

/// What the walk keeps: the listing starts with the constant one and is
/// well listed; `vis` numbers the arena nodes listed so far (index 0 as 1),
/// each by a place of the listing that unfolds to the same tree as the
/// node, and there are as many listed as numbered.
pub open spec fn walk_inv(a: Seq<ArenaNode>, vis: Map<u32, u32>, ord: Seq<DumpNode>) -> bool {
    &&& 1 <= a.len() <= 0x7FFF_FFFF
    &&& a[0] is Constant
    &&& ord.len() >= 1
    &&& ord[0] == one_entry()
    &&& well_listed(ord, 0)
    &&& vis.contains_key(0)
    &&& vis[0] == 1
    &&& vis.dom().finite()
    &&& vis.dom().len() == ord.len()
    &&& bdd_arena(a) ==> terminals_one(ord)
    &&& vars_below(ord, var_bound(a))
    &&& forall|r: u32|
        #[trigger] vis.contains_key(r) ==> {
            &&& (r as nat) < a.len()
            &&& sound_below(a, r as nat, a.len())
            &&& 1 <= vis[r] <= ord.len()
            &&& dump_shape(ord, vis[r] as nat) == arena_shape(a, r as nat, a.len())
        }
}

/// A node not yet numbered leaves room for one more listed node.
proof fn lemma_room(a: Seq<ArenaNode>, vis: Map<u32, u32>, ord: Seq<DumpNode>, raw: u32)
    requires
        walk_inv(a, vis, ord),
        !vis.contains_key(raw),
        (raw as nat) < a.len(),
    ensures
        ord.len() + 1 <= a.len(),
{
    let d2 = vis.dom().insert(raw);
    assert forall|r: u32| #[trigger] d2.contains(r) implies r < a.len() by {
        if r != raw {
            assert(vis.contains_key(r));
        }
    }
    lemma_u32_set_bound(d2, a.len());
}

/// Listing a node not yet numbered, after everything it unfolds through.
#[verifier::spinoff_prover]
proof fn lemma_walk_push(
    a: Seq<ArenaNode>,
    vis: Map<u32, u32>,
    ord: Seq<DumpNode>,
    raw: u32,
    n: DumpNode,
)
    requires
        walk_inv(a, vis, ord),
        !vis.contains_key(raw),
        (raw as nat) < a.len(),
        sound_below(a, raw as nat, a.len()),
        listed_at(n, ord.len() as int),
        dump_shape(ord.push(n), ord.len() + 1) == arena_shape(a, raw as nat, a.len()),
        bdd_arena(a) && n.var_index == CONST_INDEX ==> n.is_one,
        n.var_index != CONST_INDEX ==> (n.var_index as nat) < var_bound(a),
    ensures
        walk_inv(a, vis.insert(raw, (ord.len() + 1) as u32), ord.push(n)),
{
    let v2 = vis.insert(raw, (ord.len() + 1) as u32);
    let o2 = ord.push(n);
    lemma_room(a, vis, ord, raw);
    assert(o2[0] == ord[0]);
    assert forall|i: int| 0 <= i < o2.len() implies listed_at(#[trigger] o2[i], 0 + i) by {
        if i < ord.len() {
            assert(o2[i] == ord[i]);
            assert(listed_at(ord[i], 0 + i));
        }
    }
    assert(v2.dom() == vis.dom().insert(raw));
    assert forall|i: int| 0 <= i < o2.len() && (#[trigger] o2[i]).var_index != CONST_INDEX
        implies (o2[i].var_index as nat) < var_bound(a) by {
        if i < ord.len() {
            assert(o2[i] == ord[i]);
        }
    }
    if bdd_arena(a) {
        assert forall|i: int| 0 <= i < o2.len() && (#[trigger] o2[i]).var_index == CONST_INDEX
            implies o2[i].is_one by {
            if i < ord.len() {
                assert(o2[i] == ord[i]);
            }
        }
    }
    assert forall|r: u32| #[trigger] v2.contains_key(r) implies {
        &&& (r as nat) < a.len()
        &&& sound_below(a, r as nat, a.len())
        &&& 1 <= v2[r] <= o2.len()
        &&& dump_shape(o2, v2[r] as nat) == arena_shape(a, r as nat, a.len())
    } by {
        if r != raw {
            assert(vis.contains_key(r));
            lemma_dump_shape_push(ord, n, vis[r] as nat);
        }
    }
}

/// The entry of a constant other than the constant one.
fn terminal_entry(seq: u32) -> (n: DumpNode)
    ensures
        n == (DumpNode {
            seq_id: seq,
            var_index: CONST_INDEX,
            then_seq: 0,
            else_seq: 0,
            then_comp: false,
            else_comp: false,
            is_one: false,
        }),
{
    DumpNode {
        seq_id: seq,
        var_index: CONST_INDEX,
        then_seq: 0,
        else_seq: 0,
        then_comp: false,
        else_comp: false,
        is_one: false,
    }
}

/// Visit node `id` depth-first: list every node below it not listed yet,
/// children before parents (the then-side first), and then the node
/// itself, numbering each by its place.
#[verifier::spinoff_prover]
fn topo_visit(
    a: &[ArenaNode],
    id: NodeId,
    visited: &mut HashMap<u32, u32>,
    order: &mut Vec<DumpNode>,
    Ghost(d): Ghost<nat>,
)
    requires
        walk_inv(a@, old(visited)@, old(order)@),
        sound_below(a@, id.index_of(), d),
        d <= a@.len(),
    ensures
        walk_inv(a@, final(visited)@, final(order)@),
        final(visited)@.contains_key(id.index_of() as u32),
        old(visited)@.submap_of(final(visited)@),
        !old(visited)@.contains_key(id.index_of() as u32) ==> final(visited)@[id.index_of() as u32]
            == final(order)@.len(),
        old(visited)@.contains_key(id.index_of() as u32) ==> final(order)@ == old(order)@,
        forall|r: u32|
            #[trigger] final(visited)@.contains_key(r) && !old(visited)@.contains_key(r) ==> height(
                a@,
                r as nat,
                a@.len(),
            ) <= height(a@, id.index_of(), a@.len()),
    decreases d,
{
    let ghost f = a@.len();
    let raw = id.raw_index();
    if visited.contains_key(&raw) {
        return;
    }
    proof {
        lemma_fuel(a@, raw as nat, d, f);
        lemma_room(a@, visited@, order@, raw);
    }
    match a[raw as usize] {
        ArenaNode::Constant => {
            let seq = order.len() as u32 + 1;
            let n = terminal_entry(seq);
            proof {
                assert(raw != 0);
                assert(a@[raw as int] is Constant);
                lemma_walk_push(a@, visited@, order@, raw, n);
            }
            visited.insert(raw, seq);
            order.push(n);
            proof {
                assert(old(visited)@.submap_of(visited@));
            }
        },
        ArenaNode::Internal { var_index, then_child, else_child } => {
            let vi = var_index;
            let t = then_child;
            let e = else_child;
            proof {
                lemma_fuel(a@, t.index_of(), (f - 1) as nat, f);
                lemma_fuel(a@, e.index_of(), (f - 1) as nat, f);
            }
            let ghost v0 = visited@;
            topo_visit(a, t.regular(), visited, order, Ghost((d - 1) as nat));
            let ghost v1 = visited@;
            topo_visit(a, e.regular(), visited, order, Ghost((d - 1) as nat));
            proof {
                assert(!visited@.contains_key(raw)) by {
                    if visited@.contains_key(raw) {
                        if !v1.contains_key(raw) {
                            assert(height(a@, raw as nat, f) <= height(a@, e.index_of(), f));
                        } else {
                            assert(height(a@, raw as nat, f) <= height(a@, t.index_of(), f));
                        }
                    }
                }
                lemma_room(a@, visited@, order@, raw);
            }
            let seq = order.len() as u32 + 1;
            let ghost vis_before = visited@;
            let ghost ord_before = order@;
            visited.insert(raw, seq);
            let t_seq = match visited.get(&t.raw_index()) {
                Some(s) => *s,
                None => 0,
            };
            let e_seq = match visited.get(&e.raw_index()) {
                Some(s) => *s,
                None => 0,
            };
            let n = DumpNode {
                seq_id: seq,
                var_index: vi,
                then_seq: t_seq,
                else_seq: e_seq,
                then_comp: t.is_complemented(),
                else_comp: e.is_complemented(),
                is_one: false,
            };
            proof {
                assert(raw != 0);
                assert(vis_before.contains_key(t.index_of() as u32));
                assert(vis_before.contains_key(e.index_of() as u32));
                assert(t_seq == vis_before[t.index_of() as u32]);
                assert(e_seq == vis_before[e.index_of() as u32]);
                lemma_dump_shape_push(ord_before, n, t_seq as nat);
                lemma_dump_shape_push(ord_before, n, e_seq as nat);
                assert(ord_before.push(n)[ord_before.len() as int] == n);
                lemma_var_bound(a@, raw as int);
                lemma_walk_push(a@, vis_before, ord_before, raw, n);
                assert(v0.submap_of(v1));
                assert(v1.submap_of(vis_before));
                assert(vis_before.submap_of(visited@));
                vstd::map_lib::lemma_submap_of_trans(v0, v1, vis_before);
                vstd::map_lib::lemma_submap_of_trans(v0, vis_before, visited@);
            }
            order.push(n);
        },
    }
}

/// List the nodes of the diagram `root` for a dump: the constant one
/// first, numbered 1, then the nodes below the root in a depth-first walk
/// (the then-side first), each after its children and numbered by its
/// place, the root last; and whether the edge to the root is complemented.
/// The listing unfolds from the root's number to the tree that the root
/// unfolds to in the arena.
pub fn topo_sort(arena: &[ArenaNode], root: NodeId) -> (r: (Vec<DumpNode>, bool))
    requires
        1 <= arena@.len() <= 0x7FFF_FFFF,
        arena@[0] is Constant,
        sound_below(arena@, root.index_of(), arena@.len()),
    ensures
        r.0@.len() >= 1,
        r.0@[0] == one_entry(),
        well_listed(r.0@, 0),
        r.0@.len() <= arena@.len(),
        r.1 == root.compl_of(),
        bdd_arena(arena@) ==> terminals_one(r.0@),
        vars_below(r.0@, var_bound(arena@)),
        dump_shape(r.0@, root_seq(r.0@) as nat) == arena_shape(
            arena@,
            root.index_of(),
            arena@.len(),
        ),
{
    let root_comp = root.is_complemented();
    let root_reg = root.regular();
    let mut visited: HashMap<u32, u32> = HashMap::new();
    let mut order: Vec<DumpNode> = Vec::new();
    visited.insert(0, 1);
    order.push(
        DumpNode {
            seq_id: 1,
            var_index: CONST_INDEX,
            then_seq: 0,
            else_seq: 0,
            then_comp: false,
            else_comp: false,
            is_one: true,
        },
    );
    proof {
        assert(visited@.dom() =~= set![0u32]);
        assert(visited@.dom().len() == 1);
        assert(listed_at(order@[0], 0));
        assert(well_listed(order@, 0));
    }
    topo_visit(arena, root_reg, &mut visited, &mut order, Ghost(arena@.len()));
    proof {
        NodeId::lemma_parts_range(root);
        let raw = root.index_of() as u32;
        assert(raw as nat == root.index_of());
        let ord = order@;
        assert(listed_at(ord[ord.len() - 1], ord.len() - 1));
        if raw == 0 {
            assert(visited@[raw] == 1);
            assert(ord.len() == 1);
        } else {
            assert(visited@[raw] == ord.len());
        }
        assert(visited@.contains_key(raw));
        assert forall|r: u32| #[trigger] visited@.dom().contains(r) implies r < arena@.len() by {
            assert(visited@.contains_key(r));
        }
        lemma_u32_set_bound(visited@.dom(), arena@.len());
    }
    (order, root_comp)
}

} // verus!
