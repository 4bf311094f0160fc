//! Checking one decision diagram in a manager's node arena: every node
//! reached lies in the arena, and every edge between internal nodes goes
//! to a deeper level (so there is no cycle).
use vstd::prelude::*;
use std::collections::HashSet;
use crate::decimal::{decimal, push_decimal};
use crate::dddmp::CONST_INDEX;
use crate::dump_order::{lemma_u32_set_bound, ArenaNode};
use crate::node::NodeId;

verus! {

broadcast use vstd::std_specs::hash::group_hash_axioms;

/// Node `x` of `a` ends a path: index 0, a constant, or a node on the
/// terminal mark.
pub open spec fn is_term(a: Seq<ArenaNode>, x: nat) -> bool {
    x == 0 || match a[x as int] {
        ArenaNode::Constant => true,
        ArenaNode::Internal { var_index, .. } => var_index == CONST_INDEX,
    }
}

/// The level of internal node `x` of `a` under `perm`.
pub open spec fn var_level(a: Seq<ArenaNode>, perm: Seq<u32>, x: nat) -> nat {
    match a[x as int] {
        ArenaNode::Internal { var_index, .. } => perm[var_index as int] as nat,
        ArenaNode::Constant => 0,
    }
}

/// The edge from internal node `x` to `c` is in order: `c` lies in the
/// arena, and ends a path or lies on a deeper level.
pub open spec fn edge_in_order(a: Seq<ArenaNode>, perm: Seq<u32>, x: nat, c: nat) -> bool {
    c < a.len() && (is_term(a, c) || var_level(a, perm, x) < var_level(a, perm, c))
}

/// Every node reached from node `x` of `a` lies in the arena, and every
/// edge from an internal node goes to a node that ends a path or lies on a
/// deeper level.
pub open spec fn dd_ok(a: Seq<ArenaNode>, perm: Seq<u32>, x: nat) -> bool
    decreases 0x1_0000_0000 - var_level(a, perm, x),
{
    if x >= a.len() {
        false
    } else if is_term(a, x) {
        true
    } else {
        match a[x as int] {
            ArenaNode::Internal { then_child, else_child, .. } => {
                let t = then_child.index_of();
                let e = else_child.index_of();
                if var_level(a, perm, x) < 0x1_0000_0000 && edge_in_order(a, perm, x, t)
                    && edge_in_order(a, perm, x, e) {
                    (is_term(a, t) || dd_ok(a, perm, t)) && (is_term(a, e) || dd_ok(a, perm, e))
                } else {
                    false
                }
            },
            ArenaNode::Constant => true,
        }
    }
}

/// Every internal node of `a` tests a variable that `perm` places, or
/// carries the terminal mark.
pub open spec fn vars_placed(a: Seq<ArenaNode>, perm: Seq<u32>) -> bool {
    forall|x: int|
        0 <= x < a.len() ==> match #[trigger] a[x] {
            ArenaNode::Internal { var_index, .. } => var_index == CONST_INDEX || (var_index as nat)
                < perm.len(),
            ArenaNode::Constant => true,
        }
}

/// The nodes on the current path lie in the arena, are internal, and lie
/// above `x` when `x` is internal.
pub open spec fn path_above(a: Seq<ArenaNode>, perm: Seq<u32>, path: Set<u32>, x: nat) -> bool {
    forall|p: u32|
        #[trigger] path.contains(p) ==> (p as nat) < a.len() && !is_term(a, p as nat) && (x
            < a.len() && !is_term(a, x) ==> var_level(a, perm, p as nat) < var_level(a, perm, x))
}

/// Every node already checked passes.
pub open spec fn checked_ok(a: Seq<ArenaNode>, perm: Seq<u32>, visited: Set<u32>) -> bool {
    forall|v: u32| #[trigger] visited.contains(v) ==> dd_ok(a, perm, v as nat)
}

/// The variable of a node, the terminal mark for a constant.
fn var_of(a: &[ArenaNode], raw: usize) -> (r: u16)
    requires
        raw < a@.len(),
    ensures
        r == match a@[raw as int] {
            ArenaNode::Internal { var_index, .. } => var_index,
            ArenaNode::Constant => CONST_INDEX,
        },
{
    match a[raw] {
        ArenaNode::Internal { var_index, .. } => var_index,
        ArenaNode::Constant => CONST_INDEX,
    }
}

/// The message for an edge from a node on `var` (at `level`) to its
/// `side` child on `child_var` (at `child_level`) that is out of order.
pub open spec fn order_text(
    side: Seq<char>,
    var: u16,
    level: u32,
    child_var: u16,
    child_level: u32,
) -> Seq<char> {
    "Variable ordering violation: node var "@ + decimal(var as nat) + " (level "@ + decimal(
        level as nat,
    ) + ") has "@ + side + " var "@ + decimal(child_var as nat) + " (level "@ + decimal(
        child_level as nat,
    ) + ") \u{2014} parent must have smaller level"@
}

/// The message for an edge out of order.
fn order_message(side: &str, var: u16, level: u32, child_var: u16, child_level: u32) -> (r: String)
    ensures
        r@ == order_text(side@, var, level, child_var, child_level),
{
    let mut m = String::new();
    m.append("Variable ordering violation: node var ");
    push_decimal(&mut m, var as u64);
    m.append(" (level ");
    push_decimal(&mut m, level as u64);
    m.append(") has ");
    m.append(side);
    m.append(" var ");
    push_decimal(&mut m, child_var as u64);
    m.append(" (level ");
    push_decimal(&mut m, child_level as u64);
    m.append(") \u{2014} parent must have smaller level");
    proof {
        assert(m@ =~= order_text(side@, var, level, child_var, child_level));
    }
    m
}

/// The text of a node handle: `N` and its index, after `!` when the edge
/// is complemented.
pub open spec fn node_text(f: NodeId) -> Seq<char> {
    (if f.compl_of() {
        seq!['!', 'N']
    } else {
        seq!['N']
    }) + decimal(f.index_of())
}

/// The message for a node that lies outside an arena of `len` nodes.
pub open spec fn range_text(f: NodeId, len: nat) -> Seq<char> {
    "Node "@ + node_text(f) + " has raw index "@ + decimal(f.index_of()) + " but arena has only "@
        + decimal(len) + " nodes"@
}

/// The edge from internal node `x` to `c` breaks the order: `c` is an
/// internal node of the arena on a level not deeper than `x`'s.
pub open spec fn edge_breaks_order(a: Seq<ArenaNode>, perm: Seq<u32>, x: nat, c: nat) -> bool {
    c < a.len() && !is_term(a, c) && var_level(a, perm, x) >= var_level(a, perm, c)
}

/// The variable of internal node `x`.
pub open spec fn node_var(a: Seq<ArenaNode>, x: nat) -> u16 {
    match a[x as int] {
        ArenaNode::Internal { var_index, .. } => var_index,
        ArenaNode::Constant => CONST_INDEX,
    }
}

/// The message for the first problem met in a depth-first walk from `f`
/// (the then-side first, each node's edges checked before its children
/// are walked), if there is one.
pub open spec fn dd_problem(a: Seq<ArenaNode>, perm: Seq<u32>, f: NodeId) -> Option<Seq<char>>
    decreases 0x1_0000_0000 - var_level(a, perm, f.index_of()),
{
    let x = f.index_of();
    if x >= a.len() {
        Some(range_text(f, a.len()))
    } else if is_term(a, x) {
        None
    } else {
        match a[x as int] {
            ArenaNode::Internal { var_index, then_child, else_child } => {
                let t = then_child.index_of();
                let e = else_child.index_of();
                let l = perm[var_index as int];
                if edge_breaks_order(a, perm, x, t) {
                    Some(
                        order_text(
                            "then-child"@,
                            var_index,
                            l,
                            node_var(a, t),
                            perm[node_var(a, t) as int],
                        ),
                    )
                } else if edge_breaks_order(a, perm, x, e) {
                    Some(
                        order_text(
                            "else-child"@,
                            var_index,
                            l,
                            node_var(a, e),
                            perm[node_var(a, e) as int],
                        ),
                    )
                } else if var_level(a, perm, x) >= 0x1_0000_0000 {
                    None
                } else {
                    let pt = if t >= a.len() {
                        Some(range_text(then_child, a.len()))
                    } else if is_term(a, t) {
                        None
                    } else {
                        dd_problem(a, perm, then_child)
                    };
                    match pt {
                        Some(m) => Some(m),
                        None => if e >= a.len() {
                            Some(range_text(else_child, a.len()))
                        } else if is_term(a, e) {
                            None
                        } else {
                            dd_problem(a, perm, else_child)
                        },
                    }
                }
            },
            ArenaNode::Constant => None,
        }
    }
}

/// A diagram passes exactly when the walk meets no problem.
proof fn lemma_problem_iff_not_ok(a: Seq<ArenaNode>, perm: Seq<u32>, f: NodeId)
    requires
        vars_placed(a, perm),
    ensures
        dd_problem(a, perm, f) is None <==> dd_ok(a, perm, f.index_of()),
    decreases 0x1_0000_0000 - var_level(a, perm, f.index_of()),
{
    let x = f.index_of();
    if x < a.len() && !is_term(a, x) {
        match a[x as int] {
            ArenaNode::Internal { var_index, then_child, else_child } => {
                let t = then_child.index_of();
                let e = else_child.index_of();
                if !edge_breaks_order(a, perm, x, t) && !edge_breaks_order(a, perm, x, e) {
                    if t < a.len() && !is_term(a, t) {
                        lemma_problem_iff_not_ok(a, perm, then_child);
                    }
                    if e < a.len() && !is_term(a, e) {
                        lemma_problem_iff_not_ok(a, perm, else_child);
                    }
                }
            },
            ArenaNode::Constant => {},
        }
    }
}

/// Check the diagram below `f`, skipping nodes already checked; `path`
/// holds the internal nodes on the way down to `f`.
fn verify_dd_rec(
    a: &[ArenaNode],
    perm: &[u32],
    f: NodeId,
    visited: &mut HashSet<u32>,
    path: &mut HashSet<u32>,
) -> (r: Result<(), String>)
    requires
        vars_placed(a@, perm@),
        a@.len() <= 0x8000_0000,
        old(path)@.finite(),
        path_above(a@, perm@, old(path)@, f.index_of()),
        checked_ok(a@, perm@, old(visited)@),
    ensures
        r is Ok <==> dd_ok(a@, perm@, f.index_of()),
        r is Ok <==> dd_problem(a@, perm@, f) is None,
        r matches Err(m) ==> dd_problem(a@, perm@, f) == Some(m@),
        r is Ok ==> final(path)@ == old(path)@,
        checked_ok(a@, perm@, final(visited)@),
    decreases a@.len() - old(path)@.len(),
{
    proof {
        lemma_problem_iff_not_ok(a@, perm@, f);
    }
    let raw = f.raw_index();
    if raw as usize >= a.len() {
        let mut m = String::new();
        m.append("Node ");
        m.append(f.to_string().as_str());
        m.append(" has raw index ");
        push_decimal(&mut m, raw as u64);
        m.append(" but arena has only ");
        push_decimal(&mut m, a.len() as u64);
        m.append(" nodes");
        proof {
            assert(m@ =~= range_text(f, a@.len()));
        }
        return Err(m);
    }
    let x = raw as usize;
    let xv = var_of(a, x);
    if f.is_constant() || xv == CONST_INDEX {
        return Ok(());
    }
    if path.contains(&raw) {
        let mut m = String::new();
        m.append("Cycle detected: node index ");
        push_decimal(&mut m, raw as u64);
        m.append(" is on the current path");
        proof {
            assert(path@.contains(raw));
        }
        return Err(m);
    }
    if visited.contains(&raw) {
        return Ok(());
    }
    proof {
        assert forall|p: u32| #[trigger] path@.insert(raw).contains(p) implies p < a@.len() by {
            if p != raw {
                assert(path@.contains(p));
            }
        }
        lemma_u32_set_bound(path@.insert(raw), a@.len() as nat);
    }
    path.insert(raw);
    match a[x] {
        ArenaNode::Internal { var_index, then_child, else_child } => {
            let parent_level = perm[var_index as usize];
            if !then_child.is_constant() {
                let tr = then_child.raw_index() as usize;
                if tr < a.len() {
                    let t_var = var_of(a, tr);
                    if t_var != CONST_INDEX {
                        let t_level = perm[t_var as usize];
                        if parent_level >= t_level {
                            return Err(
                                order_message("then-child", var_index, parent_level, t_var, t_level),
                            );
                        }
                    }
                }
            }
            if !else_child.is_constant() {
                let er = else_child.raw_index() as usize;
                if er < a.len() {
                    let e_var = var_of(a, er);
                    if e_var != CONST_INDEX {
                        let e_level = perm[e_var as usize];
                        if parent_level >= e_level {
                            return Err(
                                order_message("else-child", var_index, parent_level, e_var, e_level),
                            );
                        }
                    }
                }
            }
            let ghost path0 = path@;
            proof {
                assert(path0.len() == old(path)@.len() + 1);
            }
            let rt = verify_dd_rec(a, perm, then_child, visited, path);
            match rt {
                Err(m) => {
                    return Err(m);
                },
                Ok(()) => {},
            }
            let re = verify_dd_rec(a, perm, else_child, visited, path);
            match re {
                Err(m) => {
                    return Err(m);
                },
                Ok(()) => {},
            }
        },
        ArenaNode::Constant => {},
    }
    path.remove(&raw);
    visited.insert(raw);
    Ok(())
}

/// Check the diagram rooted at `f`: every node reached lies in the arena,
/// and every edge between internal nodes goes to a deeper level, so the
/// nodes reached form no cycle. On failure the message names the first
/// problem met in a depth-first walk (then-side first).
pub fn debug_verify_dd(arena: &[ArenaNode], perm: &[u32], f: NodeId) -> (r: Result<(), String>)
    requires
        vars_placed(arena@, perm@),
        arena@.len() <= 0x8000_0000,
    ensures
        r is Ok <==> dd_ok(arena@, perm@, f.index_of()),
        r matches Err(m) ==> dd_problem(arena@, perm@, f) == Some(m@),
{
    let mut visited: HashSet<u32> = HashSet::new();
    let mut path: HashSet<u32> = HashSet::new();
    proof {
        assert(path@ =~= Set::<u32>::empty());
        assert(visited@ =~= Set::<u32>::empty());
    }
    verify_dd_rec(arena, perm, f, &mut visited, &mut path)
}

/// Node `x` of `a` stores a complemented then-child.
pub open spec fn then_complemented(a: Seq<ArenaNode>, x: int) -> bool {
    match a[x] {
        ArenaNode::Internal { then_child, .. } => then_child.compl_of(),
        ArenaNode::Constant => false,
    }
}

/// The message for node `x` with a complemented then-child.
pub open spec fn canonical_text(a: Seq<ArenaNode>, x: int) -> Seq<char> {
    match a[x] {
        ArenaNode::Internal { var_index, then_child, .. } => "Node at index "@ + decimal(x as nat)
            + " (var "@ + decimal(var_index as nat) + ") has complemented then-child "@ + "!N"@
            + decimal(then_child.index_of()) + " \u{2014} violates canonical form"@,
        ArenaNode::Constant => Seq::empty(),
    }
}

/// Check that no internal node of the arena stores a complemented
/// then-child (the canonical form of complemented edges). The error names
/// the first node that does.
pub fn check_canonical_form(arena: &[ArenaNode]) -> (r: Result<(), String>)
    ensures
        r is Ok <==> forall|x: int| 0 <= x < arena@.len() ==> !#[trigger] then_complemented(arena@, x),
        r matches Err(m) ==> exists|x: int|
            0 <= x < arena@.len() && then_complemented(arena@, x) && (forall|y: int|
                0 <= y < x ==> !#[trigger] then_complemented(arena@, y)) && m@ == canonical_text(
                arena@,
                x,
            ),
{
    let mut idx: usize = 0;
    while idx < arena.len()
        invariant
            idx <= arena@.len(),
            forall|y: int| 0 <= y < idx ==> !#[trigger] then_complemented(arena@, y),
        decreases arena@.len() - idx,
    {
        match arena[idx] {
            ArenaNode::Internal { var_index, then_child, .. } => {
                if then_child.is_complemented() {
                    let mut m = String::new();
                    m.append("Node at index ");
                    push_decimal(&mut m, idx as u64);
                    m.append(" (var ");
                    push_decimal(&mut m, var_index as u64);
                    m.append(") has complemented then-child ");
                    m.append(then_child.to_string().as_str());
                    m.append(" \u{2014} violates canonical form");
                    proof {
                        assert(then_complemented(arena@, idx as int));
                        reveal_strlit("!N");
                        assert(m@ =~= canonical_text(arena@, idx as int));
                    }
                    return Err(m);
                }
            },
            ArenaNode::Constant => {},
        }
        idx += 1;
    }
    Ok(())
}

} // verus!
