//! The BDD manager: a node arena of reduced, ordered decision nodes with
//! complemented edges, the variable order, and a unique table that keeps
//! one node per (variable, then-child, else-child).
use vstd::prelude::*;
use std::collections::HashMap;
use crate::count_apa::{node_level, ordered};
use crate::dump_order::{children_before, lemma_children_before_one, lemma_children_before_push, ArenaNode};
use crate::local_cache::{cache_key, key_of, lemma_cache_key_injective};
use crate::node::NodeId;
use crate::error::DdError;
use crate::dddmp::{
    binary_dump, cnf_clauses_of, cnf_text, cnf_text_of, dump_binary, dump_text, header_text, names_view, node_lines, root_seq,
    well_listed, DumpNode, LoadError, CONST_INDEX,
};
use crate::dump_law::terminals_one;
use crate::dag_count::{
    count_true, in_reach, lemma_closed_at, lemma_count_prefix, lemma_count_take, lemma_in_reach_bound, lemma_in_reach_trans, lemma_node_count_extend,
    node_count, nodes_closed,
};
use crate::cnf_law::{clauses_hold, diagram_part, lemma_cnf_models};
use crate::canon::{
    canon_ready, ev, lemma_canonical, lemma_cube_chain, lemma_table_complete_one, lemma_table_complete_push, same_fn, table_complete,
};
use crate::dump_order::{
    lemma_var_bound_le, var_bound, vars_below, arena_shape, dump_shape, lemma_sound_from_children_before, one_entry, sound_below, topo_sort, Shape,
};

verus! {

broadcast use vstd::std_specs::hash::group_hash_axioms;

/// Whether node `x` of `a`, negated when `c` holds, is true under the
/// assignment `asg` of values to variables (by variable index).
pub open spec fn eval_node(
    a: Seq<ArenaNode>,
    perm: Seq<u32>,
    n: nat,
    x: nat,
    c: bool,
    asg: Seq<bool>,
) -> bool
    decreases n - node_level(a, perm, n, x),
{
    if x == 0 {
        !c
    } else if x >= a.len() {
        false
    } else {
        match a[x as int] {
            ArenaNode::Internal { var_index, then_child, else_child } => {
                let l = node_level(a, perm, n, x);
                let lt = node_level(a, perm, n, then_child.index_of());
                let le = node_level(a, perm, n, else_child.index_of());
                if l < lt <= n && l < le <= n {
                    if asg[var_index as int] {
                        eval_node(a, perm, n, then_child.index_of(), then_child.compl_of() != c, asg)
                    } else {
                        eval_node(a, perm, n, else_child.index_of(), else_child.compl_of() != c, asg)
                    }
                } else {
                    false
                }
            },
            ArenaNode::Constant => false,
        }
    }
}

/// A handle for variable `v` as the unique table packs it.
pub open spec fn var_handle(v: u16) -> NodeId {
    choose|h: NodeId| h.index_of() == v && !h.compl_of()
}

/// The unique-table key of a node on `v` with children `t` and `e`.
pub open spec fn unique_key(v: u16, t: NodeId, e: NodeId) -> u128 {
    cache_key(0, var_handle(v), t, e)
}

/// The handle is the constant zero.
pub open spec fn is_zero_h(h: NodeId) -> bool {
    h.index_of() == 0 && h.compl_of()
}

/// The handle is the constant one.
pub open spec fn is_one_h(h: NodeId) -> bool {
    h.index_of() == 0 && !h.compl_of()
}

/// The level of the node that handle `h` points to.
pub open spec fn lev(a: Seq<ArenaNode>, perm: Seq<u32>, n: nat, h: NodeId) -> nat {
    node_level(a, perm, n, h.index_of())
}

/// The variable that the node of handle `h` tests.
pub open spec fn var_of(a: Seq<ArenaNode>, h: NodeId) -> u16 {
    if 0 < h.index_of() < a.len() {
        match a[h.index_of() as int] {
            ArenaNode::Internal { var_index, .. } => var_index,
            ArenaNode::Constant => 0,
        }
    } else {
        0
    }
}

/// The cofactors of handle `f` by the variable on level `l`: the children
/// of its node, negated along with `f`, when that node is on level `l`;
/// else `f` twice.
pub open spec fn cof(a: Seq<ArenaNode>, perm: Seq<u32>, n: nat, f: NodeId, l: nat) -> (NodeId, NodeId) {
    if 0 < f.index_of() < a.len() && lev(a, perm, n, f) == l {
        match a[f.index_of() as int] {
            ArenaNode::Internal { then_child, else_child, .. } => (
                then_child.negated_if(f.compl_of()),
                else_child.negated_if(f.compl_of()),
            ),
            ArenaNode::Constant => (f, f),
        }
    } else {
        (f, f)
    }
}

/// The variable on the top level of `f` and `g`.
pub open spec fn top_var(a: Seq<ArenaNode>, perm: Seq<u32>, n: nat, f: NodeId, g: NodeId) -> u16 {
    if lev(a, perm, n, f) <= lev(a, perm, n, g) {
        var_of(a, f)
    } else {
        var_of(a, g)
    }
}

/// The lower of two levels.
pub open spec fn min2(x: nat, y: nat) -> nat {
    if x <= y {
        x
    } else {
        y
    }
}

/// The function that squeezing between `lb` and `ub` builds, at `asg`:
/// zero where `lb` is zero, one where `ub` is one, `lb` where both are
/// the same; else, on the top variable, a branch takes one where the
/// cofactor of `ub` is one and zero where the cofactor of `lb` is zero
/// (tried in that order, then-side first), and otherwise the squeeze of
/// the cofactors.
pub open spec fn squeeze_fn(a: Seq<ArenaNode>, perm: Seq<u32>, n: nat, lb: NodeId, ub: NodeId, asg: Seq<bool>) -> bool
    decreases n - min2(lev(a, perm, n, lb), lev(a, perm, n, ub)),
{
    if is_zero_h(lb) {
        false
    } else if is_one_h(ub) {
        true
    } else if lb == ub {
        eval_node(a, perm, n, lb.index_of(), lb.compl_of(), asg)
    } else if is_zero_h(ub) {
        false
    } else if is_one_h(lb) {
        true
    } else {
        let top = min2(lev(a, perm, n, lb), lev(a, perm, n, ub));
        let v = top_var(a, perm, n, lb, ub);
        let (lt, le) = cof(a, perm, n, lb, top);
        let (ut, ue) = cof(a, perm, n, ub, top);
        if top < lev(a, perm, n, lt) <= n && top < lev(a, perm, n, le) <= n && top < lev(a, perm, n, ut) <= n
            && top < lev(a, perm, n, ue) <= n {
            if is_one_h(ut) {
                asg[v as int] || squeeze_fn(a, perm, n, le, ue, asg)
            } else if is_one_h(ue) {
                !asg[v as int] || squeeze_fn(a, perm, n, lt, ut, asg)
            } else if is_zero_h(lt) {
                !asg[v as int] && squeeze_fn(a, perm, n, le, ue, asg)
            } else if is_zero_h(le) {
                asg[v as int] && squeeze_fn(a, perm, n, lt, ut, asg)
            } else if asg[v as int] {
                squeeze_fn(a, perm, n, lt, ut, asg)
            } else {
                squeeze_fn(a, perm, n, le, ue, asg)
            }
        } else {
            false
        }
    }
}

/// What the then-branch of a squeeze takes: one where the then-cofactor
/// of `ub` is one, zero where the then-cofactor of `lb` is zero (unless the
/// else-cofactor of `ub` is one), else the squeeze of the then-cofactors.
pub open spec fn sq_then(
    a: Seq<ArenaNode>,
    perm: Seq<u32>,
    n: nat,
    lt: NodeId,
    le: NodeId,
    ut: NodeId,
    ue: NodeId,
    asg: Seq<bool>,
) -> bool {
    if is_one_h(ut) {
        true
    } else if is_one_h(ue) {
        squeeze_fn(a, perm, n, lt, ut, asg)
    } else if is_zero_h(lt) {
        false
    } else {
        squeeze_fn(a, perm, n, lt, ut, asg)
    }
}

/// What the else-branch of a squeeze takes, by the same rules.
pub open spec fn sq_else(
    a: Seq<ArenaNode>,
    perm: Seq<u32>,
    n: nat,
    lt: NodeId,
    le: NodeId,
    ut: NodeId,
    ue: NodeId,
    asg: Seq<bool>,
) -> bool {
    if is_one_h(ut) {
        squeeze_fn(a, perm, n, le, ue, asg)
    } else if is_one_h(ue) {
        true
    } else if is_zero_h(lt) {
        squeeze_fn(a, perm, n, le, ue, asg)
    } else if is_zero_h(le) {
        false
    } else {
        squeeze_fn(a, perm, n, le, ue, asg)
    }
}

/// The cofactors of an ordered node are ordered, lie below the level when
/// the node is on it, and are the same in any arena grown from `a`.
proof fn lemma_cof(a: Seq<ArenaNode>, b: Seq<ArenaNode>, perm: Seq<u32>, n: nat, f: NodeId, l: nat)
    requires
        ordered(a, perm, n, f.index_of()),
        a.len() <= b.len(),
        forall|i: int| 0 <= i < a.len() ==> b[i] == a[i],
    ensures
        ordered(a, perm, n, cof(a, perm, n, f, l).0.index_of()),
        ordered(a, perm, n, cof(a, perm, n, f, l).1.index_of()),
        cof(b, perm, n, f, l) == cof(a, perm, n, f, l),
        var_of(b, f) == var_of(a, f),
        f.index_of() != 0 && lev(a, perm, n, f) == l ==> lev(a, perm, n, cof(a, perm, n, f, l).0) > l && lev(
            a,
            perm,
            n,
            cof(a, perm, n, f, l).1,
        ) > l,
{
    let x = f.index_of();
    if x != 0 {
        match a[x as int] {
            ArenaNode::Internal { then_child, else_child, .. } => {
                NodeId::lemma_parts(then_child);
                NodeId::lemma_parts(else_child);
            },
            ArenaNode::Constant => {},
        }
    }
}

/// Squeezing between old nodes gives the same function in a grown arena.
proof fn lemma_squeeze_fn_extend(
    a: Seq<ArenaNode>,
    b: Seq<ArenaNode>,
    perm: Seq<u32>,
    n: nat,
    lb: NodeId,
    ub: NodeId,
    asg: Seq<bool>,
)
    requires
        ordered(a, perm, n, lb.index_of()),
        ordered(a, perm, n, ub.index_of()),
        a.len() <= b.len(),
        forall|i: int| 0 <= i < a.len() ==> b[i] == a[i],
    ensures
        squeeze_fn(b, perm, n, lb, ub, asg) == squeeze_fn(a, perm, n, lb, ub, asg),
    decreases n - min2(lev(a, perm, n, lb), lev(a, perm, n, ub)),
{
    lemma_extend(a, b, perm, n, lb.index_of());
    lemma_extend(a, b, perm, n, ub.index_of());
    if !(is_zero_h(lb) || is_one_h(ub) || lb == ub || is_zero_h(ub) || is_one_h(lb)) {
        let top = min2(lev(a, perm, n, lb), lev(a, perm, n, ub));
        lemma_cof(a, b, perm, n, lb, top);
        lemma_cof(a, b, perm, n, ub, top);
        let (lt, le) = cof(a, perm, n, lb, top);
        let (ut, ue) = cof(a, perm, n, ub, top);
        lemma_extend(a, b, perm, n, lt.index_of());
        lemma_extend(a, b, perm, n, le.index_of());
        lemma_extend(a, b, perm, n, ut.index_of());
        lemma_extend(a, b, perm, n, ue.index_of());
        if top < lev(a, perm, n, lt) <= n && top < lev(a, perm, n, le) <= n && top < lev(a, perm, n, ut) <= n
            && top < lev(a, perm, n, ue) <= n {
            lemma_squeeze_fn_extend(a, b, perm, n, lt, ut, asg);
            lemma_squeeze_fn_extend(a, b, perm, n, le, ue, asg);
        }
    }
}

/// The function that the generalized cofactor of `f` by `c` builds, at
/// `asg`: `f` where `f` is constant or `c` is one; zero where `c` is zero;
/// one where `f` is `c`; zero where `f` is the complement of `c`; else, on
/// the top variable, the cofactor by the else-cofactors where `c`'s
/// then-cofactor is zero, by the then-cofactors where its else-cofactor is
/// zero, and otherwise the two combined on that variable.
pub open spec fn constrain_fn(a: Seq<ArenaNode>, perm: Seq<u32>, n: nat, f: NodeId, c: NodeId, asg: Seq<bool>) -> bool
    decreases n - min2(lev(a, perm, n, f), lev(a, perm, n, c)),
{
    if f.index_of() == 0 || is_one_h(c) {
        eval_node(a, perm, n, f.index_of(), f.compl_of(), asg)
    } else if is_zero_h(c) {
        false
    } else if f == c {
        true
    } else if f == c.negated() {
        false
    } else {
        let top = min2(lev(a, perm, n, f), lev(a, perm, n, c));
        let v = top_var(a, perm, n, f, c);
        let (ft, fe) = cof(a, perm, n, f, top);
        let (ct, ce) = cof(a, perm, n, c, top);
        if top < lev(a, perm, n, ft) <= n && top < lev(a, perm, n, fe) <= n && top < lev(a, perm, n, ct) <= n
            && top < lev(a, perm, n, ce) <= n {
            if is_zero_h(ct) {
                constrain_fn(a, perm, n, fe, ce, asg)
            } else if is_zero_h(ce) {
                constrain_fn(a, perm, n, ft, ct, asg)
            } else if asg[v as int] {
                constrain_fn(a, perm, n, ft, ct, asg)
            } else {
                constrain_fn(a, perm, n, fe, ce, asg)
            }
        } else {
            false
        }
    }
}

/// The generalized cofactor between old nodes is the same function in a
/// grown arena.
proof fn lemma_constrain_fn_extend(
    a: Seq<ArenaNode>,
    b: Seq<ArenaNode>,
    perm: Seq<u32>,
    n: nat,
    f: NodeId,
    c: NodeId,
    asg: Seq<bool>,
)
    requires
        ordered(a, perm, n, f.index_of()),
        ordered(a, perm, n, c.index_of()),
        a.len() <= b.len(),
        forall|i: int| 0 <= i < a.len() ==> b[i] == a[i],
    ensures
        constrain_fn(b, perm, n, f, c, asg) == constrain_fn(a, perm, n, f, c, asg),
    decreases n - min2(lev(a, perm, n, f), lev(a, perm, n, c)),
{
    lemma_extend(a, b, perm, n, f.index_of());
    lemma_extend(a, b, perm, n, c.index_of());
    if !(f.index_of() == 0 || is_one_h(c) || is_zero_h(c) || f == c || f == c.negated()) {
        let top = min2(lev(a, perm, n, f), lev(a, perm, n, c));
        lemma_cof(a, b, perm, n, f, top);
        lemma_cof(a, b, perm, n, c, top);
        let (ft, fe) = cof(a, perm, n, f, top);
        let (ct, ce) = cof(a, perm, n, c, top);
        lemma_extend(a, b, perm, n, ft.index_of());
        lemma_extend(a, b, perm, n, fe.index_of());
        lemma_extend(a, b, perm, n, ct.index_of());
        lemma_extend(a, b, perm, n, ce.index_of());
        if top < lev(a, perm, n, ft) <= n && top < lev(a, perm, n, fe) <= n && top < lev(a, perm, n, ct) <= n
            && top < lev(a, perm, n, ce) <= n {
            lemma_constrain_fn_extend(a, b, perm, n, ft, ct, asg);
            lemma_constrain_fn_extend(a, b, perm, n, fe, ce, asg);
        }
    }
}

/// The function that quantifying the cube `cube` out of `f` builds, at
/// `asg`, walking `f` and the then-chain of `cube` together: `f` where it
/// is constant or the cube is one; a cube variable above `f` is skipped; a
/// cube variable that `f` tests gives the disjunction of the quantified
/// cofactors; a variable of `f` above the cube keeps its test.
pub open spec fn exist_fn(a: Seq<ArenaNode>, perm: Seq<u32>, n: nat, f: NodeId, cube: NodeId, asg: Seq<bool>) -> bool
    decreases n - min2(lev(a, perm, n, f), lev(a, perm, n, cube)),
{
    if f.index_of() == 0 || is_one_h(cube) {
        eval_node(a, perm, n, f.index_of(), f.compl_of(), asg)
    } else {
        let lf = lev(a, perm, n, f);
        let lc = lev(a, perm, n, cube);
        if lc < lf {
            let next = cof(a, perm, n, cube, lc).0;
            if lc < lev(a, perm, n, next) <= n {
                exist_fn(a, perm, n, f, next, asg)
            } else {
                false
            }
        } else {
            let (ft, fe) = cof(a, perm, n, f, lf);
            let next = cof(a, perm, n, cube, lc).0;
            if lf < lev(a, perm, n, ft) <= n && lf < lev(a, perm, n, fe) <= n && (lc == lf ==> lc < lev(
                a,
                perm,
                n,
                next,
            ) <= n) {
                if lc == lf {
                    exist_fn(a, perm, n, ft, next, asg) || exist_fn(a, perm, n, fe, next, asg)
                } else if asg[var_of(a, f) as int] {
                    exist_fn(a, perm, n, ft, cube, asg)
                } else {
                    exist_fn(a, perm, n, fe, cube, asg)
                }
            } else {
                false
            }
        }
    }
}

/// Quantifying between old nodes gives the same function in a grown arena.
proof fn lemma_exist_fn_extend(
    a: Seq<ArenaNode>,
    b: Seq<ArenaNode>,
    perm: Seq<u32>,
    n: nat,
    f: NodeId,
    cube: NodeId,
    asg: Seq<bool>,
)
    requires
        ordered(a, perm, n, f.index_of()),
        ordered(a, perm, n, cube.index_of()),
        a.len() <= b.len(),
        forall|i: int| 0 <= i < a.len() ==> b[i] == a[i],
    ensures
        exist_fn(b, perm, n, f, cube, asg) == exist_fn(a, perm, n, f, cube, asg),
    decreases n - min2(lev(a, perm, n, f), lev(a, perm, n, cube)),
{
    lemma_extend(a, b, perm, n, f.index_of());
    lemma_extend(a, b, perm, n, cube.index_of());
    if !(f.index_of() == 0 || is_one_h(cube)) {
        let lf = lev(a, perm, n, f);
        let lc = lev(a, perm, n, cube);
        lemma_cof(a, b, perm, n, f, lf);
        lemma_cof(a, b, perm, n, cube, lc);
        let (ft, fe) = cof(a, perm, n, f, lf);
        let next = cof(a, perm, n, cube, lc).0;
        lemma_extend(a, b, perm, n, ft.index_of());
        lemma_extend(a, b, perm, n, fe.index_of());
        lemma_extend(a, b, perm, n, next.index_of());
        if lc < lf {
            if lc < lev(a, perm, n, next) <= n {
                lemma_exist_fn_extend(a, b, perm, n, f, next, asg);
            }
        } else if lf < lev(a, perm, n, ft) <= n && lf < lev(a, perm, n, fe) <= n && (lc == lf ==> lc < lev(
            a,
            perm,
            n,
            next,
        ) <= n) {
            if lc == lf {
                lemma_exist_fn_extend(a, b, perm, n, ft, next, asg);
                lemma_exist_fn_extend(a, b, perm, n, fe, next, asg);
            } else {
                lemma_exist_fn_extend(a, b, perm, n, ft, cube, asg);
                lemma_exist_fn_extend(a, b, perm, n, fe, cube, asg);
            }
        }
    }
}

/// The variables that the nodes reachable from node `x` test.
pub open spec fn reach_vars(a: Seq<ArenaNode>, perm: Seq<u32>, n: nat, x: nat) -> Set<u16>
    decreases n - node_level(a, perm, n, x),
{
    if x == 0 || x >= a.len() {
        Set::empty()
    } else {
        match a[x as int] {
            ArenaNode::Internal { var_index, then_child, else_child } => {
                let l = node_level(a, perm, n, x);
                if l < node_level(a, perm, n, then_child.index_of()) <= n && l < node_level(
                    a,
                    perm,
                    n,
                    else_child.index_of(),
                ) <= n {
                    reach_vars(a, perm, n, then_child.index_of()).union(
                        reach_vars(a, perm, n, else_child.index_of()),
                    ).insert(var_index)
                } else {
                    Set::empty()
                }
            },
            ArenaNode::Constant => Set::empty(),
        }
    }
}

/// The variables reachable from an ordered node are variables of the order.
/// The variables an ordered node reaches lie on its level or below.
proof fn lemma_reach_level(a: Seq<ArenaNode>, perm: Seq<u32>, n: nat, x: nat, w: u16)
    requires
        ordered(a, perm, n, x),
        perm.len() == n,
        reach_vars(a, perm, n, x).contains(w),
    ensures
        (w as nat) < n,
        perm[w as int] >= node_level(a, perm, n, x),
    decreases n - node_level(a, perm, n, x),
{
    match a[x as int] {
        ArenaNode::Internal { var_index, then_child, else_child } => {
            if w != var_index {
                if reach_vars(a, perm, n, then_child.index_of()).contains(w) {
                    lemma_reach_level(a, perm, n, then_child.index_of(), w);
                } else {
                    lemma_reach_level(a, perm, n, else_child.index_of(), w);
                }
            }
        },
        ArenaNode::Constant => {},
    }
}

proof fn lemma_reach_bound(a: Seq<ArenaNode>, perm: Seq<u32>, n: nat, x: nat)
    requires
        ordered(a, perm, n, x),
        perm.len() == n,
    ensures
        forall|w: u16| #[trigger] reach_vars(a, perm, n, x).contains(w) ==> (w as nat) < n,
    decreases n - node_level(a, perm, n, x),
{
    if x != 0 {
        match a[x as int] {
            ArenaNode::Internal { var_index, then_child, else_child } => {
                lemma_reach_bound(a, perm, n, then_child.index_of());
                lemma_reach_bound(a, perm, n, else_child.index_of());
                assert((var_index as nat) < n);
                assert forall|w: u16| #[trigger] reach_vars(a, perm, n, x).contains(w) implies (w as nat) < n by {
                    if w != var_index {
                        assert(reach_vars(a, perm, n, then_child.index_of()).contains(w) || reach_vars(
                            a,
                            perm,
                            n,
                            else_child.index_of(),
                        ).contains(w));
                    }
                }
            },
            ArenaNode::Constant => {},
        }
    }
}

/// Every node marked in `seen` on level `lvl` or below has the variables
/// reachable from it marked in `vars`.
pub open spec fn marks_closed(
    a: Seq<ArenaNode>,
    perm: Seq<u32>,
    n: nat,
    seen: Seq<bool>,
    vars: Seq<bool>,
    lvl: nat,
) -> bool {
    forall|y: int, w: u16|
        0 < y < seen.len() && seen[y] && node_level(a, perm, n, y as nat) >= lvl && #[trigger] reach_vars(
            a,
            perm,
            n,
            y as nat,
        ).contains(w) ==> vars[w as int]
}

proof fn lemma_marks_closed_at(
    a: Seq<ArenaNode>,
    perm: Seq<u32>,
    n: nat,
    seen: Seq<bool>,
    vars: Seq<bool>,
    lvl: nat,
    y: int,
    w: u16,
)
    requires
        marks_closed(a, perm, n, seen, vars, lvl),
        0 < y < seen.len(),
        seen[y],
        node_level(a, perm, n, y as nat) >= lvl,
        reach_vars(a, perm, n, y as nat).contains(w),
    ensures
        vars[w as int],
{
}

/// Whether the decision tree `s`, negated when `c` holds, is true under the
/// assignment `asg` (by variable index); a constant other than one is zero.
/// The level of the node numbered `j` of the listing `ns` under `order`:
/// its variable's level, or the number of variables for a terminal (or a
/// number outside the listing).
pub open spec fn dump_level(order: Seq<u32>, ns: Seq<DumpNode>, j: nat) -> nat {
    if 1 <= j <= ns.len() && ns[j - 1].var_index != CONST_INDEX && (ns[j - 1].var_index as nat) < order.len() {
        order[ns[j - 1].var_index as int] as nat
    } else {
        order.len()
    }
}

/// Node `k` of the listing tests a variable whose level is not above the
/// level of one of its children.
pub open spec fn dump_unordered_at(order: Seq<u32>, ns: Seq<DumpNode>, k: int) -> bool {
    let n = ns[k];
    &&& n.var_index != CONST_INDEX
    &&& (n.var_index as nat) < order.len()
    &&& 1 <= n.then_seq <= k
    &&& 1 <= n.else_seq <= k
    &&& (order[n.var_index as int] as nat >= dump_level(order, ns, n.then_seq as nat)
        || order[n.var_index as int] as nat >= dump_level(order, ns, n.else_seq as nat))
}

pub open spec fn shape_eval(s: Shape, c: bool, asg: Seq<bool>) -> bool
    decreases s,
{
    match s {
        Shape::One => !c,
        Shape::Terminal => c,
        Shape::Node(v, t, tc, e, ec) => if asg[v as int] {
            shape_eval(*t, tc != c, asg)
        } else {
            shape_eval(*e, ec != c, asg)
        },
    }
}

/// Negating the edge to a tree negates what it is.
pub proof fn lemma_shape_negated(s: Shape, c: bool, asg: Seq<bool>)
    ensures
        shape_eval(s, !c, asg) == !shape_eval(s, c, asg),
    decreases s,
{
    match s {
        Shape::One => {},
        Shape::Terminal => {},
        Shape::Node(v, t, tc, e, ec) => {
            lemma_shape_negated(*t, tc != c, asg);
            lemma_shape_negated(*e, ec != c, asg);
        },
    }
}

/// The tree that an ordered node unfolds to is the node's function.
proof fn lemma_shape_of_node(a: Seq<ArenaNode>, perm: Seq<u32>, n: nat, x: nat, d: nat, c: bool, asg: Seq<bool>)
    requires
        ordered(a, perm, n, x),
        sound_below(a, x, d),
    ensures
        shape_eval(arena_shape(a, x, d), c, asg) == eval_node(a, perm, n, x, c, asg),
    decreases d,
{
    if x != 0 {
        match a[x as int] {
            ArenaNode::Internal { then_child, else_child, .. } => {
                lemma_shape_of_node(a, perm, n, then_child.index_of(), (d - 1) as nat, then_child.compl_of() != c, asg);
                lemma_shape_of_node(a, perm, n, else_child.index_of(), (d - 1) as nat, else_child.compl_of() != c, asg);
            },
            ArenaNode::Constant => {},
        }
    }
}

/// The variables on the then-chain of node `x`, as a cube lists them.
pub open spec fn chain_vars(a: Seq<ArenaNode>, perm: Seq<u32>, n: nat, x: nat) -> Set<int>
    decreases n - node_level(a, perm, n, x),
{
    if x == 0 || x >= a.len() {
        Set::empty()
    } else {
        match a[x as int] {
            ArenaNode::Internal { var_index, then_child, .. } => {
                if node_level(a, perm, n, x) < node_level(a, perm, n, then_child.index_of()) <= n {
                    chain_vars(a, perm, n, then_child.index_of()).insert(var_index as int)
                } else {
                    Set::empty()
                }
            },
            ArenaNode::Constant => Set::empty(),
        }
    }
}

/// The second half of the listing `vs`, as a set of variables.
pub open spec fn upper_half(vs: Seq<u16>) -> Set<int> {
    Set::new(|w: int| exists|k: int| vs.len() / 2 <= k < vs.len() && #[trigger] vs[k] as int == w)
}

/// Two listings strictly increasing in `perm` with the same members are the
/// same listing.
proof fn lemma_sorted_unique(s1: Seq<u16>, s2: Seq<u16>, perm: Seq<u32>)
    requires
        forall|i: int| 0 <= i < s1.len() ==> (#[trigger] s1[i] as int) < perm.len(),
        forall|i: int| 0 <= i < s2.len() ==> (#[trigger] s2[i] as int) < perm.len(),
        forall|i: int, j: int| 0 <= i < j < s1.len() ==> perm[#[trigger] s1[i] as int] < perm[#[trigger] s1[j] as int],
        forall|i: int, j: int| 0 <= i < j < s2.len() ==> perm[#[trigger] s2[i] as int] < perm[#[trigger] s2[j] as int],
        forall|w: u16| #![trigger s1.contains(w)] #![trigger s2.contains(w)] s1.contains(w) <==> s2.contains(w),
    ensures
        s1 == s2,
    decreases s1.len(),
{
    if s1.len() == 0 {
        if s2.len() > 0 {
            assert(s2.contains(s2[0]));
            assert(s1.contains(s2[0]));
        }
        assert(s1 =~= s2);
    } else {
        assert(s1.contains(s1[0]));
        let j = choose|j: int| 0 <= j < s2.len() && s2[j] == s1[0];
        assert(s2.contains(s2[0]));
        let k = choose|k: int| 0 <= k < s1.len() && s1[k] == s2[0];
        if j > 0 {
            assert(perm[s2[0] as int] < perm[s2[j] as int]);
            if k > 0 {
                assert(perm[s1[0] as int] < perm[s1[k] as int]);
            }
        }
        assert(s1[0] == s2[0]);
        let t1 = s1.skip(1);
        let t2 = s2.skip(1);
        assert forall|w: u16| #![trigger t1.contains(w)] #![trigger t2.contains(w)] t1.contains(w) <==> t2.contains(w) by {
            if t1.contains(w) {
                let a = choose|a: int| 0 <= a < t1.len() && t1[a] == w;
                assert(s1[a + 1] == w);
                assert(perm[s1[0] as int] < perm[s1[a + 1] as int]);
                assert(s2.contains(w));
                let b = choose|b: int| 0 <= b < s2.len() && s2[b] == w;
                assert(b != 0);
                assert(t2[b - 1] == w);
            }
            if t2.contains(w) {
                let a = choose|a: int| 0 <= a < t2.len() && t2[a] == w;
                assert(s2[a + 1] == w);
                assert(perm[s2[0] as int] < perm[s2[a + 1] as int]);
                assert(s1.contains(w));
                let b = choose|b: int| 0 <= b < s1.len() && s1[b] == w;
                assert(b != 0);
                assert(t1[b - 1] == w);
            }
        }
        assert forall|i: int, j2: int| 0 <= i < j2 < t1.len() implies perm[#[trigger] t1[i] as int] < perm[#[trigger] t1[j2] as int] by {
            assert(t1[i] == s1[i + 1]);
            assert(t1[j2] == s1[j2 + 1]);
        }
        assert forall|i: int, j2: int| 0 <= i < j2 < t2.len() implies perm[#[trigger] t2[i] as int] < perm[#[trigger] t2[j2] as int] by {
            assert(t2[i] == s2[i + 1]);
            assert(t2[j2] == s2[j2 + 1]);
        }
        assert forall|i: int| 0 <= i < t1.len() implies (#[trigger] t1[i] as int) < perm.len() by {
            assert(t1[i] == s1[i + 1]);
        }
        assert forall|i: int| 0 <= i < t2.len() implies (#[trigger] t2[i] as int) < perm.len() by {
            assert(t2[i] == s2[i + 1]);
        }
        lemma_sorted_unique(t1, t2, perm);
        assert(s2.len() > 0);
        assert(s1.len() == t1.len() + 1 && s2.len() == t2.len() + 1);
        assert forall|i: int| 0 <= i < s1.len() implies s1[i] == s2[i] by {
            if i > 0 {
                assert(s1[i] == t1[i - 1]);
                assert(s2[i] == t2[i - 1]);
            }
        }
        assert(s1 =~= s2);
    }
}

/// `b` agrees with `asg` on every variable outside `q`.
pub open spec fn agree_outside(asg: Seq<bool>, b: Seq<bool>, q: Set<int>) -> bool {
    &&& b.len() == asg.len()
    &&& forall|w: int| 0 <= w < asg.len() && !q.contains(w) ==> #[trigger] b[w] == asg[w]
}

/// The variables on a cube's then-chain lie on its level and below.
proof fn lemma_chain_bound(a: Seq<ArenaNode>, perm: Seq<u32>, n: nat, x: nat)
    requires
        ordered(a, perm, n, x),
        perm.len() == n,
    ensures
        forall|w: int|
            #[trigger] chain_vars(a, perm, n, x).contains(w) ==> 0 <= w < n && perm[w] >= node_level(a, perm, n, x),
    decreases n - node_level(a, perm, n, x),
{
    if x != 0 {
        match a[x as int] {
            ArenaNode::Internal { var_index, then_child, .. } => {
                lemma_chain_bound(a, perm, n, then_child.index_of());
                assert((var_index as nat) < n);
                assert forall|w: int| #[trigger] chain_vars(a, perm, n, x).contains(w) implies 0 <= w < n && perm[w]
                    >= node_level(a, perm, n, x) by {
                    if w != var_index as int {
                        assert(chain_vars(a, perm, n, then_child.index_of()).contains(w));
                    }
                }
            },
            ArenaNode::Constant => {},
        }
    }
}

/// Quantifying the cube `cube` out of `f` is true at `asg` exactly when `f`
/// is true at some assignment that agrees with `asg` outside the variables
/// on the cube's then-chain.
proof fn lemma_exist_fn_meaning(a: Seq<ArenaNode>, perm: Seq<u32>, n: nat, f: NodeId, cube: NodeId, asg: Seq<bool>)
    requires
        ordered(a, perm, n, f.index_of()),
        ordered(a, perm, n, cube.index_of()),
        perm.len() == n,
        forall|i: int, j: int| 0 <= i < n && 0 <= j < n && perm[i] == perm[j] ==> i == j,
        asg.len() >= n,
    ensures
        exist_fn(a, perm, n, f, cube, asg) == exists|b: Seq<bool>|
            agree_outside(asg, b, chain_vars(a, perm, n, cube.index_of())) && #[trigger] eval_node(
                a,
                perm,
                n,
                f.index_of(),
                f.compl_of(),
                b,
            ),
    decreases n - min2(lev(a, perm, n, f), lev(a, perm, n, cube)),
{
    let q = chain_vars(a, perm, n, cube.index_of());
    let fx = f.index_of();
    let fc = f.compl_of();
    assert(agree_outside(asg, asg, q));
    if fx == 0 {
        assert(eval_node(a, perm, n, fx, fc, asg) == !fc);
    } else if is_one_h(cube) {
        assert(q =~= Set::<int>::empty());
        if exists|b: Seq<bool>| agree_outside(asg, b, q) && #[trigger] eval_node(a, perm, n, fx, fc, b) {
            let b = choose|b: Seq<bool>| agree_outside(asg, b, q) && #[trigger] eval_node(a, perm, n, fx, fc, b);
            assert(b =~= asg);
        }
    } else {
        let lf = lev(a, perm, n, f);
        let lc = lev(a, perm, n, cube);
        lemma_cof(a, a, perm, n, f, lf);
        lemma_cof(a, a, perm, n, cube, lc);
        let (ft, fe) = cof(a, perm, n, f, lf);
        let next = cof(a, perm, n, cube, lc).0;
        lemma_chain_bound(a, perm, n, cube.index_of());
        if lc < lf {
            lemma_exist_fn_meaning(a, perm, n, f, next, asg);
            let qn = chain_vars(a, perm, n, next.index_of());
            let vc = var_of(a, cube);
            match a[cube.index_of() as int] {
                ArenaNode::Internal { then_child, .. } => {
                    NodeId::lemma_parts(then_child);
                    assert(q == qn.insert(vc as int));
                },
                ArenaNode::Constant => {},
            }
            if exists|b: Seq<bool>| agree_outside(asg, b, qn) && #[trigger] eval_node(a, perm, n, fx, fc, b) {
                let b = choose|b: Seq<bool>| agree_outside(asg, b, qn) && #[trigger] eval_node(a, perm, n, fx, fc, b);
                assert(agree_outside(asg, b, q));
            }
            if exists|b: Seq<bool>| agree_outside(asg, b, q) && #[trigger] eval_node(a, perm, n, fx, fc, b) {
                let b = choose|b: Seq<bool>| agree_outside(asg, b, q) && #[trigger] eval_node(a, perm, n, fx, fc, b);
                let b2 = b.update(vc as int, asg[vc as int]);
                lemma_independent(a, perm, n, fx, fc, b, vc as nat, asg[vc as int]);
                assert(agree_outside(asg, b2, qn));
                assert(eval_node(a, perm, n, fx, fc, b2));
            }
        } else {
            let v = var_of(a, f);
            match a[fx as int] {
                ArenaNode::Internal { then_child, else_child, .. } => {
                    NodeId::lemma_parts(then_child);
                    NodeId::lemma_parts(else_child);
                },
                ArenaNode::Constant => {},
            }
            assert forall|b: Seq<bool>| b.len() >= n implies #[trigger] eval_node(a, perm, n, fx, fc, b) == if b[v as int] {
                eval_node(a, perm, n, ft.index_of(), ft.compl_of(), b)
            } else {
                eval_node(a, perm, n, fe.index_of(), fe.compl_of(), b)
            } by {}
            if lc == lf {
                let qn = chain_vars(a, perm, n, next.index_of());
                let vc = var_of(a, cube);
                assert(vc == v);
                match a[cube.index_of() as int] {
                    ArenaNode::Internal { then_child, .. } => {
                        NodeId::lemma_parts(then_child);
                        assert(q == qn.insert(vc as int));
                    },
                    ArenaNode::Constant => {},
                }
                lemma_exist_fn_meaning(a, perm, n, ft, next, asg);
                lemma_exist_fn_meaning(a, perm, n, fe, next, asg);
                if exists|b: Seq<bool>| agree_outside(asg, b, qn) && #[trigger] eval_node(a, perm, n, ft.index_of(), ft.compl_of(), b) {
                    let b = choose|b: Seq<bool>| agree_outside(asg, b, qn) && #[trigger] eval_node(a, perm, n, ft.index_of(), ft.compl_of(), b);
                    let b2 = b.update(v as int, true);
                    lemma_independent(a, perm, n, ft.index_of(), ft.compl_of(), b, v as nat, true);
                    assert(agree_outside(asg, b2, q));
                    assert(eval_node(a, perm, n, fx, fc, b2));
                }
                if exists|b: Seq<bool>| agree_outside(asg, b, qn) && #[trigger] eval_node(a, perm, n, fe.index_of(), fe.compl_of(), b) {
                    let b = choose|b: Seq<bool>| agree_outside(asg, b, qn) && #[trigger] eval_node(a, perm, n, fe.index_of(), fe.compl_of(), b);
                    let b2 = b.update(v as int, false);
                    lemma_independent(a, perm, n, fe.index_of(), fe.compl_of(), b, v as nat, false);
                    assert(agree_outside(asg, b2, q));
                    assert(eval_node(a, perm, n, fx, fc, b2));
                }
                if exists|b: Seq<bool>| agree_outside(asg, b, q) && #[trigger] eval_node(a, perm, n, fx, fc, b) {
                    let b = choose|b: Seq<bool>| agree_outside(asg, b, q) && #[trigger] eval_node(a, perm, n, fx, fc, b);
                    let b2 = b.update(v as int, asg[v as int]);
                    assert(agree_outside(asg, b2, qn));
                    if b[v as int] {
                        lemma_independent(a, perm, n, ft.index_of(), ft.compl_of(), b, v as nat, asg[v as int]);
                        assert(eval_node(a, perm, n, ft.index_of(), ft.compl_of(), b2));
                    } else {
                        lemma_independent(a, perm, n, fe.index_of(), fe.compl_of(), b, v as nat, asg[v as int]);
                        assert(eval_node(a, perm, n, fe.index_of(), fe.compl_of(), b2));
                    }
                }
            } else {
                lemma_exist_fn_meaning(a, perm, n, ft, cube, asg);
                lemma_exist_fn_meaning(a, perm, n, fe, cube, asg);
                assert(!q.contains(v as int));
                if exists|b: Seq<bool>| agree_outside(asg, b, q) && #[trigger] eval_node(a, perm, n, fx, fc, b) {
                    let b = choose|b: Seq<bool>| agree_outside(asg, b, q) && #[trigger] eval_node(a, perm, n, fx, fc, b);
                    assert(b[v as int] == asg[v as int]);
                }
                if asg[v as int] {
                    if exists|b: Seq<bool>| agree_outside(asg, b, q) && #[trigger] eval_node(a, perm, n, ft.index_of(), ft.compl_of(), b) {
                        let b = choose|b: Seq<bool>| agree_outside(asg, b, q) && #[trigger] eval_node(a, perm, n, ft.index_of(), ft.compl_of(), b);
                        assert(b[v as int] == asg[v as int]);
                        assert(eval_node(a, perm, n, fx, fc, b));
                    }
                } else {
                    if exists|b: Seq<bool>| agree_outside(asg, b, q) && #[trigger] eval_node(a, perm, n, fe.index_of(), fe.compl_of(), b) {
                        let b = choose|b: Seq<bool>| agree_outside(asg, b, q) && #[trigger] eval_node(a, perm, n, fe.index_of(), fe.compl_of(), b);
                        assert(b[v as int] == asg[v as int]);
                        assert(eval_node(a, perm, n, fx, fc, b));
                    }
                }
            }
        }
    }
}

/// Where a pick's walk stands when it reaches level `lv`: from `cur`,
/// while the node is above that level, take its then-branch unless that is
/// zero, else its else-branch.
pub open spec fn descend(a: Seq<ArenaNode>, perm: Seq<u32>, n: nat, cur: NodeId, lv: nat) -> NodeId
    decreases n - lev(a, perm, n, cur),
{
    if cur.index_of() == 0 || lev(a, perm, n, cur) >= lv {
        cur
    } else {
        let l = lev(a, perm, n, cur);
        let (t, e) = cof(a, perm, n, cur, l);
        if l < lev(a, perm, n, t) <= n && l < lev(a, perm, n, e) <= n {
            descend(a, perm, n, if !is_zero_h(t) { t } else { e }, lv)
        } else {
            cur
        }
    }
}

/// One step of a pick's walk for variable `v` from `cur`: the literal
/// picked and where the walk goes on. After descending to `v`'s level, a
/// node testing `v` gives `v` true and its then-branch unless that is zero,
/// else `v` false and its else-branch; anything else gives `v` false.
pub open spec fn pick_step(a: Seq<ArenaNode>, perm: Seq<u32>, n: nat, cur: NodeId, v: u16) -> ((u16, bool), NodeId) {
    let lv = perm[v as int] as nat;
    let c = descend(a, perm, n, cur, lv);
    if c.index_of() != 0 && lev(a, perm, n, c) == lv {
        let (t, e) = cof(a, perm, n, c, lv);
        if !is_zero_h(t) {
            ((v, true), t)
        } else {
            ((v, false), e)
        }
    } else {
        ((v, false), c)
    }
}

/// The literals a pick's walk chooses for `vars[i..]`, from `cur`.
pub open spec fn pick_walk(a: Seq<ArenaNode>, perm: Seq<u32>, n: nat, cur: NodeId, vars: Seq<u16>, i: nat) -> Seq<
    (u16, bool),
>
    decreases vars.len() - i,
{
    if i >= vars.len() {
        Seq::empty()
    } else {
        let (p, c) = pick_step(a, perm, n, cur, vars[i as int]);
        seq![p] + pick_walk(a, perm, n, c, vars, i + 1)
    }
}

/// A growing arena keeps what its old nodes are.
proof fn lemma_extend(a: Seq<ArenaNode>, b: Seq<ArenaNode>, perm: Seq<u32>, n: nat, x: nat)
    requires
        a.len() <= b.len(),
        forall|i: int| 0 <= i < a.len() ==> b[i] == a[i],
        ordered(a, perm, n, x),
    ensures
        ordered(b, perm, n, x),
        node_level(b, perm, n, x) == node_level(a, perm, n, x),
        forall|c: bool, asg: Seq<bool>|
            #[trigger] eval_node(b, perm, n, x, c, asg) == eval_node(a, perm, n, x, c, asg),
    decreases n - node_level(a, perm, n, x),
{
    if x != 0 {
        match a[x as int] {
            ArenaNode::Internal { then_child, else_child, .. } => {
                lemma_extend(a, b, perm, n, then_child.index_of());
                lemma_extend(a, b, perm, n, else_child.index_of());
                assert forall|c: bool, asg: Seq<bool>|
                    #[trigger] eval_node(b, perm, n, x, c, asg) == eval_node(a, perm, n, x, c, asg) by {
                    assert(eval_node(b, perm, n, then_child.index_of(), then_child.compl_of() != c, asg)
                        == eval_node(a, perm, n, then_child.index_of(), then_child.compl_of() != c, asg));
                    assert(eval_node(b, perm, n, else_child.index_of(), else_child.compl_of() != c, asg)
                        == eval_node(a, perm, n, else_child.index_of(), else_child.compl_of() != c, asg));
                }
            },
            ArenaNode::Constant => {},
        }
    }
}

/// A new variable on a new last level leaves what the nodes are.
proof fn lemma_new_level(a: Seq<ArenaNode>, perm: Seq<u32>, n: nat, x: nat)
    requires
        perm.len() == n,
        n < 0xFFFF,
        ordered(a, perm, n, x),
    ensures
        ordered(a, perm.push(n as u32), n + 1, x),
        x != 0 ==> node_level(a, perm.push(n as u32), n + 1, x) == node_level(a, perm, n, x),
        forall|c: bool, asg: Seq<bool>|
            #[trigger] eval_node(a, perm.push(n as u32), n + 1, x, c, asg) == eval_node(
                a,
                perm,
                n,
                x,
                c,
                asg,
            ),
    decreases n - node_level(a, perm, n, x),
{
    let p2 = perm.push(n as u32);
    if x != 0 {
        match a[x as int] {
            ArenaNode::Internal { var_index, then_child, else_child } => {
                assert(p2[var_index as int] == perm[var_index as int]);
                lemma_new_level(a, perm, n, then_child.index_of());
                lemma_new_level(a, perm, n, else_child.index_of());
                assert forall|c: bool, asg: Seq<bool>|
                    #[trigger] eval_node(a, p2, n + 1, x, c, asg) == eval_node(a, perm, n, x, c, asg) by {
                    assert(eval_node(a, p2, n + 1, then_child.index_of(), then_child.compl_of() != c, asg)
                        == eval_node(a, perm, n, then_child.index_of(), then_child.compl_of() != c, asg));
                    assert(eval_node(a, p2, n + 1, else_child.index_of(), else_child.compl_of() != c, asg)
                        == eval_node(a, perm, n, else_child.index_of(), else_child.compl_of() != c, asg));
                }
            },
            ArenaNode::Constant => {},
        }
    }
}

/// Negating the edge negates an ordered node's function.
proof fn lemma_eval_negated(a: Seq<ArenaNode>, perm: Seq<u32>, n: nat, x: nat, c: bool, asg: Seq<bool>)
    requires
        ordered(a, perm, n, x),
    ensures
        eval_node(a, perm, n, x, !c, asg) == !eval_node(a, perm, n, x, c, asg),
    decreases n - node_level(a, perm, n, x),
{
    if x != 0 {
        match a[x as int] {
            ArenaNode::Internal { var_index, then_child, else_child } => {
                if asg[var_index as int] {
                    lemma_eval_negated(a, perm, n, then_child.index_of(), then_child.compl_of() != c, asg);
                } else {
                    lemma_eval_negated(a, perm, n, else_child.index_of(), else_child.compl_of() != c, asg);
                }
            },
            ArenaNode::Constant => {},
        }
    }
}

/// A node does not read the variables on the levels above its own.
proof fn lemma_independent(
    a: Seq<ArenaNode>,
    perm: Seq<u32>,
    n: nat,
    x: nat,
    c: bool,
    asg: Seq<bool>,
    w: nat,
    b: bool,
)
    requires
        ordered(a, perm, n, x),
        perm.len() == n,
        asg.len() >= n,
        w < n,
        perm[w as int] < node_level(a, perm, n, x),
    ensures
        eval_node(a, perm, n, x, c, asg.update(w as int, b)) == eval_node(a, perm, n, x, c, asg),
    decreases n - node_level(a, perm, n, x),
{
    if x != 0 {
        match a[x as int] {
            ArenaNode::Internal { var_index, then_child, else_child } => {
                assert(asg.update(w as int, b)[var_index as int] == asg[var_index as int]);
                lemma_independent(a, perm, n, then_child.index_of(), then_child.compl_of() != c, asg, w, b);
                lemma_independent(a, perm, n, else_child.index_of(), else_child.compl_of() != c, asg, w, b);
            },
            ArenaNode::Constant => {},
        }
    }
}

/// A node reads only the variables on its own level and below.
proof fn lemma_agree_below(
    a: Seq<ArenaNode>,
    perm: Seq<u32>,
    n: nat,
    x: nat,
    c: bool,
    asg1: Seq<bool>,
    asg2: Seq<bool>,
)
    requires
        ordered(a, perm, n, x),
        perm.len() == n,
        asg1.len() >= n,
        asg2.len() >= n,
        forall|w: int| 0 <= w < n && perm[w] >= node_level(a, perm, n, x) ==> #[trigger] asg1[w] == asg2[w],
    ensures
        eval_node(a, perm, n, x, c, asg1) == eval_node(a, perm, n, x, c, asg2),
    decreases n - node_level(a, perm, n, x),
{
    if x != 0 {
        match a[x as int] {
            ArenaNode::Internal { var_index, then_child, else_child } => {
                assert(asg1[var_index as int] == asg2[var_index as int]);
                lemma_agree_below(a, perm, n, then_child.index_of(), then_child.compl_of() != c, asg1, asg2);
                lemma_agree_below(a, perm, n, else_child.index_of(), else_child.compl_of() != c, asg1, asg2);
            },
            ArenaNode::Constant => {},
        }
    }
}

/// Every node is reduced: an internal node with a regular then-child that
/// differs from its else-child.
pub open spec fn reduced(a: Seq<ArenaNode>) -> bool {
    forall|y: int|
        1 <= y < a.len() ==> match #[trigger] a[y] {
            ArenaNode::Internal { then_child, else_child, .. } => !then_child.compl_of() && then_child != else_child,
            ArenaNode::Constant => false,
        }
}

/// A reduced internal node is true under some assignment and false under
/// another.
proof fn lemma_nonconstant(a: Seq<ArenaNode>, perm: Seq<u32>, n: nat, x: nat)
    requires
        ordered(a, perm, n, x),
        reduced(a),
        perm.len() == n,
        1 <= x < a.len(),
    ensures
        exists|asg: Seq<bool>| asg.len() == n && #[trigger] eval_node(a, perm, n, x, false, asg),
        exists|asg: Seq<bool>| asg.len() == n && !#[trigger] eval_node(a, perm, n, x, false, asg),
    decreases n - node_level(a, perm, n, x),
{
    assert(a[x as int] is Internal);
    match a[x as int] {
        ArenaNode::Internal { var_index, then_child, else_child } => {
            let v = var_index as nat;
            let ti = then_child.index_of();
            let ei = else_child.index_of();
            assert(ordered(a, perm, n, ti));
            assert(ordered(a, perm, n, ei));
            if ti == 0 && ei == 0 {
                if !else_child.compl_of() {
                    NodeId::lemma_same_parts(then_child, else_child);
                }
                let all1 = Seq::new(n, |i: int| true);
                let all0 = Seq::new(n, |i: int| false);
                assert(all1[v as int]);
                assert(!all0[v as int]);
                assert(eval_node(a, perm, n, 0, false, all1));
                assert(!eval_node(a, perm, n, 0, true, all0));
                assert(eval_node(a, perm, n, x, false, all1));
                assert(!eval_node(a, perm, n, x, false, all0));
            } else if ti != 0 {
                lemma_nonconstant(a, perm, n, ti);
                let w1 = choose|asg: Seq<bool>| asg.len() == n && #[trigger] eval_node(a, perm, n, ti, false, asg);
                let w0 = choose|asg: Seq<bool>| asg.len() == n && !#[trigger] eval_node(a, perm, n, ti, false, asg);
                lemma_independent(a, perm, n, ti, false, w1, v, true);
                lemma_independent(a, perm, n, ti, false, w0, v, true);
                let b1 = w1.update(v as int, true);
                let b0 = w0.update(v as int, true);
                assert(b1[v as int]);
                assert(b0[v as int]);
                assert(eval_node(a, perm, n, x, false, b1));
                assert(!eval_node(a, perm, n, x, false, b0));
            } else {
                lemma_nonconstant(a, perm, n, ei);
                let w1 = choose|asg: Seq<bool>| asg.len() == n && #[trigger] eval_node(a, perm, n, ei, false, asg);
                let w0 = choose|asg: Seq<bool>| asg.len() == n && !#[trigger] eval_node(a, perm, n, ei, false, asg);
                lemma_independent(a, perm, n, ei, false, w1, v, false);
                lemma_independent(a, perm, n, ei, false, w0, v, false);
                let b1 = w1.update(v as int, false);
                let b0 = w0.update(v as int, false);
                assert(!b1[v as int]);
                assert(!b0[v as int]);
                lemma_eval_negated(a, perm, n, ei, false, b1);
                lemma_eval_negated(a, perm, n, ei, false, b0);
                lemma_independent(a, perm, n, ei, true, w1, v, false);
                lemma_independent(a, perm, n, ei, true, w0, v, false);
                if else_child.compl_of() {
                    assert(!eval_node(a, perm, n, x, false, b1));
                    assert(eval_node(a, perm, n, x, false, b0));
                } else {
                    assert(eval_node(a, perm, n, x, false, b1));
                    assert(!eval_node(a, perm, n, x, false, b0));
                }
            }
        },
        ArenaNode::Constant => {},
    }
}

/// The BDD manager.
pub struct Manager {
    /// The node arena; index 0 is the constant one.
    nodes: Vec<ArenaNode>,
    /// The level of each variable.
    perm: Vec<u32>,
    /// The variable on each level.
    inv_perm: Vec<u32>,
    /// The node of each (variable, then-child, else-child), by packed key.
    unique: HashMap<u128, u32>,
}

impl Manager {
    /// The node arena.
    pub closed spec fn arena(&self) -> Seq<ArenaNode> {
        self.nodes@
    }

    /// The level of each variable.
    pub closed spec fn order(&self) -> Seq<u32> {
        self.perm@
    }

    /// The number of variables.
    pub closed spec fn var_count(&self) -> nat {
        self.perm@.len()
    }

    /// `f` names a node of the arena.
    pub open spec fn is_node(&self, f: NodeId) -> bool {
        f.index_of() < self.arena().len()
    }

    /// Whether `f` is true under the assignment `asg` (by variable index).
    pub open spec fn eval(&self, f: NodeId, asg: Seq<bool>) -> bool {
        eval_node(self.arena(), self.order(), self.var_count(), f.index_of(), f.compl_of(), asg)
    }

    /// The level of the node `f` points to (the variable count for the
    /// constant).
    pub open spec fn level_of(&self, f: NodeId) -> nat {
        node_level(self.arena(), self.order(), self.var_count(), f.index_of())
    }

    /// `self` grew from `old`: the same variables and order, and the old
    /// nodes unchanged at their places.
    pub open spec fn extends(&self, old: Manager) -> bool {
        &&& self.order() == old.order()
        &&& old.arena().len() <= self.arena().len()
        &&& forall|i: int| 0 <= i < old.arena().len() ==> self.arena()[i] == old.arena()[i]
    }

    /// Every function of `old` is the same function in `self`.
    pub open spec fn keeps_functions_of(&self, old: Manager) -> bool {
        forall|f: NodeId, asg: Seq<bool>|
            old.is_node(f) ==> self.is_node(f) && #[trigger] self.eval(f, asg) == old.eval(f, asg)
    }

    /// The manager's invariant: the constant one at index 0; every other
    /// node an ordered internal node with a regular then-child that differs
    /// from its else-child, both made before it; the order
    /// and its inverse agree; each unique-table entry names the node it was
    /// made for.
    pub closed spec fn wf(&self) -> bool {
        let a = self.nodes@;
        let n = self.perm@.len();
        &&& 1 <= a.len() <= 0x7FFF_FFFF
        &&& a[0] is Constant
        &&& children_before(a)
        &&& table_complete(a, self.unique@)
        &&& n <= 0xFFFF
        &&& self.inv_perm@.len() == n
        &&& forall|v: int| 0 <= v < n ==> #[trigger] self.perm@[v] < n && self.inv_perm@[self.perm@[v] as int] == v
        &&& forall|l: int| 0 <= l < n ==> #[trigger] self.inv_perm@[l] < n && self.perm@[self.inv_perm@[l] as int] == l
        &&& forall|x: nat| x < a.len() ==> #[trigger] ordered(a, self.perm@, n, x)
        &&& forall|x: int|
            1 <= x < a.len() ==> match #[trigger] a[x] {
                ArenaNode::Internal { then_child, else_child, .. } => !then_child.compl_of()
                    && then_child != else_child,
                ArenaNode::Constant => false,
            }
        &&& forall|k: u128|
            #[trigger] self.unique@.contains_key(k) ==> {
                let x = self.unique@[k];
                &&& 1 <= x < a.len()
                &&& match a[x as int] {
                    ArenaNode::Internal { var_index, then_child, else_child } => {
                        &&& var_handle(var_index).index_of() == var_index
                        &&& !var_handle(var_index).compl_of()
                        &&& k == unique_key(var_index, then_child, else_child)
                    },
                    ArenaNode::Constant => false,
                }
            }
    }
}

/// The largest number of nodes the arena holds.
pub const MAX_NODES: usize = 0x7FFF_FFFF;

/// The least of three levels.
pub open spec fn min3(a: nat, b: nat, c: nat) -> nat {
    if a <= b && a <= c {
        a
    } else if b <= c {
        b
    } else {
        c
    }
}

/// How many of `g` and `h` are not constants.
pub open spec fn non_constants(g: NodeId, h: NodeId) -> nat {
    (if g.index_of() == 0 {
        0nat
    } else {
        1nat
    }) + (if h.index_of() == 0 {
        0nat
    } else {
        1nat
    })
}

impl Manager {
    /// Every old node keeps its function in a manager grown from it.
    proof fn lemma_keeps(new: Manager, old: Manager)
        requires
            old.wf(),
            new.extends(old),
        ensures
            new.keeps_functions_of(old),
            forall|f: NodeId| old.is_node(f) ==> #[trigger] new.level_of(f) == old.level_of(f),
    {
        assert forall|f: NodeId| old.is_node(f) implies #[trigger] new.level_of(f) == old.level_of(f)
            && forall|asg: Seq<bool>| #[trigger] new.eval(f, asg) == old.eval(f, asg) by {
            assert(ordered(old.nodes@, old.perm@, old.perm@.len(), f.index_of()));
            lemma_extend(old.nodes@, new.nodes@, old.perm@, old.perm@.len(), f.index_of());
        }
        assert forall|f: NodeId, asg: Seq<bool>| old.is_node(f) implies new.is_node(f)
            && #[trigger] new.eval(f, asg) == old.eval(f, asg) by {
            assert(new.level_of(f) == old.level_of(f));
        }
    }

    /// The level of a node is at most the variable count.
    proof fn lemma_level_bound(&self, f: NodeId)
        requires
            self.wf(),
            self.is_node(f),
        ensures
            self.level_of(f) <= self.var_count(),
            f.index_of() != 0 ==> self.level_of(f) < self.var_count(),
    {
        assert(ordered(self.nodes@, self.perm@, self.perm@.len(), f.index_of()));
    }

    /// A manager with no variables: the arena holds only the constant one.
    pub fn new() -> (r: Manager)
        ensures
            r.wf(),
            r.var_count() == 0,
            r.arena().len() == 1,
    {
        let mut nodes: Vec<ArenaNode> = Vec::new();
        nodes.push(ArenaNode::Constant);
        let r = Manager {
            nodes,
            perm: Vec::new(),
            inv_perm: Vec::new(),
            unique: HashMap::new(),
        };
        proof {
            assert(r.nodes@ =~= seq![ArenaNode::Constant]);
            lemma_children_before_one();
            lemma_table_complete_one(r.unique@);
            assert forall|x: nat| x < r.nodes@.len() implies #[trigger] ordered(
                r.nodes@,
                r.perm@,
                r.perm@.len(),
                x,
            ) by {
                assert(x == 0);
            }
        }
        r
    }

    /// The number of variables.
    pub fn num_vars(&self) -> (r: u16)
        requires
            self.wf(),
        ensures
            r == self.var_count(),
    {
        self.perm.len() as u16
    }

    /// The number of nodes in the arena.
    pub fn num_nodes(&self) -> (r: usize)
        ensures
            r == self.arena().len(),
    {
        self.nodes.len()
    }

    /// The node on `v` with children `t` and `e`, found in the unique table
    /// or made: `t` itself when both children are equal; with a regular
    /// then-child, the edge complemented when `t` was. Fails only when the
    /// arena is full.
    pub fn unique_inter(&mut self, v: u16, t: NodeId, e: NodeId) -> (r: Result<NodeId, DdError>)
        requires
            old(self).wf(),
            (v as nat) < old(self).var_count(),
            old(self).is_node(t),
            old(self).is_node(e),
            old(self).order()[v as int] < old(self).level_of(t),
            old(self).order()[v as int] < old(self).level_of(e),
        ensures
            final(self).wf(),
            final(self).extends(*old(self)),
            final(self).arena().len() <= old(self).arena().len() + 1,
            r matches Ok(x) ==> {
                &&& final(self).is_node(x)
                &&& final(self).level_of(x) >= old(self).order()[v as int]
                &&& forall|asg: Seq<bool>|
                    #[trigger] final(self).eval(x, asg) == if asg[v as int] {
                        old(self).eval(t, asg)
                    } else {
                        old(self).eval(e, asg)
                    }
            },
            r matches Err(err) ==> err == (DdError::OutOfNodes { limit: MAX_NODES })
                && old(self).arena().len() == MAX_NODES && *final(self) == *old(self),
    {
        proof {
            old(self).lemma_level_bound(t);
            old(self).lemma_level_bound(e);
        }
        if t == e {
            return Ok(t);
        }
        let comp = t.is_complemented();
        let tt = t.not_cond(comp);
        let ee = e.not_cond(comp);
        let vh = NodeId::from_raw(v as u32, false);
        let key = key_of(0, vh, tt, ee);
        let ghost a = self.nodes@;
        let ghost perm = self.perm@;
        let ghost n = perm.len();
        proof {
            let w = var_handle(v);
            assert(vh.index_of() == v && !vh.compl_of());
            NodeId::lemma_same_parts(w, vh);
        }
        match self.unique.get(&key) {
            Some(x) => {
                let x = *x;
                proof {
                    assert(self.unique@.contains_key(key));
                    match a[x as int] {
                        ArenaNode::Internal { var_index, then_child, else_child } => {
                            lemma_cache_key_injective(
                                0,
                                vh,
                                tt,
                                ee,
                                0,
                                var_handle(var_index),
                                then_child,
                                else_child,
                            );
                        },
                        ArenaNode::Constant => {},
                    }
                    assert(a[x as int] == ArenaNode::Internal { var_index: v, then_child: tt, else_child: ee });
                    assert(ordered(a, perm, n, x as nat));
                }
                let r = NodeId::from_raw(x, comp);
                proof {
                    assert(r.index_of() == x);
                    assert forall|asg: Seq<bool>| #[trigger] self.eval(r, asg) == if asg[v as int] {
                        self.eval(t, asg)
                    } else {
                        self.eval(e, asg)
                    } by {}
                }
                return Ok(r);
            },
            None => {},
        }
        if self.nodes.len() >= MAX_NODES {
            return Err(DdError::OutOfNodes { limit: MAX_NODES });
        }
        let idx = self.nodes.len() as u32;
        let ghost old_self = *self;
        proof {
            if tt == ee {
                NodeId::lemma_same_parts(t, e);
            }
        }
        proof {
            lemma_children_before_push(a, ArenaNode::Internal { var_index: v, then_child: tt, else_child: ee });
            assert(key == unique_key(v, tt, ee));
            assert(!self.unique@.contains_key(key));
            lemma_table_complete_push(a, self.unique@, v, tt, ee);
        }
        self.nodes.push(ArenaNode::Internal { var_index: v, then_child: tt, else_child: ee });
        self.unique.insert(key, idx);
        proof {
            assert(self.unique@ == old_self.unique@.insert(key, idx));
            assert(self.nodes@ == a.push(ArenaNode::Internal { var_index: v, then_child: tt, else_child: ee }));
        }
        let r = NodeId::from_raw(idx, comp);
        proof {
            let b = self.nodes@;
            assert(b.len() == a.len() + 1);
            assert forall|i: int| 0 <= i < a.len() implies b[i] == a[i] by {}
            assert(self.extends(old_self));
            lemma_extend(a, b, perm, n, t.index_of());
            lemma_extend(a, b, perm, n, e.index_of());
            assert(ordered(a, perm, n, t.index_of()));
            assert(ordered(a, perm, n, e.index_of()));
            assert(ordered(b, perm, n, idx as nat));
            assert forall|x: nat| x < b.len() implies #[trigger] ordered(b, perm, n, x) by {
                if x < a.len() {
                    assert(ordered(a, perm, n, x));
                    lemma_extend(a, b, perm, n, x);
                }
            }
            assert forall|k: u128| #[trigger] self.unique@.contains_key(k) implies {
                let x = self.unique@[k];
                &&& 1 <= x < b.len()
                &&& match b[x as int] {
                    ArenaNode::Internal { var_index, then_child, else_child } => {
                        &&& var_handle(var_index).index_of() == var_index
                        &&& !var_handle(var_index).compl_of()
                        &&& k == unique_key(var_index, then_child, else_child)
                    },
                    ArenaNode::Constant => false,
                }
            } by {
                if k != key {
                    assert(old_self.unique@.contains_key(k));
                }
            }
            assert(r.index_of() == idx);
            Manager::lemma_keeps(*self, old_self);
            assert forall|asg: Seq<bool>| #[trigger] self.eval(r, asg) == if asg[v as int] {
                old(self).eval(t, asg)
            } else {
                old(self).eval(e, asg)
            } by {
                assert(self.eval(t, asg) == old(self).eval(t, asg));
                assert(self.eval(e, asg) == old(self).eval(e, asg));
            }
        }
        Ok(r)
    }

    /// Add a variable on a new last level and return its projection
    /// function. Every old node keeps its function. Fails only when the
    /// arena is full.
    pub fn bdd_new_var(&mut self) -> (r: Result<NodeId, DdError>)
        requires
            old(self).wf(),
            old(self).var_count() < 0xFFFF,
        ensures
            final(self).wf(),
            final(self).var_count() == old(self).var_count() + 1,
            final(self).order() == old(self).order().push(old(self).var_count() as u32),
            old(self).arena().len() <= final(self).arena().len(),
            forall|f: NodeId, asg: Seq<bool>|
                old(self).is_node(f) ==> final(self).is_node(f) && #[trigger] final(self).eval(f, asg)
                    == old(self).eval(f, asg),
            r matches Ok(x) ==> final(self).is_node(x) && forall|asg: Seq<bool>|
                #[trigger] final(self).eval(x, asg) == asg[old(self).var_count() as int],
            r matches Err(err) ==> err == (DdError::OutOfNodes { limit: MAX_NODES })
                && old(self).arena().len() == MAX_NODES,
    {
        let v = self.perm.len() as u16;
        let ghost a = self.nodes@;
        let ghost perm = self.perm@;
        let ghost n = perm.len();
        self.perm.push(v as u32);
        self.inv_perm.push(v as u32);
        let ghost mid = *self;
        proof {
            assert forall|x: nat| x < a.len() implies #[trigger] ordered(a, self.perm@, n + 1, x) by {
                assert(ordered(a, perm, n, x));
                lemma_new_level(a, perm, n, x);
            }
            assert forall|f: NodeId, asg: Seq<bool>| old(self).is_node(f) implies #[trigger] mid.eval(
                f,
                asg,
            ) == old(self).eval(f, asg) by {
                assert(ordered(a, perm, n, f.index_of()));
                lemma_new_level(a, perm, n, f.index_of());
            }
            assert forall|k: u128| #[trigger] self.unique@.contains_key(k) implies {
                let x = self.unique@[k];
                &&& 1 <= x < a.len()
                &&& match a[x as int] {
                    ArenaNode::Internal { var_index, then_child, else_child } => {
                        &&& var_handle(var_index).index_of() == var_index
                        &&& !var_handle(var_index).compl_of()
                        &&& k == unique_key(var_index, then_child, else_child)
                    },
                    ArenaNode::Constant => false,
                }
            } by {
                assert(old(self).unique@.contains_key(k));
            }
            assert(mid.wf());
        }
        let one = NodeId::one();
        let zero = NodeId::zero();
        let r = self.unique_inter(v, one, zero);
        proof {
            Manager::lemma_keeps(*self, mid);
        }
        r
    }

    /// The variable on level `l`.
    pub closed spec fn var_at(&self, l: nat) -> u16 {
        self.inv_perm@[l as int] as u16
    }

    /// The variable on a level is the one the order puts there.
    proof fn lemma_var_at(&self, l: nat)
        requires
            self.wf(),
            l < self.var_count(),
        ensures
            (self.var_at(l) as nat) < self.var_count(),
            self.order()[self.var_at(l) as int] == l,
    {
        assert(self.inv_perm@[l as int] < self.perm@.len());
    }

    /// A negated edge is the negated function.
    proof fn lemma_negated(&self, f: NodeId)
        requires
            self.wf(),
            self.is_node(f),
        ensures
            self.is_node(f.negated()),
            self.level_of(f.negated()) == self.level_of(f),
            forall|asg: Seq<bool>| #[trigger] self.eval(f.negated(), asg) == !self.eval(f, asg),
    {
        NodeId::lemma_parts(f);
        assert(ordered(self.nodes@, self.perm@, self.perm@.len(), f.index_of()));
        assert forall|asg: Seq<bool>| #[trigger] self.eval(f.negated(), asg) == !self.eval(f, asg) by {
            lemma_eval_negated(self.nodes@, self.perm@, self.perm@.len(), f.index_of(), f.compl_of(), asg);
        }
    }

    /// The level of the node `f` points to.
    pub fn level(&self, f: NodeId) -> (r: u32)
        requires
            self.wf(),
            self.is_node(f),
        ensures
            r == self.level_of(f),
    {
        let raw = f.raw_index();
        if raw == 0 {
            return self.perm.len() as u32;
        }
        proof {
            assert(ordered(self.nodes@, self.perm@, self.perm@.len(), raw as nat));
        }
        match self.nodes[raw as usize] {
            ArenaNode::Internal { var_index, .. } => self.perm[var_index as usize],
            ArenaNode::Constant => self.perm.len() as u32,
        }
    }

    /// The complement of `f`.
    pub fn bdd_not(&self, f: NodeId) -> (r: NodeId)
        requires
            self.wf(),
            self.is_node(f),
        ensures
            r == f.negated(),
            self.is_node(r),
            forall|asg: Seq<bool>| #[trigger] self.eval(r, asg) == !self.eval(f, asg),
    {
        proof {
            self.lemma_negated(f);
        }
        f.not()
    }

    /// The two cofactors of `f` by the variable on level `l`, at or above
    /// `f`'s level: its children (negated along with `f`) when `f` tests that
    /// variable, else `f` twice.
    fn cofactors(&self, f: NodeId, l: u32) -> (r: (NodeId, NodeId))
        requires
            self.wf(),
            self.is_node(f),
            l <= self.level_of(f),
            l < self.var_count(),
        ensures
            self.is_node(r.0),
            self.is_node(r.1),
            self.level_of(r.0) > l,
            self.level_of(r.1) > l,
            self.level_of(f) == l ==> r.0 != r.1,
            r == cof(self.arena(), self.order(), self.var_count(), f, l as nat),
            forall|asg: Seq<bool>|
                #[trigger] self.eval(f, asg) == if asg[self.var_at(l as nat) as int] {
                    self.eval(r.0, asg)
                } else {
                    self.eval(r.1, asg)
                },
    {
        proof {
            self.lemma_var_at(l as nat);
            self.lemma_level_bound(f);
            assert(ordered(self.nodes@, self.perm@, self.perm@.len(), f.index_of()));
        }
        let lf = self.level(f);
        if lf == l {
            let raw = f.raw_index();
            match self.nodes[raw as usize] {
                ArenaNode::Internal { var_index, then_child, else_child } => {
                    let c = f.is_complemented();
                    let t = then_child.not_cond(c);
                    let e = else_child.not_cond(c);
                    proof {
                        if t == e {
                            NodeId::lemma_same_parts(then_child, else_child);
                        }
                        assert(self.inv_perm@[self.perm@[var_index as int] as int] == var_index);
                        assert(ordered(self.nodes@, self.perm@, self.perm@.len(), then_child.index_of()));
                        assert(ordered(self.nodes@, self.perm@, self.perm@.len(), else_child.index_of()));
                    }
                    (t, e)
                },
                ArenaNode::Constant => (f, f),
            }
        } else {
            (f, f)
        }
    }

    /// If-then-else: the function that is `g` where `f` is true and `h`
    /// where `f` is false, built by Shannon expansion on the top variable of
    /// the three. Every old node keeps its function. Fails only when the
    /// arena is full.
    #[verifier::rlimit(90)]
    #[verifier::spinoff_prover]
    pub fn bdd_ite(&mut self, f: NodeId, g: NodeId, h: NodeId) -> (r: Result<NodeId, DdError>)
        requires
            old(self).wf(),
            old(self).is_node(f),
            old(self).is_node(g),
            old(self).is_node(h),
        ensures
            final(self).wf(),
            final(self).extends(*old(self)),
            r matches Ok(x) ==> {
                &&& final(self).is_node(x)
                &&& final(self).level_of(x) >= min3(
                    old(self).level_of(f),
                    old(self).level_of(g),
                    old(self).level_of(h),
                )
                &&& forall|asg: Seq<bool>|
                    #[trigger] final(self).eval(x, asg) == if old(self).eval(f, asg) {
                        old(self).eval(g, asg)
                    } else {
                        old(self).eval(h, asg)
                    }
            },
            r matches Err(err) ==> err == (DdError::OutOfNodes { limit: MAX_NODES })
                && final(self).arena().len() == MAX_NODES,
        decreases old(self).var_count() - min3(
            old(self).level_of(f),
            old(self).level_of(g),
            old(self).level_of(h),
        ),
            non_constants(g, h),
    {
        let ghost s0 = *self;
        proof {
            s0.lemma_level_bound(f);
            s0.lemma_level_bound(g);
            s0.lemma_level_bound(h);
            s0.lemma_negated(f);
            s0.lemma_negated(g);
            s0.lemma_negated(h);
            NodeId::lemma_parts(f);
            NodeId::lemma_parts(g);
            NodeId::lemma_parts(h);
        }
        let one = NodeId::one();
        let zero = NodeId::zero();
        if f.is_one() {
            return Ok(g);
        }
        if f.is_zero() {
            return Ok(h);
        }
        if g.is_one() && h.is_zero() {
            return Ok(f);
        }
        if g.is_zero() && h.is_one() {
            return Ok(f.not());
        }
        if g == h {
            return Ok(g);
        }
        if f == g {
            return self.bdd_ite(f, one, h);
        }
        if f == h {
            return self.bdd_ite(f, g, zero);
        }
        if f == g.not() {
            proof {
                NodeId::lemma_parts(g.negated());
                NodeId::lemma_same_parts(f.negated(), g);
            }
            return self.bdd_ite(f, zero, h);
        }
        if f == h.not() {
            proof {
                NodeId::lemma_parts(h.negated());
                NodeId::lemma_same_parts(f.negated(), h);
            }
            return self.bdd_ite(f, g, one);
        }
        let (nf, ng, nh) = if f.is_complemented() {
            (f.not(), h, g)
        } else {
            (f, g, h)
        };
        let lf = self.level(nf);
        let lg = self.level(ng);
        let lh = self.level(nh);
        let top = if lf <= lg && lf <= lh {
            lf
        } else if lg <= lh {
            lg
        } else {
            lh
        };
        let top_var = self.inv_perm[top as usize] as u16;
        proof {
            s0.lemma_var_at(top as nat);
        }
        let (ft, fe) = self.cofactors(nf, top);
        let (gt, ge) = self.cofactors(ng, top);
        let (ht, he) = self.cofactors(nh, top);
        let t = match self.bdd_ite(ft, gt, ht) {
            Ok(t) => t,
            Err(err) => {
                return Err(err);
            },
        };
        let ghost s1 = *self;
        proof {
            Manager::lemma_keeps(s1, s0);
        }
        let e = match self.bdd_ite(fe, ge, he) {
            Ok(e) => e,
            Err(err) => {
                return Err(err);
            },
        };
        let ghost s2 = *self;
        proof {
            Manager::lemma_keeps(s2, s1);
            Manager::lemma_keeps(s2, s0);
        }
        let r = match self.unique_inter(top_var, t, e) {
            Ok(r) => r,
            Err(err) => {
                return Err(err);
            },
        };
        proof {
            let s3 = *self;
            assert forall|asg: Seq<bool>| #[trigger] s3.eval(r, asg) == if s0.eval(f, asg) {
                s0.eval(g, asg)
            } else {
                s0.eval(h, asg)
            } by {
                assert(s2.eval(t, asg) == s1.eval(t, asg));
                assert(s0.eval(nf, asg) == if asg[top_var as int] { s0.eval(ft, asg) } else { s0.eval(fe, asg) });
                assert(s0.eval(ng, asg) == if asg[top_var as int] { s0.eval(gt, asg) } else { s0.eval(ge, asg) });
                assert(s0.eval(nh, asg) == if asg[top_var as int] { s0.eval(ht, asg) } else { s0.eval(he, asg) });
            }
        }
        Ok(r)
    }

    /// The conjunction of `f` and `g`. Every old node keeps its function.
    /// Fails only when the arena is full.
    pub fn bdd_and(&mut self, f: NodeId, g: NodeId) -> (r: Result<NodeId, DdError>)
        requires
            old(self).wf(),
            old(self).is_node(f),
            old(self).is_node(g),
        ensures
            final(self).wf(),
            final(self).extends(*old(self)),
            r matches Ok(x) ==> {
                &&& final(self).is_node(x)
                &&& final(self).level_of(x) >= min3(
                    old(self).level_of(f),
                    old(self).level_of(g),
                    old(self).level_of(g),
                )
                &&& forall|asg: Seq<bool>|
                    #[trigger] final(self).eval(x, asg) == (old(self).eval(f, asg) && old(self).eval(g, asg))
            },
            r matches Err(err) ==> err == (DdError::OutOfNodes { limit: MAX_NODES })
                && final(self).arena().len() == MAX_NODES,
        decreases old(self).var_count() - min3(
            old(self).level_of(f),
            old(self).level_of(g),
            old(self).level_of(g),
        ),
    {
        let ghost s0 = *self;
        proof {
            s0.lemma_level_bound(f);
            s0.lemma_level_bound(g);
            s0.lemma_negated(f);
            s0.lemma_negated(g);
            NodeId::lemma_parts(f);
            NodeId::lemma_parts(g);
            NodeId::lemma_parts(g.negated());
        }
        if f.is_one() {
            return Ok(g);
        }
        if g.is_one() {
            return Ok(f);
        }
        if f.is_zero() || g.is_zero() {
            return Ok(NodeId::zero());
        }
        if f == g {
            return Ok(f);
        }
        if f == g.not() {
            return Ok(NodeId::zero());
        }
        let (a, b) = if f.raw_index() > g.raw_index() {
            (g, f)
        } else {
            (f, g)
        };
        let la = self.level(a);
        let lb = self.level(b);
        let top = if la <= lb {
            la
        } else {
            lb
        };
        let top_var = self.inv_perm[top as usize] as u16;
        proof {
            s0.lemma_var_at(top as nat);
        }
        let (at, ae) = self.cofactors(a, top);
        let (bt, be) = self.cofactors(b, top);
        let t = match self.bdd_and(at, bt) {
            Ok(t) => t,
            Err(err) => {
                return Err(err);
            },
        };
        let ghost s1 = *self;
        proof {
            Manager::lemma_keeps(s1, s0);
        }
        let e = match self.bdd_and(ae, be) {
            Ok(e) => e,
            Err(err) => {
                return Err(err);
            },
        };
        let ghost s2 = *self;
        proof {
            Manager::lemma_keeps(s2, s1);
            Manager::lemma_keeps(s2, s0);
        }
        let r = match self.unique_inter(top_var, t, e) {
            Ok(r) => r,
            Err(err) => {
                return Err(err);
            },
        };
        proof {
            let s3 = *self;
            assert forall|asg: Seq<bool>| #[trigger] s3.eval(r, asg) == (s0.eval(f, asg) && s0.eval(g, asg)) by {
                assert(s2.eval(t, asg) == s1.eval(t, asg));
                assert(s0.eval(a, asg) == if asg[top_var as int] { s0.eval(at, asg) } else { s0.eval(ae, asg) });
                assert(s0.eval(b, asg) == if asg[top_var as int] { s0.eval(bt, asg) } else { s0.eval(be, asg) });
            }
        }
        Ok(r)
    }

    /// The exclusive or of `f` and `g`. Every old node keeps its function.
    /// Fails only when the arena is full.
    pub fn bdd_xor(&mut self, f: NodeId, g: NodeId) -> (r: Result<NodeId, DdError>)
        requires
            old(self).wf(),
            old(self).is_node(f),
            old(self).is_node(g),
        ensures
            final(self).wf(),
            final(self).extends(*old(self)),
            r matches Ok(x) ==> {
                &&& final(self).is_node(x)
                &&& final(self).level_of(x) >= min3(
                    old(self).level_of(f),
                    old(self).level_of(g),
                    old(self).level_of(g),
                )
                &&& forall|asg: Seq<bool>|
                    #[trigger] final(self).eval(x, asg) == (old(self).eval(f, asg) != old(self).eval(g, asg))
            },
            r matches Err(err) ==> err == (DdError::OutOfNodes { limit: MAX_NODES })
                && final(self).arena().len() == MAX_NODES,
        decreases old(self).var_count() - min3(
            old(self).level_of(f),
            old(self).level_of(g),
            old(self).level_of(g),
        ),
    {
        let ghost s0 = *self;
        proof {
            s0.lemma_level_bound(f);
            s0.lemma_level_bound(g);
            s0.lemma_negated(f);
            s0.lemma_negated(g);
            NodeId::lemma_parts(f);
            NodeId::lemma_parts(g);
            NodeId::lemma_parts(g.negated());
        }
        if f == g {
            return Ok(NodeId::zero());
        }
        if f == g.not() {
            return Ok(NodeId::one());
        }
        if f.is_zero() {
            return Ok(g);
        }
        if f.is_one() {
            return Ok(g.not());
        }
        if g.is_zero() {
            return Ok(f);
        }
        if g.is_one() {
            return Ok(f.not());
        }
        let (a, b) = if f.raw_index() > g.raw_index() {
            (g, f)
        } else {
            (f, g)
        };
        let la = self.level(a);
        let lb = self.level(b);
        let top = if la <= lb {
            la
        } else {
            lb
        };
        let top_var = self.inv_perm[top as usize] as u16;
        proof {
            s0.lemma_var_at(top as nat);
        }
        let (at, ae) = self.cofactors(a, top);
        let (bt, be) = self.cofactors(b, top);
        let t = match self.bdd_xor(at, bt) {
            Ok(t) => t,
            Err(err) => {
                return Err(err);
            },
        };
        let ghost s1 = *self;
        proof {
            Manager::lemma_keeps(s1, s0);
        }
        let e = match self.bdd_xor(ae, be) {
            Ok(e) => e,
            Err(err) => {
                return Err(err);
            },
        };
        let ghost s2 = *self;
        proof {
            Manager::lemma_keeps(s2, s1);
            Manager::lemma_keeps(s2, s0);
        }
        let r = match self.unique_inter(top_var, t, e) {
            Ok(r) => r,
            Err(err) => {
                return Err(err);
            },
        };
        proof {
            let s3 = *self;
            assert forall|asg: Seq<bool>| #[trigger] s3.eval(r, asg) == (s0.eval(f, asg) != s0.eval(g, asg)) by {
                assert(s2.eval(t, asg) == s1.eval(t, asg));
                assert(s0.eval(a, asg) == if asg[top_var as int] { s0.eval(at, asg) } else { s0.eval(ae, asg) });
                assert(s0.eval(b, asg) == if asg[top_var as int] { s0.eval(bt, asg) } else { s0.eval(be, asg) });
            }
        }
        Ok(r)
    }

    /// The disjunction of `f` and `g`: the complement of the conjunction of
    /// their complements. Fails only when the arena is full.
    pub fn bdd_or(&mut self, f: NodeId, g: NodeId) -> (r: Result<NodeId, DdError>)
        requires
            old(self).wf(),
            old(self).is_node(f),
            old(self).is_node(g),
        ensures
            final(self).wf(),
            final(self).extends(*old(self)),
            r matches Ok(x) ==> final(self).is_node(x) && forall|asg: Seq<bool>|
                #[trigger] final(self).eval(x, asg) == (old(self).eval(f, asg) || old(self).eval(g, asg)),
            r matches Ok(x) ==> final(self).level_of(x) >= min3(
                old(self).level_of(f),
                old(self).level_of(g),
                old(self).level_of(g),
            ),
            r matches Err(err) ==> err == (DdError::OutOfNodes { limit: MAX_NODES })
                && final(self).arena().len() == MAX_NODES,
    {
        let ghost s0 = *self;
        proof {
            s0.lemma_negated(f);
            s0.lemma_negated(g);
        }
        let nf = self.bdd_not(f);
        let ng = self.bdd_not(g);
        match self.bdd_and(nf, ng) {
            Ok(a) => {
                proof {
                    self.lemma_negated(a);
                    NodeId::lemma_parts(a);
                }
                let r = a.not();
                proof {
                    assert forall|asg: Seq<bool>| #[trigger] self.eval(r, asg) == (s0.eval(f, asg)
                        || s0.eval(g, asg)) by {
                        assert(self.eval(a, asg) == (s0.eval(nf, asg) && s0.eval(ng, asg)));
                    }
                }
                Ok(r)
            },
            Err(err) => Err(err),
        }
    }

    /// The complement of the conjunction. Fails only when the arena is full.
    pub fn bdd_nand(&mut self, f: NodeId, g: NodeId) -> (r: Result<NodeId, DdError>)
        requires
            old(self).wf(),
            old(self).is_node(f),
            old(self).is_node(g),
        ensures
            final(self).wf(),
            final(self).extends(*old(self)),
            r matches Ok(x) ==> final(self).is_node(x) && forall|asg: Seq<bool>|
                #[trigger] final(self).eval(x, asg) == !(old(self).eval(f, asg) && old(self).eval(g, asg)),
            r matches Err(err) ==> err == (DdError::OutOfNodes { limit: MAX_NODES })
                && final(self).arena().len() == MAX_NODES,
    {
        match self.bdd_and(f, g) {
            Ok(a) => {
                proof {
                    self.lemma_negated(a);
                    NodeId::lemma_parts(a);
                }
                Ok(a.not())
            },
            Err(err) => Err(err),
        }
    }

    /// The complement of the disjunction. Fails only when the arena is full.
    pub fn bdd_nor(&mut self, f: NodeId, g: NodeId) -> (r: Result<NodeId, DdError>)
        requires
            old(self).wf(),
            old(self).is_node(f),
            old(self).is_node(g),
        ensures
            final(self).wf(),
            final(self).extends(*old(self)),
            r matches Ok(x) ==> final(self).is_node(x) && forall|asg: Seq<bool>|
                #[trigger] final(self).eval(x, asg) == !(old(self).eval(f, asg) || old(self).eval(g, asg)),
            r matches Err(err) ==> err == (DdError::OutOfNodes { limit: MAX_NODES })
                && final(self).arena().len() == MAX_NODES,
    {
        match self.bdd_or(f, g) {
            Ok(a) => {
                proof {
                    self.lemma_negated(a);
                    NodeId::lemma_parts(a);
                }
                Ok(a.not())
            },
            Err(err) => Err(err),
        }
    }

    /// The complement of the exclusive or. Fails only when the arena is full.
    pub fn bdd_xnor(&mut self, f: NodeId, g: NodeId) -> (r: Result<NodeId, DdError>)
        requires
            old(self).wf(),
            old(self).is_node(f),
            old(self).is_node(g),
        ensures
            final(self).wf(),
            final(self).extends(*old(self)),
            r matches Ok(x) ==> final(self).is_node(x) && forall|asg: Seq<bool>|
                #[trigger] final(self).eval(x, asg) == (old(self).eval(f, asg) == old(self).eval(g, asg)),
            r matches Err(err) ==> err == (DdError::OutOfNodes { limit: MAX_NODES })
                && final(self).arena().len() == MAX_NODES,
    {
        match self.bdd_xor(f, g) {
            Ok(a) => {
                proof {
                    self.lemma_negated(a);
                    NodeId::lemma_parts(a);
                }
                Ok(a.not())
            },
            Err(err) => Err(err),
        }
    }

    /// The value of `f` under the assignment `asg` (by variable index),
    /// found by walking from `f` down to the constant.
    pub fn bdd_eval(&self, f: NodeId, asg: &[bool]) -> (r: bool)
        requires
            self.wf(),
            self.is_node(f),
            asg@.len() >= self.var_count(),
        ensures
            r == self.eval(f, asg@),
    {
        let mut cur = f;
        proof {
            self.lemma_level_bound(f);
        }
        while cur.raw_index() != 0
            invariant
                self.wf(),
                self.is_node(cur),
                asg@.len() >= self.var_count(),
                self.eval(cur, asg@) == self.eval(f, asg@),
            decreases self.var_count() - self.level_of(cur),
        {
            let raw = cur.raw_index();
            proof {
                assert(ordered(self.nodes@, self.perm@, self.perm@.len(), raw as nat));
            }
            match self.nodes[raw as usize] {
                ArenaNode::Internal { var_index, then_child, else_child } => {
                    proof {
                        assert(ordered(self.nodes@, self.perm@, self.perm@.len(), then_child.index_of()));
                        assert(ordered(self.nodes@, self.perm@, self.perm@.len(), else_child.index_of()));
                        self.lemma_level_bound(then_child);
                        self.lemma_level_bound(else_child);
                    }
                    let c = cur.is_complemented();
                    if asg[var_index as usize] {
                        cur = then_child.not_cond(c);
                    } else {
                        cur = else_child.not_cond(c);
                    }
                },
                ArenaNode::Constant => {
                    return !cur.is_complemented();
                },
            }
        }
        !cur.is_complemented()
    }

    /// `f` implies `g` under every assignment to the manager's variables.
    pub open spec fn implies(&self, f: NodeId, g: NodeId) -> bool {
        forall|asg: Seq<bool>|
            asg.len() == self.var_count() && #[trigger] self.eval(f, asg) ==> self.eval(g, asg)
    }

    /// The cofactors of `f` by the variable on level `l` are `f` with that
    /// variable set to one and to zero.
    proof fn lemma_cofactor_values(&self, f: NodeId, l: nat, t: NodeId, e: NodeId, asg: Seq<bool>)
        requires
            self.wf(),
            self.is_node(f),
            self.is_node(t),
            self.is_node(e),
            l < self.var_count(),
            self.level_of(t) > l,
            self.level_of(e) > l,
            asg.len() >= self.var_count(),
            forall|a: Seq<bool>|
                #[trigger] self.eval(f, a) == if a[self.var_at(l) as int] {
                    self.eval(t, a)
                } else {
                    self.eval(e, a)
                },
        ensures
            self.eval(t, asg) == self.eval(f, asg.update(self.var_at(l) as int, true)),
            self.eval(e, asg) == self.eval(f, asg.update(self.var_at(l) as int, false)),
    {
        self.lemma_var_at(l);
        let v = self.var_at(l);
        let n = self.var_count();
        let a1 = asg.update(v as int, true);
        let a0 = asg.update(v as int, false);
        assert(self.eval(f, a1) == self.eval(t, a1));
        assert(self.eval(f, a0) == self.eval(e, a0));
        assert(ordered(self.nodes@, self.perm@, n, t.index_of()));
        assert(ordered(self.nodes@, self.perm@, n, e.index_of()));
        lemma_independent(self.nodes@, self.perm@, n, t.index_of(), t.compl_of(), asg, v as nat, true);
        lemma_independent(self.nodes@, self.perm@, n, e.index_of(), e.compl_of(), asg, v as nat, false);
    }

    /// An implication between two nodes still holds in a manager grown
    /// from the one they were in.
    proof fn lemma_implies_kept(old: Manager, new: Manager, f: NodeId, g: NodeId)
        requires
            old.wf(),
            new.extends(old),
            old.is_node(f),
            old.is_node(g),
            old.implies(f, g),
        ensures
            new.implies(f, g),
    {
        Manager::lemma_keeps(new, old);
        assert forall|asg: Seq<bool>|
            asg.len() == new.var_count() && #[trigger] new.eval(f, asg) implies new.eval(g, asg) by {
            assert(old.eval(f, asg) == new.eval(f, asg));
            assert(old.eval(g, asg) == new.eval(g, asg));
        }
    }

    /// One step of the generalized cofactor: what it is for `f` and `c` in
    /// terms of their cofactors on the top level.
    proof fn lemma_constrain_unfold(&self, f: NodeId, c: NodeId, top: nat, ft: NodeId, fe: NodeId, ct: NodeId, ce: NodeId)
        requires
            self.wf(),
            self.is_node(f),
            self.is_node(c),
            !(f.index_of() == 0 || is_one_h(c) || is_zero_h(c) || f == c || f == c.negated()),
            top == min2(self.level_of(f), self.level_of(c)),
            top < self.var_count(),
            (ft, fe) == cof(self.arena(), self.order(), self.var_count(), f, top),
            (ct, ce) == cof(self.arena(), self.order(), self.var_count(), c, top),
            self.is_node(ft),
            self.is_node(fe),
            self.is_node(ct),
            self.is_node(ce),
            self.level_of(ft) > top,
            self.level_of(fe) > top,
            self.level_of(ct) > top,
            self.level_of(ce) > top,
        ensures
            forall|asg: Seq<bool>|
                #[trigger] constrain_fn(self.arena(), self.order(), self.var_count(), f, c, asg) == if is_zero_h(ct) {
                    constrain_fn(self.arena(), self.order(), self.var_count(), fe, ce, asg)
                } else if is_zero_h(ce) {
                    constrain_fn(self.arena(), self.order(), self.var_count(), ft, ct, asg)
                } else if asg[self.var_at(top) as int] {
                    constrain_fn(self.arena(), self.order(), self.var_count(), ft, ct, asg)
                } else {
                    constrain_fn(self.arena(), self.order(), self.var_count(), fe, ce, asg)
                },
    {
        let a = self.arena();
        let perm = self.order();
        let n = self.var_count();
        self.lemma_level_bound(ft);
        self.lemma_level_bound(fe);
        self.lemma_level_bound(ct);
        self.lemma_level_bound(ce);
        self.lemma_var_at(top);
        let v = top_var(a, perm, n, f, c);
        assert(v == self.var_at(top)) by {
            if self.level_of(f) <= self.level_of(c) {
                assert(ordered(a, perm, n, f.index_of()));
                assert(self.inv_perm@[self.perm@[var_of(a, f) as int] as int] == var_of(a, f));
            } else {
                assert(ordered(a, perm, n, c.index_of()));
                assert(self.inv_perm@[self.perm@[var_of(a, c) as int] as int] == var_of(a, c));
            }
        }
    }

    /// A node on the top variable of `lb` and `ub` whose branches compute
    /// what a squeeze takes there computes the squeeze of `lb` and `ub`.
    proof fn lemma_squeeze_step(
        s0: Manager,
        s: Manager,
        lb: NodeId,
        ub: NodeId,
        top: nat,
        lt: NodeId,
        le: NodeId,
        ut: NodeId,
        ue: NodeId,
        t: NodeId,
        e: NodeId,
        r: NodeId,
    )
        requires
            s0.wf(),
            s0.is_node(lb),
            s0.is_node(ub),
            !(is_zero_h(lb) || is_one_h(ub) || lb == ub || is_zero_h(ub) || is_one_h(lb)),
            top == min2(s0.level_of(lb), s0.level_of(ub)),
            top < s0.var_count(),
            (lt, le) == cof(s0.arena(), s0.order(), s0.var_count(), lb, top),
            (ut, ue) == cof(s0.arena(), s0.order(), s0.var_count(), ub, top),
            s0.is_node(lt),
            s0.is_node(le),
            s0.is_node(ut),
            s0.is_node(ue),
            s0.level_of(lt) > top,
            s0.level_of(le) > top,
            s0.level_of(ut) > top,
            s0.level_of(ue) > top,
            forall|asg: Seq<bool>|
                #[trigger] s.eval(t, asg) == sq_then(s0.arena(), s0.order(), s0.var_count(), lt, le, ut, ue, asg),
            forall|asg: Seq<bool>|
                #[trigger] s.eval(e, asg) == sq_else(s0.arena(), s0.order(), s0.var_count(), lt, le, ut, ue, asg),
            forall|asg: Seq<bool>|
                #[trigger] s.eval(r, asg) == if asg[s0.var_at(top) as int] {
                    s.eval(t, asg)
                } else {
                    s.eval(e, asg)
                },
        ensures
            forall|asg: Seq<bool>|
                #[trigger] s.eval(r, asg) == squeeze_fn(s0.arena(), s0.order(), s0.var_count(), lb, ub, asg),
    {
        let a = s0.arena();
        let perm = s0.order();
        let n = s0.var_count();
        s0.lemma_level_bound(lt);
        s0.lemma_level_bound(le);
        s0.lemma_level_bound(ut);
        s0.lemma_level_bound(ue);
        s0.lemma_var_at(top);
        let v = top_var(a, perm, n, lb, ub);
        assert(v == s0.var_at(top)) by {
            if s0.level_of(lb) <= s0.level_of(ub) {
                assert(ordered(a, perm, n, lb.index_of()));
                assert(s0.inv_perm@[s0.perm@[var_of(a, lb) as int] as int] == var_of(a, lb));
            } else {
                assert(ordered(a, perm, n, ub.index_of()));
                assert(s0.inv_perm@[s0.perm@[var_of(a, ub) as int] as int] == var_of(a, ub));
            }
        }
        assert forall|asg: Seq<bool>| #[trigger] s.eval(r, asg) == squeeze_fn(a, perm, n, lb, ub, asg) by {
            assert(s.eval(t, asg) == sq_then(a, perm, n, lt, le, ut, ue, asg));
            assert(s.eval(e, asg) == sq_else(a, perm, n, lt, le, ut, ue, asg));
        }
    }

    /// A node whose branches on the variable of level `l` lie between the
    /// cofactors of `lb` and of `ub` lies between `lb` and `ub`.
    proof fn lemma_squeeze_join(
        s0: Manager,
        s: Manager,
        lb: NodeId,
        ub: NodeId,
        l: nat,
        lt: NodeId,
        le: NodeId,
        ut: NodeId,
        ue: NodeId,
        t: NodeId,
        e: NodeId,
        r: NodeId,
    )
        requires
            s0.wf(),
            s.extends(s0),
            s0.is_node(lb),
            s0.is_node(ub),
            s0.is_node(lt),
            s0.is_node(le),
            s0.is_node(ut),
            s0.is_node(ue),
            l < s0.var_count(),
            forall|a: Seq<bool>|
                #[trigger] s0.eval(lb, a) == if a[s0.var_at(l) as int] {
                    s0.eval(lt, a)
                } else {
                    s0.eval(le, a)
                },
            forall|a: Seq<bool>|
                #[trigger] s0.eval(ub, a) == if a[s0.var_at(l) as int] {
                    s0.eval(ut, a)
                } else {
                    s0.eval(ue, a)
                },
            s.implies(lt, t),
            s.implies(t, ut),
            s.implies(le, e),
            s.implies(e, ue),
            forall|a: Seq<bool>|
                #[trigger] s.eval(r, a) == if a[s0.var_at(l) as int] {
                    s.eval(t, a)
                } else {
                    s.eval(e, a)
                },
        ensures
            s.implies(lb, r),
            s.implies(r, ub),
    {
        Manager::lemma_keeps(s, s0);
        assert forall|a: Seq<bool>| a.len() == s.var_count() && #[trigger] s.eval(lb, a) implies s.eval(r, a) by {
            assert(s.eval(lb, a) == s0.eval(lb, a));
            assert(s.eval(lt, a) == s0.eval(lt, a));
            assert(s.eval(le, a) == s0.eval(le, a));
        }
        assert forall|a: Seq<bool>| a.len() == s.var_count() && #[trigger] s.eval(r, a) implies s.eval(ub, a) by {
            assert(s.eval(ub, a) == s0.eval(ub, a));
            assert(s.eval(ut, a) == s0.eval(ut, a));
            assert(s.eval(ue, a) == s0.eval(ue, a));
        }
    }

    /// A function between `lb` and `ub` (which `lb` must imply), built to be
    /// small: where a cofactor of `ub` is one or a cofactor of `lb` is zero,
    /// that branch takes the constant. Every old node keeps its function.
    /// Fails only when the arena is full.
    #[verifier::rlimit(100)]
    #[verifier::spinoff_prover]
    pub fn bdd_squeeze(&mut self, lb: NodeId, ub: NodeId) -> (r: Result<NodeId, DdError>)
        requires
            old(self).wf(),
            old(self).is_node(lb),
            old(self).is_node(ub),
            old(self).implies(lb, ub),
        ensures
            final(self).wf(),
            final(self).extends(*old(self)),
            r matches Ok(x) ==> {
                &&& final(self).is_node(x)
                &&& final(self).level_of(x) >= min3(
                    old(self).level_of(lb),
                    old(self).level_of(ub),
                    old(self).level_of(ub),
                )
                &&& final(self).implies(lb, x)
                &&& final(self).implies(x, ub)
                &&& lb == ub ==> x == lb
                &&& forall|asg: Seq<bool>|
                    #[trigger] final(self).eval(x, asg) == squeeze_fn(
                        old(self).arena(),
                        old(self).order(),
                        old(self).var_count(),
                        lb,
                        ub,
                        asg,
                    )
            },
            r matches Err(err) ==> err == (DdError::OutOfNodes { limit: MAX_NODES })
                && final(self).arena().len() == MAX_NODES,
        decreases old(self).var_count() - min3(
            old(self).level_of(lb),
            old(self).level_of(ub),
            old(self).level_of(ub),
        ),
    {
        let ghost s0 = *self;
        proof {
            s0.lemma_level_bound(lb);
            s0.lemma_level_bound(ub);
            NodeId::lemma_parts(lb);
            NodeId::lemma_parts(ub);
        }
        if lb.is_zero() {
            let z = NodeId::zero();
            proof {
                NodeId::lemma_same_parts(z, lb);
            }
            return Ok(z);
        }
        if ub.is_one() {
            let o = NodeId::one();
            proof {
                NodeId::lemma_same_parts(o, ub);
            }
            return Ok(o);
        }
        if lb == ub {
            return Ok(lb);
        }
        if ub.is_zero() {
            let z = NodeId::zero();
            proof {
                NodeId::lemma_same_parts(z, ub);
            }
            return Ok(z);
        }
        if lb.is_one() {
            let o = NodeId::one();
            proof {
                NodeId::lemma_same_parts(o, lb);
            }
            return Ok(o);
        }
        let ll = self.level(lb);
        let lu = self.level(ub);
        let top = if ll <= lu {
            ll
        } else {
            lu
        };
        let top_var = self.inv_perm[top as usize] as u16;
        proof {
            s0.lemma_var_at(top as nat);
        }
        let (lt, le) = self.cofactors(lb, top);
        let (ut, ue) = self.cofactors(ub, top);
        proof {
            assert forall|asg: Seq<bool>|
                asg.len() == s0.var_count() && #[trigger] s0.eval(lt, asg) implies s0.eval(ut, asg) by {
                s0.lemma_cofactor_values(lb, top as nat, lt, le, asg);
                s0.lemma_cofactor_values(ub, top as nat, ut, ue, asg);
            }
            assert forall|asg: Seq<bool>|
                asg.len() == s0.var_count() && #[trigger] s0.eval(le, asg) implies s0.eval(ue, asg) by {
                s0.lemma_cofactor_values(lb, top as nat, lt, le, asg);
                s0.lemma_cofactor_values(ub, top as nat, ut, ue, asg);
            }
        }
        let one = NodeId::one();
        let zero = NodeId::zero();
        let (t, e) = if ut.is_one() {
            let e = match self.bdd_squeeze(le, ue) {
                Ok(e) => e,
                Err(err) => {
                    return Err(err);
                },
            };
            proof {
                assert forall|asg: Seq<bool>| #[trigger] self.eval(one, asg) == sq_then(s0.arena(), s0.order(), s0.var_count(), lt, le, ut, ue, asg)
                    && self.eval(e, asg) == sq_else(s0.arena(), s0.order(), s0.var_count(), lt, le, ut, ue, asg) by {
                    assert(self.eval(e, asg) == squeeze_fn(s0.arena(), s0.order(), s0.var_count(), le, ue, asg));
                }
            }
            (one, e)
        } else if ue.is_one() {
            let t = match self.bdd_squeeze(lt, ut) {
                Ok(t) => t,
                Err(err) => {
                    return Err(err);
                },
            };
            proof {
                assert forall|asg: Seq<bool>| #[trigger] self.eval(t, asg) == sq_then(s0.arena(), s0.order(), s0.var_count(), lt, le, ut, ue, asg)
                    && self.eval(one, asg) == sq_else(s0.arena(), s0.order(), s0.var_count(), lt, le, ut, ue, asg) by {
                    assert(self.eval(t, asg) == squeeze_fn(s0.arena(), s0.order(), s0.var_count(), lt, ut, asg));
                }
            }
            (t, one)
        } else if lt.is_zero() {
            let e = match self.bdd_squeeze(le, ue) {
                Ok(e) => e,
                Err(err) => {
                    return Err(err);
                },
            };
            proof {
                assert forall|asg: Seq<bool>| #[trigger] self.eval(zero, asg) == sq_then(s0.arena(), s0.order(), s0.var_count(), lt, le, ut, ue, asg)
                    && self.eval(e, asg) == sq_else(s0.arena(), s0.order(), s0.var_count(), lt, le, ut, ue, asg) by {
                    assert(self.eval(e, asg) == squeeze_fn(s0.arena(), s0.order(), s0.var_count(), le, ue, asg));
                }
            }
            (zero, e)
        } else if le.is_zero() {
            let t = match self.bdd_squeeze(lt, ut) {
                Ok(t) => t,
                Err(err) => {
                    return Err(err);
                },
            };
            proof {
                assert forall|asg: Seq<bool>| #[trigger] self.eval(t, asg) == sq_then(s0.arena(), s0.order(), s0.var_count(), lt, le, ut, ue, asg)
                    && self.eval(zero, asg) == sq_else(s0.arena(), s0.order(), s0.var_count(), lt, le, ut, ue, asg) by {
                    assert(self.eval(t, asg) == squeeze_fn(s0.arena(), s0.order(), s0.var_count(), lt, ut, asg));
                }
            }
            (t, zero)
        } else {
            let t = match self.bdd_squeeze(lt, ut) {
                Ok(t) => t,
                Err(err) => {
                    return Err(err);
                },
            };
            let ghost s1 = *self;
            proof {
                Manager::lemma_implies_kept(s0, s1, lt, ut);
                Manager::lemma_implies_kept(s0, s1, le, ue);
            }
            let e = match self.bdd_squeeze(le, ue) {
                Ok(e) => e,
                Err(err) => {
                    return Err(err);
                },
            };
            proof {
                Manager::lemma_implies_kept(s1, *self, lt, t);
                Manager::lemma_implies_kept(s1, *self, t, ut);
                Manager::lemma_keeps(*self, s1);
                assert(ordered(s0.nodes@, s0.perm@, s0.perm@.len(), le.index_of()));
                assert(ordered(s0.nodes@, s0.perm@, s0.perm@.len(), ue.index_of()));
                assert forall|asg: Seq<bool>| #[trigger] self.eval(t, asg) == sq_then(s0.arena(), s0.order(), s0.var_count(), lt, le, ut, ue, asg)
                    && self.eval(e, asg) == sq_else(s0.arena(), s0.order(), s0.var_count(), lt, le, ut, ue, asg) by {
                    assert(self.eval(t, asg) == s1.eval(t, asg));
                    assert(s1.eval(t, asg) == squeeze_fn(s0.arena(), s0.order(), s0.var_count(), lt, ut, asg));
                    lemma_squeeze_fn_extend(s0.nodes@, s1.nodes@, s0.perm@, s0.perm@.len(), le, ue, asg);
                    assert(self.eval(e, asg) == squeeze_fn(s1.arena(), s1.order(), s1.var_count(), le, ue, asg));
                }
            }
            (t, e)
        };
        let ghost s2 = *self;
        proof {
            Manager::lemma_keeps(s2, s0);
            Manager::lemma_implies_kept(s0, s2, lt, ut);
            Manager::lemma_implies_kept(s0, s2, le, ue);
        }
        let r = if t == e {
            t
        } else {
            match self.unique_inter(top_var, t, e) {
                Ok(r) => r,
                Err(err) => {
                    return Err(err);
                },
            }
        };
        proof {
            let s3 = *self;
            Manager::lemma_keeps(s3, s2);
            Manager::lemma_keeps(s3, s0);
            Manager::lemma_implies_kept(s2, s3, lt, t);
            Manager::lemma_implies_kept(s2, s3, t, ut);
            Manager::lemma_implies_kept(s2, s3, le, e);
            Manager::lemma_implies_kept(s2, s3, e, ue);
            Manager::lemma_squeeze_join(s0, s3, lb, ub, top as nat, lt, le, ut, ue, t, e, r);
            s0.lemma_level_bound(lb);
            s0.lemma_level_bound(ub);
            assert forall|asg: Seq<bool>| #[trigger] s3.eval(t, asg) == sq_then(s0.arena(), s0.order(), s0.var_count(), lt, le, ut, ue, asg) by {
                assert(s3.eval(t, asg) == s2.eval(t, asg));
            }
            assert forall|asg: Seq<bool>| #[trigger] s3.eval(e, asg) == sq_else(s0.arena(), s0.order(), s0.var_count(), lt, le, ut, ue, asg) by {
                assert(s3.eval(e, asg) == s2.eval(e, asg));
            }
            assert forall|asg: Seq<bool>| #[trigger] s3.eval(r, asg) == if asg[s0.var_at(top as nat) as int] {
                s3.eval(t, asg)
            } else {
                s3.eval(e, asg)
            } by {
                assert(s3.eval(t, asg) == s2.eval(t, asg));
                assert(s3.eval(e, asg) == s2.eval(e, asg));
            }
            Manager::lemma_squeeze_step(s0, s3, lb, ub, top as nat, lt, le, ut, ue, t, e, r);
        }
        Ok(r)
    }

    /// `x` and `f` agree wherever `c` is true.
    pub open spec fn agrees_where(&self, c: NodeId, x: NodeId, f: NodeId) -> bool {
        forall|asg: Seq<bool>| #[trigger] self.eval(c, asg) ==> self.eval(x, asg) == self.eval(f, asg)
    }

    /// A node whose branches on the variable of level `l` agree with the
    /// cofactors of `f` where those of `c` hold agrees with `f` where `c`
    /// holds.
    proof fn lemma_constrain_join(
        s0: Manager,
        s: Manager,
        f: NodeId,
        c: NodeId,
        l: nat,
        ft: NodeId,
        fe: NodeId,
        ct: NodeId,
        ce: NodeId,
        t: NodeId,
        e: NodeId,
        r: NodeId,
    )
        requires
            s0.wf(),
            s.extends(s0),
            s0.is_node(f),
            s0.is_node(c),
            s0.is_node(ft),
            s0.is_node(fe),
            s0.is_node(ct),
            s0.is_node(ce),
            l < s0.var_count(),
            forall|a: Seq<bool>|
                #[trigger] s0.eval(f, a) == if a[s0.var_at(l) as int] {
                    s0.eval(ft, a)
                } else {
                    s0.eval(fe, a)
                },
            forall|a: Seq<bool>|
                #[trigger] s0.eval(c, a) == if a[s0.var_at(l) as int] {
                    s0.eval(ct, a)
                } else {
                    s0.eval(ce, a)
                },
            s.agrees_where(ct, t, ft),
            s.agrees_where(ce, e, fe),
            forall|a: Seq<bool>|
                #[trigger] s.eval(r, a) == if a[s0.var_at(l) as int] {
                    s.eval(t, a)
                } else {
                    s.eval(e, a)
                },
        ensures
            s.agrees_where(c, r, f),
    {
        Manager::lemma_keeps(s, s0);
        assert forall|a: Seq<bool>| #[trigger] s.eval(c, a) implies s.eval(r, a) == s.eval(f, a) by {
            assert(s.eval(c, a) == s0.eval(c, a));
            assert(s.eval(f, a) == s0.eval(f, a));
            assert(s.eval(ct, a) == s0.eval(ct, a));
            assert(s.eval(ce, a) == s0.eval(ce, a));
            assert(s.eval(ft, a) == s0.eval(ft, a));
            assert(s.eval(fe, a) == s0.eval(fe, a));
        }
    }

    /// Agreement of two old nodes under a third carries over to a manager
    /// grown from theirs.
    proof fn lemma_agrees_kept(old: Manager, new: Manager, c: NodeId, x: NodeId, f: NodeId)
        requires
            old.wf(),
            new.extends(old),
            old.is_node(c),
            old.is_node(x),
            old.is_node(f),
            old.agrees_where(c, x, f),
        ensures
            new.agrees_where(c, x, f),
    {
        Manager::lemma_keeps(new, old);
        assert forall|a: Seq<bool>| #[trigger] new.eval(c, a) implies new.eval(x, a) == new.eval(f, a) by {
            assert(new.eval(c, a) == old.eval(c, a));
            assert(new.eval(x, a) == old.eval(x, a));
            assert(new.eval(f, a) == old.eval(f, a));
        }
    }

    /// The generalized cofactor of `f` by `c`: a function that agrees with
    /// `f` wherever `c` is true, built by Shannon expansion on the top
    /// variable of the two, following only the branch of `c` that is not
    /// zero where one is. Every old node keeps its function. Fails only when
    /// the arena is full.
    #[verifier::rlimit(40)]
    pub fn bdd_constrain(&mut self, f: NodeId, c: NodeId) -> (r: Result<NodeId, DdError>)
        requires
            old(self).wf(),
            old(self).is_node(f),
            old(self).is_node(c),
        ensures
            final(self).wf(),
            final(self).extends(*old(self)),
            r matches Ok(x) ==> {
                &&& final(self).is_node(x)
                &&& final(self).level_of(x) >= min3(
                    old(self).level_of(f),
                    old(self).level_of(c),
                    old(self).level_of(c),
                )
                &&& forall|asg: Seq<bool>|
                    #[trigger] final(self).eval(x, asg) == constrain_fn(
                        old(self).arena(),
                        old(self).order(),
                        old(self).var_count(),
                        f,
                        c,
                        asg,
                    )
                &&& final(self).agrees_where(c, x, f)
                &&& (f.index_of() == 0 || (c.index_of() == 0 && !c.compl_of())) ==> x == f
                &&& (f.index_of() != 0 && c.index_of() == 0 && c.compl_of()) ==> x.index_of() == 0 && x.compl_of()
            },
            r matches Err(err) ==> err == (DdError::OutOfNodes { limit: MAX_NODES })
                && final(self).arena().len() == MAX_NODES,
        decreases old(self).var_count() - min3(
            old(self).level_of(f),
            old(self).level_of(c),
            old(self).level_of(c),
        ),
    {
        let ghost s0 = *self;
        proof {
            s0.lemma_level_bound(f);
            s0.lemma_level_bound(c);
            s0.lemma_negated(c);
            NodeId::lemma_parts(f);
            NodeId::lemma_parts(c);
            NodeId::lemma_parts(c.negated());
        }
        if f.is_constant() {
            return Ok(f);
        }
        if c.is_one() {
            return Ok(f);
        }
        if c.is_zero() {
            return Ok(NodeId::zero());
        }
        if f == c {
            return Ok(NodeId::one());
        }
        if f == c.not() {
            return Ok(NodeId::zero());
        }
        let lf = self.level(f);
        let lc = self.level(c);
        let top = if lf <= lc {
            lf
        } else {
            lc
        };
        let top_var = self.inv_perm[top as usize] as u16;
        proof {
            s0.lemma_var_at(top as nat);
        }
        let (ft, fe) = self.cofactors(f, top);
        let (ct, ce) = self.cofactors(c, top);
        proof {
            NodeId::lemma_parts(ct);
            NodeId::lemma_parts(ce);
            s0.lemma_constrain_unfold(f, c, top as nat, ft, fe, ct, ce);
        }
        if ct.is_zero() {
            let r = self.bdd_constrain(fe, ce);
            proof {
                if r is Ok {
                    let x = r->Ok_0;
                    let s1 = *self;
                    Manager::lemma_keeps(s1, s0);
                    assert forall|a: Seq<bool>| #[trigger] s1.eval(c, a) implies s1.eval(x, a) == s1.eval(f, a) by {
                        assert(s1.eval(c, a) == s0.eval(c, a));
                        assert(s1.eval(f, a) == s0.eval(f, a));
                        assert(s1.eval(ce, a) == s0.eval(ce, a));
                        assert(s1.eval(fe, a) == s0.eval(fe, a));
                    }
                    assert forall|a: Seq<bool>| #[trigger] s1.eval(x, a) == constrain_fn(s0.arena(), s0.order(), s0.var_count(), f, c, a) by {
                        assert(s1.eval(x, a) == constrain_fn(s0.arena(), s0.order(), s0.var_count(), fe, ce, a));
                    }
                }
            }
            return r;
        }
        if ce.is_zero() {
            let r = self.bdd_constrain(ft, ct);
            proof {
                if r is Ok {
                    let x = r->Ok_0;
                    let s1 = *self;
                    Manager::lemma_keeps(s1, s0);
                    assert forall|a: Seq<bool>| #[trigger] s1.eval(c, a) implies s1.eval(x, a) == s1.eval(f, a) by {
                        assert(s1.eval(c, a) == s0.eval(c, a));
                        assert(s1.eval(f, a) == s0.eval(f, a));
                        assert(s1.eval(ct, a) == s0.eval(ct, a));
                        assert(s1.eval(ft, a) == s0.eval(ft, a));
                    }
                    assert forall|a: Seq<bool>| #[trigger] s1.eval(x, a) == constrain_fn(s0.arena(), s0.order(), s0.var_count(), f, c, a) by {
                        assert(s1.eval(x, a) == constrain_fn(s0.arena(), s0.order(), s0.var_count(), ft, ct, a));
                    }
                }
            }
            return r;
        }
        let t = match self.bdd_constrain(ft, ct) {
            Ok(t) => t,
            Err(err) => {
                return Err(err);
            },
        };
        let ghost s1 = *self;
        proof {
            Manager::lemma_keeps(s1, s0);
        }
        let e = match self.bdd_constrain(fe, ce) {
            Ok(e) => e,
            Err(err) => {
                return Err(err);
            },
        };
        let ghost s2 = *self;
        proof {
            Manager::lemma_keeps(s2, s1);
            Manager::lemma_keeps(s2, s0);
            Manager::lemma_agrees_kept(s1, s2, ct, t, ft);
        }
        let r = if t == e {
            t
        } else {
            match self.unique_inter(top_var, t, e) {
                Ok(r) => r,
                Err(err) => {
                    return Err(err);
                },
            }
        };
        proof {
            let s3 = *self;
            Manager::lemma_keeps(s3, s2);
            Manager::lemma_keeps(s3, s0);
            Manager::lemma_agrees_kept(s2, s3, ct, t, ft);
            Manager::lemma_agrees_kept(s2, s3, ce, e, fe);
            Manager::lemma_constrain_join(s0, s3, f, c, top as nat, ft, fe, ct, ce, t, e, r);
            assert(ordered(s0.nodes@, s0.perm@, s0.perm@.len(), fe.index_of()));
            assert(ordered(s0.nodes@, s0.perm@, s0.perm@.len(), ce.index_of()));
            assert forall|a: Seq<bool>| #[trigger] s3.eval(r, a) == constrain_fn(s0.arena(), s0.order(), s0.var_count(), f, c, a) by {
                assert(s3.eval(t, a) == s1.eval(t, a));
                assert(s3.eval(e, a) == s2.eval(e, a));
                assert(s1.eval(t, a) == constrain_fn(s0.arena(), s0.order(), s0.var_count(), ft, ct, a));
                lemma_constrain_fn_extend(s0.nodes@, s1.nodes@, s0.perm@, s0.perm@.len(), fe, ce, a);
                assert(s2.eval(e, a) == constrain_fn(s1.arena(), s1.order(), s1.var_count(), fe, ce, a));
                assert(s3.eval(r, a) == if a[top_var as int] { s3.eval(t, a) } else { s3.eval(e, a) });
            }
        }
        Ok(r)
    }

    /// `f` with the variables of the cube `cube` quantified away: walking
    /// down `f` and the then-chain of `cube` together, a cube variable that
    /// `f` tests becomes the disjunction of its two branches. The result is
    /// implied by `f`. Every old node keeps its function. Fails only when the
    /// arena is full.
    pub fn bdd_exist_abstract(&mut self, f: NodeId, cube: NodeId) -> (r: Result<NodeId, DdError>)
        requires
            old(self).wf(),
            old(self).is_node(f),
            old(self).is_node(cube),
        ensures
            final(self).wf(),
            final(self).extends(*old(self)),
            r matches Ok(x) ==> {
                &&& final(self).is_node(x)
                &&& final(self).level_of(x) >= old(self).level_of(f)
                &&& forall|asg: Seq<bool>|
                    #[trigger] final(self).eval(x, asg) == exist_fn(
                        old(self).arena(),
                        old(self).order(),
                        old(self).var_count(),
                        f,
                        cube,
                        asg,
                    )
                &&& forall|asg: Seq<bool>|
                    asg.len() >= old(self).var_count() ==> (#[trigger] final(self).eval(x, asg) == exists|b: Seq<bool>|
                        agree_outside(asg, b, old(self).cube_vars(cube)) && #[trigger] old(self).eval(f, b))
                &&& forall|asg: Seq<bool>| #[trigger] old(self).eval(f, asg) ==> final(self).eval(x, asg)
                &&& (f.index_of() == 0 || (cube.index_of() == 0 && !cube.compl_of())) ==> x == f
            },
            r matches Err(err) ==> err == (DdError::OutOfNodes { limit: MAX_NODES })
                && final(self).arena().len() == MAX_NODES,
        decreases old(self).var_count() - min3(
            old(self).level_of(f),
            old(self).level_of(cube),
            old(self).level_of(cube),
        ),
    {
        let ghost s0 = *self;
        proof {
            s0.lemma_exist_meaning(f, cube);
            s0.lemma_level_bound(f);
            s0.lemma_level_bound(cube);
            NodeId::lemma_parts(f);
            NodeId::lemma_parts(cube);
        }
        if f.is_constant() || cube.is_one() {
            proof {
                assert forall|asg: Seq<bool>| #[trigger] self.eval(f, asg) == exist_fn(s0.arena(), s0.order(), s0.var_count(), f, cube, asg) by {}
            }
            return Ok(f);
        }
        let lf = self.level(f);
        let lc = self.level(cube);
        if lc < lf {
            let (next, _) = self.cofactors(cube, lc);
            proof {
                s0.lemma_level_bound(next);
            }
            let r = self.bdd_exist_abstract(f, next);
            proof {
                if r is Ok {
                    let x = r->Ok_0;
                    assert forall|asg: Seq<bool>| #[trigger] self.eval(x, asg) == exist_fn(s0.arena(), s0.order(), s0.var_count(), f, cube, asg) by {
                        assert(self.eval(x, asg) == exist_fn(s0.arena(), s0.order(), s0.var_count(), f, next, asg));
                    }
                }
            }
            return r;
        }
        let top_var = self.inv_perm[lf as usize] as u16;
        proof {
            s0.lemma_var_at(lf as nat);
        }
        let (ft, fe) = self.cofactors(f, lf);
        proof {
            s0.lemma_level_bound(ft);
            s0.lemma_level_bound(fe);
            assert(ordered(s0.nodes@, s0.perm@, s0.perm@.len(), f.index_of()));
            assert(s0.inv_perm@[s0.perm@[var_of(s0.nodes@, f) as int] as int] == var_of(s0.nodes@, f));
            assert(ordered(s0.nodes@, s0.perm@, s0.perm@.len(), fe.index_of()));
            assert(ordered(s0.nodes@, s0.perm@, s0.perm@.len(), cube.index_of()));
        }
        if lc == lf {
            let (next, _) = self.cofactors(cube, lc);
            proof {
                s0.lemma_level_bound(next);
                assert(ordered(s0.nodes@, s0.perm@, s0.perm@.len(), next.index_of()));
            }
            let t = match self.bdd_exist_abstract(ft, next) {
                Ok(t) => t,
                Err(err) => {
                    return Err(err);
                },
            };
            let ghost s1 = *self;
            proof {
                Manager::lemma_keeps(s1, s0);
            }
            let e = match self.bdd_exist_abstract(fe, next) {
                Ok(e) => e,
                Err(err) => {
                    return Err(err);
                },
            };
            let ghost s2 = *self;
            proof {
                Manager::lemma_keeps(s2, s1);
                Manager::lemma_keeps(s2, s0);
            }
            let r = match self.bdd_or(t, e) {
                Ok(r) => r,
                Err(err) => {
                    return Err(err);
                },
            };
            proof {
                let s3 = *self;
                assert forall|asg: Seq<bool>| #[trigger] s0.eval(f, asg) implies s3.eval(r, asg) by {
                    assert(s0.eval(f, asg) == if asg[top_var as int] { s0.eval(ft, asg) } else { s0.eval(fe, asg) });
                    assert(s2.eval(t, asg) == s1.eval(t, asg));
                    assert(s1.eval(fe, asg) == s0.eval(fe, asg));
                    if s0.eval(ft, asg) {
                        assert(s1.eval(t, asg));
                    }
                    if s0.eval(fe, asg) {
                        assert(s2.eval(e, asg));
                    }
                }
                assert forall|asg: Seq<bool>| #[trigger] s3.eval(r, asg) == exist_fn(s0.arena(), s0.order(), s0.var_count(), f, cube, asg) by {
                    assert(s2.eval(t, asg) == s1.eval(t, asg));
                    assert(s1.eval(t, asg) == exist_fn(s0.arena(), s0.order(), s0.var_count(), ft, next, asg));
                    lemma_exist_fn_extend(s0.nodes@, s1.nodes@, s0.perm@, s0.perm@.len(), fe, next, asg);
                    assert(s2.eval(e, asg) == exist_fn(s1.arena(), s1.order(), s1.var_count(), fe, next, asg));
                }
            }
            return Ok(r);
        }
        let t = match self.bdd_exist_abstract(ft, cube) {
            Ok(t) => t,
            Err(err) => {
                return Err(err);
            },
        };
        let ghost s1 = *self;
        proof {
            Manager::lemma_keeps(s1, s0);
        }
        let e = match self.bdd_exist_abstract(fe, cube) {
            Ok(e) => e,
            Err(err) => {
                return Err(err);
            },
        };
        let ghost s2 = *self;
        proof {
            Manager::lemma_keeps(s2, s1);
            Manager::lemma_keeps(s2, s0);
        }
        let r = if t == e {
            t
        } else {
            match self.unique_inter(top_var, t, e) {
                Ok(r) => r,
                Err(err) => {
                    return Err(err);
                },
            }
        };
        proof {
            let s3 = *self;
            Manager::lemma_keeps(s3, s2);
            Manager::lemma_keeps(s3, s1);
            assert forall|asg: Seq<bool>| #[trigger] s0.eval(f, asg) implies s3.eval(r, asg) by {
                assert(s0.eval(f, asg) == if asg[top_var as int] { s0.eval(ft, asg) } else { s0.eval(fe, asg) });
                assert(s2.eval(t, asg) == s1.eval(t, asg));
                assert(s3.eval(t, asg) == s1.eval(t, asg));
                assert(s3.eval(e, asg) == s2.eval(e, asg));
                assert(s1.eval(fe, asg) == s0.eval(fe, asg));
                if s0.eval(ft, asg) {
                    assert(s1.eval(t, asg));
                }
                if s0.eval(fe, asg) {
                    assert(s2.eval(e, asg));
                }
            }
            assert forall|asg: Seq<bool>| #[trigger] s3.eval(r, asg) == exist_fn(s0.arena(), s0.order(), s0.var_count(), f, cube, asg) by {
                assert(s3.eval(t, asg) == s1.eval(t, asg));
                assert(s3.eval(e, asg) == s2.eval(e, asg));
                assert(s1.eval(t, asg) == exist_fn(s0.arena(), s0.order(), s0.var_count(), ft, cube, asg));
                lemma_exist_fn_extend(s0.nodes@, s1.nodes@, s0.perm@, s0.perm@.len(), fe, cube, asg);
                assert(s2.eval(e, asg) == exist_fn(s1.arena(), s1.order(), s1.var_count(), fe, cube, asg));
                assert(s3.eval(r, asg) == if asg[top_var as int] { s3.eval(t, asg) } else { s3.eval(e, asg) });
            }
        }
        Ok(r)
    }

    /// The variables on the then-chain of the cube `cube`.
    pub open spec fn cube_vars(&self, cube: NodeId) -> Set<int> {
        chain_vars(self.arena(), self.order(), self.var_count(), cube.index_of())
    }

    /// Quantifying the cube out of `f` is true at a full assignment exactly
    /// when `f` is true at some assignment that agrees with it outside the
    /// cube's variables.
    pub proof fn lemma_exist_meaning(&self, f: NodeId, cube: NodeId)
        requires
            self.wf(),
            self.is_node(f),
            self.is_node(cube),
        ensures
            forall|asg: Seq<bool>|
                asg.len() >= self.var_count() ==> (#[trigger] exist_fn(
                    self.arena(),
                    self.order(),
                    self.var_count(),
                    f,
                    cube,
                    asg,
                ) == exists|b: Seq<bool>|
                    agree_outside(asg, b, self.cube_vars(cube)) && #[trigger] self.eval(f, b)),
    {
        let a = self.nodes@;
        let perm = self.perm@;
        let n = perm.len();
        assert(ordered(a, perm, n, f.index_of()));
        assert(ordered(a, perm, n, cube.index_of()));
        assert forall|i: int, j: int| 0 <= i < n && 0 <= j < n && perm[i] == perm[j] implies i == j by {
            assert(self.inv_perm@[perm[i] as int] == i);
            assert(self.inv_perm@[perm[j] as int] == j);
        }
        assert forall|asg: Seq<bool>| asg.len() >= n implies (#[trigger] exist_fn(a, perm, n, f, cube, asg) == exists|b: Seq<bool>|
            agree_outside(asg, b, self.cube_vars(cube)) && #[trigger] self.eval(f, b)) by {
            lemma_exist_fn_meaning(a, perm, n, f, cube, asg);
            let q = self.cube_vars(cube);
            if exists|b: Seq<bool>| agree_outside(asg, b, q) && #[trigger] self.eval(f, b) {
                let b = choose|b: Seq<bool>| agree_outside(asg, b, q) && #[trigger] self.eval(f, b);
                assert(eval_node(a, perm, n, f.index_of(), f.compl_of(), b));
            }
            if exists|b: Seq<bool>| agree_outside(asg, b, q) && #[trigger] eval_node(a, perm, n, f.index_of(), f.compl_of(), b) {
                let b = choose|b: Seq<bool>| agree_outside(asg, b, q) && #[trigger] eval_node(a, perm, n, f.index_of(), f.compl_of(), b);
                assert(self.eval(f, b));
            }
        }
    }

    /// The cofactors of `f` by variable `v`: its children (negated along
    /// with `f`) when `f` tests `v`, else `f` twice.
    pub fn bdd_cofactors(&self, f: NodeId, v: u16) -> (r: (NodeId, NodeId))
        requires
            self.wf(),
            self.is_node(f),
            (v as nat) < self.var_count(),
        ensures
            self.is_node(r.0),
            self.is_node(r.1),
            self.level_of(f) != self.order()[v as int] ==> r == (f, f),
            self.level_of(f) == self.order()[v as int] ==> self.level_of(r.0) > self.level_of(f)
                && self.level_of(r.1) > self.level_of(f) && r.0 != r.1,
            forall|asg: Seq<bool>|
                #[trigger] self.eval(f, asg) == if asg[v as int] {
                    self.eval(r.0, asg)
                } else {
                    self.eval(r.1, asg)
                },
    {
        proof {
            self.lemma_level_bound(f);
        }
        if f.is_constant() {
            return (f, f);
        }
        let lf = self.level(f);
        let lv = self.perm[v as usize];
        if lf == lv {
            proof {
                self.lemma_var_at(lv as nat);
                assert(self.inv_perm@[self.perm@[v as int] as int] == v);
            }
            self.cofactors(f, lf)
        } else {
            (f, f)
        }
    }

    /// Mark the nodes reachable from `f` below the constant in `seen`, and
    /// their variables in `vars`.
    fn mark_reachable(&self, f: NodeId, seen: &mut Vec<bool>, vars: &mut Vec<bool>)
        requires
            self.wf(),
            self.is_node(f),
            old(seen)@.len() == self.arena().len(),
            old(vars)@.len() == self.var_count(),
            marks_closed(self.arena(), self.order(), self.var_count(), old(seen)@, old(vars)@, self.level_of(f)),
        ensures
            final(seen)@.len() == old(seen)@.len(),
            final(vars)@.len() == old(vars)@.len(),
            forall|w: int|
                0 <= w < self.var_count() ==> (#[trigger] final(vars)@[w] <==> (old(vars)@[w] || reach_vars(
                    self.arena(),
                    self.order(),
                    self.var_count(),
                    f.index_of(),
                ).contains(w as u16))),
            forall|y: int|
                0 < y < final(seen)@.len() && #[trigger] final(seen)@[y] ==> old(seen)@[y] || node_level(
                    self.arena(),
                    self.order(),
                    self.var_count(),
                    y as nat,
                ) >= self.level_of(f),
            marks_closed(self.arena(), self.order(), self.var_count(), final(seen)@, final(vars)@, self.level_of(f)),
        decreases self.var_count() - self.level_of(f),
    {
        let ghost a = self.nodes@;
        let ghost perm = self.perm@;
        let ghost n = self.perm@.len();
        proof {
            self.lemma_level_bound(f);
        }
        if f.is_constant() {
            return;
        }
        let raw = f.raw_index() as usize;
        proof {
            assert(ordered(a, perm, n, f.index_of()));
            lemma_reach_bound(a, perm, n, f.index_of());
        }
        if seen[raw] {
            proof {
                assert forall|w: int| 0 <= w < n implies (#[trigger] vars@[w] <==> (vars@[w] || reach_vars(
                    a,
                    perm,
                    n,
                    f.index_of(),
                ).contains(w as u16))) by {
                    assert(seen@ == old(seen)@);
                    assert(vars@ == old(vars)@);
                    assert(marks_closed(a, perm, n, seen@, vars@, self.level_of(f)));
                    assert(a == self.arena());
                    assert(perm == self.order());
                    assert(n == self.var_count());
                    assert(seen@[raw as int]);
                    assert(node_level(a, perm, n, (raw as int) as nat) >= self.level_of(f));
                    if reach_vars(a, perm, n, f.index_of()).contains(w as u16) {
                        assert(reach_vars(a, perm, n, (raw as int) as nat).contains(w as u16));
                        lemma_marks_closed_at(a, perm, n, seen@, vars@, self.level_of(f), raw as int, w as u16);
                    }
                }
            }
            return;
        }
        let ghost seen0 = seen@;
        let ghost vars0 = vars@;
        seen.set(raw, true);
        let lf = self.level(f);
        let v = self.inv_perm[lf as usize];
        proof {
            self.lemma_var_at(lf as nat);
        }
        vars.set(v as usize, true);
        let (t, e) = self.cofactors(f, lf);
        proof {
            NodeId::lemma_parts(t);
            NodeId::lemma_parts(e);
        }
        let ghost seen1 = seen@;
        let ghost vars1 = vars@;
        proof {
            assert(ordered(a, perm, n, t.index_of()));
            assert(ordered(a, perm, n, e.index_of()));
            lemma_reach_bound(a, perm, n, t.index_of());
            lemma_reach_bound(a, perm, n, e.index_of());
            assert forall|y: int, w: u16|
                0 < y < seen1.len() && seen1[y] && node_level(a, perm, n, y as nat) >= self.level_of(t)
                    && #[trigger] reach_vars(a, perm, n, y as nat).contains(w) implies vars1[w as int] by {
                assert(ordered(a, perm, n, y as nat));
                lemma_reach_bound(a, perm, n, y as nat);
                assert(y != raw as int);
                assert(seen0[y]);
                assert(vars0[w as int]);
            }
        }
        self.mark_reachable(t, seen, vars);
        let ghost seen2 = seen@;
        let ghost vars2 = vars@;
        proof {
            assert forall|y: int, w: u16|
                0 < y < seen2.len() && seen2[y] && node_level(a, perm, n, y as nat) >= self.level_of(e)
                    && #[trigger] reach_vars(a, perm, n, y as nat).contains(w) implies vars2[w as int] by {
                assert(ordered(a, perm, n, y as nat));
                lemma_reach_bound(a, perm, n, y as nat);
                if seen1[y] {
                    assert(y != raw as int);
                    assert(seen0[y]);
                    assert(vars0[w as int]);
                    assert(vars1[w as int]);
                    assert(vars2[(w as int)] <==> (vars1[w as int] || reach_vars(a, perm, n, t.index_of()).contains(
                        (w as int) as u16,
                    )));
                }
            }
        }
        self.mark_reachable(e, seen, vars);
        proof {
            let rf = reach_vars(a, perm, n, raw as nat);
            let rt = reach_vars(a, perm, n, t.index_of());
            let re = reach_vars(a, perm, n, e.index_of());
            match a[raw as int] {
                ArenaNode::Internal { var_index, then_child, else_child } => {
                    NodeId::lemma_parts(then_child);
                    NodeId::lemma_parts(else_child);
                    assert(t.index_of() == then_child.index_of());
                    assert(e.index_of() == else_child.index_of());
                    assert(self.inv_perm@[self.perm@[var_index as int] as int] == var_index);
                    assert(var_index == v);
                    assert(rf == rt.union(re).insert(var_index));
                },
                ArenaNode::Constant => {},
            }
            assert forall|w: int| 0 <= w < n implies (#[trigger] vars@[w] <==> (vars0[w] || rf.contains(w as u16))) by {
                assert(vars@[w] <==> (vars2[w] || re.contains(w as u16)));
                assert(vars2[w] <==> (vars1[w] || rt.contains(w as u16)));
            }
            assert forall|y: int, w: u16|
                0 < y < seen@.len() && seen@[y] && node_level(a, perm, n, y as nat) >= self.level_of(f)
                    && #[trigger] reach_vars(a, perm, n, y as nat).contains(w) implies vars@[w as int] by {
                assert(ordered(a, perm, n, y as nat));
                lemma_reach_bound(a, perm, n, y as nat);
                assert(vars@[w as int] <==> (vars2[w as int] || re.contains((w as int) as u16)));
                assert(vars2[w as int] <==> (vars1[w as int] || rt.contains((w as int) as u16)));
                if y == raw as int {
                    assert(rf.contains(w));
                } else if seen0[y] {
                    assert(vars0[w as int]);
                } else if !seen2[y] {
                } else if !seen1[y] {
                    assert(vars2[w as int]);
                }
            }
        }
    }

    /// The variables that the nodes reachable from `f` test, in level order.
    fn support_vars(&self, f: NodeId) -> (r: Vec<u16>)
        requires
            self.wf(),
            self.is_node(f),
        ensures
            forall|i: int| 0 <= i < r@.len() ==> (#[trigger] r@[i] as nat) < self.var_count(),
            forall|i: int, j: int|
                0 <= i < j < r@.len() ==> self.order()[#[trigger] r@[i] as int] < self.order()[#[trigger] r@[j] as int],
            forall|w: u16|
                #[trigger] r@.contains(w) <==> reach_vars(self.arena(), self.order(), self.var_count(), f.index_of()).contains(
                    w,
                ),
    {
        let mut seen: Vec<bool> = Vec::new();
        let mut k: usize = 0;
        while k < self.nodes.len()
            invariant
                seen@.len() == k,
                k <= self.nodes@.len(),
                forall|y: int| 0 <= y < seen@.len() ==> !#[trigger] seen@[y],
            decreases self.nodes@.len() - k,
        {
            seen.push(false);
            k = k + 1;
        }
        let mut marks: Vec<bool> = Vec::new();
        let mut w: usize = 0;
        while w < self.perm.len()
            invariant
                marks@.len() == w,
                w <= self.perm@.len(),
                forall|y: int| 0 <= y < marks@.len() ==> !#[trigger] marks@[y],
            decreases self.perm@.len() - w,
        {
            marks.push(false);
            w = w + 1;
        }
        let ghost marks0 = marks@;
        self.mark_reachable(f, &mut seen, &mut marks);
        let ghost rf = reach_vars(self.arena(), self.order(), self.var_count(), f.index_of());
        proof {
            assert(ordered(self.nodes@, self.perm@, self.perm@.len(), f.index_of()));
            lemma_reach_bound(self.nodes@, self.perm@, self.perm@.len(), f.index_of());
            assert forall|w: int| 0 <= w < self.var_count() implies (#[trigger] marks@[w] <==> rf.contains(w as u16)) by {
                assert(!marks0[w]);
            }
        }
        let mut out: Vec<u16> = Vec::new();
        let mut l: usize = 0;
        while l < self.inv_perm.len()
            invariant
                self.wf(),
                l <= self.var_count(),
                self.inv_perm@.len() == self.var_count(),
                marks@.len() == self.var_count(),
                forall|i: int| 0 <= i < out@.len() ==> (#[trigger] out@[i] as nat) < self.var_count(),
                forall|i: int| 0 <= i < out@.len() ==> self.order()[#[trigger] out@[i] as int] < l,
                forall|w: int| 0 <= w < self.var_count() ==> (#[trigger] marks@[w] <==> rf.contains(w as u16)),
                forall|w: u16| #[trigger] rf.contains(w) ==> (w as nat) < self.var_count(),
                forall|i: int| 0 <= i < out@.len() ==> rf.contains(#[trigger] out@[i]),
                forall|w: u16| #[trigger] rf.contains(w) && self.order()[w as int] < l ==> out@.contains(w),
                forall|i: int, j: int|
                    0 <= i < j < out@.len() ==> self.order()[#[trigger] out@[i] as int] < self.order()[#[trigger] out@[j] as int],
            decreases self.var_count() - l,
        {
            let v = self.inv_perm[l];
            proof {
                self.lemma_var_at(l as nat);
            }
            let ghost out0 = out@;
            if marks[v as usize] {
                out.push(v as u16);
            }
            proof {
                assert forall|w: u16| #[trigger] rf.contains(w) && self.order()[w as int] < l + 1 implies out@.contains(w) by {
                    if self.order()[w as int] < l {
                        let k = choose|k: int| 0 <= k < out0.len() && out0[k] == w;
                        assert(out@[k] == w);
                    } else {
                        assert(self.inv_perm@[self.perm@[w as int] as int] == w);
                        assert(v as u16 == w);
                        assert(marks@[w as int]);
                        assert(out@[out@.len() - 1] == w);
                    }
                }
            }
            l = l + 1;
        }
        proof {
            assert forall|w: u16| #[trigger] out@.contains(w) <==> rf.contains(w) by {
                if out@.contains(w) {
                    let k = choose|k: int| 0 <= k < out@.len() && out@[k] == w;
                    assert(rf.contains(out@[k]));
                }
                if rf.contains(w) {
                    assert(self.perm@[w as int] < self.perm@.len());
                }
            }
        }
        out
    }

    /// The number of internal nodes that `f` reaches.
    pub open spec fn size_of(&self, f: NodeId) -> nat {
        node_count(self.arena(), self.order(), self.var_count(), f.index_of())
    }

    /// Mark in `seen` every internal node that `f` reaches; the marks that
    /// were there stay, and none other is added.
    fn mark_nodes(&self, f: NodeId, seen: &mut Vec<bool>)
        requires
            self.wf(),
            self.is_node(f),
            old(seen)@.len() == self.arena().len(),
            nodes_closed(self.arena(), self.order(), self.var_count(), old(seen)@, self.level_of(f)),
        ensures
            final(seen)@.len() == old(seen)@.len(),
            forall|z: int|
                0 <= z < final(seen)@.len() ==> (#[trigger] final(seen)@[z] <==> (old(seen)@[z] || in_reach(
                    self.arena(),
                    self.order(),
                    self.var_count(),
                    f.index_of(),
                    z,
                ))),
            nodes_closed(self.arena(), self.order(), self.var_count(), final(seen)@, self.level_of(f)),
        decreases self.var_count() - self.level_of(f),
    {
        let ghost a = self.nodes@;
        let ghost perm = self.perm@;
        let ghost n = self.perm@.len();
        proof {
            self.lemma_level_bound(f);
        }
        if f.is_constant() {
            return;
        }
        let raw = f.raw_index() as usize;
        proof {
            assert(ordered(a, perm, n, f.index_of()));
        }
        if seen[raw] {
            proof {
                assert forall|z: int| 0 <= z < seen@.len() implies (#[trigger] seen@[z] <==> (seen@[z] || in_reach(
                    a,
                    perm,
                    n,
                    f.index_of(),
                    z,
                ))) by {
                    if in_reach(a, perm, n, f.index_of(), z) {
                        assert(raw as nat == f.index_of());
                        assert(0 < raw as int);
                        assert(old(seen)@[raw as int]);
                        assert(node_level(a, perm, n, (raw as int) as nat) >= self.level_of(f));
                        assert(in_reach(a, perm, n, (raw as int) as nat, z));
                        lemma_closed_at(a, perm, n, old(seen)@, self.level_of(f), raw as int, z);
                        assert(seen@[z]);
                    }
                }
            }
            return;
        }
        let ghost seen0 = seen@;
        seen.set(raw, true);
        let lf = self.level(f);
        let (t, e) = self.cofactors(f, lf);
        proof {
            NodeId::lemma_parts(t);
            NodeId::lemma_parts(e);
            assert(ordered(a, perm, n, t.index_of()));
            assert(ordered(a, perm, n, e.index_of()));
        }
        let ghost seen1 = seen@;
        proof {
            assert forall|y: int, z: int|
                0 < y < seen1.len() && seen1[y] && node_level(a, perm, n, y as nat) >= self.level_of(t)
                    && #[trigger] in_reach(a, perm, n, y as nat, z) implies 0 <= z < seen1.len() && seen1[z] by {
                assert(y != raw as int);
                assert(seen0[y]);
            }
        }
        self.mark_nodes(t, seen);
        let ghost seen2 = seen@;
        proof {
            assert forall|y: int, z: int|
                0 < y < seen2.len() && seen2[y] && node_level(a, perm, n, y as nat) >= self.level_of(e)
                    && #[trigger] in_reach(a, perm, n, y as nat, z) implies 0 <= z < seen2.len() && seen2[z] by {
                if seen1[y] {
                    assert(y != raw as int);
                    assert(seen0[y]);
                    assert(seen0[z]);
                    assert(seen1[z]);
                } else {
                    assert(in_reach(a, perm, n, t.index_of(), y));
                    lemma_in_reach_trans(a, perm, n, t.index_of(), y, z);
                    lemma_in_reach_bound(a, perm, n, t.index_of(), z);
                }
            }
        }
        self.mark_nodes(e, seen);
        proof {
            match a[raw as int] {
                ArenaNode::Internal { then_child, else_child, .. } => {
                    NodeId::lemma_parts(then_child);
                    NodeId::lemma_parts(else_child);
                    assert(t.index_of() == then_child.index_of());
                    assert(e.index_of() == else_child.index_of());
                },
                ArenaNode::Constant => {},
            }
            assert forall|z: int| 0 <= z < seen@.len() implies (#[trigger] seen@[z] <==> (seen0[z] || in_reach(
                a,
                perm,
                n,
                f.index_of(),
                z,
            ))) by {
                assert(seen@[z] <==> (seen2[z] || in_reach(a, perm, n, e.index_of(), z)));
                assert(seen2[z] <==> (seen1[z] || in_reach(a, perm, n, t.index_of(), z)));
                assert(in_reach(a, perm, n, raw as nat, z) <==> (z == raw as int || in_reach(a, perm, n, t.index_of(), z)
                    || in_reach(a, perm, n, e.index_of(), z)));
            }
            assert forall|y: int, z: int|
                0 < y < seen@.len() && seen@[y] && node_level(a, perm, n, y as nat) >= self.level_of(f)
                    && #[trigger] in_reach(a, perm, n, y as nat, z) implies 0 <= z < seen@.len() && seen@[z] by {
                if seen0[y] {
                    assert(seen0[z]);
                    assert(seen@[z]);
                } else {
                    assert(in_reach(a, perm, n, raw as nat, y));
                    lemma_in_reach_trans(a, perm, n, raw as nat, y, z);
                    lemma_in_reach_bound(a, perm, n, raw as nat, z);
                    assert(seen@[z]);
                }
            }
        }
    }

    /// The number of internal nodes that `f` reaches.
    fn dag_size(&self, f: NodeId) -> (r: usize)
        requires
            self.wf(),
            self.is_node(f),
        ensures
            r == self.size_of(f),
            r <= self.arena().len(),
    {
        let mut seen: Vec<bool> = Vec::new();
        let mut k: usize = 0;
        while k < self.nodes.len()
            invariant
                seen@.len() == k,
                k <= self.nodes@.len(),
                forall|y: int| 0 <= y < seen@.len() ==> !#[trigger] seen@[y],
            decreases self.nodes@.len() - k,
        {
            seen.push(false);
            k = k + 1;
        }
        let ghost seen0 = seen@;
        self.mark_nodes(f, &mut seen);
        let ghost target = Seq::new(self.nodes@.len(), |z: int| in_reach(self.arena(), self.order(), self.var_count(), f.index_of(), z));
        proof {
            assert forall|z: int| 0 <= z < seen@.len() implies seen@[z] == target[z] by {
                assert(!seen0[z]);
            }
            assert(seen@ =~= target);
        }
        let mut count: usize = 0;
        let mut i: usize = 0;
        proof {
            assert(seen@.take(0) =~= Seq::<bool>::empty());
        }
        while i < seen.len()
            invariant
                i <= seen@.len(),
                seen@.len() == self.arena().len(),
                count <= i,
                count == count_true(seen@.take(i as int)),
            decreases seen@.len() - i,
        {
            proof {
                lemma_count_take(seen@, i as int);
            }
            if seen[i] {
                count = count + 1;
            }
            i = i + 1;
        }
        proof {
            assert(seen@.take(seen@.len() as int) =~= seen@);
        }
        count
    }

    /// `g` and `h` conjoin to `f`.
    pub open spec fn conjoin_to(&self, g: NodeId, h: NodeId, f: NodeId) -> bool {
        forall|asg: Seq<bool>| #[trigger] self.eval(f, asg) == (self.eval(g, asg) && self.eval(h, asg))
    }

    /// A conjunction that still holds of old nodes in a manager grown from
    /// theirs.
    proof fn lemma_conjoin_kept(old: Manager, new: Manager, g: NodeId, h: NodeId, f: NodeId)
        requires
            old.wf(),
            new.extends(old),
            old.is_node(g),
            old.is_node(h),
            old.is_node(f),
            old.conjoin_to(g, h, f),
        ensures
            new.conjoin_to(g, h, f),
    {
        Manager::lemma_keeps(new, old);
        assert forall|asg: Seq<bool>| #[trigger] new.eval(f, asg) == (new.eval(g, asg) && new.eval(h, asg)) by {
            assert(new.eval(f, asg) == old.eval(f, asg));
            assert(new.eval(g, asg) == old.eval(g, asg));
            assert(new.eval(h, asg) == old.eval(h, asg));
        }
    }

    /// Where `a AND NOT b` is not the constant zero, with `a` and `b` the
    /// cofactors of `f` by `v` (`b` on the side of `pos`), no manager grown
    /// from there has a split of `f` along `v`.
    proof fn lemma_no_var_split(
        m: Manager,
        s0: Manager,
        s1: Manager,
        f: NodeId,
        v: u16,
        pos: bool,
        a: NodeId,
        b: NodeId,
        c: NodeId,
        g: NodeId,
        h: NodeId,
    )
        requires
            s0.wf(),
            s1.wf(),
            m.wf(),
            s1.extends(s0),
            m.extends(s1),
            s0.is_node(f),
            s0.is_node(a),
            s0.is_node(b),
            s1.is_node(c),
            forall|asg: Seq<bool>|
                asg.len() == s0.var_count() ==> #[trigger] s0.eval(a, asg) == s0.eval(f, asg.update(v as int, !pos))
                    && s0.eval(b, asg) == s0.eval(f, asg.update(v as int, pos)),
            forall|asg: Seq<bool>| #[trigger] s1.eval(c, asg) == (s0.eval(a, asg) && !s0.eval(b, asg)),
            !(c.index_of() == 0 && c.compl_of()),
        ensures
            !m.var_split(f, v, pos, g, h),
    {
        if m.var_split(f, v, pos, g, h) {
            Manager::lemma_keeps(m, s1);
            Manager::lemma_keeps(s1, s0);
            assert forall|asg: Seq<bool>| asg.len() == m.var_count() implies !#[trigger] m.eval(c, asg) by {
                assert(m.eval(c, asg) == s1.eval(c, asg));
                assert(s0.eval(a, asg) == s0.eval(f, asg.update(v as int, !pos)));
                assert(m.eval(f, asg.update(v as int, !pos)) ==> m.eval(f, asg.update(v as int, pos)));
                assert(m.eval(f, asg.update(v as int, pos)) == s0.eval(f, asg.update(v as int, pos)));
                assert(m.eval(f, asg.update(v as int, !pos)) == s0.eval(f, asg.update(v as int, !pos)));
            }
            m.lemma_constant_functions(c);
        }
    }

    /// The split of `f` along variable `v` where one cofactor implies the
    /// other: with `pos`, where the negative cofactor implies the positive
    /// one, `(v OR f_neg, f_pos)`; else, where the positive cofactor implies
    /// the negative one, `(NOT v OR f_pos, f_neg)`. `None` where the
    /// implication fails. Every old node keeps its function. Fails only when
    /// the arena is full.
    fn split_on(&mut self, f: NodeId, v: u16, pos: bool) -> (r: Result<Option<(NodeId, NodeId)>, DdError>)
        requires
            old(self).wf(),
            old(self).is_node(f),
            (v as nat) < old(self).var_count(),
        ensures
            final(self).wf(),
            final(self).extends(*old(self)),
            r matches Ok(Some(p)) ==> final(self).is_node(p.0) && final(self).is_node(p.1)
                && final(self).conjoin_to(p.0, p.1, f),
            old(self).order()[v as int] == old(self).level_of(f) ==> (r matches Ok(Some(p)) ==> final(self).var_split(
                f,
                v,
                pos,
                p.0,
                p.1,
            )),
            old(self).order()[v as int] == old(self).level_of(f) ==> (r matches Ok(None) ==> forall|
                m: Manager,
                g: NodeId,
                h: NodeId,
            | m.wf() && m.extends(*final(self)) ==> !#[trigger] m.var_split(f, v, pos, g, h)),
            old(self).order()[v as int] != old(self).level_of(f) ==> (r matches Ok(Some(p)) ==> p.1 == f),
            r matches Err(err) ==> err == (DdError::OutOfNodes { limit: MAX_NODES })
                && final(self).arena().len() == MAX_NODES,
    {
        let ghost s0 = *self;
        let (ft, fe) = self.bdd_cofactors(f, v);
        let (a, b) = if pos {
            (fe, ft)
        } else {
            (ft, fe)
        };
        let ghost top = s0.order()[v as int] == s0.level_of(f);
        proof {
            if top {
                s0.lemma_top_cofactors(f, v, ft, fe);
                assert forall|asg: Seq<bool>| asg.len() == s0.var_count() implies #[trigger] s0.eval(a, asg) == s0.eval(
                    f,
                    asg.update(v as int, !pos),
                ) && s0.eval(b, asg) == s0.eval(f, asg.update(v as int, pos)) by {
                    assert(s0.eval(ft, asg) == s0.eval(f, asg.update(v as int, true)));
                    assert(s0.eval(fe, asg) == s0.eval(f, asg.update(v as int, false)));
                }
            }
        }
        proof {
            s0.lemma_negated(b);
        }
        let nb = self.bdd_not(b);
        let c = match self.bdd_and(a, nb) {
            Ok(x) => x,
            Err(err) => {
                return Err(err);
            },
        };
        proof {
            NodeId::lemma_parts(c);
        }
        if !c.is_zero() {
            proof {
                if top {
                    let s1 = *self;
                    assert forall|m: Manager, g: NodeId, h: NodeId|
                        m.wf() && m.extends(s1) implies !#[trigger] m.var_split(f, v, pos, g, h) by {
                        Manager::lemma_no_var_split(m, s0, s1, f, v, pos, a, b, c, g, h);
                    }
                }
            }
            return Ok(None);
        }
        let ghost s1 = *self;
        proof {
            Manager::lemma_keeps(s1, s0);
        }
        let one = NodeId::one();
        let zero = NodeId::zero();
        let vn = match self.unique_inter(v, one, zero) {
            Ok(x) => x,
            Err(err) => {
                return Err(err);
            },
        };
        let ghost s2 = *self;
        proof {
            Manager::lemma_keeps(s2, s1);
            Manager::lemma_keeps(s2, s0);
            s2.lemma_negated(vn);
        }
        let lit = if pos {
            vn
        } else {
            self.bdd_not(vn)
        };
        let g = match self.bdd_or(lit, a) {
            Ok(x) => x,
            Err(err) => {
                return Err(err);
            },
        };
        proof {
            let s3 = *self;
            Manager::lemma_keeps(s3, s2);
            Manager::lemma_keeps(s3, s0);
            assert forall|asg: Seq<bool>| #[trigger] s3.eval(f, asg) == (s3.eval(g, asg) && s3.eval(b, asg)) by {
                assert(s0.eval(f, asg) == if asg[v as int] { s0.eval(ft, asg) } else { s0.eval(fe, asg) });
                assert(!s1.eval(c, asg));
                assert(s1.eval(c, asg) == (s0.eval(a, asg) && !s0.eval(b, asg)));
                assert(s2.eval(a, asg) == s0.eval(a, asg));
                assert(s3.eval(b, asg) == s0.eval(b, asg));
                assert(s2.eval(vn, asg) == asg[v as int]);
            }
            if top {
                assert forall|asg: Seq<bool>| asg.len() == s3.var_count() implies (s3.eval(f, asg.update(v as int, !pos))
                    ==> #[trigger] s3.eval(f, asg.update(v as int, pos))) by {
                    assert(!s1.eval(c, asg));
                    assert(s1.eval(c, asg) == (s0.eval(a, asg) && !s0.eval(b, asg)));
                    assert(s0.eval(a, asg) == s0.eval(f, asg.update(v as int, !pos)));
                    assert(s0.eval(b, asg) == s0.eval(f, asg.update(v as int, pos)));
                }
                assert forall|asg: Seq<bool>| asg.len() == s3.var_count() implies #[trigger] s3.eval(g, asg) == ((asg[v as int]
                    == pos) || s3.eval(f, asg.update(v as int, !pos))) by {
                    assert(s2.eval(vn, asg) == asg[v as int]);
                    assert(s2.eval(a, asg) == s0.eval(a, asg));
                    assert(s0.eval(a, asg) == s0.eval(f, asg.update(v as int, !pos)));
                }
                assert forall|asg: Seq<bool>| asg.len() == s3.var_count() implies #[trigger] s3.eval(b, asg) == s3.eval(
                    f,
                    asg.update(v as int, pos),
                ) by {
                    assert(s0.eval(b, asg) == s0.eval(f, asg.update(v as int, pos)));
                }
                assert(s3.var_split(f, v, pos, g, b));
            }
        }
        Ok(Some((g, b)))
    }

    /// What quantifying a cube out of `f` gives, in terms of the cube's
    /// variables `q`.
    proof fn lemma_quantified_by_cube(s1: Manager, s2: Manager, f: NodeId, cube: NodeId, q: Set<int>, g: NodeId)
        requires
            s1.wf(),
            s2.wf(),
            s2.extends(s1),
            s1.is_node(f),
            s2.is_node(g),
            s1.cube_vars(cube) == q,
            forall|asg: Seq<bool>|
                asg.len() >= s1.var_count() ==> (#[trigger] s2.eval(g, asg) == exists|b: Seq<bool>|
                    agree_outside(asg, b, s1.cube_vars(cube)) && #[trigger] s1.eval(f, b)),
        ensures
            s2.quantifies(f, q, g),
    {
        Manager::lemma_keeps(s2, s1);
        assert forall|asg: Seq<bool>| asg.len() == s2.var_count() implies (#[trigger] s2.eval(g, asg) == exists|b: Seq<bool>|
            agree_outside(asg, b, q) && #[trigger] s2.eval(f, b)) by {
            if exists|b: Seq<bool>| agree_outside(asg, b, q) && #[trigger] s2.eval(f, b) {
                let b = choose|b: Seq<bool>| agree_outside(asg, b, q) && #[trigger] s2.eval(f, b);
                assert(s1.eval(f, b) == s2.eval(f, b));
            }
            if exists|b: Seq<bool>| agree_outside(asg, b, q) && #[trigger] s1.eval(f, b) {
                let b = choose|b: Seq<bool>| agree_outside(asg, b, q) && #[trigger] s1.eval(f, b);
                assert(s1.eval(f, b) == s2.eval(f, b));
            }
        }
    }

    /// Where the halves split was found to fail (`g AND h` is another node
    /// than `f`), no manager grown from there has a halves split.
    proof fn lemma_no_halves_here(
        m: Manager,
        s3: Manager,
        s4: Manager,
        f: NodeId,
        vs: Seq<u16>,
        q: Set<int>,
        g: NodeId,
        h: NodeId,
        prod: NodeId,
        gg: NodeId,
        hh: NodeId,
    )
        requires
            s3.wf(),
            s4.wf(),
            m.wf(),
            s4.extends(s3),
            m.extends(s4),
            s3.is_node(f),
            s3.is_node(g),
            s3.is_node(h),
            s4.is_node(prod),
            q == upper_half(vs),
            s4.quantifies(f, q, g),
            s4.constrains(f, g, h),
            forall|asg: Seq<bool>| #[trigger] s4.eval(prod, asg) == (s3.eval(g, asg) && s3.eval(h, asg)),
            prod != f,
        ensures
            !m.halves_split(f, vs, gg, hh),
    {
        if m.halves_split(f, vs, gg, hh) {
            Manager::lemma_quantifies_kept(m, s4, f, q, g);
            m.lemma_quantifies_unique(f, q, gg, g);
            Manager::lemma_constrains_kept(m, s4, f, g, h);
            m.lemma_constrains_unique(f, g, hh, h);
            Manager::lemma_keeps(m, s4);
            Manager::lemma_keeps(s4, s3);
            assert forall|asg: Seq<bool>| asg.len() == m.var_count() implies #[trigger] m.eval(prod, asg) == m.eval(f, asg) by {
                assert(m.eval(prod, asg) == s4.eval(prod, asg));
                assert(m.eval(g, asg) == s3.eval(g, asg));
                assert(m.eval(h, asg) == s3.eval(h, asg));
            }
            m.lemma_canonical(prod, f);
        }
    }

    /// The split of `f` by quantifying away the lower half of `vars` (in the
    /// order given) for `g` and taking the generalized cofactor of `f` by
    /// `g` for `h`, kept only when `g` is not constant and `g AND h` is `f`
    /// itself: exactly the halves split of `f` by `vars` when there is one,
    /// and `None` when no manager grown from the result has one. Every old
    /// node keeps its function. Fails only when the arena is full.
    #[verifier::rlimit(40)]
    #[verifier::spinoff_prover]
    fn split_halves(&mut self, f: NodeId, vars: &Vec<u16>) -> (r: Result<Option<(NodeId, NodeId)>, DdError>)
        requires
            old(self).wf(),
            old(self).is_node(f),
            forall|k: int| 0 <= k < vars@.len() ==> (#[trigger] vars@[k] as nat) < old(self).var_count(),
        ensures
            final(self).wf(),
            final(self).extends(*old(self)),
            r matches Ok(Some(p)) ==> final(self).is_node(p.0) && final(self).is_node(p.1)
                && final(self).conjoin_to(p.0, p.1, f),
            r matches Ok(Some(p)) ==> final(self).halves_split(f, vars@, p.0, p.1),
            r matches Ok(None) ==> forall|m: Manager, g: NodeId, h: NodeId|
                m.wf() && m.extends(*final(self)) ==> !#[trigger] m.halves_split(f, vars@, g, h),
            r matches Err(err) ==> err == (DdError::OutOfNodes { limit: MAX_NODES })
                && final(self).arena().len() == MAX_NODES,
    {
        let ghost s0 = *self;
        let mid = vars.len() / 2;
        if !(mid > 0 && mid < vars.len()) {
            return Ok(None);
        }
        let mut cube_vars: Vec<u16> = Vec::new();
        let mut j: usize = mid;
        proof {
            assert(cube_vars@ =~= vars@.subrange(mid as int, mid as int));
        }
        while j < vars.len()
            invariant
                mid <= j <= vars@.len(),
                forall|k: int| 0 <= k < vars@.len() ==> (#[trigger] vars@[k] as nat) < s0.var_count(),
                cube_vars@ == vars@.subrange(mid as int, j as int),
            decreases vars@.len() - j,
        {
            cube_vars.push(vars[j]);
            j = j + 1;
            proof {
                assert(cube_vars@ =~= vars@.subrange(mid as int, j as int));
            }
        }
        let ghost q = upper_half(vars@);
        proof {
            assert(mid == vars@.len() / 2);
            assert forall|k: int| 0 <= k < cube_vars@.len() implies (#[trigger] cube_vars@[k] as nat) < s0.var_count() by {
                assert(cube_vars@[k] == vars@[mid + k]);
            }
        }
        let cube = match self.bdd_cube(&cube_vars) {
            Ok(x) => x,
            Err(err) => {
                return Err(err);
            },
        };
        let ghost s1 = *self;
        proof {
            Manager::lemma_keeps(s1, s0);
            assert forall|w: int| #[trigger] q.contains(w) implies 0 <= w < s1.var_count() by {
                let k = choose|k: int| vars@.len() / 2 <= k < vars@.len() && #[trigger] vars@[k] as int == w;
            }
            assert forall|asg: Seq<bool>| asg.len() == s1.var_count() implies #[trigger] s1.eval(cube, asg) == (forall|w: int|
                #[trigger] q.contains(w) ==> asg[w]) by {
                if forall|i: int| 0 <= i < cube_vars@.len() ==> asg[#[trigger] cube_vars@[i] as int] {
                    assert forall|w: int| #[trigger] q.contains(w) implies asg[w] by {
                        let k = choose|k: int| vars@.len() / 2 <= k < vars@.len() && #[trigger] vars@[k] as int == w;
                        assert(cube_vars@[k - mid] == vars@[k]);
                    }
                }
                if forall|w: int| #[trigger] q.contains(w) ==> asg[w] {
                    assert forall|i: int| 0 <= i < cube_vars@.len() implies asg[#[trigger] cube_vars@[i] as int] by {
                        assert(cube_vars@[i] == vars@[mid + i]);
                        assert(q.contains(vars@[mid + i] as int));
                    }
                }
            }
            s1.lemma_cube_vars(cube, q);
        }
        let g = match self.bdd_exist_abstract(f, cube) {
            Ok(x) => x,
            Err(err) => {
                return Err(err);
            },
        };
        let ghost s2 = *self;
        proof {
            Manager::lemma_quantified_by_cube(s1, s2, f, cube, q, g);
        }
        if g.is_one() || g.is_zero() {
            proof {
                assert forall|m: Manager, gg: NodeId, hh: NodeId|
                    m.wf() && m.extends(s2) implies !#[trigger] m.halves_split(f, vars@, gg, hh) by {
                    if m.halves_split(f, vars@, gg, hh) {
                        Manager::lemma_quantifies_kept(m, s2, f, q, g);
                        m.lemma_quantifies_unique(f, q, gg, g);
                    }
                }
            }
            return Ok(None);
        }
        let h = match self.bdd_constrain(f, g) {
            Ok(x) => x,
            Err(err) => {
                return Err(err);
            },
        };
        let ghost s3 = *self;
        proof {
            Manager::lemma_keeps(s3, s2);
            assert forall|asg: Seq<bool>| asg.len() == s3.var_count() implies #[trigger] s3.eval(h, asg) == constrain_fn(
                s3.arena(),
                s3.order(),
                s3.var_count(),
                f,
                g,
                asg,
            ) by {
                lemma_constrain_fn_extend(s2.nodes@, s3.nodes@, s2.perm@, s2.perm@.len(), f, g, asg);
            }
            assert(s3.constrains(f, g, h));
        }
        let prod = match self.bdd_and(g, h) {
            Ok(x) => x,
            Err(err) => {
                return Err(err);
            },
        };
        let ghost s4 = *self;
        proof {
            Manager::lemma_keeps(s4, s3);
            Manager::lemma_quantifies_kept(s4, s2, f, q, g);
            Manager::lemma_constrains_kept(s4, s3, f, g, h);
        }
        if prod == f {
            proof {
                assert forall|asg: Seq<bool>| #[trigger] s4.eval(f, asg) == (s4.eval(g, asg) && s4.eval(h, asg)) by {
                    assert(s4.eval(prod, asg) == (s3.eval(g, asg) && s3.eval(h, asg)));
                    assert(s4.eval(g, asg) == s3.eval(g, asg));
                    assert(s4.eval(h, asg) == s3.eval(h, asg));
                }
                assert(s4.halves_split(f, vars@, g, h));
            }
            Ok(Some((g, h)))
        } else {
            proof {
                assert forall|m: Manager, gg: NodeId, hh: NodeId|
                    m.wf() && m.extends(s4) implies !#[trigger] m.halves_split(f, vars@, gg, hh) by {
                    if m.halves_split(f, vars@, gg, hh) {
                        Manager::lemma_no_halves_here(m, s3, s4, f, vars@, q, g, h, prod, gg, hh);
                    }
                }
            }
            Ok(None)
        }
    }

    /// A halves split keeps its meaning in a grown manager.
    proof fn lemma_halves_split_kept(m: Manager, s: Manager, f: NodeId, vs: Seq<u16>, g: NodeId, h: NodeId)
        requires
            s.wf(),
            m.extends(s),
            s.is_node(f),
            s.halves_split(f, vs, g, h),
        ensures
            m.halves_split(f, vs, g, h),
    {
        Manager::lemma_quantifies_kept(m, s, f, upper_half(vs), g);
        Manager::lemma_constrains_kept(m, s, f, g, h);
        Manager::lemma_keeps(m, s);
        assert forall|asg: Seq<bool>| asg.len() == m.var_count() implies #[trigger] m.eval(f, asg) == (m.eval(g, asg)
            && m.eval(h, asg)) by {
            assert(s.eval(f, asg) == (s.eval(g, asg) && s.eval(h, asg)));
        }
    }

    /// What the best split found so far is: `(f, one)`, a split of `f` along
    /// `v0`, or its halves split by `vs`.
    pub open spec fn is_candidate(&self, f: NodeId, v0: u16, vs: Seq<u16>, g: NodeId, h: NodeId) -> bool {
        ||| g == f && h.index_of() == 0 && !h.compl_of()
        ||| self.var_split(f, v0, true, g, h)
        ||| self.var_split(f, v0, false, g, h)
        ||| self.halves_split(f, vs, g, h)
    }

    /// Being a candidate keeps in a grown manager.
    proof fn lemma_candidate_kept(m: Manager, s: Manager, f: NodeId, v0: u16, vs: Seq<u16>, g: NodeId, h: NodeId)
        requires
            s.wf(),
            m.extends(s),
            s.is_node(f),
            s.is_candidate(f, v0, vs, g, h),
        ensures
            m.is_candidate(f, v0, vs, g, h),
    {
        if s.var_split(f, v0, true, g, h) {
            Manager::lemma_var_split_kept(m, s, f, v0, true, g, h);
        } else if s.var_split(f, v0, false, g, h) {
            Manager::lemma_var_split_kept(m, s, f, v0, false, g, h);
        } else if s.halves_split(f, vs, g, h) {
            Manager::lemma_halves_split_kept(m, s, f, vs, g, h);
        }
    }

    /// The halves split of `f` by `vs` was tried at `s3` with outcome `hs`:
    /// there was none, in `s3` or in any manager grown from it; or it was
    /// found and one of its parts has at least `f_size` nodes.
    pub open spec fn halves_settled(s3: Manager, f: NodeId, vs: Seq<u16>, hs: Option<(NodeId, NodeId)>, f_size: nat) -> bool {
        &&& s3.wf()
        &&& s3.is_node(f)
        &&& match hs {
            None => forall|m: Manager, g: NodeId, h: NodeId|
                m.wf() && m.extends(s3) ==> !#[trigger] m.halves_split(f, vs, g, h),
            Some(p) => s3.halves_split(f, vs, p.0, p.1) && (s3.size_of(p.0) >= f_size || s3.size_of(p.1) >= f_size),
        }
    }

    /// The split of `f` along `v` on side `pos` was tried at `s` with
    /// outcome `o`: there was none, in `s` or in any manager grown from it;
    /// or it was found and a part is the constant one or the larger part
    /// has at least `bm` nodes.
    pub open spec fn top_bound(s: Manager, f: NodeId, v: u16, pos: bool, o: Option<(NodeId, NodeId)>, bm: nat) -> bool {
        &&& s.wf()
        &&& s.is_node(f)
        &&& match o {
            None => forall|m: Manager, g: NodeId, h: NodeId|
                m.wf() && m.extends(s) ==> !#[trigger] m.var_split(f, v, pos, g, h),
            Some(p) => s.var_split(f, v, pos, p.0, p.1) && (is_one_h(p.0) || is_one_h(p.1) || s.size_of(p.0) >= bm
                || s.size_of(p.1) >= bm),
        }
    }

    /// Once a split along a variable is bounded, every such split in a
    /// grown manager has a part that is the constant one or a larger part
    /// of at least `bm` nodes.
    proof fn lemma_top_bound(
        s: Manager,
        m: Manager,
        f: NodeId,
        v: u16,
        pos: bool,
        o: Option<(NodeId, NodeId)>,
        bm: nat,
        g: NodeId,
        h: NodeId,
    )
        requires
            Manager::top_bound(s, f, v, pos, o, bm),
            m.wf(),
            m.extends(s),
            m.var_split(f, v, pos, g, h),
        ensures
            is_one_h(g) || is_one_h(h) || m.size_of(g) >= bm || m.size_of(h) >= bm,
    {
        match o {
            None => {},
            Some(p) => {
                Manager::lemma_var_split_kept(m, s, f, v, pos, p.0, p.1);
                m.lemma_var_split_unique(f, v, pos, g, h, p.0, p.1);
                Manager::lemma_size_kept(m, s, p.0);
                Manager::lemma_size_kept(m, s, p.1);
            },
        }
    }

    /// Once the halves split is settled, every halves split in a grown
    /// manager has a part of at least `f_size` nodes.
    proof fn lemma_halves_settled(
        s3: Manager,
        m: Manager,
        f: NodeId,
        vs: Seq<u16>,
        hs: Option<(NodeId, NodeId)>,
        f_size: nat,
        g: NodeId,
        h: NodeId,
    )
        requires
            Manager::halves_settled(s3, f, vs, hs, f_size),
            m.wf(),
            m.extends(s3),
            m.halves_split(f, vs, g, h),
        ensures
            m.size_of(g) >= f_size || m.size_of(h) >= f_size,
    {
        match hs {
            None => {},
            Some(p) => {
                let q = upper_half(vs);
                Manager::lemma_quantifies_kept(m, s3, f, q, p.0);
                m.lemma_quantifies_unique(f, q, g, p.0);
                Manager::lemma_constrains_kept(m, s3, f, p.0, p.1);
                m.lemma_constrains_unique(f, p.0, h, p.1);
                Manager::lemma_size_kept(m, s3, p.0);
                Manager::lemma_size_kept(m, s3, p.1);
            },
        }
    }

    /// Where `f` has fewer than two support variables there is no halves
    /// split of `f` by a listing of its support.
    proof fn lemma_no_halves_small(s0: Manager, m: Manager, f: NodeId, vars: Seq<u16>, vs: Seq<u16>, g: NodeId, h: NodeId)
        requires
            s0.wf(),
            s0.sorted_support(f, vars),
            vars.len() <= 1,
            s0.sorted_support(f, vs),
        ensures
            !m.halves_split(f, vs, g, h),
    {
        lemma_sorted_unique(vs, vars, s0.order());
    }

    /// Split `f` into `(g, h)` with `g AND h` equal to `f`, trying for the
    /// first (at most eight) variables of `f`'s support in level order the
    /// splits along a cofactor that implies the other, and once the split of
    /// the support in halves by quantification and the generalized
    /// cofactor; the split whose larger part has the fewest nodes wins (a
    /// part that is the constant one does not count), and `(f, one)` where
    /// none beats `f` itself. Every old node keeps its function. Fails only
    /// when the arena is full.
    #[verifier::rlimit(60)]
    #[verifier::spinoff_prover]
    pub fn bdd_conjunctive_decomp(&mut self, f: NodeId) -> (r: Result<(NodeId, NodeId), DdError>)
        requires
            old(self).wf(),
            old(self).is_node(f),
        ensures
            final(self).wf(),
            final(self).extends(*old(self)),
            r matches Ok(p) ==> {
                &&& final(self).is_node(p.0)
                &&& final(self).is_node(p.1)
                &&& final(self).conjoin_to(p.0, p.1, f)
                &&& f.index_of() == 0 ==> p.0 == f && p.1.index_of() == 0 && !p.1.compl_of()
                &&& (forall|w1: u16, w2: u16|
                    #[trigger] reach_vars(old(self).arena(), old(self).order(), old(self).var_count(), f.index_of()).contains(w1)
                        && #[trigger] reach_vars(old(self).arena(), old(self).order(), old(self).var_count(), f.index_of()).contains(w2)
                        ==> w1 == w2) ==> p.0 == f && p.1.index_of() == 0 && !p.1.compl_of()
                &&& (p.0 == f && p.1.index_of() == 0 && !p.1.compl_of()) || (final(self).size_of(p.0) < final(self).size_of(f)
                    && final(self).size_of(p.1) < final(self).size_of(f))
                &&& forall|vs: Seq<u16>, g: NodeId, h: NodeId|
                    old(self).sorted_support(f, vs) && #[trigger] final(self).halves_split(f, vs, g, h)
                        && final(self).size_of(g) < final(self).size_of(f) && final(self).size_of(h) < final(self).size_of(f)
                        ==> !(p.0 == f && p.1.index_of() == 0 && !p.1.compl_of())
                &&& forall|vs: Seq<u16>, pos: bool, g: NodeId, h: NodeId|
                    old(self).sorted_support(f, vs) && vs.len() >= 2 && #[trigger] final(self).var_split(f, vs[0], pos, g, h)
                        && !is_one_h(g) && !is_one_h(h) && final(self).size_of(g) < final(self).size_of(f)
                        && final(self).size_of(h) < final(self).size_of(f) ==> !(p.0 == f && p.1.index_of() == 0
                        && !p.1.compl_of())
                &&& forall|vs: Seq<u16>, pos: bool, g: NodeId, h: NodeId|
                    old(self).sorted_support(f, vs) && vs.len() >= 2 && #[trigger] final(self).var_split(f, vs[0], pos, g, h)
                        && !is_one_h(g) && !is_one_h(h) ==> (final(self).size_of(p.0) <= final(self).size_of(g)
                        || final(self).size_of(p.0) <= final(self).size_of(h))
                        && (final(self).size_of(p.1) <= final(self).size_of(g)
                        || final(self).size_of(p.1) <= final(self).size_of(h))
                &&& forall|vs: Seq<u16>|
                    #[trigger] old(self).sorted_support(f, vs) ==> (p.0 == f && p.1.index_of() == 0 && !p.1.compl_of())
                        || (vs.len() >= 2 && final(self).is_candidate(f, vs[0], vs, p.0, p.1))
            },
            r matches Err(err) ==> err == (DdError::OutOfNodes { limit: MAX_NODES })
                && final(self).arena().len() == MAX_NODES,
    {
        let ghost s0 = *self;
        let one = NodeId::one();
        proof {
            NodeId::lemma_parts(f);
        }
        if f.is_constant() {
            proof {
                assert forall|vs: Seq<u16>, g: NodeId, h: NodeId|
                    s0.sorted_support(f, vs) && #[trigger] self.halves_split(f, vs, g, h) implies false by {
                    assert(vs.contains(vs[0]));
                }
                assert forall|vs: Seq<u16>, pos: bool, g: NodeId, h: NodeId|
                    s0.sorted_support(f, vs) && vs.len() >= 2 && #[trigger] self.var_split(f, vs[0], pos, g, h) implies false by {
                    assert(vs.contains(vs[0]));
                }
            }
            return Ok((f, one));
        }
        let vars = self.support_vars(f);
        proof {
            assert(s0.sorted_support(f, vars@));
        }
        if vars.len() <= 1 {
            proof {
                assert forall|vs: Seq<u16>, g: NodeId, h: NodeId|
                    s0.sorted_support(f, vs) implies !#[trigger] self.halves_split(f, vs, g, h) by {
                    Manager::lemma_no_halves_small(s0, *self, f, vars@, vs, g, h);
                }
                assert forall|vs: Seq<u16>, pos: bool, g: NodeId, h: NodeId|
                    s0.sorted_support(f, vs) && vs.len() >= 2 && #[trigger] self.var_split(f, vs[0], pos, g, h) implies false by {
                    lemma_sorted_unique(vs, vars@, s0.order());
                }
            }
            return Ok((f, one));
        }
        proof {
            let rf = reach_vars(s0.arena(), s0.order(), s0.var_count(), f.index_of());
            assert(vars@.contains(vars@[0]));
            assert(vars@.contains(vars@[1]));
            assert(rf.contains(vars@[0]) && rf.contains(vars@[1]));
            assert(vars@[0] != vars@[1]);
        }
        let f_size = self.dag_size(f);
        let mut best_g = f;
        let mut best_h = one;
        let mut best_max = f_size;
        let limit = if vars.len() < 8 {
            vars.len()
        } else {
            8
        };
        let ghost mut s3: Manager = *self;
        let ghost mut hs: Option<(NodeId, NodeId)> = None;
        let ghost mut sp: Manager = *self;
        let ghost mut op: Option<(NodeId, NodeId)> = None;
        let ghost mut sn: Manager = *self;
        let ghost mut on: Option<(NodeId, NodeId)> = None;
        let ghost mut tried: bool = false;
        let ghost v0 = vars@[0];
        proof {
            s0.lemma_first_is_top(f, vars@);
            assert forall|k: int| 0 < k < vars@.len() implies s0.order()[#[trigger] vars@[k] as int] > s0.order()[v0 as int] by {
                assert(s0.order()[vars@[0] as int] < s0.order()[vars@[k] as int]);
            }
        }
        let mut i: usize = 0;
        while i < limit
            invariant
                s0.wf(),
                s0 == *old(self),
                self.wf(),
                self.extends(s0),
                s0.is_node(f),
                one.index_of() == 0 && !one.compl_of(),
                limit <= vars@.len(),
                limit >= 1,
                i <= limit,
                forall|k: int| 0 <= k < vars@.len() ==> (#[trigger] vars@[k] as nat) < s0.var_count(),
                self.is_node(best_g),
                self.is_node(best_h),
                self.conjoin_to(best_g, best_h, f),
                f_size == s0.size_of(f),
                self.size_of(f) == f_size,
                (best_g == f && best_h == one && best_max == f_size) || (best_max < f_size && self.size_of(best_g)
                    <= best_max && self.size_of(best_h) <= best_max),
                v0 == vars@[0],
                s0.order()[v0 as int] == s0.level_of(f),
                i >= 1 ==> best_max < f_size || (tried && Manager::halves_settled(s3, f, vars@, hs, f_size as nat)
                    && self.extends(s3)),
                i >= 1 ==> Manager::top_bound(sp, f, v0, true, op, best_max as nat) && self.extends(sp)
                    && Manager::top_bound(sn, f, v0, false, on, best_max as nat) && self.extends(sn),
                best_max <= f_size,
                self.is_candidate(f, v0, vars@, best_g, best_h),
                forall|k: int| 0 <= k < vars@.len() ==> s0.order()[#[trigger] vars@[k] as int] >= s0.order()[v0 as int],
                forall|k: int| 0 < k < vars@.len() ==> s0.order()[#[trigger] vars@[k] as int] != s0.order()[v0 as int],
            decreases limit - i,
        {
            let v = vars[i];
            let ghost s1 = *self;
            let split = self.split_on(f, v, true);
            proof {
                Manager::lemma_conjoin_kept(s1, *self, best_g, best_h, f);
                Manager::lemma_candidate_kept(*self, s1, f, v0, vars@, best_g, best_h);
                Manager::lemma_size_kept(*self, s1, best_g);
                Manager::lemma_size_kept(*self, s1, best_h);
                Manager::lemma_size_kept(*self, s0, f);
                Manager::lemma_keeps(s1, s0);
                if i == 0 {
                    sp = *self;
                    op = match split {
                        Ok(Some(p)) => Some(p),
                        _ => None,
                    };
                }
            }
            match split {
                Ok(Some((g, h))) => {
                    if !g.is_one() && !h.is_one() {
                        let g_size = self.dag_size(g);
                        let h_size = self.dag_size(h);
                        let max_size = if g_size >= h_size {
                            g_size
                        } else {
                            h_size
                        };
                        if max_size < best_max {
                            best_g = g;
                            best_h = h;
                            best_max = max_size;
                        }
                    }
                },
                Ok(None) => {},
                Err(err) => {
                    return Err(err);
                },
            }
            let ghost s2 = *self;
            let split = self.split_on(f, v, false);
            proof {
                Manager::lemma_conjoin_kept(s2, *self, best_g, best_h, f);
                Manager::lemma_candidate_kept(*self, s2, f, v0, vars@, best_g, best_h);
                Manager::lemma_size_kept(*self, s2, best_g);
                Manager::lemma_size_kept(*self, s2, best_h);
                Manager::lemma_size_kept(*self, s0, f);
                Manager::lemma_keeps(s2, s0);
                if i == 0 {
                    sn = *self;
                    on = match split {
                        Ok(Some(p)) => Some(p),
                        _ => None,
                    };
                }
            }
            match split {
                Ok(Some((g, h))) => {
                    if !g.is_one() && !h.is_one() {
                        let g_size = self.dag_size(g);
                        let h_size = self.dag_size(h);
                        let max_size = if g_size >= h_size {
                            g_size
                        } else {
                            h_size
                        };
                        if max_size < best_max {
                            best_g = g;
                            best_h = h;
                            best_max = max_size;
                        }
                    }
                },
                Ok(None) => {},
                Err(err) => {
                    return Err(err);
                },
            }
            if i == 0 && best_h.is_one() {
                let ghost sb = *self;
                let split = self.split_halves(f, &vars);
                proof {
                    Manager::lemma_conjoin_kept(sb, *self, best_g, best_h, f);
                    Manager::lemma_candidate_kept(*self, sb, f, v0, vars@, best_g, best_h);
                    Manager::lemma_size_kept(*self, sb, best_g);
                    Manager::lemma_size_kept(*self, sb, best_h);
                    Manager::lemma_size_kept(*self, s0, f);
                    s3 = *self;
                    tried = true;
                    hs = match split {
                        Ok(Some(p)) => Some(p),
                        _ => None,
                    };
                }
                match split {
                    Ok(Some((g, h))) => {
                        let g_size = self.dag_size(g);
                        let h_size = self.dag_size(h);
                        let max_size = if g_size >= h_size {
                            g_size
                        } else {
                            h_size
                        };
                        if max_size < best_max {
                            best_g = g;
                            best_h = h;
                            best_max = max_size;
                        }
                    },
                    Ok(None) => {},
                    Err(err) => {
                        return Err(err);
                    },
                }
            }
            i = i + 1;
        }
        proof {
            assert forall|vs: Seq<u16>, g: NodeId, h: NodeId|
                s0.sorted_support(f, vs) && #[trigger] self.halves_split(f, vs, g, h) && self.size_of(g) < self.size_of(f)
                    && self.size_of(h) < self.size_of(f) implies !(best_g == f && best_h.index_of() == 0
                && !best_h.compl_of()) by {
                lemma_sorted_unique(vs, vars@, s0.order());
                if best_max >= f_size {
                    Manager::lemma_halves_settled(s3, *self, f, vars@, hs, f_size as nat, g, h);
                } else if best_g == f && best_h.index_of() == 0 && !best_h.compl_of() {
                    self.lemma_size_constant(best_h);
                }
            }
            assert forall|vs: Seq<u16>, pos: bool, g: NodeId, h: NodeId|
                s0.sorted_support(f, vs) && vs.len() >= 2 && #[trigger] self.var_split(f, vs[0], pos, g, h) && !is_one_h(g)
                    && !is_one_h(h) && self.size_of(g) < self.size_of(f) && self.size_of(h) < self.size_of(f) implies !(best_g
                == f && best_h.index_of() == 0 && !best_h.compl_of()) by {
                lemma_sorted_unique(vs, vars@, s0.order());
                if pos {
                    Manager::lemma_top_bound(sp, *self, f, v0, true, op, best_max as nat, g, h);
                } else {
                    Manager::lemma_top_bound(sn, *self, f, v0, false, on, best_max as nat, g, h);
                }
                if best_g == f && best_h.index_of() == 0 && !best_h.compl_of() {
                    self.lemma_size_constant(best_h);
                }
            }
            assert forall|vs: Seq<u16>, pos: bool, g: NodeId, h: NodeId|
                s0.sorted_support(f, vs) && vs.len() >= 2 && #[trigger] self.var_split(f, vs[0], pos, g, h) && !is_one_h(g)
                    && !is_one_h(h) implies (self.size_of(best_g) <= self.size_of(g) || self.size_of(best_g) <= self.size_of(h))
                && (self.size_of(best_h) <= self.size_of(g) || self.size_of(best_h) <= self.size_of(h)) by {
                lemma_sorted_unique(vs, vars@, s0.order());
                if pos {
                    Manager::lemma_top_bound(sp, *self, f, v0, true, op, best_max as nat, g, h);
                } else {
                    Manager::lemma_top_bound(sn, *self, f, v0, false, on, best_max as nat, g, h);
                }
                if best_g == f && best_h == one {
                    self.lemma_size_constant(best_h);
                }
            }
            assert forall|vs: Seq<u16>| #[trigger] s0.sorted_support(f, vs) implies (best_g == f && best_h.index_of() == 0
                && !best_h.compl_of()) || (vs.len() >= 2 && self.is_candidate(f, vs[0], vs, best_g, best_h)) by {
                lemma_sorted_unique(vs, vars@, s0.order());
            }
            if !(best_g == f && best_h.index_of() == 0 && !best_h.compl_of()) {
                if best_g == f && best_h == one {
                    NodeId::lemma_same_parts(best_h, one);
                }
            }
        }
        Ok((best_g, best_h))
    }

    /// Split `f` into `(g, h)` with `g OR h` equal to `f`: the conjunctive
    /// split of the complement, both parts complemented. Every old node
    /// keeps its function. Fails only when the arena is full.
    pub fn bdd_disjunctive_decomp(&mut self, f: NodeId) -> (r: Result<(NodeId, NodeId), DdError>)
        requires
            old(self).wf(),
            old(self).is_node(f),
        ensures
            final(self).wf(),
            final(self).extends(*old(self)),
            r matches Ok(p) ==> {
                &&& final(self).is_node(p.0)
                &&& final(self).is_node(p.1)
                &&& forall|asg: Seq<bool>|
                    #[trigger] final(self).eval(f, asg) == (final(self).eval(p.0, asg) || final(self).eval(p.1, asg))
                &&& f.index_of() == 0 ==> p.0 == f && p.1.index_of() == 0 && p.1.compl_of()
                &&& (forall|w1: u16, w2: u16|
                    #[trigger] reach_vars(old(self).arena(), old(self).order(), old(self).var_count(), f.index_of()).contains(w1)
                        && #[trigger] reach_vars(old(self).arena(), old(self).order(), old(self).var_count(), f.index_of()).contains(w2)
                        ==> w1 == w2) ==> p.0 == f && p.1.index_of() == 0 && p.1.compl_of()
                &&& (p.0 == f && p.1.index_of() == 0 && p.1.compl_of()) || (final(self).size_of(p.0) < final(self).size_of(f)
                    && final(self).size_of(p.1) < final(self).size_of(f))
                &&& forall|vs: Seq<u16>, g: NodeId, h: NodeId|
                    old(self).sorted_support(f, vs) && #[trigger] final(self).halves_split(f.negated(), vs, g, h)
                        && final(self).size_of(g) < final(self).size_of(f) && final(self).size_of(h) < final(self).size_of(f)
                        ==> !(p.0 == f && p.1.index_of() == 0 && p.1.compl_of())
                &&& forall|vs: Seq<u16>, pos: bool, g: NodeId, h: NodeId|
                    old(self).sorted_support(f, vs) && vs.len() >= 2 && #[trigger] final(self).var_split(
                        f.negated(),
                        vs[0],
                        pos,
                        g,
                        h,
                    ) && !is_one_h(g) && !is_one_h(h) && final(self).size_of(g) < final(self).size_of(f)
                        && final(self).size_of(h) < final(self).size_of(f) ==> !(p.0 == f && p.1.index_of() == 0
                        && p.1.compl_of())
                &&& forall|vs: Seq<u16>|
                    #[trigger] old(self).sorted_support(f, vs) ==> (p.0 == f && p.1.index_of() == 0 && p.1.compl_of()) || (
                    vs.len() >= 2 && final(self).is_candidate(f.negated(), vs[0], vs, p.0.negated(), p.1.negated()))
            },
            r matches Err(err) ==> err == (DdError::OutOfNodes { limit: MAX_NODES })
                && final(self).arena().len() == MAX_NODES,
    {
        let ghost s0 = *self;
        proof {
            s0.lemma_negated(f);
        }
        let nf = self.bdd_not(f);
        let (ng, nh) = match self.bdd_conjunctive_decomp(nf) {
            Ok(p) => p,
            Err(err) => {
                return Err(err);
            },
        };
        proof {
            let s1 = *self;
            Manager::lemma_keeps(s1, s0);
            s1.lemma_negated(ng);
            s1.lemma_negated(nh);
            s1.lemma_negated(f);
            NodeId::lemma_parts(f);
            NodeId::lemma_parts(nh);
            crate::node::lemma_not_involutive(f);
            assert(nf.index_of() == f.index_of());
            assert forall|asg: Seq<bool>| #[trigger] s1.eval(f, asg) == (s1.eval(ng.negated(), asg) || s1.eval(
                nh.negated(),
                asg,
            )) by {
                assert(s1.eval(nf, asg) == (s1.eval(ng, asg) && s1.eval(nh, asg)));
                assert(s1.eval(nf, asg) == s0.eval(nf, asg));
            }
            NodeId::lemma_parts(ng);
            crate::node::lemma_not_involutive(ng);
            crate::node::lemma_not_involutive(nh);
            NodeId::lemma_parts(nh.negated());
            assert(nf == f.negated());
            assert(s1.size_of(nf) == s1.size_of(f));
            assert(s1.size_of(ng.negated()) == s1.size_of(ng));
            assert(s1.size_of(nh.negated()) == s1.size_of(nh));
            assert forall|vs: Seq<u16>| s0.sorted_support(f, vs) implies s0.sorted_support(nf, vs) by {}
            assert forall|vs: Seq<u16>| #[trigger] s0.sorted_support(f, vs) implies (ng.negated() == f && nh.negated().index_of() == 0
                && nh.negated().compl_of()) || (vs.len() >= 2 && s1.is_candidate(f.negated(), vs[0], vs, ng.negated().negated(),
                nh.negated().negated())) by {
                assert(s0.sorted_support(nf, vs));
                if ng == nf && nh.index_of() == 0 && !nh.compl_of() {
                    crate::node::lemma_not_involutive(f);
                }
            }
            if ng.negated() == f && nh.negated().index_of() == 0 && nh.negated().compl_of() {
                assert(ng == nf);
                assert(nh.index_of() == 0 && !nh.compl_of());
            }
        }
        Ok((ng.not(), nh.not()))
    }

    /// The constants are canonical: a node that is false under every
    /// assignment to the manager's variables is the constant zero, and one
    /// that is true under every such assignment is the constant one.
    pub proof fn lemma_constant_functions(&self, f: NodeId)
        requires
            self.wf(),
            self.is_node(f),
        ensures
            (forall|asg: Seq<bool>| asg.len() == self.var_count() ==> !#[trigger] self.eval(f, asg)) ==> f.index_of()
                == 0 && f.compl_of(),
            (forall|asg: Seq<bool>| asg.len() == self.var_count() ==> #[trigger] self.eval(f, asg)) ==> f.index_of()
                == 0 && !f.compl_of(),
    {
        let n = self.var_count();
        let a = self.nodes@;
        let x = f.index_of();
        if x != 0 {
            assert(ordered(a, self.perm@, n, x));
            assert(reduced(a));
            lemma_nonconstant(a, self.perm@, n, x);
            let w1 = choose|asg: Seq<bool>| asg.len() == n && #[trigger] eval_node(a, self.perm@, n, x, false, asg);
            let w0 = choose|asg: Seq<bool>| asg.len() == n && !#[trigger] eval_node(a, self.perm@, n, x, false, asg);
            lemma_eval_negated(a, self.perm@, n, x, false, w1);
            lemma_eval_negated(a, self.perm@, n, x, false, w0);
            assert(self.eval(f, w1) != self.eval(f, w0));
        } else {
            let w = Seq::new(n, |i: int| false);
            assert(self.eval(f, w) == !f.compl_of());
        }
    }

    /// Handles are canonical: two nodes of the manager that agree under
    /// every assignment to its variables are the same handle, so `==` on
    /// handles decides equality of functions.
    pub proof fn lemma_canonical(&self, f: NodeId, g: NodeId)
        requires
            self.wf(),
            self.is_node(f),
            self.is_node(g),
            forall|asg: Seq<bool>| asg.len() == self.var_count() ==> #[trigger] self.eval(f, asg) == self.eval(g, asg),
        ensures
            f == g,
    {
        let a = self.nodes@;
        let perm = self.perm@;
        let n = perm.len();
        assert forall|v1: int, v2: int|
            0 <= v1 < n && 0 <= v2 < n && #[trigger] perm[v1] == #[trigger] perm[v2] implies v1 == v2 by {
            assert(self.inv_perm@[perm[v1] as int] == v1);
            assert(self.inv_perm@[perm[v2] as int] == v2);
        }
        assert(canon_ready(a, perm, n, self.unique@));
        assert forall|asg: Seq<bool>| asg.len() == n implies #[trigger] ev(a, perm, n, f, asg)
            == ev(a, perm, n, g, asg) by {
            assert(self.eval(f, asg) == self.eval(g, asg));
        }
        assert(same_fn(a, perm, n, f, g));
        lemma_canonical(a, perm, n, self.unique@, f, g);
    }

    /// The arena facts that canonicity rests on hold of a well-formed
    /// manager.
    proof fn lemma_canon_ready(&self)
        requires
            self.wf(),
        ensures
            canon_ready(self.nodes@, self.perm@, self.perm@.len(), self.unique@),
    {
        let perm = self.perm@;
        let n = perm.len();
        assert forall|v1: int, v2: int|
            0 <= v1 < n && 0 <= v2 < n && #[trigger] perm[v1] == #[trigger] perm[v2] implies v1 == v2 by {
            assert(self.inv_perm@[perm[v1] as int] == v1);
            assert(self.inv_perm@[perm[v2] as int] == v2);
        }
    }

    /// A node whose function is the conjunction of the variables `q` is a
    /// cube on exactly those variables.
    proof fn lemma_cube_vars(&self, h: NodeId, q: Set<int>)
        requires
            self.wf(),
            self.is_node(h),
            forall|w: int| #[trigger] q.contains(w) ==> 0 <= w < self.var_count(),
            forall|asg: Seq<bool>|
                asg.len() == self.var_count() ==> #[trigger] self.eval(h, asg) == (forall|w: int|
                    #[trigger] q.contains(w) ==> asg[w]),
        ensures
            self.cube_vars(h) == q,
    {
        self.lemma_canon_ready();
        let a = self.nodes@;
        let perm = self.perm@;
        let n = perm.len();
        assert forall|asg: Seq<bool>| asg.len() == n implies #[trigger] ev(a, perm, n, h, asg) == (forall|w: int|
            #[trigger] q.contains(w) ==> asg[w]) by {
            assert(self.eval(h, asg) == (forall|w: int| #[trigger] q.contains(w) ==> asg[w]));
        }
        lemma_cube_chain(a, perm, n, self.unique@, h, q);
    }

    /// Growing the arena keeps the size of an old node.
    proof fn lemma_size_kept(new: Manager, old: Manager, x: NodeId)
        requires
            old.wf(),
            new.extends(old),
            old.is_node(x),
        ensures
            new.size_of(x) == old.size_of(x),
    {
        assert(ordered(old.nodes@, old.perm@, old.perm@.len(), x.index_of()));
        lemma_node_count_extend(old.nodes@, new.nodes@, old.perm@, old.perm@.len(), x.index_of());
    }

    /// A constant has no internal nodes.
    proof fn lemma_size_constant(&self, x: NodeId)
        requires
            x.index_of() == 0,
        ensures
            self.size_of(x) == 0,
    {
        let s = Seq::new(self.arena().len(), |z: int| in_reach(self.arena(), self.order(), self.var_count(), 0, z));
        lemma_count_prefix(Seq::<bool>::empty(), s);
    }

    /// `vs` lists the support of `f` from the top level down.
    pub open spec fn sorted_support(&self, f: NodeId, vs: Seq<u16>) -> bool {
        &&& forall|i: int| 0 <= i < vs.len() ==> (#[trigger] vs[i] as nat) < self.var_count()
        &&& forall|i: int, j: int|
            0 <= i < j < vs.len() ==> self.order()[#[trigger] vs[i] as int] < self.order()[#[trigger] vs[j] as int]
        &&& forall|w: u16|
            #[trigger] vs.contains(w) <==> reach_vars(self.arena(), self.order(), self.var_count(), f.index_of()).contains(w)
    }

    /// `g` is `f` with the variables `q` quantified away, on every full
    /// assignment.
    pub open spec fn quantifies(&self, f: NodeId, q: Set<int>, g: NodeId) -> bool {
        forall|asg: Seq<bool>|
            asg.len() == self.var_count() ==> (#[trigger] self.eval(g, asg) == exists|b: Seq<bool>|
                agree_outside(asg, b, q) && #[trigger] self.eval(f, b))
    }

    /// `h` is the generalized cofactor of `f` by `g`, on every full
    /// assignment.
    pub open spec fn constrains(&self, f: NodeId, g: NodeId, h: NodeId) -> bool {
        forall|asg: Seq<bool>|
            asg.len() == self.var_count() ==> #[trigger] self.eval(h, asg) == constrain_fn(
                self.arena(),
                self.order(),
                self.var_count(),
                f,
                g,
                asg,
            )
    }

    /// Quantifying away keeps its meaning in a grown manager.
    proof fn lemma_quantifies_kept(m: Manager, s: Manager, f: NodeId, q: Set<int>, g: NodeId)
        requires
            s.wf(),
            m.extends(s),
            s.is_node(f),
            s.is_node(g),
            s.quantifies(f, q, g),
        ensures
            m.quantifies(f, q, g),
    {
        Manager::lemma_keeps(m, s);
        assert forall|asg: Seq<bool>| asg.len() == m.var_count() implies (#[trigger] m.eval(g, asg) == exists|b: Seq<bool>|
            agree_outside(asg, b, q) && #[trigger] m.eval(f, b)) by {
            assert(m.eval(g, asg) == s.eval(g, asg));
            if exists|b: Seq<bool>| agree_outside(asg, b, q) && #[trigger] s.eval(f, b) {
                let b = choose|b: Seq<bool>| agree_outside(asg, b, q) && #[trigger] s.eval(f, b);
                assert(m.eval(f, b) == s.eval(f, b));
            }
            if exists|b: Seq<bool>| agree_outside(asg, b, q) && #[trigger] m.eval(f, b) {
                let b = choose|b: Seq<bool>| agree_outside(asg, b, q) && #[trigger] m.eval(f, b);
                assert(m.eval(f, b) == s.eval(f, b));
            }
        }
    }

    /// Two nodes that quantify the same variables out of `f` are the same
    /// node.
    proof fn lemma_quantifies_unique(&self, f: NodeId, q: Set<int>, g1: NodeId, g2: NodeId)
        requires
            self.wf(),
            self.is_node(g1),
            self.is_node(g2),
            self.quantifies(f, q, g1),
            self.quantifies(f, q, g2),
        ensures
            g1 == g2,
    {
        assert forall|asg: Seq<bool>| asg.len() == self.var_count() implies #[trigger] self.eval(g1, asg) == self.eval(
            g2,
            asg,
        ) by {
            assert(self.eval(g1, asg) == exists|b: Seq<bool>| agree_outside(asg, b, q) && #[trigger] self.eval(f, b));
            assert(self.eval(g2, asg) == exists|b: Seq<bool>| agree_outside(asg, b, q) && #[trigger] self.eval(f, b));
        }
        self.lemma_canonical(g1, g2);
    }

    /// A generalized cofactor keeps its meaning in a grown manager.
    proof fn lemma_constrains_kept(m: Manager, s: Manager, f: NodeId, g: NodeId, h: NodeId)
        requires
            s.wf(),
            m.extends(s),
            s.is_node(f),
            s.is_node(g),
            s.is_node(h),
            s.constrains(f, g, h),
        ensures
            m.constrains(f, g, h),
    {
        Manager::lemma_keeps(m, s);
        assert(ordered(s.nodes@, s.perm@, s.perm@.len(), f.index_of()));
        assert(ordered(s.nodes@, s.perm@, s.perm@.len(), g.index_of()));
        assert forall|asg: Seq<bool>| asg.len() == m.var_count() implies #[trigger] m.eval(h, asg) == constrain_fn(
            m.arena(),
            m.order(),
            m.var_count(),
            f,
            g,
            asg,
        ) by {
            assert(m.eval(h, asg) == s.eval(h, asg));
            lemma_constrain_fn_extend(s.nodes@, m.nodes@, s.perm@, s.perm@.len(), f, g, asg);
        }
    }

    /// Two generalized cofactors of `f` by `g` are the same node.
    proof fn lemma_constrains_unique(&self, f: NodeId, g: NodeId, h1: NodeId, h2: NodeId)
        requires
            self.wf(),
            self.is_node(h1),
            self.is_node(h2),
            self.constrains(f, g, h1),
            self.constrains(f, g, h2),
        ensures
            h1 == h2,
    {
        assert forall|asg: Seq<bool>| asg.len() == self.var_count() implies #[trigger] self.eval(h1, asg) == self.eval(
            h2,
            asg,
        ) by {}
        self.lemma_canonical(h1, h2);
    }

    /// `(g, h)` is the split of `f` along variable `v` where one cofactor
    /// implies the other: with `pos`, the negative cofactor implies the
    /// positive one, `g` is `v OR f_neg` and `h` is `f_pos`; else the
    /// positive implies the negative, `g` is `NOT v OR f_pos` and `h` is
    /// `f_neg` (on every full assignment).
    pub open spec fn var_split(&self, f: NodeId, v: u16, pos: bool, g: NodeId, h: NodeId) -> bool {
        &&& self.is_node(g)
        &&& self.is_node(h)
        &&& (v as nat) < self.var_count()
        &&& forall|asg: Seq<bool>|
            asg.len() == self.var_count() ==> (self.eval(f, asg.update(v as int, !pos)) ==> #[trigger] self.eval(
                f,
                asg.update(v as int, pos),
            ))
        &&& forall|asg: Seq<bool>|
            asg.len() == self.var_count() ==> #[trigger] self.eval(g, asg) == ((asg[v as int] == pos) || self.eval(
                f,
                asg.update(v as int, !pos),
            ))
        &&& forall|asg: Seq<bool>|
            asg.len() == self.var_count() ==> #[trigger] self.eval(h, asg) == self.eval(f, asg.update(v as int, pos))
    }

    /// A split along a variable keeps its meaning in a grown manager.
    proof fn lemma_var_split_kept(m: Manager, s: Manager, f: NodeId, v: u16, pos: bool, g: NodeId, h: NodeId)
        requires
            s.wf(),
            m.extends(s),
            s.is_node(f),
            s.var_split(f, v, pos, g, h),
        ensures
            m.var_split(f, v, pos, g, h),
    {
        Manager::lemma_keeps(m, s);
        assert forall|asg: Seq<bool>| asg.len() == m.var_count() implies (m.eval(f, asg.update(v as int, !pos))
            ==> #[trigger] m.eval(f, asg.update(v as int, pos))) by {
            assert(s.eval(f, asg.update(v as int, !pos)) ==> s.eval(f, asg.update(v as int, pos)));
        }
        assert forall|asg: Seq<bool>| asg.len() == m.var_count() implies #[trigger] m.eval(g, asg) == ((asg[v as int] == pos)
            || m.eval(f, asg.update(v as int, !pos))) by {
            assert(s.eval(g, asg) == ((asg[v as int] == pos) || s.eval(f, asg.update(v as int, !pos))));
        }
        assert forall|asg: Seq<bool>| asg.len() == m.var_count() implies #[trigger] m.eval(h, asg) == m.eval(
            f,
            asg.update(v as int, pos),
        ) by {
            assert(s.eval(h, asg) == s.eval(f, asg.update(v as int, pos)));
        }
    }

    /// The parts of a split along a variable are determined by it.
    proof fn lemma_var_split_unique(&self, f: NodeId, v: u16, pos: bool, g1: NodeId, h1: NodeId, g2: NodeId, h2: NodeId)
        requires
            self.wf(),
            self.var_split(f, v, pos, g1, h1),
            self.var_split(f, v, pos, g2, h2),
        ensures
            g1 == g2,
            h1 == h2,
    {
        assert forall|asg: Seq<bool>| asg.len() == self.var_count() implies #[trigger] self.eval(g1, asg) == self.eval(
            g2,
            asg,
        ) by {}
        assert forall|asg: Seq<bool>| asg.len() == self.var_count() implies #[trigger] self.eval(h1, asg) == self.eval(
            h2,
            asg,
        ) by {}
        self.lemma_canonical(g1, g2);
        self.lemma_canonical(h1, h2);
    }

    /// The first variable of a listing of `f`'s support by level is the
    /// variable of `f`'s top node.
    proof fn lemma_first_is_top(&self, f: NodeId, vs: Seq<u16>)
        requires
            self.wf(),
            self.is_node(f),
            self.sorted_support(f, vs),
            vs.len() >= 1,
        ensures
            f.index_of() != 0,
            self.order()[vs[0] as int] == self.level_of(f),
    {
        let a = self.nodes@;
        let perm = self.perm@;
        let n = perm.len();
        let x = f.index_of();
        assert(vs.contains(vs[0]));
        assert(ordered(a, perm, n, x));
        lemma_reach_level(a, perm, n, x, vs[0]);
        match a[x as int] {
            ArenaNode::Internal { var_index, .. } => {
                assert(reach_vars(a, perm, n, x).contains(var_index));
                assert(vs.contains(var_index));
                let k = choose|k: int| 0 <= k < vs.len() && vs[k] == var_index;
                if k > 0 {
                    assert(self.order()[vs[0] as int] < self.order()[vs[k] as int]);
                }
            },
            ArenaNode::Constant => {},
        }
    }

    /// The cofactors of `f` by its top variable are `f` with that variable
    /// fixed.
    proof fn lemma_top_cofactors(&self, f: NodeId, v: u16, ft: NodeId, fe: NodeId)
        requires
            self.wf(),
            self.is_node(f),
            self.is_node(ft),
            self.is_node(fe),
            (v as nat) < self.var_count(),
            self.order()[v as int] == self.level_of(f),
            self.level_of(ft) > self.level_of(f),
            self.level_of(fe) > self.level_of(f),
            forall|asg: Seq<bool>|
                #[trigger] self.eval(f, asg) == if asg[v as int] {
                    self.eval(ft, asg)
                } else {
                    self.eval(fe, asg)
                },
        ensures
            forall|asg: Seq<bool>|
                asg.len() == self.var_count() ==> #[trigger] self.eval(ft, asg) == self.eval(f, asg.update(v as int, true)),
            forall|asg: Seq<bool>|
                asg.len() == self.var_count() ==> #[trigger] self.eval(fe, asg) == self.eval(f, asg.update(v as int, false)),
    {
        let a = self.nodes@;
        let perm = self.perm@;
        let n = perm.len();
        assert(ordered(a, perm, n, ft.index_of()));
        assert(ordered(a, perm, n, fe.index_of()));
        assert forall|asg: Seq<bool>| asg.len() == self.var_count() implies #[trigger] self.eval(ft, asg) == self.eval(
            f,
            asg.update(v as int, true),
        ) by {
            assert(self.eval(f, asg.update(v as int, true)) == self.eval(ft, asg.update(v as int, true)));
            crate::canon::lemma_free_above(a, perm, n, ft.index_of(), ft.compl_of(), asg, v as int, true);
        }
        assert forall|asg: Seq<bool>| asg.len() == self.var_count() implies #[trigger] self.eval(fe, asg) == self.eval(
            f,
            asg.update(v as int, false),
        ) by {
            assert(self.eval(f, asg.update(v as int, false)) == self.eval(fe, asg.update(v as int, false)));
            crate::canon::lemma_free_above(a, perm, n, fe.index_of(), fe.compl_of(), asg, v as int, false);
        }
    }

    /// `(g, h)` is the split of `f` by its support listing `vs` in halves:
    /// `g` is `f` with the lower half of the listing (its second half)
    /// quantified away and is not constant, `h` is the generalized cofactor
    /// of `f` by `g`, and `g AND h` is `f`.
    pub open spec fn halves_split(&self, f: NodeId, vs: Seq<u16>, g: NodeId, h: NodeId) -> bool {
        &&& self.is_node(g)
        &&& self.is_node(h)
        &&& vs.len() >= 2
        &&& self.quantifies(f, upper_half(vs), g)
        &&& g.index_of() != 0
        &&& self.constrains(f, g, h)
        &&& forall|asg: Seq<bool>|
            asg.len() == self.var_count() ==> #[trigger] self.eval(f, asg) == (self.eval(g, asg) && self.eval(h, asg))
    }

    /// Whether `f` implies `g`: the conjunction of `f` with the complement
    /// of `g` is the constant zero. Every old node keeps its function.
    /// Fails only when the arena is full.
    pub fn bdd_leq(&mut self, f: NodeId, g: NodeId) -> (r: Result<bool, DdError>)
        requires
            old(self).wf(),
            old(self).is_node(f),
            old(self).is_node(g),
        ensures
            final(self).wf(),
            final(self).extends(*old(self)),
            r matches Ok(b) ==> b == old(self).implies(f, g),
            r matches Err(err) ==> err == (DdError::OutOfNodes { limit: MAX_NODES })
                && final(self).arena().len() == MAX_NODES,
    {
        let ghost s0 = *self;
        proof {
            s0.lemma_negated(g);
        }
        let ng = self.bdd_not(g);
        let d = match self.bdd_and(f, ng) {
            Ok(x) => x,
            Err(err) => {
                return Err(err);
            },
        };
        proof {
            let s1 = *self;
            let n = s0.var_count();
            NodeId::lemma_parts(d);
            s1.lemma_constant_functions(d);
            if d.index_of() == 0 && d.compl_of() {
                assert forall|asg: Seq<bool>|
                    asg.len() == n && #[trigger] s0.eval(f, asg) implies s0.eval(g, asg) by {
                    assert(!s1.eval(d, asg));
                }
            } else {
                let w = choose|asg: Seq<bool>| asg.len() == n && #[trigger] s1.eval(d, asg);
                assert(s1.eval(d, w));
                assert(s0.eval(f, w) && !s0.eval(g, w));
            }
        }
        Ok(d.is_zero())
    }

    /// `x` is true exactly under the assignments that agree with `picks`.
    pub open spec fn is_cube(&self, x: NodeId, picks: Seq<(u16, bool)>) -> bool {
        forall|asg: Seq<bool>| #[trigger] self.eval(x, asg) == agrees(asg, picks)
    }

    /// `f` does not depend on the variables outside `vars`.
    pub open spec fn depends_only_on(&self, f: NodeId, vars: Seq<u16>) -> bool {
        forall|w: int, asg: Seq<bool>, b: bool|
            0 <= w < self.var_count() && !vars.contains(w as u16) && asg.len() == self.var_count()
                ==> #[trigger] self.eval(f, asg.update(w, b)) == self.eval(f, asg)
    }

    /// Setting the variables on the levels from `k` down to values from
    /// `b` leaves a function that depends on none of them unchanged.
    proof fn lemma_bulk_independent(&self, f: NodeId, vars: Seq<u16>, asg: Seq<bool>, b: Seq<bool>, k: nat)
        requires
            self.wf(),
            self.depends_only_on(f, vars),
            asg.len() == self.var_count(),
            b.len() == self.var_count(),
            k <= self.var_count(),
            forall|w: int|
                0 <= w < self.var_count() && self.order()[w] >= k ==> !vars.contains(#[trigger] (w as u16)),
        ensures
            self.eval(
                f,
                Seq::new(self.var_count(), |j: int| if self.order()[j] >= k { b[j] } else { asg[j] }),
            ) == self.eval(f, asg),
        decreases self.var_count() - k,
    {
        let n = self.var_count();
        let m = Seq::new(n, |j: int| if self.order()[j] >= k { b[j] } else { asg[j] });
        if k == n {
            assert forall|j: int| 0 <= j < n implies m[j] == asg[j] by {
                assert(self.perm@[j] < n);
            }
            assert(m =~= asg);
        } else {
            self.lemma_var_at(k);
            let w = self.var_at(k);
            let m1 = Seq::new(n, |j: int| if self.order()[j] >= k + 1 { b[j] } else { asg[j] });
            self.lemma_bulk_independent(f, vars, asg, b, k + 1);
            assert forall|j: int| 0 <= j < n implies m[j] == m1.update(w as int, b[w as int])[j] by {
                if j != w as int && self.perm@[j] == k {
                    assert(self.inv_perm@[self.perm@[j] as int] == j);
                }
            }
            assert(m =~= m1.update(w as int, b[w as int]));
            assert(!vars.contains((w as int) as u16));
            assert(self.eval(f, m1.update(w as int, b[w as int])) == self.eval(f, m1));
        }
    }

    /// Descending along a variable outside `vars` keeps a walk's promise
    /// when `f` does not depend on that variable.
    proof fn lemma_pick_descend(
        &self,
        f: NodeId,
        c0: NodeId,
        c1: NodeId,
        w: u16,
        b: bool,
        a: Seq<(u16, bool)>,
        vars: Seq<u16>,
    )
        requires
            self.wf(),
            self.is_node(c1),
            (w as nat) < self.var_count(),
            self.order()[w as int] < self.level_of(c1),
            !vars.contains(w),
            forall|i: int| 0 <= i < a.len() ==> vars.contains(#[trigger] a[i].0) && (a[i].0 as nat) < self.var_count(),
            self.depends_only_on(f, vars),
            forall|asg: Seq<bool>|
                asg.len() == self.var_count() && agrees(asg, a) && #[trigger] self.eval(c0, asg) ==> self.eval(f, asg),
            forall|asg: Seq<bool>| asg[w as int] == b ==> #[trigger] self.eval(c0, asg) == self.eval(c1, asg),
        ensures
            forall|asg: Seq<bool>|
                asg.len() == self.var_count() && agrees(asg, a) && #[trigger] self.eval(c1, asg) ==> self.eval(f, asg),
    {
        let n = self.var_count();
        assert forall|asg: Seq<bool>|
            asg.len() == n && agrees(asg, a) && #[trigger] self.eval(c1, asg) implies self.eval(f, asg) by {
            let asg2 = asg.update(w as int, b);
            assert(ordered(self.nodes@, self.perm@, n, c1.index_of()));
            lemma_independent(self.nodes@, self.perm@, n, c1.index_of(), c1.compl_of(), asg, w as nat, b);
            assert(self.eval(c1, asg2) == self.eval(c1, asg));
            assert(asg2[w as int] == b);
            assert(self.eval(c0, asg2) == self.eval(c1, asg2));
            assert forall|i: int| 0 <= i < a.len() implies asg2[(#[trigger] a[i]).0 as int] == a[i].1 by {
                assert(vars.contains(a[i].0));
                assert(a[i].0 != w);
            }
            assert(self.eval(f, asg2));
            assert(!vars.contains((w as int) as u16));
            assert(self.eval(f, asg.update(w as int, b)) == self.eval(f, asg));
        }
    }

    /// At the end of a walk over all of `vars`, every assignment that agrees
    /// with the picks makes `f` true, when `f` depends on no other variable.
    proof fn lemma_pick_finish(&self, f: NodeId, cur: NodeId, a: Seq<(u16, bool)>, vars: Seq<u16>)
        requires
            self.wf(),
            self.is_node(cur),
            !(cur.index_of() == 0 && cur.compl_of()),
            forall|i: int|
                0 <= i < a.len() ==> vars.contains(#[trigger] a[i].0) && (a[i].0 as nat) < self.var_count()
                    && self.order()[a[i].0 as int] < self.level_of(cur),
            forall|w: int|
                0 <= w < self.var_count() && vars.contains(#[trigger] (w as u16)) ==> self.order()[w] < self.level_of(cur),
            self.depends_only_on(f, vars),
            forall|asg: Seq<bool>|
                asg.len() == self.var_count() && agrees(asg, a) && #[trigger] self.eval(cur, asg) ==> self.eval(f, asg),
        ensures
            forall|asg: Seq<bool>| asg.len() == self.var_count() && agrees(asg, a) ==> #[trigger] self.eval(f, asg),
    {
        let n = self.var_count();
        let l = self.level_of(cur);
        let x = cur.index_of();
        let bw: Seq<bool> = if x == 0 {
            Seq::new(n, |i: int| false)
        } else {
            assert(ordered(self.nodes@, self.perm@, n, x));
            assert(reduced(self.nodes@));
            lemma_nonconstant(self.nodes@, self.perm@, n, x);
            if cur.compl_of() {
                choose|asg: Seq<bool>| asg.len() == n && !#[trigger] eval_node(self.nodes@, self.perm@, n, x, false, asg)
            } else {
                choose|asg: Seq<bool>| asg.len() == n && #[trigger] eval_node(self.nodes@, self.perm@, n, x, false, asg)
            }
        };
        if x != 0 {
            lemma_eval_negated(self.nodes@, self.perm@, n, x, false, bw);
        }
        assert(self.eval(cur, bw));
        assert(bw.len() == n);
        assert forall|asg: Seq<bool>| asg.len() == n && agrees(asg, a) implies #[trigger] self.eval(f, asg) by {
            let m = Seq::new(n, |j: int| if self.order()[j] >= l { bw[j] } else { asg[j] });
            assert(ordered(self.nodes@, self.perm@, n, x));
            lemma_agree_below(self.nodes@, self.perm@, n, x, cur.compl_of(), m, bw);
            assert(self.eval(cur, m));
            assert forall|i: int| 0 <= i < a.len() implies m[(#[trigger] a[i]).0 as int] == a[i].1 by {
                assert(self.order()[a[i].0 as int] < l);
            }
            assert(self.eval(f, m));
            assert forall|w: int| 0 <= w < n && self.order()[w] >= l implies !vars.contains(#[trigger] (w as u16)) by {
                if vars.contains(w as u16) {
                    assert(self.order()[w] < l);
                }
            }
            self.lemma_bulk_independent(f, vars, asg, bw, l);
        }
    }

    /// `x` is the cube of the literals that a pick's walk from `f` chooses
    /// over `vars` in level order (ties kept in their order in `vars`).
    pub open spec fn is_walk_pick(&self, x: NodeId, vars: Seq<u16>, old: Manager, f: NodeId) -> bool {
        exists|sorted: Seq<u16>|
            {
                &&& #[trigger] sorted.to_multiset() == vars.to_multiset()
                &&& forall|i: int, j: int|
                    0 <= i < j < sorted.len() ==> old.order()[#[trigger] sorted[i] as int] <= old.order()[#[trigger] sorted[j] as int]
                &&& self.is_cube(x, pick_walk(old.arena(), old.order(), old.var_count(), f, sorted, 0))
            }
    }

    /// `x` is a cube over `vars` (each variable of `vars` fixed, as often
    /// as it occurs there), and where `f` depends on no variable outside
    /// `vars` in `old`, the cube implies `f` there.
    pub open spec fn is_minterm_cube(&self, x: NodeId, vars: Seq<u16>, old: Manager, f: NodeId) -> bool {
        exists|picks: Seq<(u16, bool)>|
            {
                &&& #[trigger] self.is_cube(x, picks)
                &&& pick_vars(picks).to_multiset() == vars.to_multiset()
                &&& old.depends_only_on(f, vars) ==> forall|asg: Seq<bool>|
                    asg.len() == old.var_count() && agrees(asg, picks) ==> #[trigger] old.eval(f, asg)
            }
    }

    /// One minterm of `f` over `vars`, as a cube: walking down from `f`
    /// with `vars` in level order, a variable that the current node tests
    /// takes the then-branch unless that is zero, and every other variable
    /// is set to false. Zero for the zero function. Where `f` depends on no
    /// variable outside `vars`, the cube implies `f`. Every old node keeps
    /// its function.
    /// Fails only when the arena is full.
    pub fn bdd_pick_one_minterm(&mut self, f: NodeId, vars: &[u16]) -> (r: Result<NodeId, DdError>)
        requires
            old(self).wf(),
            old(self).is_node(f),
            forall|i: int| 0 <= i < vars@.len() ==> (#[trigger] vars@[i] as nat) < old(self).var_count(),
        ensures
            final(self).wf(),
            final(self).extends(*old(self)),
            r matches Ok(x) ==> {
                &&& final(self).is_node(x)
                &&& (f.index_of() == 0 && f.compl_of()) ==> x == f
                &&& !(f.index_of() == 0 && f.compl_of()) ==> final(self).is_minterm_cube(x, vars@, *old(self), f)
                &&& !(f.index_of() == 0 && f.compl_of()) ==> final(self).is_walk_pick(x, vars@, *old(self), f)
            },
            r matches Err(err) ==> err == (DdError::OutOfNodes { limit: MAX_NODES })
                && final(self).arena().len() == MAX_NODES,
    {
        let ghost s0 = *self;
        let ghost n = s0.var_count();
        proof {
            s0.lemma_level_bound(f);
            NodeId::lemma_parts(f);
        }
        if f.is_zero() {
            return Ok(f);
        }
        let sorted = self.sort_by_level(vars);
        let ghost hyp = s0.depends_only_on(f, vars@);
        proof {
            assert forall|w: u16| #[trigger] sorted@.contains(w) <==> vars@.contains(w) by {
                vstd::seq_lib::to_multiset_contains(vars@, w);
                vstd::seq_lib::to_multiset_contains(sorted@, w);
            }
        }
        let mut assignment: Vec<(u16, bool)> = Vec::new();
        let mut current = f;
        let mut idx: usize = 0;
        proof {
            assert(pick_walk(s0.arena(), s0.order(), s0.var_count(), f, sorted@, 0) =~= assignment@ + pick_walk(s0.arena(), s0.order(), s0.var_count(), f, sorted@, 0));
        }
        while idx < sorted.len()
            invariant
                pick_walk(s0.arena(), s0.order(), s0.var_count(), f, sorted@, 0) == assignment@ + pick_walk(s0.arena(), s0.order(), s0.var_count(), current, sorted@, idx as nat),
                *self == s0,
                s0.wf(),
                n == s0.var_count(),
                forall|i: int| 0 <= i < sorted@.len() ==> (#[trigger] sorted@[i] as nat) < n,
                forall|i: int, j: int|
                    0 <= i < j < sorted@.len() ==> s0.order()[#[trigger] sorted@[i] as int]
                        <= s0.order()[#[trigger] sorted@[j] as int],
                forall|w: u16| #[trigger] sorted@.contains(w) <==> vars@.contains(w),
                hyp == s0.depends_only_on(f, vars@),
                idx <= sorted@.len(),
                s0.is_node(current),
                !(current.index_of() == 0 && current.compl_of()),
                assignment@.len() == idx,
                forall|i: int| 0 <= i < idx ==> (#[trigger] assignment@[i]).0 == sorted@[i],
                forall|j: int| 0 <= j < idx ==> s0.order()[#[trigger] sorted@[j] as int] < s0.level_of(current),
                hyp ==> forall|asg: Seq<bool>|
                    asg.len() == n && agrees(asg, assignment@) && #[trigger] s0.eval(current, asg) ==> s0.eval(f, asg),
            decreases sorted@.len() - idx,
        {
            let v = sorted[idx];
            let lv = self.perm[v as usize];
            proof {
                s0.lemma_level_bound(current);
            }
            let ghost c_start = current;
            while current.raw_index() != 0 && self.level(current) < lv
                invariant
                    descend(s0.arena(), s0.order(), s0.var_count(), current, lv as nat) == descend(s0.arena(), s0.order(), s0.var_count(), c_start, lv as nat),
                    *self == s0,
                    s0.wf(),
                    n == s0.var_count(),
                    forall|i: int| 0 <= i < sorted@.len() ==> (#[trigger] sorted@[i] as nat) < n,
                    forall|i: int, j: int|
                        0 <= i < j < sorted@.len() ==> s0.order()[#[trigger] sorted@[i] as int]
                            <= s0.order()[#[trigger] sorted@[j] as int],
                    forall|w: u16| #[trigger] sorted@.contains(w) <==> vars@.contains(w),
                hyp == s0.depends_only_on(f, vars@),
                    idx < sorted@.len(),
                    v == sorted@[idx as int],
                    lv == s0.order()[v as int],
                    s0.is_node(current),
                    !(current.index_of() == 0 && current.compl_of()),
                    assignment@.len() == idx,
                    forall|i: int| 0 <= i < idx ==> (#[trigger] assignment@[i]).0 == sorted@[i],
                    forall|j: int| 0 <= j < idx ==> s0.order()[#[trigger] sorted@[j] as int] < s0.level_of(current),
                    hyp ==> forall|asg: Seq<bool>|
                        asg.len() == n && agrees(asg, assignment@) && #[trigger] s0.eval(current, asg) ==> s0.eval(f, asg),
                decreases n - s0.level_of(current),
            {
                let lc = self.level(current);
                let ghost w = s0.var_at(lc as nat);
                proof {
                    s0.lemma_level_bound(current);
                    s0.lemma_var_at(lc as nat);
                    if vars@.contains(w) {
                        assert(sorted@.contains(w));
                        let j = choose|j: int| 0 <= j < sorted@.len() && sorted@[j] == w;
                        if j < idx {
                            assert(s0.order()[sorted@[j] as int] < s0.level_of(current));
                        } else if j == idx {
                            assert(lv == lc);
                        } else {
                            assert(s0.order()[sorted@[idx as int] as int] <= s0.order()[sorted@[j] as int]);
                        }
                        assert(false);
                    }
                    assert forall|i: int| 0 <= i < assignment@.len() implies vars@.contains(#[trigger] assignment@[i].0)
                        && (assignment@[i].0 as nat) < n by {
                        assert(sorted@.contains(sorted@[i]));
                    }
                }
                let ghost c0 = current;
                let (t, e) = self.cofactors(current, lc);
                proof {
                    NodeId::lemma_parts(t);
                    NodeId::lemma_parts(e);
                    if t.index_of() == 0 && t.compl_of() && e.index_of() == 0 && e.compl_of() {
                        NodeId::lemma_same_parts(t, e);
                    }
                }
                if !t.is_zero() {
                    current = t;
                    proof {
                        if hyp {
                            assert forall|asg: Seq<bool>| asg[w as int] == true implies #[trigger] s0.eval(c0, asg)
                                == s0.eval(current, asg) by {}
                            s0.lemma_pick_descend(f, c0, current, w, true, assignment@, vars@);
                        }
                    }
                } else {
                    current = e;
                    proof {
                        if hyp {
                            assert forall|asg: Seq<bool>| asg[w as int] == false implies #[trigger] s0.eval(c0, asg)
                                == s0.eval(current, asg) by {}
                            s0.lemma_pick_descend(f, c0, current, w, false, assignment@, vars@);
                        }
                    }
                }
            }
            proof {
                s0.lemma_level_bound(current);
                s0.lemma_var_at(lv as nat);
                assert(s0.inv_perm@[s0.perm@[v as int] as int] == v);
            }
            let ghost c0 = current;
            let ghost a0 = assignment@;
            proof {
                s0.lemma_level_bound(current);
                assert(current == descend(s0.arena(), s0.order(), s0.var_count(), c_start, lv as nat));
            }
            if current.raw_index() == 0 {
                assignment.push((v, false));
                proof {
                    if hyp {
                        lemma_pick_step(s0, f, c0, current, a0, v, false, n);
                    }
                }
            } else {
                let lc = self.level(current);
                if lc == lv {
                    let (t, e) = self.cofactors(current, lv);
                    proof {
                        NodeId::lemma_parts(t);
                        NodeId::lemma_parts(e);
                        if t.index_of() == 0 && t.compl_of() && e.index_of() == 0 && e.compl_of() {
                            NodeId::lemma_same_parts(t, e);
                        }
                    }
                    if !t.is_zero() {
                        assignment.push((v, true));
                        current = t;
                        proof {
                            if hyp {
                                assert forall|asg: Seq<bool>| asg[v as int] == true implies #[trigger] s0.eval(c0, asg)
                                    == s0.eval(current, asg) by {}
                                lemma_pick_step(s0, f, c0, current, a0, v, true, n);
                            }
                        }
                    } else {
                        assignment.push((v, false));
                        current = e;
                        proof {
                            if hyp {
                                assert forall|asg: Seq<bool>| asg[v as int] == false implies #[trigger] s0.eval(c0, asg)
                                    == s0.eval(current, asg) by {}
                                lemma_pick_step(s0, f, c0, current, a0, v, false, n);
                            }
                        }
                    }
                } else {
                    proof {
                        s0.lemma_var_at(lc as nat);
                        assert(s0.inv_perm@[s0.perm@[s0.var_at(lc as nat) as int] as int] == s0.var_at(lc as nat));
                    }
                    assignment.push((v, false));
                    proof {
                        if hyp {
                            lemma_pick_step(s0, f, c0, current, a0, v, false, n);
                        }
                    }
                }
            }
            proof {
                assert(assignment@ == a0.push(assignment@[idx as int]));
                let st = pick_step(s0.arena(), s0.order(), s0.var_count(), c_start, v);
                assert(st.0 == assignment@[idx as int]);
                assert(st.1 == current);
                assert(pick_walk(s0.arena(), s0.order(), s0.var_count(), c_start, sorted@, idx as nat) == seq![st.0] + pick_walk(s0.arena(), s0.order(), s0.var_count(), current, sorted@, idx as nat + 1));
                assert(a0 + pick_walk(s0.arena(), s0.order(), s0.var_count(), c_start, sorted@, idx as nat) =~= assignment@ + pick_walk(s0.arena(), s0.order(), s0.var_count(), current, sorted@, idx as nat + 1));
            }
            idx = idx + 1;
        }
        proof {
            s0.lemma_level_bound(current);
            if hyp {
                assert forall|i: int| 0 <= i < assignment@.len() implies vars@.contains(#[trigger] assignment@[i].0)
                    && (assignment@[i].0 as nat) < n && s0.order()[assignment@[i].0 as int] < s0.level_of(current) by {
                    assert(sorted@.contains(sorted@[i]));
                }
                assert forall|w: int| 0 <= w < n && vars@.contains(#[trigger] (w as u16)) implies s0.order()[w]
                    < s0.level_of(current) by {
                    assert(sorted@.contains(w as u16));
                    let j = choose|j: int| 0 <= j < sorted@.len() && sorted@[j] == w as u16;
                    assert(s0.order()[sorted@[j] as int] < s0.level_of(current));
                }
                s0.lemma_pick_finish(f, current, assignment@, vars@);
            }
            assert(pick_vars(assignment@) =~= sorted@);
            assert(pick_walk(s0.arena(), s0.order(), s0.var_count(), current, sorted@, idx as nat) =~= Seq::<(u16, bool)>::empty());
            assert(pick_walk(s0.arena(), s0.order(), s0.var_count(), f, sorted@, 0) =~= assignment@);
        }
        let result = match self.cube_of_picks(&assignment) {
            Ok(x) => x,
            Err(err) => {
                return Err(err);
            },
        };
        proof {
            assert(self.is_cube(result, assignment@));
            assert(pick_vars(assignment@).to_multiset() == vars@.to_multiset());
            let picks = assignment@;
            assert(s0.depends_only_on(f, vars@) ==> forall|asg: Seq<bool>|
                asg.len() == s0.var_count() && agrees(asg, picks) ==> #[trigger] s0.eval(f, asg));
            assert(self.is_walk_pick(result, vars@, s0, f)) by {
                assert(sorted@.to_multiset() == vars@.to_multiset());
                assert(self.is_cube(result, pick_walk(s0.arena(), s0.order(), s0.var_count(), f, sorted@, 0)));
            }
            assert(self.is_minterm_cube(result, vars@, s0, f)) by {
                assert(self.is_cube(result, picks));
            }
        }
        Ok(result)
    }

    /// The conjunction of the literals `picks`, built from the last one to
    /// the first. Every old node keeps its function. Fails only when the
    /// arena is full.
    fn cube_of_picks(&mut self, picks: &Vec<(u16, bool)>) -> (r: Result<NodeId, DdError>)
        requires
            old(self).wf(),
            forall|i: int| 0 <= i < picks@.len() ==> ((#[trigger] picks@[i]).0 as nat) < old(self).var_count(),
        ensures
            final(self).wf(),
            final(self).extends(*old(self)),
            r matches Ok(x) ==> final(self).is_node(x) && final(self).is_cube(x, picks@),
            r matches Err(err) ==> err == (DdError::OutOfNodes { limit: MAX_NODES })
                && final(self).arena().len() == MAX_NODES,
    {
        let ghost s0 = *self;
        let one = NodeId::one();
        let zero = NodeId::zero();
        let mut result = one;
        let mut k = picks.len();
        proof {
            assert(picks@.skip(k as int) =~= Seq::<(u16, bool)>::empty());
        }
        while k > 0
            invariant
                s0.wf(),
                s0 == *old(self),
                self.wf(),
                self.extends(s0),
                k <= picks@.len(),
                one.index_of() == 0 && !one.compl_of(),
                zero.index_of() == 0 && zero.compl_of(),
                forall|i: int| 0 <= i < picks@.len() ==> ((#[trigger] picks@[i]).0 as nat) < s0.var_count(),
                self.is_node(result),
                forall|asg: Seq<bool>| #[trigger] self.eval(result, asg) == agrees(asg, picks@.skip(k as int)),
            decreases k,
        {
            k = k - 1;
            let (v, phase) = picks[k];
            let ghost s1 = *self;
            let var_node = match self.unique_inter(v, one, zero) {
                Ok(x) => x,
                Err(err) => {
                    return Err(err);
                },
            };
            let ghost s2 = *self;
            proof {
                Manager::lemma_keeps(s2, s1);
                s2.lemma_negated(var_node);
            }
            let lit = if phase {
                var_node
            } else {
                self.bdd_not(var_node)
            };
            let next = match self.bdd_and(lit, result) {
                Ok(x) => x,
                Err(err) => {
                    return Err(err);
                },
            };
            proof {
                let a = picks@;
                assert(a.skip(k as int)[0] == (v, phase));
                assert(a.skip(k as int).skip(1) =~= a.skip(k + 1));
                assert forall|asg: Seq<bool>| #[trigger] self.eval(next, asg) == agrees(asg, a.skip(k as int)) by {
                    assert(s2.eval(result, asg) == s1.eval(result, asg));
                    assert(s2.eval(lit, asg) == (asg[v as int] == phase));
                    let sk = a.skip(k as int);
                    if agrees(asg, sk) {
                        assert forall|i: int| 0 <= i < a.skip(k + 1).len() implies asg[(#[trigger] a.skip(k + 1)[i]).0 as int]
                            == a.skip(k + 1)[i].1 by {
                            assert(a.skip(k + 1)[i] == sk[i + 1]);
                        }
                    }
                    if asg[v as int] == phase && agrees(asg, a.skip(k + 1)) {
                        assert forall|i: int| 0 <= i < sk.len() implies asg[(#[trigger] sk[i]).0 as int] == sk[i].1 by {
                            if i > 0 {
                                assert(sk[i] == a.skip(k + 1)[i - 1]);
                            }
                        }
                    }
                }
            }
            result = next;
        }
        proof {
            assert(picks@.skip(0) =~= picks@);
        }
        Ok(result)
    }

    /// The conjunction of the variables `vars`, built from the deepest level
    /// up. Every old node keeps its function. Fails only when the arena is
    /// full.
    pub fn bdd_cube(&mut self, vars: &[u16]) -> (r: Result<NodeId, DdError>)
        requires
            old(self).wf(),
            forall|i: int| 0 <= i < vars@.len() ==> (#[trigger] vars@[i] as nat) < old(self).var_count(),
        ensures
            final(self).wf(),
            final(self).extends(*old(self)),
            r matches Ok(x) ==> final(self).is_node(x) && forall|asg: Seq<bool>|
                #[trigger] final(self).eval(x, asg) == forall|i: int| 0 <= i < vars@.len() ==> asg[#[trigger] vars@[i] as int],
            r matches Err(err) ==> err == (DdError::OutOfNodes { limit: MAX_NODES })
                && final(self).arena().len() == MAX_NODES,
    {
        let sorted = self.sort_by_level(vars);
        let mut picks: Vec<(u16, bool)> = Vec::new();
        let mut i: usize = 0;
        while i < sorted.len()
            invariant
                i <= sorted@.len(),
                picks@.len() == i,
                forall|j: int| 0 <= j < i ==> #[trigger] picks@[j] == (sorted@[j], true),
            decreases sorted@.len() - i,
        {
            picks.push((sorted[i], true));
            i = i + 1;
        }
        let r = self.cube_of_picks(&picks);
        proof {
            if r is Ok {
                let x = r->Ok_0;
                assert forall|asg: Seq<bool>| #[trigger] self.eval(x, asg) == forall|i: int|
                    0 <= i < vars@.len() ==> asg[#[trigger] vars@[i] as int] by {
                    if agrees(asg, picks@) {
                        assert forall|i: int| 0 <= i < vars@.len() implies asg[#[trigger] vars@[i] as int] by {
                            let w = vars@[i];
                            assert(vars@.contains(w));
                            vstd::seq_lib::to_multiset_contains(vars@, w);
                            vstd::seq_lib::to_multiset_contains(sorted@, w);
                            let j = choose|j: int| 0 <= j < sorted@.len() && sorted@[j] == w;
                            assert(picks@[j] == (w, true));
                        }
                    }
                    if forall|i: int| 0 <= i < vars@.len() ==> asg[#[trigger] vars@[i] as int] {
                        assert forall|j: int| 0 <= j < picks@.len() implies asg[(#[trigger] picks@[j]).0 as int]
                            == picks@[j].1 by {
                            let w = sorted@[j];
                            assert(sorted@.contains(w));
                            vstd::seq_lib::to_multiset_contains(vars@, w);
                            vstd::seq_lib::to_multiset_contains(sorted@, w);
                            let i = choose|i: int| 0 <= i < vars@.len() && vars@[i] == w;
                            assert(asg[vars@[i] as int]);
                        }
                    }
                }
            }
        }
        r
    }

    /// The projection function of variable `i`, adding variables up to `i`
    /// first where there are fewer. Every old node keeps its function. Fails
    /// only when the arena is full.
    pub fn bdd_ith_var(&mut self, i: u16) -> (r: Result<NodeId, DdError>)
        requires
            old(self).wf(),
            i < 0xFFFF,
        ensures
            final(self).wf(),
            r is Ok ==> final(self).var_count() == if (i as nat) < old(self).var_count() {
                old(self).var_count()
            } else {
                i as nat + 1
            },
            final(self).order().take(old(self).var_count() as int) == old(self).order(),
            final(self).keeps_functions_of(*old(self)),
            r matches Ok(x) ==> final(self).is_node(x) && forall|asg: Seq<bool>|
                #[trigger] final(self).eval(x, asg) == asg[i as int],
            r matches Err(err) ==> err == (DdError::OutOfNodes { limit: MAX_NODES }),
    {
        let ghost s0 = *self;
        while self.perm.len() <= i as usize
            invariant
                self.wf(),
                s0.wf(),
                s0 == *old(self),
                i < 0xFFFF,
                s0.var_count() <= self.var_count(),
                self.var_count() <= if (i as nat) < s0.var_count() {
                    s0.var_count()
                } else {
                    i as nat + 1
                },
                self.order().take(s0.var_count() as int) == s0.order(),
                s0.arena().len() <= self.arena().len(),
                self.keeps_functions_of(s0),
            decreases i as nat + 1 - self.var_count(),
        {
            let ghost s1 = *self;
            let res = self.bdd_new_var();
            proof {
                assert(self.order().take(s0.var_count() as int) =~= s1.order().take(s0.var_count() as int));
                Manager::lemma_keeps_trans(s0, s1, *self);
                if res.is_err() {
                    assert(s1.arena().len() == MAX_NODES);
                }
            }
            if let Err(err) = res {
                return Err(err);
            }
        }
        let one = NodeId::one();
        let zero = NodeId::zero();
        let ghost s1 = *self;
        let r = self.unique_inter(i, one, zero);
        proof {
            Manager::lemma_keeps(*self, s1);
            Manager::lemma_keeps_trans(s0, s1, *self);
        }
        r
    }

    /// Keeping functions carries over a chain of managers.
    proof fn lemma_keeps_trans(a: Manager, b: Manager, c: Manager)
        requires
            a.arena().len() <= b.arena().len() <= c.arena().len(),
            b.keeps_functions_of(a),
            c.keeps_functions_of(b),
        ensures
            c.keeps_functions_of(a),
    {
        assert forall|f: NodeId, asg: Seq<bool>|
            #![trigger c.eval(f, asg)]
            a.is_node(f) implies (c.is_node(f) && c.eval(f, asg) == a.eval(f, asg)) by {
            assert(b.eval(f, asg) == a.eval(f, asg));
            assert(c.eval(f, asg) == b.eval(f, asg));
        }
    }

    /// The inverse of the order: the variable on each level.
    pub closed spec fn inv_order(&self) -> Seq<u32> {
        self.inv_perm@
    }

    /// `ns` lists the nodes of `f` for a dump as `dump_nodes` does, with the
    /// edge to the root complemented where `c` holds.
    pub open spec fn dump_of(&self, f: NodeId, ns: Seq<DumpNode>, c: bool) -> bool {
        &&& ns.len() >= 1
        &&& ns[0] == one_entry()
        &&& well_listed(ns, 0)
        &&& ns.len() <= self.arena().len()
        &&& c == f.compl_of()
        &&& terminals_one(ns)
        &&& dump_shape(ns, root_seq(ns) as nat) == arena_shape(self.arena(), f.index_of(), self.arena().len())
    }

    /// A dump lists the function it was made from: the tree that the
    /// listing of `f` unfolds to from its root, with the root edge's
    /// complement, is `f` under every assignment. Loading the listing
    /// (`load_dump`) therefore gives back `f`'s function.
    pub proof fn lemma_dump_function(&self, f: NodeId, ns: Seq<DumpNode>, c: bool)
        requires
            self.wf(),
            self.is_node(f),
            self.dump_of(f, ns, c),
        ensures
            forall|asg: Seq<bool>|
                #[trigger] shape_eval(dump_shape(ns, root_seq(ns) as nat), c, asg) == self.eval(f, asg),
    {
        let a = self.nodes@;
        assert forall|y: int| 0 <= y < a.len() implies match #[trigger] a[y] {
            ArenaNode::Internal { var_index, .. } => var_index != CONST_INDEX,
            ArenaNode::Constant => true,
        } by {
            assert(ordered(a, self.perm@, self.perm@.len(), y as nat));
        }
        lemma_sound_from_children_before(a, f.index_of());
        assert(ordered(a, self.perm@, self.perm@.len(), f.index_of()));
        assert forall|asg: Seq<bool>| #[trigger] shape_eval(dump_shape(ns, root_seq(ns) as nat), c, asg) == self.eval(f, asg) by {
            lemma_shape_of_node(a, self.perm@, self.perm@.len(), f.index_of(), a.len(), c, asg);
        }
    }

    /// The CNF that `dddmp_save_cnf` writes for a non-constant `f` has as
    /// its models, cut down to the manager's variables, exactly the
    /// assignments under which `f` is true: an assignment that makes `f`
    /// true extends to a model, and every model makes `f` true.
    pub proof fn lemma_cnf_models_of(&self, f: NodeId, ns: Seq<DumpNode>, c: bool, asg: Seq<bool>)
        requires
            self.wf(),
            self.is_node(f),
            self.dump_of(f, ns, c),
            vars_below(ns, self.var_count()),
            asg.len() == self.var_count(),
        ensures
            (exists|m: Seq<bool>|
                m.len() == self.var_count() + ns.len() + 1 && diagram_part(m, self.var_count()) == asg
                    && #[trigger] clauses_hold(m, cnf_clauses_of(self.var_count(), ns, c))) == self.eval(f, asg),
    {
        self.lemma_dump_function(f, ns, c);
        lemma_cnf_models(ns, self.var_count(), c, asg);
        assert(shape_eval(dump_shape(ns, root_seq(ns) as nat), c, asg) == self.eval(f, asg));
    }

    /// The text dump of `f`: the header for this manager's variables and
    /// order, the nodes as `dump_nodes` lists them, and `.end`.
    pub fn dddmp_save_text(&self, f: NodeId, var_names: Option<&[&str]>) -> (r: String)
        requires
            self.wf(),
            self.is_node(f),
        ensures
            exists|ns: Seq<DumpNode>, c: bool|
                #[trigger] self.dump_of(f, ns, c) && r@ == header_text(
                    false,
                    ns,
                    c,
                    self.var_count(),
                    self.inv_order(),
                    self.order(),
                    names_view(var_names),
                ) + node_lines(ns) + ".end\n"@,
    {
        let (nodes, comp) = self.dump_nodes(f);
        let r = dump_text(
            nodes.as_slice(),
            comp,
            self.perm.len() as u16,
            self.inv_perm.as_slice(),
            self.perm.as_slice(),
            var_names,
        );
        proof {
            assert(self.dump_of(f, nodes@, comp));
        }
        r
    }

    /// The binary dump of `f`: the header for this manager's variables and
    /// order, the node data of the nodes as `dump_nodes` lists them, and
    /// `.end`.
    pub fn dddmp_save_binary(&self, f: NodeId) -> (r: Vec<u8>)
        requires
            self.wf(),
            self.is_node(f),
        ensures
            exists|ns: Seq<DumpNode>, c: bool|
                #[trigger] self.dump_of(f, ns, c) && r@ == binary_dump(
                    ns,
                    c,
                    self.var_count(),
                    self.inv_order(),
                    self.order(),
                ),
    {
        let (nodes, comp) = self.dump_nodes(f);
        let r = dump_binary(nodes.as_slice(), comp, self.perm.len() as u16, self.inv_perm.as_slice(), self.perm.as_slice());
        proof {
            assert(self.dump_of(f, nodes@, comp));
        }
        r
    }

    /// The DIMACS CNF of `f` over the nodes as `dump_nodes` lists them;
    /// `None` where `f` is not constant and the variables, the nodes and the
    /// root literal do not all number within `i32`.
    pub fn dddmp_save_cnf(&self, f: NodeId) -> (r: Option<String>)
        requires
            self.wf(),
            self.is_node(f),
        ensures
            r matches Some(t) ==> exists|ns: Seq<DumpNode>, c: bool|
                #[trigger] self.dump_of(f, ns, c) && vars_below(ns, self.var_count()) && t@ == cnf_text_of(
                    f,
                    self.var_count(),
                    ns,
                    c,
                ),
            r is None ==> f.index_of() != 0 && exists|ns: Seq<DumpNode>, c: bool|
                #[trigger] self.dump_of(f, ns, c) && self.var_count() + ns.len() + 1 > 0x7FFF_FFFF,
    {
        let (nodes, comp) = self.dump_nodes(f);
        proof {
            assert(self.dump_of(f, nodes@, comp));
            assert(vars_below(nodes@, self.var_count()));
        }
        if !f.is_constant() && self.perm.len() + nodes.len() + 1 > 0x7FFF_FFFF {
            return None;
        }
        Some(cnf_text(f, nodes.as_slice(), comp, self.perm.len() as u16))
    }

    /// The nodes of `f` listed for a dump (see `topo_sort`): the constant
    /// one first, each node after its children, the root last; and whether
    /// the edge to the root is complemented. The listing unfolds from the
    /// root to the tree that `f` unfolds to in the arena.
    pub fn dump_nodes(&self, f: NodeId) -> (r: (Vec<DumpNode>, bool))
        requires
            self.wf(),
            self.is_node(f),
        ensures
            r.0@.len() >= 1,
            r.0@[0] == one_entry(),
            well_listed(r.0@, 0),
            r.0@.len() <= self.arena().len(),
            r.1 == f.compl_of(),
            terminals_one(r.0@),
            vars_below(r.0@, self.var_count()),
            dump_shape(r.0@, root_seq(r.0@) as nat) == arena_shape(
                self.arena(),
                f.index_of(),
                self.arena().len(),
            ),
    {
        proof {
            let a = self.nodes@;
            assert forall|y: int| 0 <= y < a.len() implies match #[trigger] a[y] {
                ArenaNode::Internal { var_index, .. } => var_index != CONST_INDEX,
                ArenaNode::Constant => true,
            } by {
                assert(ordered(a, self.perm@, self.perm@.len(), y as nat));
            }
            lemma_sound_from_children_before(a, f.index_of());
            assert forall|x: int| 0 < x < a.len() implies #[trigger] a[x] is Internal by {
                assert(ordered(a, self.perm@, self.perm@.len(), x as nat));
            }
            assert forall|x: int| 0 <= x < a.len() implies match #[trigger] a[x] {
                ArenaNode::Internal { var_index, .. } => (var_index as nat) < self.var_count(),
                ArenaNode::Constant => true,
            } by {
                assert(ordered(a, self.perm@, self.perm@.len(), x as nat));
            }
            lemma_var_bound_le(a, self.var_count());
        }
        let r = topo_sort(self.nodes.as_slice(), f);
        proof {
            assert forall|i: int| 0 <= i < r.0@.len() && (#[trigger] r.0@[i]).var_index != CONST_INDEX implies (
            r.0@[i].var_index as nat) < self.var_count() by {
                assert((r.0@[i].var_index as nat) < var_bound(self.nodes@));
            }
        }
        r
    }

    /// Rebuild in this manager the diagram that a dump lists: first add
    /// variables up to `num_vars`, then make each listed node in order (the
    /// constant one, any other constant as zero, an internal node through
    /// the unique table from its children listed before it), and return the
    /// root numbered `root`, complemented where `root_comp` holds. Fails
    /// where a node's child is not listed before it, its variable is not the
    /// manager's or not above its children's in the order, the root is not
    /// listed, or the arena is full. Every old node keeps its function.
    pub fn load_dump(&mut self, num_vars: u16, nodes: &[DumpNode], root: u32, root_comp: bool) -> (r: Result<
        NodeId,
        LoadError,
    >)
        requires
            old(self).wf(),
        ensures
            final(self).wf(),
            old(self).arena().len() <= final(self).arena().len(),
            final(self).keeps_functions_of(*old(self)),
            final(self).order().take(old(self).var_count() as int) == old(self).order(),
            r matches Ok(x) ==> {
                &&& final(self).is_node(x)
                &&& final(self).var_count() >= num_vars
                &&& forall|asg: Seq<bool>|
                    #[trigger] final(self).eval(x, asg) == shape_eval(dump_shape(nodes@, root as nat), root_comp, asg)
            },
            r matches Err(e) ==> e == LoadError::BadChild || e == LoadError::VarOutOfRange || e == LoadError::Unordered
                || e == LoadError::OutOfNodes || e == LoadError::RootOutOfRange,
            r matches Err(LoadError::BadChild) ==> exists|k: int|
                0 <= k < nodes@.len() && (#[trigger] nodes@[k]).var_index != CONST_INDEX && !(1 <= nodes@[k].then_seq
                    <= k && 1 <= nodes@[k].else_seq <= k),
            r matches Err(LoadError::VarOutOfRange) ==> exists|k: int|
                0 <= k < nodes@.len() && (#[trigger] nodes@[k]).var_index != CONST_INDEX && nodes@[k].var_index
                    >= final(self).var_count(),
            r matches Err(LoadError::RootOutOfRange) ==> root == 0 || root > nodes@.len(),
            r matches Err(LoadError::Unordered) ==> exists|k: int|
                0 <= k < nodes@.len() && #[trigger] dump_unordered_at(final(self).order(), nodes@, k),
            r matches Err(LoadError::OutOfNodes) ==> final(self).arena().len() >= MAX_NODES,
    {
        let ghost s0 = *self;
        while self.perm.len() < num_vars as usize
            invariant
                self.wf(),
                s0.wf(),
                s0 == *old(self),
                s0.var_count() <= self.var_count(),
                self.var_count() <= if (num_vars as nat) > s0.var_count() {
                    num_vars as nat
                } else {
                    s0.var_count()
                },
                self.order().take(s0.var_count() as int) == s0.order(),
                s0.arena().len() <= self.arena().len(),
                self.keeps_functions_of(s0),
            decreases num_vars - self.var_count(),
        {
            let ghost s1 = *self;
            let res = self.bdd_new_var();
            proof {
                assert(self.order().take(s0.var_count() as int) =~= s1.order().take(s0.var_count() as int));
                Manager::lemma_keeps_trans(s0, s1, *self);
            }
            if res.is_err() {
                return Err(LoadError::OutOfNodes);
            }
        }
        let ghost s1 = *self;
        let one = NodeId::one();
        let zero = NodeId::zero();
        let mut map: Vec<NodeId> = Vec::new();
        map.push(zero);
        let mut k: usize = 0;
        while k < nodes.len()
            invariant
                s0.wf(),
                s0 == *old(self),
                s1.wf(),
                self.wf(),
                self.extends(s1),
                s0.arena().len() <= s1.arena().len(),
                s1.keeps_functions_of(s0),
                s1.order().take(s0.var_count() as int) == s0.order(),
                s1.var_count() >= num_vars,
                one.index_of() == 0 && !one.compl_of(),
                zero.index_of() == 0 && zero.compl_of(),
                k <= nodes@.len(),
                map@.len() == k + 1,
                forall|j: int| 1 <= j <= k ==> self.is_node(#[trigger] map@[j]),
                forall|j: int|
                    1 <= j <= k ==> self.level_of(#[trigger] map@[j]) >= dump_level(self.order(), nodes@, j as nat),
                forall|j: int, asg: Seq<bool>|
                    1 <= j <= k ==> #[trigger] self.eval(map@[j], asg) == shape_eval(dump_shape(nodes@, j as nat), false, asg),
            decreases nodes@.len() - k,
        {
            let nd = nodes[k];
            let ghost sk = *self;
            if nd.var_index == CONST_INDEX {
                let c = if nd.is_one {
                    one
                } else {
                    zero
                };
                map.push(c);
                proof {
                    assert(nodes@[k as int] == nd);
                    assert forall|j: int|
                        1 <= j <= k + 1 implies self.level_of(#[trigger] map@[j]) >= dump_level(self.order(), nodes@, j as nat) by {
                        if j <= k {
                            assert(map@[j] == map@.drop_last()[j]);
                        }
                    }
                    assert forall|j: int, asg: Seq<bool>|
                        1 <= j <= k + 1 implies #[trigger] self.eval(map@[j], asg) == shape_eval(dump_shape(nodes@, j as nat), false, asg) by {
                        if j <= k {
                            assert(map@[j] == map@.drop_last()[j]);
                        }
                    }
                }
            } else {
                if nd.then_seq == 0 || nd.then_seq as usize > k || nd.else_seq == 0 || nd.else_seq as usize > k {
                    proof {
                        assert(nodes@[k as int] == nd);
                Manager::lemma_keeps(*self, s1);
                Manager::lemma_keeps_trans(s0, s1, *self);
                    }
                    return Err(LoadError::BadChild);
                }
                if nd.var_index as usize >= self.perm.len() {
                    proof {
                        assert(nodes@[k as int] == nd);
                Manager::lemma_keeps(*self, s1);
                Manager::lemma_keeps_trans(s0, s1, *self);
                    }
                    return Err(LoadError::VarOutOfRange);
                }
                let tn = map[nd.then_seq as usize];
                let en = map[nd.else_seq as usize];
                proof {
                    self.lemma_negated(tn);
                    self.lemma_negated(en);
                }
                let t = tn.not_cond(nd.then_comp);
                let e = en.not_cond(nd.else_comp);
                let lv = self.perm[nd.var_index as usize];
                let lt = self.level(t);
                let le = self.level(e);
                if !(lv < lt && lv < le) {
                    proof {
                Manager::lemma_keeps(*self, s1);
                Manager::lemma_keeps_trans(s0, s1, *self);
                        assert(nodes@[k as int] == nd);
                        assert(self.level_of(map@[nd.then_seq as int]) >= dump_level(self.order(), nodes@, nd.then_seq as nat));
                        assert(self.level_of(map@[nd.else_seq as int]) >= dump_level(self.order(), nodes@, nd.else_seq as nat));
                        assert(dump_unordered_at(self.order(), nodes@, k as int));
                    }
                    return Err(LoadError::Unordered);
                }
                let r = match self.unique_inter(nd.var_index, t, e) {
                    Ok(x) => x,
                    Err(_) => {
                        proof {
                            assert(self.arena().len() == MAX_NODES);
                Manager::lemma_keeps(*self, s1);
                Manager::lemma_keeps_trans(s0, s1, *self);
                        }
                        return Err(LoadError::OutOfNodes);
                    },
                };
                map.push(r);
                proof {
                    let sn = *self;
                    Manager::lemma_keeps(sn, sk);
                    assert(nodes@[k as int] == nd);
                    let ts = nd.then_seq as int;
                    let es = nd.else_seq as int;
                    assert forall|asg: Seq<bool>| #[trigger] sk.eval(t, asg) == shape_eval(dump_shape(nodes@, ts as nat), nd.then_comp, asg) by {
                        lemma_shape_negated(dump_shape(nodes@, ts as nat), false, asg);
                        assert(sk.eval(tn, asg) == shape_eval(dump_shape(nodes@, ts as nat), false, asg));
                    }
                    assert forall|asg: Seq<bool>| #[trigger] sk.eval(e, asg) == shape_eval(dump_shape(nodes@, es as nat), nd.else_comp, asg) by {
                        lemma_shape_negated(dump_shape(nodes@, es as nat), false, asg);
                        assert(sk.eval(en, asg) == shape_eval(dump_shape(nodes@, es as nat), false, asg));
                    }
                    assert forall|j: int| 1 <= j <= k + 1 implies sn.is_node(#[trigger] map@[j]) by {
                        if j <= k {
                            assert(map@[j] == map@.drop_last()[j]);
                        }
                    }
                    assert forall|j: int|
                        1 <= j <= k + 1 implies sn.level_of(#[trigger] map@[j]) >= dump_level(sn.order(), nodes@, j as nat) by {
                        if j <= k {
                            assert(map@[j] == map@.drop_last()[j]);
                            assert(sn.arena()[map@[j].index_of() as int] == sk.arena()[map@[j].index_of() as int]);
                            assert(sn.level_of(map@[j]) == sk.level_of(map@[j]));
                        }
                    }
                    assert forall|j: int, asg: Seq<bool>|
                        1 <= j <= k + 1 implies #[trigger] sn.eval(map@[j], asg) == shape_eval(dump_shape(nodes@, j as nat), false, asg) by {
                        if j <= k {
                            assert(sn.eval(map@[j], asg) == sk.eval(map@[j], asg));
                        } else {
                            assert(sk.eval(t, asg) == shape_eval(dump_shape(nodes@, ts as nat), nd.then_comp, asg));
                            assert(sk.eval(e, asg) == shape_eval(dump_shape(nodes@, es as nat), nd.else_comp, asg));
                        }
                    }
                }
            }
            k = k + 1;
        }
        if root == 0 || root as usize > nodes.len() {
            proof {
                Manager::lemma_keeps(*self, s1);
                Manager::lemma_keeps_trans(s0, s1, *self);
            }
            return Err(LoadError::RootOutOfRange);
        }
        let x0 = map[root as usize];
        proof {
            self.lemma_negated(x0);
        }
        let x = x0.not_cond(root_comp);
        proof {
            Manager::lemma_keeps(*self, s1);
            Manager::lemma_keeps_trans(s0, s1, *self);
            assert forall|asg: Seq<bool>| #[trigger] self.eval(x, asg) == shape_eval(dump_shape(nodes@, root as nat), root_comp, asg) by {
                lemma_shape_negated(dump_shape(nodes@, root as nat), false, asg);
                assert(self.eval(x0, asg) == shape_eval(dump_shape(nodes@, root as nat), false, asg));
            }
        }
        Ok(x)
    }

    /// The level of variable `v`.
    pub fn read_perm(&self, v: u16) -> (r: u32)
        requires
            self.wf(),
            (v as nat) < self.var_count(),
        ensures
            r == self.order()[v as int],
    {
        self.perm[v as usize]
    }

    /// The variable on level `l`.
    pub fn read_inv_perm(&self, l: u32) -> (r: u16)
        requires
            self.wf(),
            (l as nat) < self.var_count(),
        ensures
            r == self.var_at(l as nat),
            self.order()[r as int] == l,
    {
        proof {
            self.lemma_var_at(l as nat);
        }
        self.inv_perm[l as usize] as u16
    }

    /// `vars` sorted by level, stably: each variable goes after those on
    /// its level or above.
    fn sort_by_level(&self, vars: &[u16]) -> (r: Vec<u16>)
        requires
            self.wf(),
            forall|i: int| 0 <= i < vars@.len() ==> (#[trigger] vars@[i] as nat) < self.var_count(),
        ensures
            r@.to_multiset() == vars@.to_multiset(),
            forall|i: int| 0 <= i < r@.len() ==> (#[trigger] r@[i] as nat) < self.var_count(),
            forall|i: int, j: int|
                0 <= i < j < r@.len() ==> self.order()[#[trigger] r@[i] as int] <= self.order()[#[trigger] r@[j] as int],
    {
        let mut out: Vec<u16> = Vec::new();
        let mut k: usize = 0;
        proof {
            assert(out@ =~= vars@.take(0));
        }
        while k < vars.len()
            invariant
                self.wf(),
                k <= vars@.len(),
                forall|i: int| 0 <= i < vars@.len() ==> (#[trigger] vars@[i] as nat) < self.var_count(),
                out@.to_multiset() == vars@.take(k as int).to_multiset(),
                forall|i: int| 0 <= i < out@.len() ==> (#[trigger] out@[i] as nat) < self.var_count(),
                forall|i: int, j: int|
                    0 <= i < j < out@.len() ==> self.order()[#[trigger] out@[i] as int] <= self.order()[#[trigger] out@[j] as int],
            decreases vars@.len() - k,
        {
            let v = vars[k];
            let lv = self.perm[v as usize];
            let mut p: usize = 0;
            while p < out.len() && self.perm[out[p] as usize] <= lv
                invariant
                    self.wf(),
                    p <= out@.len(),
                    (v as nat) < self.var_count(),
                    lv == self.order()[v as int],
                    forall|i: int| 0 <= i < out@.len() ==> (#[trigger] out@[i] as nat) < self.var_count(),
                    forall|q: int| 0 <= q < p ==> self.order()[#[trigger] out@[q] as int] <= lv,
                decreases out@.len() - p,
            {
                p = p + 1;
            }
            let ghost before = out@;
            out.insert(p, v);
            proof {
                vstd::seq_lib::to_multiset_insert(before, p as int, v);
                assert(vars@.take(k + 1) =~= vars@.take(k as int).push(v));
                vstd::seq_lib::to_multiset_build(vars@.take(k as int), v);
                assert forall|i: int, j: int|
                    0 <= i < j < out@.len() implies self.order()[#[trigger] out@[i] as int] <= self.order()[#[trigger] out@[j] as int] by {
                    if p < before.len() {
                        assert(self.order()[before[p as int] as int] > lv);
                    }
                    if i < p && j == p {
                    } else if i < p && j > p {
                        assert(out@[j] == before[j - 1]);
                        assert(self.order()[before[p as int] as int] <= self.order()[before[j - 1] as int]);
                    } else if i == p {
                        assert(out@[j] == before[j - 1]);
                        assert(self.order()[before[p as int] as int] <= self.order()[before[j - 1] as int]);
                    } else if i > p {
                        assert(out@[i] == before[i - 1]);
                        assert(out@[j] == before[j - 1]);
                    }
                }
            }
            k = k + 1;
        }
        proof {
            assert(vars@.take(vars@.len() as int) =~= vars@);
        }
        out
    }
}

/// The assignment `asg` gives each variable of `picks` its value there.
pub open spec fn agrees(asg: Seq<bool>, picks: Seq<(u16, bool)>) -> bool {
    forall|i: int| 0 <= i < picks.len() ==> asg[(#[trigger] picks[i]).0 as int] == picks[i].1
}

/// Fixing one more variable keeps a walk's promise: where the assignment
/// agrees with the picks and the current node is true, so is `f`.
proof fn lemma_pick_step(
    s0: Manager,
    f: NodeId,
    c0: NodeId,
    c1: NodeId,
    a0: Seq<(u16, bool)>,
    v: u16,
    phase: bool,
    n: nat,
)
    requires
        forall|asg: Seq<bool>|
            asg.len() == n && agrees(asg, a0) && #[trigger] s0.eval(c0, asg) ==> s0.eval(f, asg),
        c1 == c0 || forall|asg: Seq<bool>| asg[v as int] == phase ==> #[trigger] s0.eval(c0, asg) == s0.eval(c1, asg),
    ensures
        forall|asg: Seq<bool>|
            asg.len() == n && agrees(asg, a0.push((v, phase))) && #[trigger] s0.eval(c1, asg) ==> s0.eval(f, asg),
{
    let a = a0.push((v, phase));
    assert forall|asg: Seq<bool>|
        asg.len() == n && agrees(asg, a) && #[trigger] s0.eval(c1, asg) implies s0.eval(f, asg) by {
        assert(a[a0.len() as int] == (v, phase));
        assert forall|i: int| 0 <= i < a0.len() implies asg[(#[trigger] a0[i]).0 as int] == a0[i].1 by {
            assert(a[i] == a0[i]);
        }
        if c1 != c0 {
            assert(s0.eval(c0, asg) == s0.eval(c1, asg));
        }
    }
}

/// The variables of `picks`, in order.
pub open spec fn pick_vars(picks: Seq<(u16, bool)>) -> Seq<u16> {
    picks.map_values(|p: (u16, bool)| p.0)
}

} // verus!
