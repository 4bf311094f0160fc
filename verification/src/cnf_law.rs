//! What the DIMACS clauses of a dump mean: an assignment to the formula's
//! variables satisfies the node clauses exactly when every node variable
//! holds the function of its node, so the models of the whole formula,
//! cut down to the diagram variables, are the assignments under which the
//! diagram is true.
use vstd::prelude::*;
use crate::dddmp::{cnf_clauses_of, node_clauses, node_lit, nodes_clauses, root_seq, well_listed, listed_at, DumpNode, CONST_INDEX};
use crate::dump_order::{dump_shape, vars_below, Shape};
use crate::manager::{lemma_shape_negated, shape_eval};

verus! {

/// The literal `l` is true under `m` (indexed by DIMACS variable number).
pub open spec fn lit_holds(m: Seq<bool>, l: int) -> bool {
    if l > 0 {
        m[l]
    } else {
        !m[-l]
    }
}

/// Some literal of the clause is true under `m`.
pub open spec fn clause_holds(m: Seq<bool>, c: Seq<int>) -> bool {
    exists|j: int| 0 <= j < c.len() && lit_holds(m, #[trigger] c[j])
}

/// Every clause of `cs` is true under `m`.
pub open spec fn clauses_hold(m: Seq<bool>, cs: Seq<Seq<int>>) -> bool {
    forall|i: int| 0 <= i < cs.len() ==> clause_holds(m, #[trigger] cs[i])
}

/// The values `m` gives the `nv` diagram variables (DIMACS variables 1 to
/// `nv`, for diagram variables 0 to `nv - 1`).
pub open spec fn diagram_part(m: Seq<bool>, nv: nat) -> Seq<bool> {
    Seq::new(nv, |i: int| m[i + 1])
}

/// The function of the node numbered `k` of the listing, at the diagram
/// part of `m`.
pub open spec fn node_value(ns: Seq<DumpNode>, nv: nat, m: Seq<bool>, k: nat) -> bool {
    shape_eval(dump_shape(ns, k), false, diagram_part(m, nv))
}

/// The node variables of nodes 1 to `j` hold their nodes' functions.
pub open spec fn nodes_consistent(ns: Seq<DumpNode>, nv: nat, m: Seq<bool>, j: nat) -> bool {
    forall|k: nat| 1 <= k <= j ==> #[trigger] m[(nv + k) as int] == node_value(ns, nv, m, k)
}

proof fn lemma_clause_one(m: Seq<bool>, a: int)
    ensures
        clause_holds(m, seq![a]) == lit_holds(m, a),
{
    let c = seq![a];
    if lit_holds(m, a) {
        assert(lit_holds(m, c[0]));
    }
}

proof fn lemma_clause_three(m: Seq<bool>, a: int, b: int, d: int)
    ensures
        clause_holds(m, seq![a, b, d]) == (lit_holds(m, a) || lit_holds(m, b) || lit_holds(m, d)),
{
    let c = seq![a, b, d];
    if lit_holds(m, a) {
        assert(lit_holds(m, c[0]));
    } else if lit_holds(m, b) {
        assert(lit_holds(m, c[1]));
    } else if lit_holds(m, d) {
        assert(lit_holds(m, c[2]));
    }
}

proof fn lemma_clauses_concat(m: Seq<bool>, a: Seq<Seq<int>>, b: Seq<Seq<int>>)
    ensures
        clauses_hold(m, a + b) == (clauses_hold(m, a) && clauses_hold(m, b)),
{
    if clauses_hold(m, a + b) {
        assert forall|i: int| 0 <= i < a.len() implies clause_holds(m, #[trigger] a[i]) by {
            assert((a + b)[i] == a[i]);
        }
        assert forall|i: int| 0 <= i < b.len() implies clause_holds(m, #[trigger] b[i]) by {
            assert((a + b)[a.len() + i] == b[i]);
        }
    }
    if clauses_hold(m, a) && clauses_hold(m, b) {
        assert forall|i: int| 0 <= i < (a + b).len() implies clause_holds(m, #[trigger] (a + b)[i]) by {
            if i < a.len() {
                assert((a + b)[i] == a[i]);
            } else {
                assert((a + b)[i] == b[i - a.len()]);
            }
        }
    }
}

/// The clauses of node `j` hold exactly when its variable holds the node's
/// function, given that the nodes before it hold theirs.
proof fn lemma_node_clauses(ns: Seq<DumpNode>, nv: nat, m: Seq<bool>, j: nat)
    requires
        well_listed(ns, 0),
        vars_below(ns, nv),
        1 <= j <= ns.len(),
        m.len() > nv + ns.len(),
        nodes_consistent(ns, nv, m, (j - 1) as nat),
    ensures
        clauses_hold(m, node_clauses(nv, ns[j - 1])) == (m[(nv + j) as int] == node_value(ns, nv, m, j)),
{
    let n = ns[j - 1];
    assert(listed_at(ns[j - 1], 0 + (j - 1)));
    assert(n.seq_id == j);
    let v: int = (nv + j) as int;
    let cs = node_clauses(nv, n);
    if n.var_index == CONST_INDEX {
        if n.is_one {
            lemma_clause_one(m, v);
            assert(cs =~= seq![seq![v]]);
        } else {
            lemma_clause_one(m, -v);
            assert(cs =~= seq![seq![-v]]);
        }
        assert(clauses_hold(m, cs) == clause_holds(m, cs[0]));
    } else {
        let x: int = n.var_index + 1;
        let ts = n.then_seq as nat;
        let es = n.else_seq as nat;
        let t = node_lit(nv, ts, n.then_comp);
        let e = node_lit(nv, es, n.else_comp);
        assert((n.var_index as nat) < nv);
        assert(1 <= ts < j && 1 <= es < j);
        assert(lit_holds(m, t) == (m[(nv + ts) as int] != n.then_comp));
        assert(lit_holds(m, e) == (m[(nv + es) as int] != n.else_comp));
        assert(lit_holds(m, -t) == !lit_holds(m, t));
        assert(lit_holds(m, -e) == !lit_holds(m, e));
        assert(lit_holds(m, x) == m[x]);
        lemma_clause_three(m, -v, -x, t);
        lemma_clause_three(m, -v, x, e);
        lemma_clause_three(m, v, -x, -t);
        lemma_clause_three(m, v, x, -e);
        assert(clauses_hold(m, cs) == (clause_holds(m, cs[0]) && clause_holds(m, cs[1]) && clause_holds(m, cs[2])
            && clause_holds(m, cs[3])));
        let d = diagram_part(m, nv);
        assert(d[n.var_index as int] == m[x]);
        let st = dump_shape(ns, ts);
        let se = dump_shape(ns, es);
        assert(dump_shape(ns, j) == Shape::Node(n.var_index, Box::new(st), n.then_comp, Box::new(se), n.else_comp));
        lemma_shape_negated(st, false, d);
        lemma_shape_negated(se, false, d);
        assert(m[(nv + ts) as int] == node_value(ns, nv, m, ts));
        assert(m[(nv + es) as int] == node_value(ns, nv, m, es));
        assert(shape_eval(st, n.then_comp, d) == (m[(nv + ts) as int] != n.then_comp));
        assert(shape_eval(se, n.else_comp, d) == (m[(nv + es) as int] != n.else_comp));
    }
}

/// The clauses of the first `j` nodes hold exactly when the variables of
/// those nodes hold the nodes' functions.
pub proof fn lemma_nodes_clauses_consistent(ns: Seq<DumpNode>, nv: nat, m: Seq<bool>, j: nat)
    requires
        well_listed(ns, 0),
        vars_below(ns, nv),
        j <= ns.len(),
        m.len() > nv + ns.len(),
    ensures
        clauses_hold(m, nodes_clauses(nv, ns.take(j as int))) == nodes_consistent(ns, nv, m, j),
    decreases j,
{
    if j == 0 {
        assert(ns.take(0) =~= Seq::<DumpNode>::empty());
        assert(nodes_clauses(nv, ns.take(0)) =~= Seq::<Seq<int>>::empty());
    } else {
        lemma_nodes_clauses_consistent(ns, nv, m, (j - 1) as nat);
        let p = ns.take(j as int);
        assert(p.drop_last() =~= ns.take(j - 1));
        assert(p.last() == ns[j - 1]);
        let before = nodes_clauses(nv, ns.take(j - 1));
        let here = node_clauses(nv, ns[j - 1]);
        assert(nodes_clauses(nv, p) == before + here);
        lemma_clauses_concat(m, before, here);
        if nodes_consistent(ns, nv, m, (j - 1) as nat) {
            lemma_node_clauses(ns, nv, m, j);
            if nodes_consistent(ns, nv, m, j) {
                assert(m[(nv + j) as int] == node_value(ns, nv, m, j));
            }
            if m[(nv + j) as int] == node_value(ns, nv, m, j) {
                assert forall|k: nat| 1 <= k <= j implies #[trigger] m[(nv + k) as int] == node_value(ns, nv, m, k) by {
                    if k < j {
                        assert(m[(nv + k) as int] == node_value(ns, nv, m, k));
                    }
                }
            }
        } else {
            assert(!clauses_hold(m, before));
            if nodes_consistent(ns, nv, m, j) {
                assert forall|k: nat| 1 <= k <= j - 1 implies #[trigger] m[(nv + k) as int] == node_value(ns, nv, m, k) by {
                    assert(m[(nv + k) as int] == node_value(ns, nv, m, k));
                }
            }
        }
    }
}

/// The models of the CNF of a listing, cut down to the diagram variables,
/// are exactly the assignments under which the listed diagram (from its
/// root, with the root edge complemented where `c` holds) is true: an
/// assignment to the `nv` diagram variables under which the diagram is
/// true extends to a model of the formula, and every model of the formula
/// makes the diagram true on its diagram variables.
pub proof fn lemma_cnf_models(ns: Seq<DumpNode>, nv: nat, c: bool, asg: Seq<bool>)
    requires
        ns.len() >= 1,
        well_listed(ns, 0),
        vars_below(ns, nv),
        asg.len() == nv,
    ensures
        (exists|m: Seq<bool>|
            m.len() == nv + ns.len() + 1 && diagram_part(m, nv) == asg && #[trigger] clauses_hold(
                m,
                cnf_clauses_of(nv, ns, c),
            )) == shape_eval(dump_shape(ns, root_seq(ns) as nat), c, asg),
{
    let len = ns.len();
    assert(listed_at(ns[len - 1], 0 + (len - 1)));
    assert(root_seq(ns) == len);
    let root = dump_shape(ns, len);
    let rc = seq![seq![node_lit(nv, len, c)]];
    assert(ns.take(len as int) =~= ns);
    if exists|m: Seq<bool>|
        m.len() == nv + ns.len() + 1 && diagram_part(m, nv) == asg && #[trigger] clauses_hold(m, cnf_clauses_of(nv, ns, c))
    {
        let m = choose|m: Seq<bool>|
            m.len() == nv + ns.len() + 1 && diagram_part(m, nv) == asg && #[trigger] clauses_hold(
                m,
                cnf_clauses_of(nv, ns, c),
            );
        lemma_clauses_concat(m, nodes_clauses(nv, ns), rc);
        lemma_nodes_clauses_consistent(ns, nv, m, len);
        assert(clause_holds(m, rc[0]));
        lemma_clause_one(m, node_lit(nv, len, c));
        assert(m[(nv + len) as int] == node_value(ns, nv, m, len));
        lemma_shape_negated(root, false, asg);
    }
    if shape_eval(root, c, asg) {
        let m = Seq::new(
            nv + len + 1,
            |i: int| if 1 <= i <= nv {
                asg[i - 1]
            } else if i > nv {
                shape_eval(dump_shape(ns, (i - nv) as nat), false, asg)
            } else {
                false
            },
        );
        assert(diagram_part(m, nv) =~= asg);
        assert forall|k: nat| 1 <= k <= len implies #[trigger] m[(nv + k) as int] == node_value(ns, nv, m, k) by {}
        lemma_nodes_clauses_consistent(ns, nv, m, len);
        lemma_shape_negated(root, false, asg);
        lemma_clause_one(m, node_lit(nv, len, c));
        assert(clause_holds(m, rc[0]));
        assert(clauses_hold(m, rc));
        lemma_clauses_concat(m, nodes_clauses(nv, ns), rc);
        assert(clauses_hold(m, cnf_clauses_of(nv, ns, c)));
    }
}

} // verus!
