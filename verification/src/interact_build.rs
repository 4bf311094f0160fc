//! Building the interaction matrix of a diagram from its live internal
//! nodes: the direct interactions between a node's variable and those of
//! its internal children, and their transitive closure.
use vstd::prelude::*;
use crate::interact::{lemma_pairs_in_capacity, pair_index, pair_index_fits, InteractionMatrix};

verus! {

/// A live internal node as the interaction scan sees it: its variable and
/// the variables of those of its children that are internal nodes.
#[derive(Clone, Copy, Debug)]
pub struct NodeVars {
    /// The node's variable.
    pub var: u16,
    /// The variable of the then-child, when it is an internal node.
    pub then_var: Option<u16>,
    /// The variable of the else-child, when it is an internal node.
    pub else_var: Option<u16>,
}

/// The number of pairs of distinct variables below `n`.
pub open spec fn tri(n: nat) -> nat {
    (n * (if n > 0 {
        n - 1
    } else {
        0
    }) / 2) as nat
}

/// The pair that an edge from a node on `a` to a child on `b` makes
/// interact, when both lie below `n` and differ.
pub open spec fn edge_set(n: nat, a: u16, b: Option<u16>) -> Set<nat> {
    match b {
        Some(c) => if a < n && c < n && a != c {
            set![pair_index(a as nat, c as nat)]
        } else {
            Set::empty()
        },
        None => Set::empty(),
    }
}

/// The pairs that the edges of `nodes` make interact directly.
pub open spec fn direct_set(n: nat, nodes: Seq<NodeVars>) -> Set<nat>
    decreases nodes.len(),
{
    if nodes.len() == 0 {
        Set::empty()
    } else {
        let v = nodes.last();
        direct_set(n, nodes.drop_last()) + edge_set(n, v.var, v.then_var) + edge_set(
            n,
            v.var,
            v.else_var,
        )
    }
}

/// The pairs `v` are closed under transitivity among variables below `n`.
pub open spec fn closed(v: Set<nat>, n: nat) -> bool {
    forall|i: nat, j: nat, k: nat|
        #![trigger v.contains(pair_index(i, j)), v.contains(pair_index(j, k))]
        i < n && j < n && k < n && i != j && j != k && i != k && v.contains(pair_index(i, j))
            && v.contains(pair_index(j, k)) ==> v.contains(pair_index(i, k))
}

/// `v` lies inside every set of pairs that holds `base` and is closed
/// under transitivity below `n`.
pub open spec fn least_closed(v: Set<nat>, base: Set<nat>, n: nat) -> bool {
    forall|s: Set<nat>| #[trigger] base.subset_of(s) && closed(s, n) ==> v.subset_of(s)
}

/// Every pair of `v` is one of variables below `n`.
pub open spec fn below(v: Set<nat>, n: nat) -> bool {
    forall|x: nat| #[trigger] v.contains(x) ==> x < tri(n)
}

/// The number of positions below `t` that `v` leaves out.
pub open spec fn missing(v: Set<nat>, t: nat) -> nat
    decreases t,
{
    if t == 0 {
        0
    } else {
        missing(v, (t - 1) as nat) + if v.contains((t - 1) as nat) {
            0nat
        } else {
            1nat
        }
    }
}

/// Adding a left-out position below `t` leaves one fewer out.
proof fn lemma_missing_insert(v: Set<nat>, x: nat, t: nat)
    requires
        x < t,
        !v.contains(x),
    ensures
        missing(v.insert(x), t) + 1 == missing(v, t),
    decreases t,
{
    if x < t - 1 {
        lemma_missing_insert(v, x, (t - 1) as nat);
    } else {
        assert(x == t - 1);
        lemma_missing_same(v, x, x);
    }
}

/// Adding a position at or past `t` leaves the count below `t` alone.
proof fn lemma_missing_same(v: Set<nat>, x: nat, t: nat)
    requires
        x >= t,
    ensures
        missing(v.insert(x), t) == missing(v, t),
    decreases t,
{
    if t > 0 {
        lemma_missing_same(v, x, (t - 1) as nat);
    }
}

/// Every pair below `n` lies below `tri(n)`, and computing its position
/// does not overflow.
proof fn lemma_pair_fits(n: nat, i: nat, j: nat)
    requires
        n <= 0xFFFF,
        i < n,
        j < n,
        i != j,
    ensures
        pair_index(i, j) < tri(n),
        pair_index_fits(i, j),
{
    lemma_pairs_in_capacity(n, i, j);
    let a: nat = if i < j {
        j
    } else {
        i
    };
    assert(a * (a - 1) <= 0xFFFF * 0xFFFE) by (nonlinear_arith)
        requires
            1 <= a <= 0xFFFF,
    ;
}

/// A matrix for `n <= 0xFFFF` variables can be made, and every pair has
/// room in it.
proof fn lemma_dims(n: nat)
    requires
        n <= 0xFFFF,
    ensures
        n * (if n > 0 {
            n - 1
        } else {
            0
        }) <= usize::MAX,
        n * (if n > 0 {
            n - 1
        } else {
            0
        }) / 2 + 63 <= usize::MAX,
{
    if n > 0 {
        assert(n * (n - 1) <= 0xFFFF * 0xFFFE) by (nonlinear_arith)
            requires
                1 <= n <= 0xFFFF,
        ;
    }
}

/// Set the pair of an edge, when it counts.
fn set_edge(m: &mut InteractionMatrix, n: usize, a: u16, b: Option<u16>)
    requires
        old(m).dim() == n,
        n <= 0xFFFF,
        old(m).capacity() >= tri(n as nat),
    ensures
        final(m).dim() == n,
        final(m).capacity() == old(m).capacity(),
        final(m).view() == old(m).view() + edge_set(n as nat, a, b),
{
    match b {
        Some(c) => {
            let vi = a as usize;
            let vt = c as usize;
            if vi < n && vt < n {
                proof {
                    if vi != vt {
                        lemma_pair_fits(n as nat, vi as nat, vt as nat);
                    }
                }
                m.set(vi, vt);
                proof {
                    if vi == vt {
                        assert(edge_set(n as nat, a, b) =~= Set::<nat>::empty());
                    }
                }
            }
            proof {
                assert(final(m).view() =~= old(m).view() + edge_set(n as nat, a, b));
            }
        },
        None => {
            proof {
                assert(final(m).view() =~= old(m).view() + edge_set(n as nat, a, b));
            }
        },
    }
}

/// The matrix of direct interactions: for each live internal node, its
/// variable interacts with the variable of each internal child, when both
/// lie below `num_vars`.
pub fn build_direct_interaction_matrix(num_vars: u16, nodes: &[NodeVars]) -> (m: InteractionMatrix)
    ensures
        m.dim() == num_vars,
        m.capacity() >= tri(num_vars as nat),
        m.view() == direct_set(num_vars as nat, nodes@),
{
    let n = num_vars as usize;
    proof {
        lemma_dims(n as nat);
    }
    let mut m = InteractionMatrix::new(n);
    let mut idx: usize = 0;
    while idx < nodes.len()
        invariant
            n == num_vars,
            m.dim() == n,
            m.capacity() >= tri(n as nat),
            idx <= nodes@.len(),
            m.view() == direct_set(n as nat, nodes@.take(idx as int)),
        decreases nodes@.len() - idx,
    {
        let node = nodes[idx];
        set_edge(&mut m, n, node.var, node.then_var);
        set_edge(&mut m, n, node.var, node.else_var);
        proof {
            let t = nodes@.take(idx + 1);
            assert(t.drop_last() =~= nodes@.take(idx as int));
            assert(t.last() == node);
        }
        idx += 1;
    }
    proof {
        assert(nodes@.take(nodes@.len() as int) =~= nodes@);
    }
    m
}

/// When `i` and `j` interact, `k` interacts with `j` exactly when it does
/// with `i`.
pub open spec fn tri_ok(v: Set<nat>, i: nat, j: nat, k: nat) -> bool {
    (k != i && k != j && v.contains(pair_index(i, j))) ==> (v.contains(pair_index(j, k))
        == v.contains(pair_index(i, k)))
}

/// Every triple whose first two variables are a pair below `n` is handled.
pub open spec fn all_ok(v: Set<nat>, n: nat) -> bool {
    forall|a: nat, b: nat, c: nat| a < b < n && c < n ==> #[trigger] tri_ok(v, a, b, c)
}

/// When every triple is handled, the pairs are closed under transitivity.
proof fn lemma_closed_of_all_ok(v: Set<nat>, n: nat)
    requires
        all_ok(v, n),
    ensures
        closed(v, n),
{
    assert forall|a: nat, b: nat, c: nat|
        #![trigger v.contains(pair_index(a, b)), v.contains(pair_index(b, c))]
        a < n && b < n && c < n && a != b && b != c && a != c && v.contains(pair_index(a, b))
            && v.contains(pair_index(b, c)) implies v.contains(pair_index(a, c)) by {
        if a < b {
            assert(tri_ok(v, a, b, c));
        } else {
            assert(tri_ok(v, b, a, c));
            assert(pair_index(b, a) == pair_index(a, b));
        }
    }
}

/// Adding the pair `{i, k}` where `{i, j}` and `{j, k}` are pairs keeps
/// the pairs inside every closed set that holds `base`.
proof fn lemma_least_insert(v: Set<nat>, base: Set<nat>, n: nat, i: nat, j: nat, k: nat)
    requires
        least_closed(v, base, n),
        i < n,
        j < n,
        k < n,
        i != j,
        j != k,
        i != k,
        v.contains(pair_index(i, j)),
        v.contains(pair_index(j, k)),
    ensures
        least_closed(v.insert(pair_index(i, k)), base, n),
{
    assert forall|s: Set<nat>| #[trigger] base.subset_of(s) && closed(s, n) implies v.insert(
        pair_index(i, k),
    ).subset_of(s) by {
        assert(v.subset_of(s));
        assert(s.contains(pair_index(i, j)));
        assert(s.contains(pair_index(j, k)));
    }
}

/// What a pass of the closure keeps: the pairs hold `base`, lie inside
/// every closed set that holds it and below `n`; they hold those `v0` of
/// the pass's start, and leave fewer out when anything changed, else they
/// are those.
pub open spec fn pass_state(
    v: Set<nat>,
    v0: Set<nat>,
    base: Set<nat>,
    n: nat,
    changed: bool,
) -> bool {
    &&& base.subset_of(v)
    &&& least_closed(v, base, n)
    &&& below(v, n)
    &&& v0.subset_of(v)
    &&& missing(v, tri(n)) <= missing(v0, tri(n))
    &&& changed ==> missing(v, tri(n)) < missing(v0, tri(n))
    &&& !changed ==> v == v0
}

/// Add the pair `{a, c}` because `{a, b}` and `{b, c}` are pairs.
fn add_through(
    m: &mut InteractionMatrix,
    n: usize,
    a: usize,
    b: usize,
    c: usize,
    Ghost(v0): Ghost<Set<nat>>,
    Ghost(base): Ghost<Set<nat>>,
    Ghost(changed): Ghost<bool>,
)
    requires
        old(m).dim() == n,
        n <= 0xFFFF,
        old(m).capacity() >= tri(n as nat),
        a < n,
        b < n,
        c < n,
        a != b,
        b != c,
        a != c,
        old(m).view().contains(pair_index(a as nat, b as nat)),
        old(m).view().contains(pair_index(b as nat, c as nat)),
        !old(m).view().contains(pair_index(a as nat, c as nat)),
        pass_state(old(m).view(), v0, base, n as nat, changed),
    ensures
        final(m).dim() == n,
        final(m).capacity() == old(m).capacity(),
        final(m).view() == old(m).view().insert(pair_index(a as nat, c as nat)),
        pass_state(final(m).view(), v0, base, n as nat, true),
{
    proof {
        lemma_pair_fits(n as nat, a as nat, c as nat);
        lemma_least_insert(old(m).view(), base, n as nat, a as nat, b as nat, c as nat);
        lemma_missing_insert(old(m).view(), pair_index(a as nat, c as nat), tri(n as nat));
    }
    m.set(a, c);
}

/// Close the pairs of `m` among variables below `n` under transitivity:
/// pass over every pair `{i, j}`, `i < j`, that interacts and every third
/// variable `k`, adding `{i, k}` when `{j, k}` is a pair and `{j, k}` when
/// `{i, k}` is, until a pass adds nothing.
fn close_transitively(m: &mut InteractionMatrix, n: usize)
    requires
        old(m).dim() == n,
        n <= 0xFFFF,
        old(m).capacity() >= tri(n as nat),
        below(old(m).view(), n as nat),
    ensures
        final(m).dim() == n,
        final(m).capacity() == old(m).capacity(),
        old(m).view().subset_of(final(m).view()),
        closed(final(m).view(), n as nat),
        least_closed(final(m).view(), old(m).view(), n as nat),
        below(final(m).view(), n as nat),
{
    let ghost base = m.view();
    let ghost cap = m.capacity();
    let ghost t = tri(n as nat);
    proof {
        assert forall|a: nat, b: nat| a < n && b < n && a != b implies #[trigger] pair_index_fits(a, b) by {
            lemma_pair_fits(n as nat, a, b);
        }
    }
    let mut changed = true;
    while changed
        invariant
            m.dim() == n,
            n <= 0xFFFF,
            m.capacity() == cap,
            cap >= tri(n as nat),
            t == tri(n as nat),
            forall|a: nat, b: nat| a < n && b < n && a != b ==> #[trigger] pair_index_fits(a, b),
            pass_state(m.view(), m.view(), base, n as nat, false),
            !changed ==> closed(m.view(), n as nat),
        decreases missing(m.view(), t) + if changed {
            1nat
        } else {
            0nat
        },
    {
        let ghost v0 = m.view();
        changed = false;
        let mut i: usize = 0;
        while i < n
            invariant
                m.dim() == n,
                n <= 0xFFFF,
                m.capacity() == cap,
                cap >= tri(n as nat),
                t == tri(n as nat),
                forall|a: nat, b: nat| a < n && b < n && a != b ==> #[trigger] pair_index_fits(a, b),
                pass_state(m.view(), v0, base, n as nat, changed),
                i <= n,
                !changed ==> forall|a: nat, b: nat, c: nat|
                    a < i && a < b < n && c < n ==> #[trigger] tri_ok(m.view(), a, b, c),
            decreases n - i,
        {
            let mut j: usize = i + 1;
            while j < n
                invariant
                    m.dim() == n,
                    n <= 0xFFFF,
                    m.capacity() == cap,
                    cap >= tri(n as nat),
                    t == tri(n as nat),
                    forall|a: nat, b: nat|
                        a < n && b < n && a != b ==> #[trigger] pair_index_fits(a, b),
                    pass_state(m.view(), v0, base, n as nat, changed),
                    i < n,
                    i + 1 <= j <= n,
                    !changed ==> forall|a: nat, b: nat, c: nat|
                        a < i && a < b < n && c < n ==> #[trigger] tri_ok(m.view(), a, b, c),
                    !changed ==> forall|b: nat, c: nat|
                        i < b < j && c < n ==> #[trigger] tri_ok(m.view(), i as nat, b, c),
                decreases n - j,
            {
                if m.test(i, j) {
                    let mut k: usize = 0;
                    while k < n
                        invariant
                            m.dim() == n,
                            n <= 0xFFFF,
                            m.capacity() == cap,
                            cap >= tri(n as nat),
                            t == tri(n as nat),
                            forall|a: nat, b: nat|
                                a < n && b < n && a != b ==> #[trigger] pair_index_fits(a, b),
                            pass_state(m.view(), v0, base, n as nat, changed),
                            i < j < n,
                            k <= n,
                            m.view().contains(pair_index(i as nat, j as nat)),
                            !changed ==> forall|a: nat, b: nat, c: nat|
                                a < i && a < b < n && c < n ==> #[trigger] tri_ok(m.view(), a, b, c),
                            !changed ==> forall|b: nat, c: nat|
                                i < b < j && c < n ==> #[trigger] tri_ok(m.view(), i as nat, b, c),
                            !changed ==> forall|c: nat|
                                c < k ==> #[trigger] tri_ok(m.view(), i as nat, j as nat, c),
                        decreases n - k,
                    {
                        if k != i && k != j {
                            if m.test(j, k) && !m.test(i, k) {
                                add_through(m, n, i, j, k, Ghost(v0), Ghost(base), Ghost(changed));
                                changed = true;
                            }
                            if m.test(i, k) && !m.test(j, k) {
                                proof {
                                    assert(pair_index(j as nat, i as nat) == pair_index(
                                        i as nat,
                                        j as nat,
                                    ));
                                }
                                add_through(m, n, j, i, k, Ghost(v0), Ghost(base), Ghost(changed));
                                changed = true;
                            }
                        }
                        k += 1;
                    }
                } else {
                    proof {
                        assert forall|c: nat| c < n implies #[trigger] tri_ok(
                            m.view(),
                            i as nat,
                            j as nat,
                            c,
                        ) by {}
                    }
                }
                j += 1;
            }
            i += 1;
        }
        proof {
            if !changed {
                assert(all_ok(m.view(), n as nat)) by {
                    assert forall|a: nat, b: nat, c: nat| a < b < n && c < n implies #[trigger] tri_ok(
                        m.view(),
                        a,
                        b,
                        c,
                    ) by {}
                }
                lemma_closed_of_all_ok(m.view(), n as nat);
            }
        }
    }
}

/// The direct pairs are pairs of variables below `n`.
proof fn lemma_direct_below(n: nat, nodes: Seq<NodeVars>)
    requires
        n <= 0xFFFF,
    ensures
        below(direct_set(n, nodes), n),
    decreases nodes.len(),
{
    if nodes.len() > 0 {
        lemma_direct_below(n, nodes.drop_last());
        let v = nodes.last();
        assert forall|x: nat| #[trigger] direct_set(n, nodes).contains(x) implies x < tri(n) by {
            if edge_set(n, v.var, v.then_var).contains(x) {
                let c = v.then_var->0;
                lemma_pair_fits(n, v.var as nat, c as nat);
            } else if edge_set(n, v.var, v.else_var).contains(x) {
                let c = v.else_var->0;
                lemma_pair_fits(n, v.var as nat, c as nat);
            }
        }
    }
}

/// The matrix of interactions: the direct ones, closed under transitivity
/// among the variables below `num_vars`. Its pairs hold the direct ones,
/// are closed, and lie inside every closed set of pairs that holds the
/// direct ones: they are the least such set.
pub fn build_interaction_matrix(num_vars: u16, nodes: &[NodeVars]) -> (m: InteractionMatrix)
    ensures
        m.dim() == num_vars,
        direct_set(num_vars as nat, nodes@).subset_of(m.view()),
        closed(m.view(), num_vars as nat),
        least_closed(m.view(), direct_set(num_vars as nat, nodes@), num_vars as nat),
        below(m.view(), num_vars as nat),
{
    let mut m = build_direct_interaction_matrix(num_vars, nodes);
    proof {
        lemma_direct_below(num_vars as nat, nodes@);
    }
    close_transitively(&mut m, num_vars as usize);
    m
}

/// Computing the position of a pair of `u16` variables does not overflow.
proof fn lemma_u16_pair_fits(i: u16, j: u16)
    ensures
        pair_index_fits(i as nat, j as nat),
{
    let a: nat = if i < j {
        j as nat
    } else {
        i as nat
    };
    let b: nat = if i < j {
        i as nat
    } else {
        j as nat
    };
    if a > 0 {
        assert(a * (a - 1) <= 0xFFFF * 0xFFFE) by (nonlinear_arith)
            requires
                1 <= a <= 0xFFFF,
        ;
        let x = a * (a - 1);
        assert(x / 2 <= 0x7FFF_8001);
        assert(x / 2 + b <= usize::MAX);
    } else {
        assert(a * (a - 1) == 0) by (nonlinear_arith)
            requires
                a == 0,
        ;
    }
}

/// Whether two variables interact directly (always for a variable and
/// itself).
pub fn variables_interact(num_vars: u16, nodes: &[NodeVars], var_a: u16, var_b: u16) -> (r: bool)
    ensures
        r == (var_a == var_b || direct_set(num_vars as nat, nodes@).contains(
            pair_index(var_a as nat, var_b as nat),
        )),
{
    let matrix = build_direct_interaction_matrix(num_vars, nodes);
    proof {
        lemma_u16_pair_fits(var_a, var_b);
    }
    matrix.test(var_a as usize, var_b as usize)
}

} // verus!
