//! Exact minterm counting of a BDD with arbitrary-precision integers, over
//! a manager's node arena and its variable order.
use vstd::prelude::*;
use vstd::arithmetic::power2::{lemma_pow2_adds, pow2};
use crate::apa::{
    add_ref, digits_lt, is_canonical, lemma_digits_lt_value, lemma_value_lower,
    lemma_word_power_pow2, shl_ref, sub_ref, ApInt,
};
use std::collections::HashMap;
use crate::dump_order::ArenaNode;
use crate::node::NodeId;

verus! {

broadcast use vstd::std_specs::hash::group_hash_axioms;

/// The level of node `x` of `a` under the order `perm` (variable to
/// level) for `n` variables: that of its variable, `n` for the constant.
pub open spec fn node_level(a: Seq<ArenaNode>, perm: Seq<u32>, n: nat, x: nat) -> nat {
    if x == 0 || x >= a.len() {
        n
    } else {
        match a[x as int] {
            ArenaNode::Constant => n,
            ArenaNode::Internal { var_index, .. } => if (var_index as nat) < perm.len() {
                perm[var_index as int] as nat
            } else {
                n
            },
        }
    }
}

/// Node `x` of `a` is an ordered BDD node for `n` variables under `perm`:
/// the constant one at index 0, or an internal node on a level below `n`
/// whose children lie on deeper levels and are ordered BDD nodes.
pub open spec fn ordered(a: Seq<ArenaNode>, perm: Seq<u32>, n: nat, x: nat) -> bool
    decreases n - node_level(a, perm, n, x),
{
    if x == 0 {
        a.len() > 0 && a[0] is Constant
    } else if x >= a.len() {
        false
    } else {
        match a[x as int] {
            ArenaNode::Constant => false,
            ArenaNode::Internal { var_index, then_child, else_child } => {
                let l = node_level(a, perm, n, x);
                let lt = node_level(a, perm, n, then_child.index_of());
                let le = node_level(a, perm, n, else_child.index_of());
                if (var_index as nat) < perm.len() && l < n && l < lt <= n && l < le <= n {
                    ordered(a, perm, n, then_child.index_of()) && ordered(
                        a,
                        perm,
                        n,
                        else_child.index_of(),
                    )
                } else {
                    false
                }
            },
        }
    }
}

/// The number of assignments to the variables on levels `l .. n` under
/// which node `x` of `a`, negated when `c` holds, is true: at each level,
/// the assignments with the variable true and those with it false, each
/// following the node's then- or else-edge when the node tests that level;
/// past the last level, one when what is reached is the constant one.
pub open spec fn sat(a: Seq<ArenaNode>, perm: Seq<u32>, n: nat, x: nat, c: bool, l: nat) -> nat
    decreases n - l,
{
    if l >= n {
        if x == 0 && !c {
            1
        } else {
            0
        }
    } else if x != 0 && x < a.len() && node_level(a, perm, n, x) == l {
        match a[x as int] {
            ArenaNode::Internal { then_child, else_child, .. } => sat(
                a,
                perm,
                n,
                then_child.index_of(),
                then_child.compl_of() != c,
                l + 1,
            ) + sat(a, perm, n, else_child.index_of(), else_child.compl_of() != c, l + 1),
            ArenaNode::Constant => 2 * sat(a, perm, n, x, c, l + 1),
        }
    } else {
        2 * sat(a, perm, n, x, c, l + 1)
    }
}

/// A function and its negation together are true under every assignment:
/// from any level at or above the node's, their counts add up to the
/// number of assignments of the levels left.
pub proof fn lemma_sat_negated(a: Seq<ArenaNode>, perm: Seq<u32>, n: nat, x: nat, c: bool, l: nat)
    requires
        ordered(a, perm, n, x),
        l <= node_level(a, perm, n, x) <= n,
    ensures
        sat(a, perm, n, x, c, l) + sat(a, perm, n, x, !c, l) == pow2((n - l) as nat),
    decreases n - l,
{
    if l >= n {
        vstd::arithmetic::power2::lemma2_to64();
    } else {
        vstd::arithmetic::power2::lemma_pow2_unfold((n - l) as nat);
        if x != 0 && x < a.len() && node_level(a, perm, n, x) == l {
            match a[x as int] {
                ArenaNode::Internal { then_child, else_child, .. } => {
                    lemma_sat_negated(
                        a,
                        perm,
                        n,
                        then_child.index_of(),
                        then_child.compl_of() != c,
                        l + 1,
                    );
                    lemma_sat_negated(
                        a,
                        perm,
                        n,
                        else_child.index_of(),
                        else_child.compl_of() != c,
                        l + 1,
                    );
                },
                ArenaNode::Constant => {},
            }
        } else {
            lemma_sat_negated(a, perm, n, x, c, l + 1);
        }
    }
}

/// Above the level of the node, each level doubles the count.
proof fn lemma_sat_skip(a: Seq<ArenaNode>, perm: Seq<u32>, n: nat, x: nat, c: bool, l: nat)
    requires
        ordered(a, perm, n, x),
        l <= node_level(a, perm, n, x) <= n,
    ensures
        sat(a, perm, n, x, c, l) == pow2((node_level(a, perm, n, x) - l) as nat) * sat(
            a,
            perm,
            n,
            x,
            c,
            node_level(a, perm, n, x),
        ),
    decreases node_level(a, perm, n, x) - l,
{
    let lv = node_level(a, perm, n, x);
    let s = sat(a, perm, n, x, c, lv);
    if l == lv {
        vstd::arithmetic::power2::lemma2_to64();
        assert(pow2((lv - l) as nat) == 1);
        assert(1 * s == s) by (nonlinear_arith);
    } else {
        lemma_sat_skip(a, perm, n, x, c, l + 1);
        vstd::arithmetic::power2::lemma_pow2_unfold((lv - l) as nat);
        let p = pow2((lv - l - 1) as nat);
        assert(pow2((lv - l) as nat) == 2 * p);
        assert(sat(a, perm, n, x, c, l) == 2 * sat(a, perm, n, x, c, l + 1));
        assert(2 * (p * s) == (2 * p) * s) by (nonlinear_arith);
    }
}

/// Whether node `x` of `a`, negated when `c` holds, is true when the
/// variables on levels `l, l + 1, ...` take the values `asg` in order.
pub open spec fn eval(
    a: Seq<ArenaNode>,
    perm: Seq<u32>,
    n: nat,
    x: nat,
    c: bool,
    l: nat,
    asg: Seq<bool>,
) -> bool
    decreases n - l,
{
    if l >= n {
        x == 0 && !c
    } else if x != 0 && x < a.len() && node_level(a, perm, n, x) == l {
        match a[x as int] {
            ArenaNode::Internal { then_child, else_child, .. } => if asg[0] {
                eval(a, perm, n, then_child.index_of(), then_child.compl_of() != c, l + 1, asg.drop_first())
            } else {
                eval(a, perm, n, else_child.index_of(), else_child.compl_of() != c, l + 1, asg.drop_first())
            },
            ArenaNode::Constant => eval(a, perm, n, x, c, l + 1, asg.drop_first()),
        }
    } else {
        eval(a, perm, n, x, c, l + 1, asg.drop_first())
    }
}

/// The assignments to the variables on levels `l .. n` under which node
/// `x` of `a`, negated when `c` holds, is true.
pub open spec fn models(a: Seq<ArenaNode>, perm: Seq<u32>, n: nat, x: nat, c: bool, l: nat) -> Set<
    Seq<bool>,
> {
    Set::new(|asg: Seq<bool>| asg.len() + l == n && eval(a, perm, n, x, c, l, asg))
}

/// The assignments of `ms`, each after the value `b`.
pub open spec fn prefixed(ms: Set<Seq<bool>>, b: bool) -> Set<Seq<bool>> {
    ms.map(|s: Seq<bool>| seq![b] + s)
}

/// Prefixing a value keeps a set's size.
proof fn lemma_prefixed_len(ms: Set<Seq<bool>>, b: bool)
    requires
        ms.finite(),
    ensures
        prefixed(ms, b).finite(),
        prefixed(ms, b).len() == ms.len(),
{
    let f = |s: Seq<bool>| seq![b] + s;
    assert(vstd::relations::injective_on(f, ms)) by {
        assert forall|x: Seq<bool>, y: Seq<bool>| ms.contains(x) && ms.contains(y) && #[trigger] f(x)
            == #[trigger] f(y) implies x == y by {
            assert(f(x).drop_first() =~= x);
            assert(f(y).drop_first() =~= y);
        }
    }
    vstd::set_lib::lemma_map_size(ms, prefixed(ms, b), f);
}

/// The count is the number of assignments under which the function is
/// true: for an ordered BDD node, at or above its level, the satisfying
/// assignments of the levels from `l` on are finitely many, `sat` of them.
pub proof fn lemma_sat_counts_models(a: Seq<ArenaNode>, perm: Seq<u32>, n: nat, x: nat, c: bool, l: nat)
    requires
        ordered(a, perm, n, x),
        l <= node_level(a, perm, n, x) <= n,
    ensures
        models(a, perm, n, x, c, l).finite(),
        models(a, perm, n, x, c, l).len() == sat(a, perm, n, x, c, l),
    decreases n - l,
{
    let ms = models(a, perm, n, x, c, l);
    if l >= n {
        if x == 0 && !c {
            assert forall|s: Seq<bool>| #[trigger] ms.contains(s) == (s == Seq::<bool>::empty()) by {
                if s.len() == 0 {
                    assert(s =~= Seq::<bool>::empty());
                }
            }
            assert(ms =~= set![Seq::<bool>::empty()]);
        } else {
            assert(ms =~= Set::<Seq<bool>>::empty());
        }
    } else {
        let tests = x != 0 && x < a.len() && node_level(a, perm, n, x) == l;
        let (xt, ct, xe, ce) = if tests {
            match a[x as int] {
                ArenaNode::Internal { then_child, else_child, .. } => (
                    then_child.index_of(),
                    then_child.compl_of() != c,
                    else_child.index_of(),
                    else_child.compl_of() != c,
                ),
                ArenaNode::Constant => (x, c, x, c),
            }
        } else {
            (x, c, x, c)
        };
        lemma_sat_counts_models(a, perm, n, xt, ct, l + 1);
        lemma_sat_counts_models(a, perm, n, xe, ce, l + 1);
        let mt = models(a, perm, n, xt, ct, l + 1);
        let me = models(a, perm, n, xe, ce, l + 1);
        lemma_prefixed_len(mt, true);
        lemma_prefixed_len(me, false);
        let pt = prefixed(mt, true);
        let pe = prefixed(me, false);
        assert forall|s: Seq<bool>| #[trigger] ms.contains(s) == (pt + pe).contains(s) by {
            if ms.contains(s) {
                let r = s.drop_first();
                assert(s =~= seq![s[0]] + r);
                if s[0] {
                    assert(mt.contains(r));
                    assert(pt.contains(s));
                } else {
                    assert(me.contains(r));
                    assert(pe.contains(s));
                }
            }
            if pt.contains(s) {
                let r = choose|r: Seq<bool>| mt.contains(r) && s == seq![true] + r;
                assert(s.drop_first() =~= r);
                assert(s[0]);
            }
            if pe.contains(s) {
                let r = choose|r: Seq<bool>| me.contains(r) && s == seq![false] + r;
                assert(s.drop_first() =~= r);
                assert(!s[0]);
            }
        }
        assert(ms =~= pt + pe);
        assert(pt.disjoint(pe)) by {
            assert forall|s: Seq<bool>| pt.contains(s) implies !pe.contains(s) by {
                let r = choose|r: Seq<bool>| mt.contains(r) && s == seq![true] + r;
                assert(s[0]);
                if pe.contains(s) {
                    let q = choose|q: Seq<bool>| me.contains(q) && s == seq![false] + q;
                    assert(!s[0]);
                }
            }
        }
        vstd::set_lib::lemma_set_disjoint_lens(pt, pe);
    }
}

/// A canonical count of at most `2^m` has at most `m / 32 + 1` digits.
proof fn lemma_digits_bound(d: Seq<u32>, m: nat)
    requires
        is_canonical(d),
        crate::apa::digits_value(d) <= pow2(m),
    ensures
        d.len() <= m / 32 + 1,
{
    if d.len() > 0 {
        lemma_value_lower(d);
        lemma_word_power_pow2((d.len() - 1) as nat);
        let k = 32 * (d.len() - 1);
        if k > m {
            vstd::arithmetic::power2::lemma_pow2_strictly_increases(m, k as nat);
        }
    }
}

/// The count of a node, with the level it starts at, is at most
/// `2^(n - level)`.
proof fn lemma_sat_bound(a: Seq<ArenaNode>, perm: Seq<u32>, n: nat, x: nat, c: bool, l: nat)
    requires
        ordered(a, perm, n, x),
        l <= node_level(a, perm, n, x) <= n,
    ensures
        sat(a, perm, n, x, c, l) <= pow2((n - l) as nat),
{
    lemma_sat_negated(a, perm, n, x, c, l);
}

/// The cache holds, for nodes numbered by their index, the count of the
/// node (not negated) on the levels from its own, in canonical form.
pub open spec fn cache_ok(a: Seq<ArenaNode>, perm: Seq<u32>, n: nat, m: Map<u32, ApInt>) -> bool {
    forall|k: u32|
        #[trigger] m.contains_key(k) ==> {
            &&& ordered(a, perm, n, k as nat)
            &&& node_level(a, perm, n, k as nat) <= n
            &&& m[k]@ == sat(a, perm, n, k as nat, false, node_level(a, perm, n, k as nat))
            &&& is_canonical(m[k].digits@)
        }
}

/// The level of a node (`num_vars` for the constant).
fn level_of(a: &[ArenaNode], perm: &[u32], num_vars: u32, id: NodeId) -> (r: u32)
    requires
        ordered(a@, perm@, num_vars as nat, id.index_of()),
    ensures
        r == node_level(a@, perm@, num_vars as nat, id.index_of()),
        r <= num_vars,
{
    let raw = id.raw_index();
    if raw == 0 {
        return num_vars;
    }
    match a[raw as usize] {
        ArenaNode::Constant => num_vars,
        ArenaNode::Internal { var_index, .. } => perm[var_index as usize],
    }
}

/// A copy of a count.
fn copy_count(x: &ApInt) -> (r: ApInt)
    ensures
        r.digits@ == x.digits@,
        r@ == x@,
{
    let digits = x.digits.clone();
    proof {
        assert(digits@ =~= x.digits@);
    }
    ApInt { digits }
}

/// `2^(num_vars - level) - count`, the count of the negated function.
fn complement_count(num_vars: u32, level: u32, count: &ApInt) -> (r: ApInt)
    requires
        level <= num_vars,
        is_canonical(count.digits@),
        count@ <= pow2((num_vars - level) as nat),
    ensures
        r@ == pow2((num_vars - level) as nat) - count@,
        is_canonical(r.digits@),
{
    let total = ApInt::two_power(num_vars - level);
    proof {
        lemma_digits_lt_value(total.digits@, count.digits@);
    }
    sub_ref(&total, count)
}

/// The count of `f` on the levels from its own; the counts of the nodes
/// met are cached by index, for the node not negated.
fn count_minterm_apa_rec(
    a: &[ArenaNode],
    perm: &[u32],
    f: NodeId,
    num_vars: u32,
    cache: &mut HashMap<u32, ApInt>,
) -> (r: ApInt)
    requires
        ordered(a@, perm@, num_vars as nat, f.index_of()),
        cache_ok(a@, perm@, num_vars as nat, old(cache)@),
    ensures
        cache_ok(a@, perm@, num_vars as nat, final(cache)@),
        r@ == sat(
            a@,
            perm@,
            num_vars as nat,
            f.index_of(),
            f.compl_of(),
            node_level(a@, perm@, num_vars as nat, f.index_of()),
        ),
        is_canonical(r.digits@),
    decreases num_vars - node_level(a@, perm@, num_vars as nat, f.index_of()),
{
    let ghost n = num_vars as nat;
    if f.is_one() {
        return ApInt::one();
    }
    if f.is_zero() {
        return ApInt::zero();
    }
    let reg = f.regular();
    let key = reg.raw_index();
    let f_level = level_of(a, perm, num_vars, f);
    proof {
        lemma_sat_bound(a@, perm@, n, f.index_of(), false, f_level as nat);
        lemma_sat_negated(a@, perm@, n, f.index_of(), false, f_level as nat);
    }
    match cache.get(&key) {
        Some(cached) => {
            if f.is_complemented() {
                return complement_count(num_vars, f_level, cached);
            } else {
                return copy_count(cached);
            }
        },
        None => {},
    }
    let (t0, e0) = match a[key as usize] {
        ArenaNode::Internal { then_child, else_child, .. } => (then_child, else_child),
        ArenaNode::Constant => (NodeId::zero(), NodeId::zero()),
    };
    let t = t0.not_cond(f.is_complemented());
    let e = e0.not_cond(f.is_complemented());
    let t_level = level_of(a, perm, num_vars, t);
    let e_level = level_of(a, perm, num_vars, e);
    let t_count = count_minterm_apa_rec(a, perm, t, num_vars, cache);
    let e_count = count_minterm_apa_rec(a, perm, e, num_vars, cache);
    proof {
        lemma_sat_bound(a@, perm@, n, t.index_of(), t.compl_of(), t_level as nat);
        lemma_sat_bound(a@, perm@, n, e.index_of(), e.compl_of(), e_level as nat);
        lemma_digits_bound(t_count.digits@, (n - t_level) as nat);
        lemma_digits_bound(e_count.digits@, (n - e_level) as nat);
        lemma_sat_skip(a@, perm@, n, t.index_of(), t.compl_of(), (f_level + 1) as nat);
        lemma_sat_skip(a@, perm@, n, e.index_of(), e.compl_of(), (f_level + 1) as nat);
    }
    let t_shifted = shl_ref(&t_count, t_level - f_level - 1);
    let e_shifted = shl_ref(&e_count, e_level - f_level - 1);
    let result = add_ref(&t_shifted, &e_shifted);
    proof {
        let c = f.compl_of();
        let x = f.index_of();
        let pt = pow2((t_level - f_level - 1) as nat);
        let pe = pow2((e_level - f_level - 1) as nat);
        assert(t_count@ * pt == pt * t_count@) by (nonlinear_arith);
        assert(e_count@ * pe == pe * e_count@) by (nonlinear_arith);
        assert(t_shifted@ == sat(a@, perm@, n, t.index_of(), t.compl_of(), (f_level + 1) as nat));
        assert(e_shifted@ == sat(a@, perm@, n, e.index_of(), e.compl_of(), (f_level + 1) as nat));
        assert(x != 0 && x < a@.len() && node_level(a@, perm@, n, x) == f_level);
        assert(t.index_of() == t0.index_of() && t.compl_of() == (t0.compl_of() != c));
        assert(e.index_of() == e0.index_of() && e.compl_of() == (e0.compl_of() != c));
        assert(result@ == sat(a@, perm@, n, x, c, f_level as nat));
    }
    let regular_result = if f.is_complemented() {
        complement_count(num_vars, f_level, &result)
    } else {
        copy_count(&result)
    };
    let ghost before = cache@;
    cache.insert(key, regular_result);
    proof {
        assert(key as nat == f.index_of());
        assert forall|k: u32| #[trigger] cache@.contains_key(k) implies {
            &&& ordered(a@, perm@, n, k as nat)
            &&& node_level(a@, perm@, n, k as nat) <= n
            &&& cache@[k]@ == sat(a@, perm@, n, k as nat, false, node_level(a@, perm@, n, k as nat))
            &&& is_canonical(cache@[k].digits@)
        } by {
            if k != key {
                assert(before.contains_key(k));
            }
        }
    }
    result
}

/// The number of minterms of `f` over `num_vars` variables: the number of
/// assignments to all of them under which `f` is true, exactly.
pub fn bdd_count_minterm_apa(arena: &[ArenaNode], perm: &[u32], f: NodeId, num_vars: u32) -> (r: ApInt)
    requires
        ordered(arena@, perm@, num_vars as nat, f.index_of()),
    ensures
        r@ == models(arena@, perm@, num_vars as nat, f.index_of(), f.compl_of(), 0).len(),
        r@ == sat(arena@, perm@, num_vars as nat, f.index_of(), f.compl_of(), 0),
{
    let mut cache: HashMap<u32, ApInt> = HashMap::new();
    let raw_count = count_minterm_apa_rec(arena, perm, f, num_vars, &mut cache);
    let root_level = if f.is_constant() {
        num_vars
    } else {
        level_of(arena, perm, num_vars, f.regular())
    };
    proof {
        let n = num_vars as nat;
        lemma_sat_bound(arena@, perm@, n, f.index_of(), f.compl_of(), root_level as nat);
        lemma_digits_bound(raw_count.digits@, (n - root_level) as nat);
        lemma_sat_skip(arena@, perm@, n, f.index_of(), f.compl_of(), 0);
        lemma_sat_counts_models(arena@, perm@, n, f.index_of(), f.compl_of(), 0);
        let p = pow2(root_level as nat);
        assert(raw_count@ * p == p * raw_count@) by (nonlinear_arith);
    }
    shl_ref(&raw_count, root_level)
}

} // verus!
