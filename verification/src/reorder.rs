//! Variable reordering methods.
use vstd::prelude::*;

verus! {

/// Available variable reordering methods.
#[derive(Clone, Copy, Debug, PartialEq, Eq, Structural)]
pub enum ReorderingMethod {
    /// No reordering.
    NoReordering,
    /// Rudell's sifting algorithm: moves each variable to its best position.
    Sift,
    /// Sifting with convergence: repeat until no improvement.
    SiftConverge,
    /// Window permutation of size 2.
    Window2,
    /// Window permutation of size 3.
    Window3,
    /// Random reordering (for benchmarking).
    Random,
}

/// Extended reordering methods covering the full set of classic algorithms.
#[derive(Clone, Copy, Debug, PartialEq, Eq, Structural)]
pub enum ExtReorderMethod {
    /// No reordering: a no-op.
    NoReordering,
    /// Rudell's sifting algorithm.
    Sift,
    /// Sifting iterated until convergence (no further improvement).
    SiftConverge,
    /// Symmetric sifting: exploits variable symmetry during sifting.
    SymmSift,
    /// Symmetric sifting iterated until convergence.
    SymmSiftConverge,
    /// Group sifting: sifts groups of variables together.
    GroupSift,
    /// Group sifting iterated until convergence.
    GroupSiftConverge,
    /// Window permutation of size 2.
    Window2,
    /// Window permutation of size 3.
    Window3,
    /// Window permutation of size 4.
    Window4,
    /// Window-2 iterated until convergence.
    Window2Converge,
    /// Window-3 iterated until convergence.
    Window3Converge,
    /// Window-4 iterated until convergence.
    Window4Converge,
    /// Linear sifting: combines sifting with XOR linear transforms.
    Linear,
    /// Linear sifting iterated until convergence.
    LinearConverge,
    /// Simulated annealing.
    Annealing,
    /// Genetic algorithm.
    Genetic,
    /// Exact reordering (exhaustive search, only feasible for small diagrams).
    Exact,
    /// Random variable permutation (useful for benchmarking).
    Random,
}

/// A variable group: the contiguous level range `[start .. start + size)`.
#[derive(Clone, Debug)]
pub struct VarGroup {
    /// First level of this group.
    pub start: usize,
    /// Number of consecutive levels in this group.
    pub size: usize,
}

/// Direction for clipping incomplete branches.
#[derive(Clone, Copy, Debug, PartialEq, Eq, Structural)]
pub enum ClipDirection {
    /// Incomplete branches become ZERO (the result implies the exact answer).
    Under,
    /// Incomplete branches become ONE (the exact answer implies the result).
    Over,
}

/// Level `l` lies in the group `g` (its start and size).
pub open spec fn in_group(g: (usize, usize), l: int) -> bool {
    g.0 <= l < g.0 + g.1
}

/// Level `l` lies in one of the groups `specs`.
pub open spec fn covered_by(specs: Seq<(usize, usize)>, l: int) -> bool {
    exists|i: int| 0 <= i < specs.len() && #[trigger] in_group(specs[i], l)
}

/// The groups fit in `n` levels and no level lies in two of them.
pub open spec fn groups_fit(specs: Seq<(usize, usize)>, n: nat) -> bool {
    &&& forall|i: int| 0 <= i < specs.len() ==> #[trigger] specs[i].0 + specs[i].1 <= n
    &&& forall|i: int, j: int, l: int|
        0 <= i < j < specs.len() && #[trigger] in_group(specs[i], l) ==> !#[trigger] in_group(
            specs[j],
            l,
        )
}

/// The one-level groups of the levels below `k` that no group covers, in
/// level order.
pub open spec fn singletons(specs: Seq<(usize, usize)>, k: nat) -> Seq<(usize, usize)>
    decreases k,
{
    if k == 0 {
        Seq::empty()
    } else {
        singletons(specs, (k - 1) as nat) + if covered_by(specs, k - 1) {
            Seq::empty()
        } else {
            seq![((k - 1) as usize, 1usize)]
        }
    }
}

/// The groups of `gs` that start at level `k`, in their order.
pub open spec fn starting_at(gs: Seq<(usize, usize)>, k: nat) -> Seq<(usize, usize)>
    decreases gs.len(),
{
    if gs.len() == 0 {
        Seq::empty()
    } else {
        starting_at(gs.drop_last(), k) + if gs.last().0 == k {
            seq![gs.last()]
        } else {
            Seq::empty()
        }
    }
}

/// The groups of `gs` that start below level `k`, ordered by start, groups
/// with the same start in their order.
pub open spec fn by_start(gs: Seq<(usize, usize)>, k: nat) -> Seq<(usize, usize)>
    decreases k,
{
    if k == 0 {
        Seq::empty()
    } else {
        by_start(gs, (k - 1) as nat) + starting_at(gs, (k - 1) as nat)
    }
}

/// The start and size of each group.
pub open spec fn group_pairs(gs: Seq<VarGroup>) -> Seq<(usize, usize)> {
    gs.map_values(|g: VarGroup| (g.start, g.size))
}

/// The groups of `num_vars` levels: the groups given, and a one-level group
/// for each level that none covers, ordered by start (groups with the same
/// start in the order given).
pub fn make_var_groups(num_vars: u16, group_specs: &[(usize, usize)]) -> (r: Vec<VarGroup>)
    requires
        groups_fit(group_specs@, num_vars as nat),
    ensures
        group_pairs(r@) == by_start(
            group_specs@ + singletons(group_specs@, num_vars as nat),
            num_vars as nat + 1,
        ),
{
    let n = num_vars as usize;
    let ghost specs = group_specs@;
    let mut covered: Vec<bool> = Vec::new();
    let mut l: usize = 0;
    while l < n
        invariant
            l <= n,
            covered@.len() == l,
            forall|m: int| 0 <= m < l ==> !#[trigger] covered@[m],
        decreases n - l,
    {
        covered.push(false);
        l += 1;
    }
    let mut i: usize = 0;
    while i < group_specs.len()
        invariant
            n == num_vars,
            specs == group_specs@,
            groups_fit(specs, n as nat),
            i <= specs.len(),
            covered@.len() == n,
            forall|m: int| 0 <= m < n ==> #[trigger] covered@[m] == covered_by(specs.take(i as int), m),
        decreases specs.len() - i,
    {
        let (start, size) = group_specs[i];
        proof {
            assert(specs[i as int].0 + specs[i as int].1 <= n);
        }
        let mut k = start;
        while k < start + size
            invariant
                n == num_vars,
                specs == group_specs@,
                i < specs.len(),
                (start, size) == specs[i as int],
                start + size <= n,
                start <= k <= start + size,
                covered@.len() == n,
                forall|m: int|
                    0 <= m < n ==> #[trigger] covered@[m] == (covered_by(specs.take(i as int), m) || start
                        <= m < k),
            decreases start + size - k,
        {
            covered.set(k, true);
            k += 1;
        }
        proof {
            assert forall|m: int| 0 <= m < n implies #[trigger] covered@[m] == covered_by(
                specs.take(i + 1),
                m,
            ) by {
                let t = specs.take(i + 1);
                if covered_by(specs.take(i as int), m) {
                    let w = choose|w: int|
                        0 <= w < specs.take(i as int).len() && #[trigger] in_group(
                            specs.take(i as int)[w],
                            m,
                        );
                    assert(t[w] == specs[w]);
                    assert(in_group(t[w], m));
                }
                if start <= m < start + size {
                    assert(t[i as int] == specs[i as int]);
                    assert(in_group(t[i as int], m));
                }
                if covered_by(t, m) {
                    let w = choose|w: int| 0 <= w < t.len() && #[trigger] in_group(t[w], m);
                    if w < i {
                        assert(specs.take(i as int)[w] == specs[w]);
                        assert(in_group(specs.take(i as int)[w], m));
                    }
                }
            }
        }
        i += 1;
    }
    proof {
        assert(specs.take(specs.len() as int) =~= specs);
    }
    let mut all: Vec<(usize, usize)> = Vec::new();
    let mut j: usize = 0;
    while j < group_specs.len()
        invariant
            specs == group_specs@,
            j <= specs.len(),
            all@ == specs.take(j as int),
        decreases specs.len() - j,
    {
        all.push(group_specs[j]);
        j += 1;
        proof {
            assert(all@ =~= specs.take(j as int));
        }
    }
    proof {
        assert(all@ =~= specs + singletons(specs, 0));
    }
    let mut l: usize = 0;
    while l < n
        invariant
            n == num_vars,
            l <= n,
            covered@.len() == n,
            forall|m: int| 0 <= m < n ==> #[trigger] covered@[m] == covered_by(specs, m),
            all@ == specs + singletons(specs, l as nat),
        decreases n - l,
    {
        if !covered[l] {
            all.push((l, 1));
        }
        proof {
            assert(all@ =~= specs + singletons(specs, (l + 1) as nat));
        }
        l += 1;
    }
    let ghost gs = all@;
    let mut out: Vec<VarGroup> = Vec::new();
    let mut k: usize = 0;
    proof {
        assert(group_pairs(out@) =~= by_start(gs, 0));
    }
    while k <= n
        invariant
            n == num_vars,
            k <= n + 1,
            gs == all@,
            group_pairs(out@) == by_start(gs, k as nat),
        decreases n + 1 - k,
    {
        let mut t: usize = 0;
        let ghost before = out@;
        proof {
            assert(gs.take(0) =~= Seq::<(usize, usize)>::empty());
            assert(group_pairs(out@) =~= group_pairs(before) + starting_at(gs.take(0), k as nat));
        }
        while t < all.len()
            invariant
                gs == all@,
                t <= gs.len(),
                group_pairs(out@) == group_pairs(before) + starting_at(gs.take(t as int), k as nat),
            decreases gs.len() - t,
        {
            let (st, sz) = all[t];
            let ghost prev = out@;
            proof {
                assert(gs.take(t + 1).drop_last() =~= gs.take(t as int));
                assert(gs.take(t + 1).last() == gs[t as int]);
                assert(gs[t as int] == (st, sz));
                assert(starting_at(gs.take(t + 1), k as nat) == starting_at(gs.take(t as int), k as nat)
                    + if st == k {
                    seq![(st, sz)]
                } else {
                    Seq::empty()
                });
            }
            if st == k {
                out.push(VarGroup { start: st, size: sz });
                proof {
                    assert(group_pairs(out@) =~= group_pairs(prev).push((st, sz)));
                }
            }
            proof {
                assert(group_pairs(out@) =~= group_pairs(before) + starting_at(gs.take(t + 1), k as nat));
            }
            t += 1;
        }
        proof {
            assert(gs.take(gs.len() as int) =~= gs);
        }
        k += 1;
    }
    out
}

} // verus!
