//! The permutation operators of genetic variable reordering: random
//! permutations, partially mapped crossover, and mutation by adjacent
//! swaps.
use vstd::prelude::*;
use crate::rng::{Rng, xorshift};

verus! {

/// `p` is a permutation of `0 .. n`: `n` values below `n`, none twice.
pub open spec fn is_perm(p: Seq<u32>, n: nat) -> bool {
    &&& p.len() == n
    &&& forall|i: int| 0 <= i < n ==> #[trigger] p[i] < n
    &&& forall|i: int, j: int| 0 <= i < j < n ==> p[i] != p[j]
}

/// The first place in `lo ..= hi` where `a` holds `v`, or `hi + 1`.
pub open spec fn first_in(a: Seq<u32>, v: u32, lo: int, hi: int) -> int
    decreases hi - lo + 1,
{
    if lo > hi {
        hi + 1
    } else if a[lo] == v {
        lo
    } else {
        first_in(a, v, lo + 1, hi)
    }
}

/// The crossover mapping's step from place `p`: the place in the segment
/// `lo ..= hi` of `a` that holds `b[p]`, or `hi + 1` when the segment does
/// not hold it.
pub open spec fn map_step(a: Seq<u32>, b: Seq<u32>, lo: int, hi: int, p: int) -> int {
    first_in(a, b[p], lo, hi)
}

/// Follow the crossover mapping from place `p` while it stays in the
/// segment, at most `fuel` steps: the last place reached.
pub open spec fn resolve_pos(a: Seq<u32>, b: Seq<u32>, lo: int, hi: int, p: int, fuel: nat) -> int
    decreases fuel,
{
    if fuel == 0 || map_step(a, b, lo, hi, p) > hi {
        p
    } else {
        resolve_pos(a, b, lo, hi, map_step(a, b, lo, hi, p), (fuel - 1) as nat)
    }
}

/// The value of a partially mapped crossover of `a` and `b` over the
/// segment `lo ..= hi` at place `i`: inside the segment, `a`'s value;
/// outside, `b`'s value at the place where the mapping from `i` leaves the
/// segment (so `b[i]` itself when the segment of `a` does not hold it).
pub open spec fn pmx_value(a: Seq<u32>, b: Seq<u32>, lo: int, hi: int, i: int) -> u32 {
    if lo <= i <= hi {
        a[i]
    } else {
        b[resolve_pos(a, b, lo, hi, i, a.len())]
    }
}

/// The place `first_in` finds holds the value and lies in the range;
/// otherwise no place in the range holds it.
proof fn lemma_first_in(a: Seq<u32>, v: u32, lo: int, hi: int)
    requires
        0 <= lo,
        hi < a.len(),
    ensures
        lo <= first_in(a, v, lo, hi) <= hi + 1 || lo > hi,
        first_in(a, v, lo, hi) <= hi ==> a[first_in(a, v, lo, hi)] == v && lo <= first_in(
            a,
            v,
            lo,
            hi,
        ),
        first_in(a, v, lo, hi) > hi ==> forall|k: int| lo <= k <= hi ==> a[k] != v,
    decreases hi - lo + 1,
{
    if lo <= hi && a[lo] != v {
        lemma_first_in(a, v, lo + 1, hi);
    }
}

/// Find the first place in `lo ..= hi` where `a` holds `v`, or `hi + 1`.
fn find_in(a: &[u32], v: u32, lo: usize, hi: usize) -> (r: usize)
    requires
        lo <= hi < a@.len(),
    ensures
        r as int == first_in(a@, v, lo as int, hi as int),
{
    let mut k = lo;
    while k <= hi
        invariant
            lo <= k <= hi + 1,
            hi < a@.len(),
            first_in(a@, v, lo as int, hi as int) == first_in(a@, v, k as int, hi as int),
        decreases hi + 1 - k,
    {
        if a[k] == v {
            return k;
        }
        k += 1;
    }
    k
}

/// The walk of the mapping from place `e`: `k` steps of `map_step`.
pub open spec fn walk(a: Seq<u32>, b: Seq<u32>, lo: int, hi: int, e: int, k: nat) -> int
    decreases k,
{
    if k == 0 {
        e
    } else {
        map_step(a, b, lo, hi, walk(a, b, lo, hi, e, (k - 1) as nat))
    }
}

/// Two places that the mapping sends to the same place of the segment are
/// the same place.
proof fn lemma_step_injective(a: Seq<u32>, b: Seq<u32>, n: nat, lo: int, hi: int, p1: int, p2: int)
    requires
        is_perm(b, n),
        a.len() == n,
        0 <= lo <= hi < n,
        0 <= p1 < n,
        0 <= p2 < n,
        map_step(a, b, lo, hi, p1) == map_step(a, b, lo, hi, p2),
        map_step(a, b, lo, hi, p1) <= hi,
    ensures
        p1 == p2,
{
    lemma_first_in(a, b[p1], lo, hi);
    lemma_first_in(a, b[p2], lo, hi);
    if p1 != p2 {
        if p1 < p2 {
            assert(b[p1] != b[p2]);
        } else {
            assert(b[p2] != b[p1]);
        }
    }
}

/// The steps `1 ..= k` of a walk from outside the segment, while they stay
/// in it, are in range.
proof fn lemma_walk_range(a: Seq<u32>, b: Seq<u32>, n: nat, lo: int, hi: int, e: int, k: nat)
    requires
        a.len() == n,
        0 <= lo <= hi < n,
        0 <= e < n,
    ensures
        0 <= walk(a, b, lo, hi, e, k) < n || walk(a, b, lo, hi, e, k) == hi + 1,
        k > 0 ==> lo <= walk(a, b, lo, hi, e, k) <= hi + 1,
    decreases k,
{
    if k > 0 {
        lemma_walk_range(a, b, n, lo, hi, e, (k - 1) as nat);
        let p = walk(a, b, lo, hi, e, (k - 1) as nat);
        if 0 <= p < n {
            lemma_first_in(a, b[p], lo, hi);
        } else {
            lemma_first_in(a, b[p], lo, hi);
        }
    }
}

/// A walk from outside the segment that stays in it for `k` steps visits
/// `k` different places.
proof fn lemma_walk_distinct(
    a: Seq<u32>,
    b: Seq<u32>,
    n: nat,
    lo: int,
    hi: int,
    e: int,
    k: nat,
)
    requires
        is_perm(b, n),
        a.len() == n,
        0 <= lo <= hi < n,
        0 <= e < n,
        !(lo <= e <= hi),
        forall|t: nat| 1 <= t <= k ==> lo <= #[trigger] walk(a, b, lo, hi, e, t) <= hi,
    ensures
        forall|s: nat, t: nat|
            1 <= s < t <= k ==> walk(a, b, lo, hi, e, s) != walk(a, b, lo, hi, e, t),
    decreases k,
{
    if k > 1 {
        lemma_walk_distinct(a, b, n, lo, hi, e, (k - 1) as nat);
        assert forall|s: nat, t: nat| 1 <= s < t <= k implies walk(a, b, lo, hi, e, s) != walk(
            a,
            b,
            lo,
            hi,
            e,
            t,
        ) by {
            if t < k {
            } else if walk(a, b, lo, hi, e, s) == walk(a, b, lo, hi, e, t) {
                let ps = walk(a, b, lo, hi, e, (s - 1) as nat);
                let pt = walk(a, b, lo, hi, e, (t - 1) as nat);
                lemma_walk_range(a, b, n, lo, hi, e, (s - 1) as nat);
                lemma_walk_range(a, b, n, lo, hi, e, (t - 1) as nat);
                assert(lo <= walk(a, b, lo, hi, e, t) <= hi);
                if s == 1 {
                    assert(ps == e);
                    assert(lo <= walk(a, b, lo, hi, e, (t - 1) as nat) <= hi);
                    lemma_step_injective(a, b, n, lo, hi, ps, pt);
                } else {
                    assert(lo <= walk(a, b, lo, hi, e, (s - 1) as nat) <= hi);
                    assert(lo <= walk(a, b, lo, hi, e, (t - 1) as nat) <= hi);
                    lemma_step_injective(a, b, n, lo, hi, ps, pt);
                }
            }
        }
    }
}

/// Different places in a range number at most its size.
proof fn lemma_distinct_bound(p: Seq<int>, lo: int, hi: int)
    requires
        lo <= hi + 1,
        p.no_duplicates(),
        forall|i: int| 0 <= i < p.len() ==> lo <= #[trigger] p[i] <= hi,
    ensures
        p.len() <= hi - lo + 1,
{
    p.unique_seq_to_set();
    vstd::set_lib::lemma_int_range(lo, hi + 1);
    assert(p.to_set().subset_of(vstd::set_lib::set_int_range(lo, hi + 1)));
    vstd::set_lib::lemma_len_subset(p.to_set(), vstd::set_lib::set_int_range(lo, hi + 1));
}

/// From `m` steps inside the segment, the walk leaves it after at most as
/// many steps as the segment has places.
proof fn lemma_find_stop(a: Seq<u32>, b: Seq<u32>, n: nat, lo: int, hi: int, e: int, m: nat) -> (r:
    nat)
    requires
        is_perm(b, n),
        a.len() == n,
        0 <= lo <= hi < n,
        0 <= e < n,
        !(lo <= e <= hi),
        m <= hi - lo + 1,
        forall|t: nat| 1 <= t <= m ==> lo <= #[trigger] walk(a, b, lo, hi, e, t) <= hi,
    ensures
        m <= r <= hi - lo + 1,
        forall|t: nat| 1 <= t <= r ==> lo <= #[trigger] walk(a, b, lo, hi, e, t) <= hi,
        walk(a, b, lo, hi, e, r + 1) > hi,
    decreases hi - lo + 1 - m,
{
    lemma_walk_range(a, b, n, lo, hi, e, m + 1);
    if walk(a, b, lo, hi, e, m + 1) > hi {
        m
    } else {
        assert forall|t: nat| 1 <= t <= m + 1 implies lo <= #[trigger] walk(a, b, lo, hi, e, t) <= hi by {
        }
        if m + 1 > hi - lo + 1 {
            lemma_walk_distinct(a, b, n, lo, hi, e, m + 1);
            let p = Seq::new(m + 1, |i: int| walk(a, b, lo, hi, e, (i + 1) as nat));
            assert forall|i: int| 0 <= i < p.len() implies lo <= #[trigger] p[i] <= hi by {
                assert(p[i] == walk(a, b, lo, hi, e, (i + 1) as nat));
            }
            assert(p.no_duplicates()) by {
                assert forall|i: int, j: int| 0 <= i < p.len() && 0 <= j < p.len() && i != j implies p[i]
                    != p[j] by {
                    if i < j {
                        assert(walk(a, b, lo, hi, e, (i + 1) as nat) != walk(a, b, lo, hi, e, (j + 1) as nat));
                    } else {
                        assert(walk(a, b, lo, hi, e, (j + 1) as nat) != walk(a, b, lo, hi, e, (i + 1) as nat));
                    }
                }
            }
            lemma_distinct_bound(p, lo, hi);
        }
        lemma_find_stop(a, b, n, lo, hi, e, m + 1)
    }
}

/// Following the mapping from step `j` of the walk, with enough fuel, ends
/// where the walk leaves the segment.
proof fn lemma_resolve_walk(a: Seq<u32>, b: Seq<u32>, lo: int, hi: int, e: int, m: nat, j: nat, f: nat)
    requires
        j <= m,
        f >= m - j,
        forall|t: nat| 1 <= t <= m ==> lo <= #[trigger] walk(a, b, lo, hi, e, t) <= hi,
        walk(a, b, lo, hi, e, m + 1) > hi,
    ensures
        resolve_pos(a, b, lo, hi, walk(a, b, lo, hi, e, j), f) == walk(a, b, lo, hi, e, m),
    decreases m - j,
{
    if j < m {
        assert(walk(a, b, lo, hi, e, j + 1) == map_step(a, b, lo, hi, walk(a, b, lo, hi, e, j)));
        assert(lo <= walk(a, b, lo, hi, e, j + 1) <= hi);
        lemma_resolve_walk(a, b, lo, hi, e, m, j + 1, (f - 1) as nat);
    }
}

/// The place where the mapping from `e` (outside the segment) leaves the
/// segment: a walk of `m` steps inside it, with the next step outside.
proof fn lemma_stop(a: Seq<u32>, b: Seq<u32>, n: nat, lo: int, hi: int, e: int) -> (m: nat)
    requires
        is_perm(b, n),
        a.len() == n,
        0 <= lo <= hi < n,
        0 <= e < n,
        !(lo <= e <= hi),
    ensures
        m < n,
        forall|t: nat| 1 <= t <= m ==> lo <= #[trigger] walk(a, b, lo, hi, e, t) <= hi,
        walk(a, b, lo, hi, e, m + 1) > hi,
        resolve_pos(a, b, lo, hi, e, n) == walk(a, b, lo, hi, e, m),
{
    let m = lemma_find_stop(a, b, n, lo, hi, e, 0);
    assert(hi - lo + 1 < n);
    lemma_resolve_walk(a, b, lo, hi, e, m, 0, n);
    m
}

/// Two walks that meet, the shorter from outside the segment, started at
/// the same place and had the same length.
proof fn lemma_walks_meet(
    a: Seq<u32>,
    b: Seq<u32>,
    n: nat,
    lo: int,
    hi: int,
    e1: int,
    m1: nat,
    e2: int,
    m2: nat,
)
    requires
        is_perm(b, n),
        a.len() == n,
        0 <= lo <= hi < n,
        0 <= e1 < n,
        0 <= e2 < n,
        !(lo <= e1 <= hi),
        !(lo <= e2 <= hi),
        m1 <= m2,
        forall|t: nat| 1 <= t <= m1 ==> lo <= #[trigger] walk(a, b, lo, hi, e1, t) <= hi,
        forall|t: nat| 1 <= t <= m2 ==> lo <= #[trigger] walk(a, b, lo, hi, e2, t) <= hi,
        walk(a, b, lo, hi, e1, m1) == walk(a, b, lo, hi, e2, m2),
    ensures
        e1 == e2,
        m1 == m2,
    decreases m1,
{
    if m1 == 0 {
        if m2 > 0 {
            assert(lo <= walk(a, b, lo, hi, e2, m2) <= hi);
        }
    } else {
        let p1 = walk(a, b, lo, hi, e1, (m1 - 1) as nat);
        let p2 = walk(a, b, lo, hi, e2, (m2 - 1) as nat);
        lemma_walk_range(a, b, n, lo, hi, e1, (m1 - 1) as nat);
        lemma_walk_range(a, b, n, lo, hi, e2, (m2 - 1) as nat);
        if m1 > 1 {
            assert(lo <= walk(a, b, lo, hi, e1, (m1 - 1) as nat) <= hi);
        }
        if m2 > 1 {
            assert(lo <= walk(a, b, lo, hi, e2, (m2 - 1) as nat) <= hi);
        }
        assert(lo <= walk(a, b, lo, hi, e1, m1) <= hi);
        lemma_step_injective(a, b, n, lo, hi, p1, p2);
        lemma_walks_meet(a, b, n, lo, hi, e1, (m1 - 1) as nat, e2, (m2 - 1) as nat);
    }
}

/// A partially mapped crossover of two permutations is a permutation.
pub proof fn lemma_pmx_perm(a: Seq<u32>, b: Seq<u32>, n: nat, lo: int, hi: int)
    requires
        is_perm(a, n),
        is_perm(b, n),
        0 <= lo <= hi < n,
    ensures
        is_perm(Seq::new(n, |i: int| pmx_value(a, b, lo, hi, i)), n),
{
    let c = Seq::new(n, |i: int| pmx_value(a, b, lo, hi, i));
    assert forall|i: int| 0 <= i < n implies #[trigger] c[i] < n && (!(lo <= i <= hi) ==> forall|k: int|
        lo <= k <= hi ==> a[k] != c[i]) by {
        if !(lo <= i <= hi) {
            let m = lemma_stop(a, b, n, lo, hi, i);
            lemma_walk_range(a, b, n, lo, hi, i, m);
            let t = walk(a, b, lo, hi, i, m);
            assert(0 <= t < n);
            lemma_first_in(a, b[t], lo, hi);
            assert(walk(a, b, lo, hi, i, m + 1) == map_step(a, b, lo, hi, t));
        }
    }
    assert forall|i: int, j: int| 0 <= i < j < n implies c[i] != c[j] by {
        if lo <= i <= hi && lo <= j <= hi {
        } else if lo <= i <= hi {
        } else if lo <= j <= hi {
        } else {
            let mi = lemma_stop(a, b, n, lo, hi, i);
            let mj = lemma_stop(a, b, n, lo, hi, j);
            lemma_walk_range(a, b, n, lo, hi, i, mi);
            lemma_walk_range(a, b, n, lo, hi, j, mj);
            let ti = walk(a, b, lo, hi, i, mi);
            let tj = walk(a, b, lo, hi, j, mj);
            if c[i] == c[j] {
                assert(b[ti] == b[tj]);
                if ti != tj {
                    if ti < tj {
                        assert(b[ti] != b[tj]);
                    } else {
                        assert(b[tj] != b[ti]);
                    }
                }
                if mi <= mj {
                    lemma_walks_meet(a, b, n, lo, hi, i, mi, j, mj);
                } else {
                    lemma_walks_meet(a, b, n, lo, hi, j, mj, i, mi);
                }
            }
        }
    }
}

/// Cross `a` and `b` over the segment `lo ..= hi`: the child takes `a`'s
/// values inside the segment and, outside, `b`'s value at the place where
/// the mapping leaves the segment.
pub fn pmx_with_segment(a: &[u32], b: &[u32], n: usize, lo: usize, hi: usize) -> (r: Vec<u32>)
    requires
        is_perm(a@, n as nat),
        is_perm(b@, n as nat),
        lo <= hi < n,
    ensures
        r@ == Seq::new(n as nat, |i: int| pmx_value(a@, b@, lo as int, hi as int, i)),
        is_perm(r@, n as nat),
{
    let mut child: Vec<u32> = Vec::new();
    let mut i: usize = 0;
    while i < n
        invariant
            is_perm(a@, n as nat),
            is_perm(b@, n as nat),
            lo <= hi < n,
            i <= n,
            child@.len() == i,
            forall|k: int| 0 <= k < i ==> #[trigger] child@[k] == pmx_value(a@, b@, lo as int, hi as int, k),
        decreases n - i,
    {
        if lo <= i && i <= hi {
            child.push(a[i]);
        } else {
            let mut p: usize = i;
            let mut fuel: usize = n;
            let mut going = true;
            while going && fuel > 0
                invariant
                    is_perm(b@, n as nat),
                    a@.len() == n,
                    lo <= hi < n,
                    p < n,
                    resolve_pos(a@, b@, lo as int, hi as int, i as int, n as nat) == resolve_pos(
                        a@,
                        b@,
                        lo as int,
                        hi as int,
                        p as int,
                        fuel as nat,
                    ),
                    !going ==> map_step(a@, b@, lo as int, hi as int, p as int) > hi,
                decreases fuel + (if going {
                    1int
                } else {
                    0int
                }),
            {
                let q = find_in(a, b[p], lo, hi);
                proof {
                    lemma_first_in(a@, b@[p as int], lo as int, hi as int);
                }
                if q > hi {
                    going = false;
                } else {
                    p = q;
                    fuel -= 1;
                }
            }
            child.push(b[p]);
        }
        i += 1;
    }
    proof {
        assert(child@ =~= Seq::new(n as nat, |k: int| pmx_value(a@, b@, lo as int, hi as int, k)));
        lemma_pmx_perm(a@, b@, n as nat, lo as int, hi as int);
    }
    child
}

/// The segment that a crossover of permutations of `0 .. n` draws from
/// the generator in state `s`, and the state after: two draws below `n`,
/// ordered; a segment that would cover all but at most one place is cut
/// to `n / 2` places after its start (ending at the last place at the
/// latest).
pub open spec fn pmx_segment(n: nat, s: u64) -> (int, int, u64) {
    let x = xorshift(s);
    let y = xorshift(x);
    let p1 = (x as nat % n) as int;
    let p2 = (y as nat % n) as int;
    let lo = if p1 > p2 {
        p2
    } else {
        p1
    };
    let top = if p1 > p2 {
        p1
    } else {
        p2
    };
    let hi = if top - lo >= n - 1 {
        if lo + n / 2 >= n {
            n - 1
        } else {
            lo + n / 2
        }
    } else {
        top
    };
    (lo, hi, y)
}

/// Partially mapped crossover of two permutations of `0 .. n` over a
/// segment drawn from the generator.
pub fn pmx_crossover(parent_a: &[u32], parent_b: &[u32], n: usize, rng: &mut Rng) -> (r: Vec<u32>)
    requires
        n >= 1,
        is_perm(parent_a@, n as nat),
        is_perm(parent_b@, n as nat),
    ensures
        ({
            let (lo, hi, s) = pmx_segment(n as nat, old(rng).state_of());
            &&& r@ == Seq::new(n as nat, |i: int| pmx_value(parent_a@, parent_b@, lo, hi, i))
            &&& final(rng).state_of() == s
        }),
        is_perm(r@, n as nat),
{
    let mut pt1 = rng.next_usize(n);
    let mut pt2 = rng.next_usize(n);
    if pt1 > pt2 {
        let t = pt1;
        pt1 = pt2;
        pt2 = t;
    }
    if pt2 - pt1 >= n - 1 {
        pt2 = pt1 + n / 2;
        if pt2 >= n {
            pt2 = n - 1;
        }
    }
    pmx_with_segment(parent_a, parent_b, n, pt1, pt2)
}

/// `p` with the values at `i` and `j` exchanged.
pub open spec fn swapped(p: Seq<u32>, i: int, j: int) -> Seq<u32> {
    p.update(i, p[j]).update(j, p[i])
}

/// Exchange the values at `i` and `j`.
fn swap_at(v: &mut Vec<u32>, i: usize, j: usize)
    requires
        i < old(v)@.len(),
        j < old(v)@.len(),
    ensures
        final(v)@ == swapped(old(v)@, i as int, j as int),
{
    let x = v[i];
    let y = v[j];
    v.set(i, y);
    v.set(j, x);
}

/// Exchanging two values of a permutation gives a permutation.
pub proof fn lemma_swap_perm(p: Seq<u32>, n: nat, i: int, j: int)
    requires
        is_perm(p, n),
        0 <= i < n,
        0 <= j < n,
    ensures
        is_perm(swapped(p, i, j), n),
{
    let q = swapped(p, i, j);
    assert forall|x: int, y: int| 0 <= x < y < n implies q[x] != q[y] by {
        let sx = if x == j {
            i
        } else if x == i {
            j
        } else {
            x
        };
        let sy = if y == j {
            i
        } else if y == i {
            j
        } else {
            y
        };
        assert(q[x] == p[sx]);
        assert(q[y] == p[sy]);
        assert(sx != sy);
        if sx < sy {
        } else {
            assert(p[sy] != p[sx]);
        }
    }
    assert forall|x: int| 0 <= x < n implies #[trigger] q[x] < n by {
        if x == j {
            assert(q[x] == p[i]);
        } else if x == i {
            assert(q[x] == p[j]);
        }
    }
}

/// `0 .. n` in order.
pub open spec fn iota(n: nat) -> Seq<u32> {
    Seq::new(n, |k: int| k as u32)
}

/// The Fisher-Yates shuffle of `p` from place `i` down to place 1, drawing
/// from the generator in state `s`: place `i` is exchanged with a place
/// drawn below `i + 1`. The result and the generator's state after.
pub open spec fn shuffled(p: Seq<u32>, i: nat, s: u64) -> (Seq<u32>, u64)
    decreases i,
{
    if i == 0 {
        (p, s)
    } else {
        let x = xorshift(s);
        let j = (x as nat % (i + 1)) as int;
        shuffled(swapped(p, i as int, j), (i - 1) as nat, x)
    }
}

/// Shuffling keeps a permutation a permutation.
pub proof fn lemma_shuffled_perm(p: Seq<u32>, n: nat, i: nat, s: u64)
    requires
        is_perm(p, n),
        i < n,
    ensures
        is_perm(shuffled(p, i, s).0, n),
    decreases i,
{
    if i > 0 {
        let x = xorshift(s);
        let j = (x as nat % (i + 1)) as int;
        lemma_swap_perm(p, n, i as int, j);
        lemma_shuffled_perm(swapped(p, i as int, j), n, (i - 1) as nat, x);
    }
}

/// A random permutation of `0 .. n`: `0 .. n` shuffled with the generator.
pub fn random_permutation(n: usize, rng: &mut Rng) -> (r: Vec<u32>)
    requires
        n <= u32::MAX,
    ensures
        n == 0 ==> r@.len() == 0 && final(rng).state_of() == old(rng).state_of(),
        n > 0 ==> (r@, final(rng).state_of()) == shuffled(iota(n as nat), (n - 1) as nat, old(rng).state_of()),
        is_perm(r@, n as nat),
{
    let mut perm: Vec<u32> = Vec::new();
    let mut k: usize = 0;
    while k < n
        invariant
            n <= u32::MAX,
            k <= n,
            perm@ == iota(k as nat),
        decreases n - k,
    {
        perm.push(k as u32);
        k += 1;
        proof {
            assert(perm@ =~= iota(k as nat));
        }
    }
    if n == 0 {
        return perm;
    }
    proof {
        assert(is_perm(iota(n as nat), n as nat));
    }
    let mut i: usize = n - 1;
    let ghost start = old(rng).state_of();
    while i >= 1
        invariant
            i < n,
            shuffled(iota(n as nat), (n - 1) as nat, start) == shuffled(perm@, i as nat, rng.state_of()),
            is_perm(perm@, n as nat),
        decreases i,
    {
        let j = rng.next_usize(i + 1);
        proof {
            lemma_swap_perm(perm@, n as nat, i as int, j as int);
        }
        swap_at(&mut perm, i, j);
        i -= 1;
    }
    proof {
        lemma_shuffled_perm(iota(n as nat), n as nat, (n - 1) as nat, start);
    }
    perm
}

/// `k` exchanges of neighbours in `p`, each at a place drawn below
/// `p.len() - 1` from the generator in state `s`: the result and the
/// generator's state after.
pub open spec fn adjacent_swaps(p: Seq<u32>, k: nat, s: u64) -> (Seq<u32>, u64)
    decreases k,
{
    if k == 0 {
        (p, s)
    } else {
        let x = xorshift(s);
        let pos = (x as nat % (p.len() - 1) as nat) as int;
        adjacent_swaps(swapped(p, pos, pos + 1), (k - 1) as nat, x)
    }
}

/// Exchanging neighbours keeps a permutation a permutation.
pub proof fn lemma_adjacent_swaps_perm(p: Seq<u32>, n: nat, k: nat, s: u64)
    requires
        is_perm(p, n),
        n >= 2,
    ensures
        is_perm(adjacent_swaps(p, k, s).0, n),
    decreases k,
{
    if k > 0 {
        let x = xorshift(s);
        let pos = (x as nat % (p.len() - 1) as nat) as int;
        lemma_swap_perm(p, n, pos, pos + 1);
        lemma_adjacent_swaps_perm(swapped(p, pos, pos + 1), n, (k - 1) as nat, x);
    }
}

/// Mutate a permutation by `num_swaps` exchanges of neighbours at places
/// drawn from the generator; one of at most one value is left as it is.
pub fn mutate_permutation(perm: &mut Vec<u32>, num_swaps: usize, rng: &mut Rng)
    ensures
        old(perm)@.len() <= 1 ==> final(perm)@ == old(perm)@ && final(rng).state_of() == old(
            rng,
        ).state_of(),
        old(perm)@.len() > 1 ==> (final(perm)@, final(rng).state_of()) == adjacent_swaps(
            old(perm)@,
            num_swaps as nat,
            old(rng).state_of(),
        ),
{
    let n = perm.len();
    if n <= 1 {
        return;
    }
    let ghost start = (old(perm)@, old(rng).state_of());
    let mut done: usize = 0;
    while done < num_swaps
        invariant
            n == perm@.len(),
            n > 1,
            done <= num_swaps,
            adjacent_swaps(start.0, num_swaps as nat, start.1) == adjacent_swaps(
                perm@,
                (num_swaps - done) as nat,
                rng.state_of(),
            ),
        decreases num_swaps - done,
    {
        let pos = rng.next_usize(n - 1);
        swap_at(perm, pos, pos + 1);
        done += 1;
    }
}

} // verus!
