//! Variable interaction matrix for reordering.
//!
//! Tracks which variable pairs co-occur on some root-to-terminal path.
//! When two variables never interact, swapping them during sifting cannot
//! change the diagram size, so the swap can be skipped.
use vstd::prelude::*;

verus! {

/// The flat bit position of the unordered pair `{i, j}` (`i != j`) in a
/// row-major lower-triangular layout: `a * (a - 1) / 2 + b` for
/// `a = max(i, j)`, `b = min(i, j)`.
pub open spec fn pair_index(i: nat, j: nat) -> nat {
    if i < j {
        (j * (j - 1) / 2 + i) as nat
    } else {
        (i * (i - 1) / 2 + j) as nat
    }
}

/// Computing `pair_index(i, j)` in `usize` does not overflow.
pub open spec fn pair_index_fits(i: nat, j: nat) -> bool {
    let a = if i < j { j } else { i };
    let b = if i < j { i } else { j };
    a * (a - 1) <= usize::MAX && a * (a - 1) / 2 + b <= usize::MAX
}

/// Bit `k` (0 = least significant) of a word.
pub open spec fn word_bit(w: u64, k: nat) -> bool {
    (w >> (k as u64)) & 1 == 1
}

/// The set of bit positions that are set in a little-endian word vector.
pub open spec fn set_bits(s: Seq<u64>) -> Set<nat> {
    Set::new(|k: nat| k < 64 * s.len() && word_bit(s[(k / 64) as int], k % 64))
}

/// Bit-packed symmetric interaction matrix.
///
/// Entry `(i, j)` with `i != j` is the bit at `pair_index(i, j)`; a
/// variable always interacts with itself.
pub struct InteractionMatrix {
    /// Bit-packed storage for the lower-triangular matrix.
    bits: Vec<u64>,
    /// Number of variables (matrix dimension).
    n: usize,
}

proof fn lemma_or_bit(w: u64, b: u64, c: u64)
    requires
        b < 64,
        c < 64,
    ensures
        word_bit(w | (1u64 << b), c as nat) == (c == b || word_bit(w, c as nat)),
{
    assert(((w | (1u64 << b)) >> c) & 1 == 1 <==> (c == b || (w >> c) & 1 == 1)) by (bit_vector)
        requires
            b < 64,
            c < 64,
    ;
}

proof fn lemma_zero_bits(c: u64)
    requires
        c < 64,
    ensures
        !word_bit(0, c as nat),
{
    assert((0u64 >> c) & 1 == 0) by (bit_vector);
}

impl InteractionMatrix {
    /// The positions of the set bits.
    pub closed spec fn view(&self) -> Set<nat> {
        set_bits(self.bits@)
    }

    /// Number of storage bits.
    pub closed spec fn capacity(&self) -> nat {
        64 * self.bits@.len()
    }

    /// The matrix dimension.
    pub closed spec fn dim(&self) -> nat {
        self.n as nat
    }

    /// Whether variables `i` and `j` interact.
    pub open spec fn interacts(&self, i: nat, j: nat) -> bool {
        i == j || self.view().contains(pair_index(i, j))
    }

    /// Every set bit lies inside the storage.
    pub proof fn lemma_view_in_capacity(&self)
        ensures
            forall|k: nat| self.view().contains(k) ==> k < self.capacity(),
    {
    }

    /// A zero-filled matrix for `n` variables.
    pub fn new(n: usize) -> (r: InteractionMatrix)
        requires
            n * (if n > 0 { n - 1 } else { 0 }) <= usize::MAX,
            n * (if n > 0 { n - 1 } else { 0 }) / 2 + 63 <= usize::MAX,
        ensures
            r.dim() == n,
            r.view() == Set::<nat>::empty(),
            r.capacity() >= n * (if n > 0 { n - 1 } else { 0 }) / 2,
            r.capacity() < n * (if n > 0 { n - 1 } else { 0 }) / 2 + 64,
    {
        let m = if n > 0 {
            n - 1
        } else {
            0
        };
        let num_entries = n * m / 2;
        let num_words = (num_entries + 63) / 64;
        let mut bits: Vec<u64> = Vec::new();
        while bits.len() < num_words
            invariant
                bits@.len() <= num_words,
                forall|i: int| 0 <= i < bits@.len() ==> bits@[i] == 0,
            decreases num_words - bits@.len(),
        {
            bits.push(0);
        }
        let r = InteractionMatrix { bits, n };
        proof {
            assert forall|k: nat| !r.view().contains(k) by {
                if k < 64 * bits@.len() {
                    lemma_zero_bits((k % 64) as u64);
                }
            }
            assert(r.view() =~= Set::<nat>::empty());
        }
        r
    }

    /// The flat bit position of the pair `(i, j)`, `i != j`.
    fn bit_index(i: usize, j: usize) -> (r: usize)
        requires
            i != j,
            pair_index_fits(i as nat, j as nat),
        ensures
            r == pair_index(i as nat, j as nat),
    {
        let mut i = i;
        let mut j = j;
        if i < j {
            std::mem::swap(&mut i, &mut j);
        }
        i * (i - 1) / 2 + j
    }

    /// Set the interaction bit for variables `i` and `j`.
    ///
    /// Has no effect for `i == j` or when the position lies past the storage.
    pub fn set(&mut self, i: usize, j: usize)
        requires
            i == j || pair_index_fits(i as nat, j as nat),
        ensures
            final(self).dim() == old(self).dim(),
            final(self).capacity() == old(self).capacity(),
            final(self).view() == if i != j && pair_index(i as nat, j as nat) < old(self).capacity() {
                old(self).view().insert(pair_index(i as nat, j as nat))
            } else {
                old(self).view()
            },
    {
        if i == j {
            return;
        }
        let idx = Self::bit_index(i, j);
        let word = idx / 64;
        let bit = idx % 64;
        if word < self.bits.len() {
            let ghost old_bits = self.bits@;
            let w = self.bits[word];
            self.bits.set(word, w | (1u64 << (bit as u64)));
            proof {
                assert forall|k: nat| #![auto]
                    set_bits(self.bits@).contains(k) == (set_bits(old_bits).contains(k) || k
                        == idx) by {
                    if k < 64 * old_bits.len() && k / 64 == word {
                        lemma_or_bit(w, bit as u64, (k % 64) as u64);
                    }
                }
                assert forall|k: nat| #![auto]
                    set_bits(self.bits@).contains(k) == set_bits(old_bits).insert(idx as nat).contains(k) by {
                    if k < 64 * old_bits.len() && k / 64 == word {
                        lemma_or_bit(w, bit as u64, (k % 64) as u64);
                    }
                }
                assert(set_bits(self.bits@) =~= set_bits(old_bits).insert(idx as nat));
            }
        }
    }

    /// Whether variables `i` and `j` interact (always for `i == j`).
    pub fn test(&self, i: usize, j: usize) -> (r: bool)
        requires
            i == j || pair_index_fits(i as nat, j as nat),
        ensures
            r == self.interacts(i as nat, j as nat),
    {
        if i == j {
            return true;
        }
        let idx = Self::bit_index(i, j);
        let word = idx / 64;
        let bit = idx % 64;
        if word < self.bits.len() {
            let w = self.bits[word];
            let sh = bit as u64;
            assert(((w >> sh) & 1 != 0) == ((w >> sh) & 1 == 1)) by (bit_vector);
            (w >> sh) & 1 != 0
        } else {
            false
        }
    }

    /// Number of variables this matrix covers.
    pub fn size(&self) -> (r: usize)
        ensures
            r == self.dim(),
    {
        self.n
    }

    /// Clear all entries.
    pub fn clear(&mut self)
        ensures
            final(self).dim() == old(self).dim(),
            final(self).capacity() == old(self).capacity(),
            final(self).view() == Set::<nat>::empty(),
    {
        let mut i: usize = 0;
        while i < self.bits.len()
            invariant
                self.n == old(self).n,
                self.bits@.len() == old(self).bits@.len(),
                i <= self.bits@.len(),
                forall|k: int| 0 <= k < i ==> self.bits@[k] == 0,
            decreases self.bits@.len() - i,
        {
            self.bits.set(i, 0);
            i += 1;
        }
        proof {
            assert forall|k: nat| !set_bits(self.bits@).contains(k) by {
                if k < 64 * self.bits@.len() {
                    lemma_zero_bits((k % 64) as u64);
                }
            }
            assert(set_bits(self.bits@) =~= Set::<nat>::empty());
        }
    }

    /// Count how many other variables below the dimension interact with `v`.
    pub fn interaction_count(&self, v: usize) -> (r: usize)
        requires
            forall|u: nat| u < self.dim() && u != v ==> pair_index_fits(u, v as nat),
        ensures
            r == count_interacting(*self, v as nat, self.dim()),
    {
        let mut count: usize = 0;
        let mut u: usize = 0;
        while u < self.n
            invariant
                u <= self.n,
                forall|x: nat| x < self.dim() && x != v ==> pair_index_fits(x, v as nat),
                count == count_interacting(*self, v as nat, u as nat),
                count <= u,
            decreases self.n - u,
        {
            if u != v && self.test(u, v) {
                count += 1;
            }
            u += 1;
        }
        count
    }
}

/// The number of variables `u < k`, `u != v`, that interact with `v`.
pub open spec fn count_interacting(m: InteractionMatrix, v: nat, k: nat) -> nat
    decreases k,
{
    if k == 0 {
        0
    } else {
        let u = (k - 1) as nat;
        count_interacting(m, v, u) + if u != v && m.interacts(u, v) {
            1nat
        } else {
            0nat
        }
    }
}

/// Interaction is symmetric.
pub proof fn lemma_interacts_symmetric(m: InteractionMatrix, i: nat, j: nat)
    ensures
        m.interacts(i, j) == m.interacts(j, i),
{
}

/// For a matrix sized for `n` variables, every pair below `n` has a bit.
pub proof fn lemma_pairs_in_capacity(n: nat, i: nat, j: nat)
    requires
        i < n,
        j < n,
        i != j,
    ensures
        pair_index(i, j) < n * (if n > 0 { n - 1 } else { 0 }) / 2,
{
    let a: nat = if i < j { j } else { i };
    let b: nat = if i < j { i } else { j };
    vstd::arithmetic::mul::lemma_mul_upper_bound((a + 1) as int, n as int, a as int, (n - 1) as int);
    assert((a + 1) * a == a * (a - 1) + 2 * a) by (nonlinear_arith)
        requires
            a >= 1,
    ;
    assert(a * (a - 1) / 2 + b < n * (n - 1) / 2) by (nonlinear_arith)
        requires
            b < a,
            a * (a - 1) + 2 * a <= n * (n - 1),
    ;
}

/// The triangular layout gives distinct unordered pairs distinct bits.
pub proof fn lemma_pair_index_injective(i: nat, j: nat, x: nat, y: nat)
    requires
        i != j,
        x != y,
        pair_index(i, j) == pair_index(x, y),
    ensures
        (i == x && j == y) || (i == y && j == x),
{
    let a: nat = if i < j { j } else { i };
    let b: nat = if i < j { i } else { j };
    let c: nat = if x < y { y } else { x };
    let d: nat = if x < y { x } else { y };
    lemma_tri_bounds(a, b);
    lemma_tri_bounds(c, d);
    if a < c {
        lemma_tri_mono(a + 1, c);
    } else if c < a {
        lemma_tri_mono(c + 1, a);
    }
}

/// `a (a - 1) / 2 <= a (a - 1) / 2 + b < (a + 1) a / 2` for `b < a`.
proof fn lemma_tri_bounds(a: nat, b: nat)
    requires
        b < a,
    ensures
        a * (a - 1) / 2 + b < (a + 1) * a / 2,
{
    assert((a + 1) * a == a * (a - 1) + 2 * a) by (nonlinear_arith)
        requires
            a >= 1,
    ;
    assert(a * (a - 1) % 2 == 0) by (nonlinear_arith)
        requires
            a >= 1,
    {
        if a % 2 == 0 {
            assert(a * (a - 1) == 2 * ((a / 2) * (a - 1))) by (nonlinear_arith)
                requires
                    a % 2 == 0,
            ;
        } else {
            assert(a * (a - 1) == 2 * (a * ((a - 1) / 2))) by (nonlinear_arith)
                requires
                    a % 2 == 1,
            ;
        }
    }
}

/// `x (x - 1) / 2` grows with `x`.
proof fn lemma_tri_mono(x: nat, y: nat)
    requires
        1 <= x <= y,
    ensures
        x * (x - 1) / 2 <= y * (y - 1) / 2,
{
    assert(x * (x - 1) <= y * (y - 1)) by (nonlinear_arith)
        requires
            1 <= x <= y,
    ;
    vstd::arithmetic::div_mod::lemma_div_is_ordered((x * (x - 1)) as int, (y * (y - 1)) as int, 2);
}

/// Setting pair `{i, j}` makes exactly that pair interact and changes
/// no other pair.
pub proof fn lemma_set_only_pair(
    before: InteractionMatrix,
    after: InteractionMatrix,
    i: nat,
    j: nat,
    x: nat,
    y: nat,
)
    requires
        i != j,
        after.view() == before.view().insert(pair_index(i, j)),
    ensures
        after.interacts(x, y) == (before.interacts(x, y) || (x == i && y == j) || (x == j && y == i)),
{
    if x != y && pair_index(x, y) == pair_index(i, j) {
        lemma_pair_index_injective(i, j, x, y);
    }
}

/// A call on an interaction matrix, as a history records it.
pub enum MatrixStep {
    /// `set(i, j)`.
    Mark(usize, usize),
    /// `clear()`.
    Clear,
}

/// The set bits after the calls `ss`, from `v`, in a matrix of `cap`
/// storage bits: what the contracts of `set` and `clear` make of them.
pub open spec fn bits_after(v: Set<nat>, cap: nat, ss: Seq<MatrixStep>) -> Set<nat>
    decreases ss.len(),
{
    if ss.len() == 0 {
        v
    } else {
        let b = bits_after(v, cap, ss.drop_last());
        match ss.last() {
            MatrixStep::Mark(i, j) => if i != j && pair_index(i as nat, j as nat) < cap {
                b.insert(pair_index(i as nat, j as nat))
            } else {
                b
            },
            MatrixStep::Clear => Set::empty(),
        }
    }
}

/// `set(i, j)` or `set(j, i)` was called among `ss` after the last clear.
pub open spec fn set_since(ss: Seq<MatrixStep>, i: nat, j: nat) -> bool
    decreases ss.len(),
{
    if ss.len() == 0 {
        false
    } else {
        match ss.last() {
            MatrixStep::Mark(a, b) => ((a == i && b == j) || (a == j && b == i)) || set_since(
                ss.drop_last(),
                i,
                j,
            ),
            MatrixStep::Clear => false,
        }
    }
}

/// From an empty matrix (as `new` and `clear` leave it), two distinct
/// variables whose pair has a bit interact exactly when `set` was called
/// on them, in either order, since the last clear.
pub proof fn lemma_matrix_history(cap: nat, ss: Seq<MatrixStep>, i: nat, j: nat)
    requires
        i != j,
        pair_index(i, j) < cap,
    ensures
        bits_after(Set::empty(), cap, ss).contains(pair_index(i, j)) == set_since(ss, i, j),
    decreases ss.len(),
{
    if ss.len() > 0 {
        lemma_matrix_history(cap, ss.drop_last(), i, j);
        match ss.last() {
            MatrixStep::Mark(a, b) => {
                if a != b && pair_index(a as nat, b as nat) == pair_index(i, j) {
                    lemma_pair_index_injective(a as nat, b as nat, i, j);
                }
            },
            MatrixStep::Clear => {},
        }
    }
}

} // verus!
