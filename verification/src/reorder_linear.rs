//! Linear transformation matrices over GF(2) for linear sifting.
//!
//! Row `i` represents variable `i` as an XOR of original variables: if
//! bit `j` of the row is set, original variable `j` participates.
use vstd::prelude::*;
use crate::interact::word_bit;

verus! {

/// An `n x n` matrix over GF(2), stored row-major as bit-packed `u64`
/// words, `row_words` words per row.
pub struct LinearTransformMatrix {
    n: usize,
    bits: Vec<u64>,
    row_words: usize,
}

proof fn lemma_xor_bit(a: u64, b: u64, k: u64)
    requires
        k < 64,
    ensures
        word_bit(a ^ b, k as nat) == (word_bit(a, k as nat) != word_bit(b, k as nat)),
{
    assert(((a ^ b) >> k) & 1 == 1 <==> (((a >> k) & 1 == 1) != ((b >> k) & 1 == 1))) by (bit_vector)
        requires
            k < 64,
    ;
}

proof fn lemma_or_bit(w: u64, b: u64, c: u64)
    requires
        b < 64,
        c < 64,
    ensures
        word_bit(w | (1u64 << b), c as nat) == (c == b || word_bit(w, c as nat)),
{
    assert(((w | (1u64 << b)) >> c) & 1 == 1 <==> (c == b || (w >> c) & 1 == 1)) by (bit_vector)
        requires
            b < 64,
            c < 64,
    ;
}

proof fn lemma_zero_word(c: u64)
    requires
        c < 64,
    ensures
        !word_bit(0, c as nat),
{
    assert((0u64 >> c) & 1 == 0) by (bit_vector);
}

/// Word positions of distinct rows (or distinct words of a row) differ.
proof fn lemma_word_pos(r1: nat, x1: nat, r2: nat, x2: nat, rw: nat)
    requires
        x1 < rw,
        x2 < rw,
        r1 * rw + x1 == r2 * rw + x2,
    ensures
        r1 == r2,
        x1 == x2,
{
    if r1 < r2 {
        assert(r1 * rw + rw <= r2 * rw) by (nonlinear_arith)
            requires
                r1 < r2,
        ;
    } else if r2 < r1 {
        assert(r2 * rw + rw <= r1 * rw) by (nonlinear_arith)
            requires
                r2 < r1,
        ;
    }
}

/// Row `r` of an `n`-row matrix with `rw` words per row fits in `n * rw` words.
proof fn lemma_row_in_bounds(r: nat, x: nat, n: nat, rw: nat)
    requires
        r < n,
        x < rw,
    ensures
        r * rw + x < n * rw,
{
    assert(r * rw + rw <= n * rw) by (nonlinear_arith)
        requires
            r < n,
    ;
}

impl LinearTransformMatrix {
    /// Number of variables.
    pub closed spec fn dim(&self) -> nat {
        self.n as nat
    }

    /// Number of columns stored per row (a multiple of 64, at least `dim`).
    pub closed spec fn width(&self) -> nat {
        64 * self.row_words as nat
    }

    /// The bit at `(row, col)`.
    pub closed spec fn bit_at(&self, row: nat, col: nat) -> bool {
        word_bit(self.bits@[(row * self.row_words as nat + col / 64) as int], col % 64)
    }

    /// The storage word holding `(row, col)`.
    pub closed spec fn word_index(&self, row: nat, col: nat) -> nat {
        row * self.row_words as nat + col / 64
    }

    /// Number of storage words.
    pub closed spec fn storage_len(&self) -> nat {
        self.bits@.len()
    }

    /// Storage is `dim` rows of `ceil(dim / 64)` words.
    pub closed spec fn wf(&self) -> bool {
        &&& self.row_words as nat == (self.n as nat + 63) / 64
        &&& self.bits@.len() == self.n as nat * self.row_words as nat
    }

    /// The stored columns cover every variable.
    pub proof fn lemma_width(&self)
        requires
            self.wf(),
        ensures
            self.dim() <= self.width(),
    {
    }

    /// The identity matrix for `n` variables.
    pub fn identity(n: usize) -> (r: LinearTransformMatrix)
        requires
            n + 63 <= usize::MAX,
            n * ((n + 63) / 64) <= usize::MAX,
        ensures
            r.wf(),
            r.dim() == n,
            forall|i: nat, j: nat| i < n && j < r.width() ==> #[trigger] r.bit_at(i, j) == (i == j),
    {
        let row_words = (n + 63) / 64;
        let total = n * row_words;
        let mut bits: Vec<u64> = Vec::new();
        while bits.len() < total
            invariant
                bits@.len() <= total,
                forall|k: int| 0 <= k < bits@.len() ==> bits@[k] == 0,
            decreases total - bits@.len(),
        {
            bits.push(0);
        }
        let mut m = LinearTransformMatrix { n, row_words, bits };
        proof {
            assert forall|i: nat, j: nat| i < n && j < m.width() implies #[trigger] m.bit_at(i, j) == (i == j && i < 0) by {
                lemma_row_in_bounds(i, j / 64, n as nat, row_words as nat);
                lemma_zero_word((j % 64) as u64);
            }
        }
        let mut i: usize = 0;
        while i < n
            invariant
                m.wf(),
                m.n == n,
                m.row_words == row_words,
                row_words == (n + 63) / 64,
                i <= n,
                forall|a: nat, b: nat| a < n && b < m.width() ==> #[trigger] m.bit_at(a, b) == (a == b && a < i),
            decreases n - i,
        {
            proof {
                lemma_row_in_bounds(i as nat, (i / 64) as nat, n as nat, row_words as nat);
            }
            let _len = m.bits.len();
            let word = i * row_words + i / 64;
            let ghost before = m;
            let w = m.bits[word];
            m.bits.set(word, w | (1u64 << ((i % 64) as u64)));
            proof {
                assert forall|a: nat, b: nat| a < n && b < m.width() implies #[trigger] m.bit_at(a, b) == (a == b && a < i + 1) by {
                    let wa = a * row_words as nat + b / 64;
                    lemma_row_in_bounds(a, b / 64, n as nat, row_words as nat);
                    if wa == word {
                        lemma_word_pos(a, b / 64, i as nat, (i / 64) as nat, row_words as nat);
                        lemma_or_bit(w, (i % 64) as u64, (b % 64) as u64);
                        assert(before.bit_at(a, b) == (a == b && a < i));
                    } else {
                        assert(m.bits@[wa as int] == before.bits@[wa as int]);
                        assert(before.bit_at(a, b) == (a == b && a < i));
                        if a == b && a == i {
                            assert(wa == word);
                        }
                    }
                }
            }
            i += 1;
        }
        m
    }

    /// Test whether bit `(row, col)` is set.
    pub fn get(&self, row: usize, col: usize) -> (r: bool)
        requires
            self.wf(),
            self.word_index(row as nat, col as nat) < self.storage_len(),
        ensures
            r == self.bit_at(row as nat, col as nat),
    {
        let _len = self.bits.len();
        assert(row * self.row_words <= row * self.row_words + col / 64);
        let word = row * self.row_words + col / 64;
        let w = self.bits[word];
        let sh = (col % 64) as u64;
        assert(((w >> sh) & 1 != 0) == ((w >> sh) & 1 == 1)) by (bit_vector);
        (w >> sh) & 1 != 0
    }

    /// XOR row `src` into row `dst`: `dst ^= src`.
    pub fn xor_rows(&mut self, dst: usize, src: usize)
        requires
            old(self).wf(),
            dst < old(self).dim(),
            src < old(self).dim(),
        ensures
            final(self).wf(),
            final(self).dim() == old(self).dim(),
            final(self).width() == old(self).width(),
            forall|r: nat, c: nat| r < final(self).dim() && c < final(self).width() ==> #[trigger] final(self).bit_at(r, c) == if r == dst {
                old(self).bit_at(dst as nat, c) != old(self).bit_at(src as nat, c)
            } else {
                old(self).bit_at(r, c)
            },
    {
        let rw = self.row_words;
        let n = self.n;
        proof {
            lemma_row_in_bounds(dst as nat, 0, n as nat, rw as nat);
            lemma_row_in_bounds(src as nat, 0, n as nat, rw as nat);
            if rw > 0 {
                lemma_row_in_bounds(dst as nat, (rw - 1) as nat, n as nat, rw as nat);
                lemma_row_in_bounds(src as nat, (rw - 1) as nat, n as nat, rw as nat);
            }
        }
        let _len = self.bits.len();
        let d_start = dst * rw;
        let s_start = src * rw;
        let ghost orig = self.bits@;
        let mut w: usize = 0;
        while w < rw
            invariant
                self.wf(),
                self.n == n,
                self.row_words == rw,
                orig.len() == self.bits@.len(),
                dst < n,
                src < n,
                d_start == dst * rw,
                s_start == src * rw,
                d_start + rw <= n * rw,
                s_start + rw <= n * rw,
                n * rw <= usize::MAX,
                w <= rw,
                forall|k: int| 0 <= k < orig.len() ==> #[trigger] self.bits@[k] == if d_start <= k < d_start + w {
                    orig[k] ^ orig[k - d_start + s_start]
                } else {
                    orig[k]
                },
            decreases rw - w,
        {
            let a = self.bits[d_start + w];
            let b = self.bits[s_start + w];
            proof {
                if dst != src && d_start <= s_start + w < d_start + rw {
                    lemma_word_pos(src as nat, w as nat, dst as nat, (s_start + w - d_start) as nat, rw as nat);
                }
                assert(b == orig[s_start + w]);
            }
            self.bits.set(d_start + w, a ^ b);
            w += 1;
        }
        proof {
            assert forall|r: nat, c: nat| r < self.dim() && c < self.width() implies #[trigger] self.bit_at(r, c) == if r == dst {
                word_bit(orig[(dst * rw as nat + c / 64) as int], c % 64) != word_bit(orig[(src * rw as nat + c / 64) as int], c % 64)
            } else {
                word_bit(orig[(r * rw as nat + c / 64) as int], c % 64)
            } by {
                let k = r * rw as nat + c / 64;
                lemma_row_in_bounds(r, c / 64, n as nat, rw as nat);
                if r == dst {
                    lemma_xor_bit(orig[k as int], orig[(src * rw as nat + c / 64) as int], (c % 64) as u64);
                } else {
                    if d_start <= k < d_start + rw {
                        lemma_word_pos(r, c / 64, dst as nat, (k - d_start) as nat, rw as nat);
                    }
                }
            }
        }
    }

    /// Return the number of variables.
    pub fn size(&self) -> (r: usize)
        ensures
            r == self.dim(),
    {
        self.n
    }

    /// The original variables that compose variable `var`, in increasing order.
    pub fn decompose(&self, var: usize) -> (r: Vec<usize>)
        requires
            self.wf(),
            var < self.dim(),
        ensures
            r@ == row_support(*self, var as nat, self.dim()),
    {
        let mut result: Vec<usize> = Vec::new();
        let mut j: usize = 0;
        while j < self.n
            invariant
                self.wf(),
                var < self.dim(),
                j <= self.n,
                result@ == row_support(*self, var as nat, j as nat),
            decreases self.n - j,
        {
            proof {
                self.lemma_in_bounds(var as nat, j as nat);
            }
            if self.get(var, j) {
                result.push(j);
            }
            j += 1;
        }
        result
    }

    /// Entries of rows below `dim` and columns below `dim` are stored.
    pub proof fn lemma_in_bounds(&self, row: nat, col: nat)
        requires
            self.wf(),
            row < self.dim(),
            col < self.dim(),
        ensures
            self.word_index(row, col) < self.storage_len(),
    {
        lemma_row_in_bounds(row, col / 64, self.n as nat, self.row_words as nat);
    }

    /// Check if this is still the identity matrix.
    pub fn is_identity(&self) -> (r: bool)
        requires
            self.wf(),
        ensures
            r == (forall|i: nat, j: nat| i < self.dim() && j < self.dim() ==> #[trigger] self.bit_at(i, j) == (i == j)),
    {
        let mut i: usize = 0;
        while i < self.n
            invariant
                self.wf(),
                i <= self.n,
                forall|a: nat, b: nat| a < i && b < self.dim() ==> #[trigger] self.bit_at(a, b) == (a == b),
            decreases self.n - i,
        {
            let mut j: usize = 0;
            while j < self.n
                invariant
                    self.wf(),
                    i < self.n,
                    j <= self.n,
                    forall|a: nat, b: nat| a < i && b < self.dim() ==> #[trigger] self.bit_at(a, b) == (a == b),
                    forall|b: nat| b < j ==> #[trigger] self.bit_at(i as nat, b) == (i == b),
                decreases self.n - j,
            {
                let expected = i == j;
                proof {
                    self.lemma_in_bounds(i as nat, j as nat);
                }
                if self.get(i, j) != expected {
                    return false;
                }
                j += 1;
            }
            i += 1;
        }
        true
    }
}

/// The columns `j < k` set in row `var`, in increasing order.
pub open spec fn row_support(m: LinearTransformMatrix, var: nat, k: nat) -> Seq<usize>
    decreases k,
{
    if k == 0 {
        Seq::empty()
    } else {
        let j = (k - 1) as nat;
        if m.bit_at(var, j) {
            row_support(m, var, j).push(j as usize)
        } else {
            row_support(m, var, j)
        }
    }
}

/// XOR-ing the same source row into a different destination row twice
/// restores the matrix.
pub proof fn lemma_xor_rows_involution(
    m0: LinearTransformMatrix,
    m1: LinearTransformMatrix,
    m2: LinearTransformMatrix,
    dst: nat,
    src: nat,
)
    requires
        dst != src,
        src < m0.dim(),
        m1.dim() == m0.dim(),
        m1.width() == m0.width(),
        m2.dim() == m0.dim(),
        m2.width() == m0.width(),
        forall|r: nat, c: nat| r < m1.dim() && c < m1.width() ==> #[trigger] m1.bit_at(r, c) == if r == dst {
            m0.bit_at(dst, c) != m0.bit_at(src, c)
        } else {
            m0.bit_at(r, c)
        },
        forall|r: nat, c: nat| r < m2.dim() && c < m2.width() ==> #[trigger] m2.bit_at(r, c) == if r == dst {
            m1.bit_at(dst, c) != m1.bit_at(src, c)
        } else {
            m1.bit_at(r, c)
        },
    ensures
        forall|r: nat, c: nat| r < m0.dim() && c < m0.width() ==> #[trigger] m2.bit_at(r, c) == m0.bit_at(r, c),
{
    assert forall|r: nat, c: nat| r < m0.dim() && c < m0.width() implies #[trigger] m2.bit_at(r, c) == m0.bit_at(r, c) by {
        assert(m1.bit_at(src, c) == m0.bit_at(src, c));
        if r == dst {
            assert(m1.bit_at(dst, c) == (m0.bit_at(dst, c) != m0.bit_at(src, c)));
        } else {
            assert(m1.bit_at(r, c) == m0.bit_at(r, c));
        }
    }
}

/// In the identity matrix, variable `i` is composed of itself alone.
pub proof fn lemma_identity_decompose(m: LinearTransformMatrix, i: nat)
    requires
        m.wf(),
        i < m.dim(),
        forall|a: nat, b: nat| a < m.dim() && b < m.width() ==> #[trigger] m.bit_at(a, b) == (a == b),
    ensures
        row_support(m, i, m.dim()) == seq![i as usize],
{
    m.lemma_width();
    lemma_identity_support(m, i, m.dim());
}

proof fn lemma_identity_support(m: LinearTransformMatrix, i: nat, k: nat)
    requires
        m.wf(),
        i < m.dim(),
        k <= m.dim(),
        m.dim() <= m.width(),
        forall|a: nat, b: nat| a < m.dim() && b < m.width() ==> #[trigger] m.bit_at(a, b) == (a == b),
    ensures
        row_support(m, i, k) == if i < k { seq![i as usize] } else { Seq::<usize>::empty() },
    decreases k,
{
    if k > 0 {
        let j = (k - 1) as nat;
        lemma_identity_support(m, i, j);
        assert(m.bit_at(i, j) == (i == j));
        if i == j {
            assert(Seq::<usize>::empty().push(j as usize) =~= seq![i as usize]);
        }
    }
}

} // verus!
