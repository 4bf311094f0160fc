//! The integer side of Harwell-Boeing sparse matrices in compressed
//! column storage: reading and writing the index lines of the text format,
//! finding an entry, and decoding a row or column index from a path.
use vstd::prelude::*;
use vstd::arithmetic::power2::pow2;
use crate::decimal::{decimal, push_decimal};
use crate::scan::{numbers_among, numbers_in, words};

verus! {

/// The value given to variable `v` by the first pair for it in `a`
/// (`false` when `a` has none).
pub open spec fn assigned(a: Seq<(u16, bool)>, v: u16) -> bool
    decreases a.len(),
{
    if a.len() == 0 {
        false
    } else if a[0].0 == v {
        a[0].1
    } else {
        assigned(a.skip(1), v)
    }
}

/// The sum over the first `k` variables of `2^(n - 1 - i)` for each
/// variable `vars[i]` assigned true, where `n = vars.len()`: the
/// variables read as a big-endian binary number.
pub open spec fn decoded(a: Seq<(u16, bool)>, vars: Seq<u16>, k: nat) -> nat
    decreases k,
{
    if k == 0 {
        0
    } else {
        let i = (k - 1) as nat;
        decoded(a, vars, i) + if assigned(a, vars[i as int]) {
            pow2((vars.len() - 1 - i) as nat)
        } else {
            0
        }
    }
}

/// The value the first pair for `v` gives it, `false` when there is none.
fn lookup_assigned(assignment: &[(u16, bool)], v: u16) -> (r: bool)
    ensures
        r == assigned(assignment@, v),
{
    let mut i: usize = 0;
    proof {
        assert(assignment@.skip(0) =~= assignment@);
    }
    while i < assignment.len()
        invariant
            i <= assignment@.len(),
            assigned(assignment@, v) == assigned(assignment@.skip(i as int), v),
        decreases assignment@.len() - i,
    {
        let (vi, b) = assignment[i];
        proof {
            assert(assignment@.skip(i as int).skip(1) =~= assignment@.skip(i + 1));
        }
        if vi == v {
            return b;
        }
        i += 1;
    }
    proof {
        assert(assignment@.skip(i as int).len() == 0);
    }
    false
}

/// Setting a bit below all set bits of `x` adds it.
proof fn lemma_or_adds(x: u64, s: u64)
    requires
        s < 64,
        x as nat % pow2(s as nat + 1) == 0,
    ensures
        x | (1u64 << s) == x + (1u64 << s),
        (x + (1u64 << s)) as nat % pow2(s as nat) == 0,
        (1u64 << s) as nat == pow2(s as nat),
{
    vstd::bits::lemma_u64_pow2_no_overflow(s as nat);
    vstd::bits::lemma_u64_shl_is_mul(1u64, s);
    vstd::arithmetic::power2::lemma_pow2_unfold(s as nat + 1);
    let p = pow2(s as nat);
    assert(x as nat % (2 * p) == 0);
    let q = x as nat / (2 * p);
    assert(x as nat == q * (2 * p)) by (nonlinear_arith)
        requires
            x as nat % (2 * p) == 0,
            p > 0,
            q == x as nat / (2 * p),
    ;
    let m = (1u64 << s);
    if s == 63 {
        vstd::arithmetic::power2::lemma2_to64_rest();
        assert(x == 0);
        assert(x & m == 0) by (bit_vector)
            requires
                x == 0,
        ;
    } else {
        let s1 = (s + 1) as u64;
        vstd::bits::lemma_u64_shr_is_div(x, s1);
        assert(x as nat / pow2(s1 as nat) == q);
        vstd::bits::lemma_u64_pow2_no_overflow(s1 as nat);
        let qq = (x >> s1);
        assert(qq as nat * pow2(s1 as nat) == x as nat);
        vstd::bits::lemma_u64_shl_is_mul(qq, s1);
        assert(x & m == 0) by (bit_vector)
            requires
                m == (1u64 << s),
                s < 63,
                s1 == s + 1,
                (x >> s1) << s1 == x,
        ;
    }
    assert(x | m == x + m) by (bit_vector)
        requires
            x & m == 0,
    ;
    assert(q * (2 * p) + p == (2 * q + 1) * p) by (nonlinear_arith);
    vstd::arithmetic::div_mod::lemma_mod_multiples_basic((2 * q + 1) as int, p as int);
}

/// The index of an assignment in the row order of `vars`: bit
/// `n - 1 - i` is set when `vars[i]` is assigned true.
pub fn decode_index(assignment: &[(u16, bool)], vars: &[u16]) -> (r: usize)
    requires
        forall|i: int|
            0 <= i < vars@.len() && assigned(assignment@, #[trigger] vars@[i]) ==> vars@.len() - 1 - i
                < usize::BITS,
    ensures
        r as nat == decoded(assignment@, vars@, vars@.len()),
{
    let n = vars.len();
    let mut index: usize = 0;
    let mut i: usize = 0;
    proof {
        vstd::arithmetic::power2::lemma_pow2_pos(n as nat);
    }
    while i < n
        invariant
            n == vars@.len(),
            forall|k: int|
                0 <= k < vars@.len() && assigned(assignment@, #[trigger] vars@[k]) ==> vars@.len() - 1 - k
                    < usize::BITS,
            i <= n,
            index as nat == decoded(assignment@, vars@, i as nat),
            index as nat % pow2((n - i) as nat) == 0,
        decreases n - i,
    {
        let v = vars[i];
        let bit = lookup_assigned(assignment, v);
        let ghost before = index;
        if bit {
            let s = n - 1 - i;
            proof {
                assert((n - i) as nat == s as nat + 1);
                lemma_or_adds(index as u64, s as u64);
            }
            index |= 1usize << s;
            proof {
                assert(index as u64 == (before as u64) | (1u64 << (s as u64))) by (bit_vector)
                    requires
                        index == before | (1usize << s),
                        s < usize::BITS,
                ;
            }
        } else {
            proof {
                let p = pow2((n - i - 1) as nat);
                vstd::arithmetic::power2::lemma_pow2_unfold((n - i) as nat);
                let q = index as nat / (2 * p);
                vstd::arithmetic::power2::lemma_pow2_pos((n - i - 1) as nat);
                assert(index as nat == q * (2 * p)) by (nonlinear_arith)
                    requires
                        index as nat % (2 * p) == 0,
                        p > 0,
                        q == index as nat / (2 * p),
                ;
                assert(q * (2 * p) == (2 * q) * p) by (nonlinear_arith);
                vstd::arithmetic::div_mod::lemma_mod_multiples_basic((2 * q) as int, p as int);
            }
        }
        i += 1;
    }
    index
}

/// The first line of the text format.
pub open spec fn title_text() -> Seq<char> {
    "lumindd sparse matrix"@
}

/// The first two lines of the text format: the title, then the row
/// count, column count and entry count, each line ending in a newline.
pub open spec fn header_text(nrows: nat, ncols: nat, nnz: nat) -> Seq<char> {
    title_text() + "\n"@ + decimal(nrows) + " "@ + decimal(ncols) + " "@ + decimal(nnz) + "\n"@
}

/// Write the first two lines of the text format.
pub fn header_line(nrows: usize, ncols: usize, nnz: usize) -> (r: String)
    ensures
        r@ == header_text(nrows as nat, ncols as nat, nnz as nat),
{
    let mut s = String::new();
    s.append("lumindd sparse matrix");
    s.append("\n");
    push_decimal(&mut s, nrows as u64);
    s.append(" ");
    push_decimal(&mut s, ncols as u64);
    s.append(" ");
    push_decimal(&mut s, nnz as u64);
    s.append("\n");
    proof {
        assert(s@ =~= header_text(nrows as nat, ncols as nat, nnz as nat));
    }
    s
}

/// The one-based values `v[i] + 1`, in decimal, separated by single spaces.
pub open spec fn one_based_text(v: Seq<usize>) -> Seq<char>
    decreases v.len(),
{
    if v.len() == 0 {
        Seq::empty()
    } else if v.len() == 1 {
        decimal((v[0] + 1) as nat)
    } else {
        one_based_text(v.drop_last()) + " "@ + decimal((v.last() + 1) as nat)
    }
}

/// Write the zero-based indices `v` one-based, on one line ending in a
/// newline.
pub fn one_based_line(v: &[usize]) -> (r: String)
    requires
        forall|i: int| 0 <= i < v@.len() ==> #[trigger] v@[i] < usize::MAX,
    ensures
        r@ == one_based_text(v@) + "\n"@,
{
    let mut s = String::new();
    let mut i: usize = 0;
    while i < v.len()
        invariant
            i <= v@.len(),
            forall|m: int| 0 <= m < v@.len() ==> #[trigger] v@[m] < usize::MAX,
            s@ == one_based_text(v@.take(i as int)),
        decreases v@.len() - i,
    {
        proof {
            assert(v@.take(i + 1).drop_last() =~= v@.take(i as int));
            assert(v@.take(i + 1).last() == v@[i as int]);
        }
        if i > 0 {
            s.append(" ");
        }
        let x = v[i] + 1;
        push_decimal(&mut s, x as u64);
        proof {
            if i == 0 {
                assert(s@ =~= one_based_text(v@.take(1)));
            } else {
                assert(s@ =~= one_based_text(v@.take(i + 1)));
            }
        }
        i += 1;
    }
    s.append("\n");
    proof {
        assert(v@.take(v@.len() as int) =~= v@);
    }
    s
}

/// Turn one-based indices into zero-based ones, taking zero to zero.
pub fn from_one_based(v: &[usize]) -> (r: Vec<usize>)
    ensures
        r@.len() == v@.len(),
        forall|i: int|
            0 <= i < v@.len() ==> #[trigger] r@[i] == if v@[i] > 0 {
                (v@[i] - 1) as usize
            } else {
                0
            },
{
    let mut out: Vec<usize> = Vec::new();
    let mut i: usize = 0;
    while i < v.len()
        invariant
            i <= v@.len(),
            out@.len() == i,
            forall|m: int|
                0 <= m < i ==> #[trigger] out@[m] == if v@[m] > 0 {
                    (v@[m] - 1) as usize
                } else {
                    0
                },
        decreases v@.len() - i,
    {
        out.push(v[i].saturating_sub(1));
        i += 1;
    }
    out
}

/// The row count, column count and entry count of a header line: its
/// first three numbers, or `None` when it has fewer than three.
pub fn parse_dims(line: &str) -> (r: Option<(usize, usize, usize)>)
    ensures
        ({
            let n = numbers_among(words(line@));
            &&& (r is Some <==> n.len() >= 3)
            &&& (r matches Some(d) ==> d == (n[0], n[1], n[2]))
        }),
{
    let n = numbers_in(line);
    if n.len() < 3 {
        None
    } else {
        Some((n[0], n[1], n[2]))
    }
}

/// The text of the error when the input ends after `got` of `count`
/// wanted values.
pub open spec fn shortfall_text(count: nat, got: nat) -> Seq<char> {
    "expected "@ + decimal(count) + " values, got "@ + decimal(got)
}

/// Describe input that ended after `got` of `count` wanted values.
pub fn shortfall_message(count: usize, got: usize) -> (r: String)
    ensures
        r@ == shortfall_text(count as nat, got as nat),
{
    let mut s = String::new();
    s.append("expected ");
    push_decimal(&mut s, count as u64);
    s.append(" values, got ");
    push_decimal(&mut s, got as u64);
    proof {
        assert(s@ =~= shortfall_text(count as nat, got as nat));
    }
    s
}

/// Reading column `col` of a matrix with `ncols` columns stays inside
/// `col_ptr` and `row_idx` until it meets `row`.
pub open spec fn lookup_in_bounds(
    col_ptr: Seq<usize>,
    row_idx: Seq<usize>,
    ncols: usize,
    row: usize,
    col: usize,
) -> bool {
    col < ncols ==> {
        &&& col + 1 < col_ptr.len()
        &&& {
            ||| col_ptr[col as int] >= col_ptr[col + 1]
            ||| col_ptr[col + 1] <= row_idx.len()
            ||| exists|k: int| col_ptr[col as int] <= k < row_idx.len() && row_idx[k] == row
        }
    }
}

/// The position of the entry at (`row`, `col`): the first `k` in the
/// column's range `col_ptr[col] .. col_ptr[col + 1]` with
/// `row_idx[k] == row`, or `None` when there is none or `col` is out of
/// range.
pub open spec fn entry_at(
    col_ptr: Seq<usize>,
    row_idx: Seq<usize>,
    ncols: usize,
    row: usize,
    col: usize,
    r: Option<usize>,
) -> bool {
    match r {
        None => col >= ncols || forall|k: int|
            col_ptr[col as int] <= k < col_ptr[col + 1] ==> #[trigger] row_idx[k] != row,
        Some(k) => {
            &&& col < ncols
            &&& col_ptr[col as int] <= k < col_ptr[col + 1]
            &&& row_idx[k as int] == row
            &&& forall|m: int| col_ptr[col as int] <= m < k ==> #[trigger] row_idx[m] != row
        },
    }
}

/// Find the entry at (`row`, `col`) in compressed column storage.
pub fn entry_position(col_ptr: &[usize], row_idx: &[usize], ncols: usize, row: usize, col: usize) -> (r:
    Option<usize>)
    requires
        lookup_in_bounds(col_ptr@, row_idx@, ncols, row, col),
    ensures
        entry_at(col_ptr@, row_idx@, ncols, row, col, r),
{
    if col >= ncols {
        return None;
    }
    let start = col_ptr[col];
    let end = col_ptr[col + 1];
    let mut k = start;
    while k < end
        invariant
            col < ncols,
            col + 1 < col_ptr@.len(),
            start == col_ptr@[col as int],
            end == col_ptr@[col + 1],
            lookup_in_bounds(col_ptr@, row_idx@, ncols, row, col),
            start <= k || start >= end,
            forall|m: int| start <= m < k ==> #[trigger] row_idx@[m] != row,
            k >= start,
        decreases end - k,
    {
        if row_idx[k] == row {
            return Some(k);
        }
        k += 1;
    }
    None
}

} // verus!
