//! Arbitrary precision non-negative integers for exact minterm counting.
//!
//! [`ApInt`] stores its value as little-endian base-2^32 digits.  Every
//! operation that builds a fresh value returns it in canonical form: no
//! trailing zero digit, and zero is the empty digit vector.
use vstd::prelude::*;
use vstd::arithmetic::power2::*;
use crate::decimal::{decimal, lemma_decimal_concat, pow10, push_decimal, push_padded};

verus! {

// =====================================================================
// Mathematical model
// =====================================================================

/// The digit base, 2^32.
pub open spec fn word_base() -> nat {
    0x1_0000_0000
}

/// `word_base()` raised to the power `n`.
pub open spec fn word_power(n: nat) -> nat
    decreases n,
{
    if n == 0 {
        1
    } else {
        word_base() * word_power((n - 1) as nat)
    }
}

/// The number denoted by little-endian base-2^32 digits.
pub open spec fn digits_value(s: Seq<u32>) -> nat
    decreases s.len(),
{
    if s.len() == 0 {
        0
    } else {
        s[0] as nat + word_base() * digits_value(s.skip(1))
    }
}

/// No trailing (most significant) zero digit.
pub open spec fn is_canonical(s: Seq<u32>) -> bool {
    s.len() == 0 || s.last() != 0
}

/// The digit at position `i`, reading missing high digits as zero.
pub open spec fn digit_at(s: Seq<u32>, i: int) -> u32 {
    if 0 <= i < s.len() {
        s[i]
    } else {
        0
    }
}

/// The value of the lowest `n` digits, missing digits read as zero.
pub open spec fn low_value(s: Seq<u32>, n: nat) -> nat {
    digits_value(Seq::new(n, |i: int| digit_at(s, i)))
}

/// Number of significant binary digits of `x` (0 for 0).
pub open spec fn bit_count(x: nat) -> nat
    decreases x,
{
    if x == 0 {
        0
    } else {
        1 + bit_count(x / 2)
    }
}

/// Digit-wise order used by `ApInt`'s comparison: the lowest `n` digits
/// of `a` compare below those of `b`, scanning from the most significant.
pub open spec fn top_less(a: Seq<u32>, b: Seq<u32>, n: nat) -> bool
    decreases n,
{
    if n == 0 {
        false
    } else if a[n - 1] < b[n - 1] {
        true
    } else if a[n - 1] > b[n - 1] {
        false
    } else {
        top_less(a, b, (n - 1) as nat)
    }
}

/// `top_less` over the lowest `n` digits, for a machine-sized count.
pub open spec fn top_less_upto(a: Seq<u32>, b: Seq<u32>, n: usize) -> bool {
    top_less(a, b, n as nat)
}

/// The comparison of `ApInt`: shorter digit vectors are smaller; equal
/// lengths compare digit by digit from the most significant.
pub open spec fn digits_lt(a: Seq<u32>, b: Seq<u32>) -> bool {
    a.len() < b.len() || (a.len() == b.len() && top_less(a, b, a.len()))
}

/// Arbitrary precision non-negative integer.
///
/// Digits are stored little-endian in base 2^32.
#[derive(Clone, Debug, PartialEq, Eq)]
pub struct ApInt {
    /// Little-endian base-2^32 digits.
    pub digits: Vec<u32>,
}

impl View for ApInt {
    type V = nat;

    /// The number this value denotes.
    open spec fn view(&self) -> nat {
        digits_value(self.digits@)
    }
}

// =====================================================================
// Lemmas about the model
// =====================================================================

/// Appending a most significant digit adds `x * B^len`.
pub proof fn lemma_value_push(s: Seq<u32>, x: u32)
    ensures
        digits_value(s.push(x)) == digits_value(s) + x * word_power(s.len()),
    decreases s.len(),
{
    let sp = s.push(x);
    if s.len() == 0 {
        assert(sp.skip(1) =~= Seq::<u32>::empty());
        assert(digits_value(sp.skip(1)) == 0);
        assert(digits_value(sp) == sp[0] as nat + word_base() * digits_value(sp.skip(1)));
        assert(word_power(0) == 1);
    } else {
        lemma_value_push(s.skip(1), x);
        assert(sp.skip(1) =~= s.skip(1).push(x));
        let a = digits_value(s.skip(1));
        let p = word_power((s.len() - 1) as nat);
        let b = word_base();
        assert(digits_value(sp) == sp[0] as nat + b * digits_value(sp.skip(1)));
        assert(digits_value(s) == s[0] as nat + b * a);
        assert(word_power(s.len()) == b * p);
        assert(b * (a + x * p) == b * a + x * (b * p)) by (nonlinear_arith);
    }
}

/// The value of the first `k + 1` digits extends that of the first `k`.
pub proof fn lemma_value_take_step(s: Seq<u32>, k: int)
    requires
        0 <= k < s.len(),
    ensures
        digits_value(s.take(k + 1)) == digits_value(s.take(k)) + s[k] * word_power(k as nat),
{
    assert(s.take(k + 1) =~= s.take(k).push(s[k]));
    lemma_value_push(s.take(k), s[k]);
}

/// Extending the zero-padded prefix by one digit.
pub proof fn lemma_low_value_step(s: Seq<u32>, n: nat)
    ensures
        low_value(s, n + 1) == low_value(s, n) + digit_at(s, n as int) * word_power(n),
{
    let f = |i: int| digit_at(s, i);
    assert(Seq::new(n + 1, f) =~= Seq::new(n, f).push(digit_at(s, n as int)));
    lemma_value_push(Seq::new(n, f), digit_at(s, n as int));
}

/// Padding with zero digits does not change the value.
pub proof fn lemma_low_value_full(s: Seq<u32>, n: nat)
    requires
        s.len() <= n,
    ensures
        low_value(s, n) == digits_value(s),
    decreases n,
{
    if n == s.len() {
        assert(Seq::new(n, |i: int| digit_at(s, i)) =~= s);
    } else {
        lemma_low_value_full(s, (n - 1) as nat);
        lemma_low_value_step(s, (n - 1) as nat);
    }
}

/// Removing a zero most significant digit keeps the value.
pub proof fn lemma_value_drop_zero(s: Seq<u32>)
    requires
        s.len() > 0,
        s.last() == 0,
    ensures
        digits_value(s.drop_last()) == digits_value(s),
{
    assert(s =~= s.drop_last().push(0));
    lemma_value_push(s.drop_last(), 0);
}

/// Every digit sequence denotes less than `B^len`.
pub proof fn lemma_value_upper(s: Seq<u32>)
    ensures
        digits_value(s) < word_power(s.len()),
    decreases s.len(),
{
    if s.len() > 0 {
        lemma_value_upper(s.skip(1));
        let a = digits_value(s.skip(1));
        let p = word_power((s.len() - 1) as nat);
        let d = s[0] as nat;
        let b = word_base();
        assert(d + b * a < b * p) by (nonlinear_arith)
            requires
                d < b,
                a < p,
                a >= 0,
        ;
    }
}

/// A canonical non-empty digit sequence denotes at least `B^(len-1)`.
pub proof fn lemma_value_lower(s: Seq<u32>)
    requires
        s.len() > 0,
        is_canonical(s),
    ensures
        digits_value(s) >= word_power((s.len() - 1) as nat),
{
    assert(s =~= s.drop_last().push(s.last()));
    lemma_value_push(s.drop_last(), s.last());
    let p = word_power((s.len() - 1) as nat);
    let t = s.last() as nat;
    assert(t * p >= p) by (nonlinear_arith)
        requires
            t >= 1,
    ;
}

/// `B^n` is positive.
pub proof fn lemma_word_power_pos(n: nat)
    ensures
        word_power(n) >= 1,
    decreases n,
{
    if n > 0 {
        lemma_word_power_pos((n - 1) as nat);
        let p = word_power((n - 1) as nat);
        assert(word_base() * p >= 1) by (nonlinear_arith)
            requires
                p >= 1,
        ;
    }
}

/// `B^n == 2^(32 n)`.
pub proof fn lemma_word_power_pow2(n: nat)
    ensures
        word_power(n) == pow2(32 * n),
    decreases n,
{
    if n == 0 {
        lemma2_to64();
    } else {
        lemma_word_power_pow2((n - 1) as nat);
        lemma_pow2_adds(32, 32 * (n - 1) as nat);
        lemma2_to64();
        assert(32 + 32 * (n - 1) == 32 * n);
    }
}

/// A sequence of zero digits denotes zero.
pub proof fn lemma_value_zeros(s: Seq<u32>)
    requires
        forall|i: int| 0 <= i < s.len() ==> s[i] == 0,
    ensures
        digits_value(s) == 0,
    decreases s.len(),
{
    if s.len() > 0 {
        lemma_value_zeros(s.skip(1));
    }
}

/// A canonical sequence is empty exactly when it denotes zero.
pub proof fn lemma_canonical_zero(s: Seq<u32>)
    requires
        is_canonical(s),
    ensures
        (digits_value(s) == 0) <==> (s.len() == 0),
{
    if s.len() > 0 {
        lemma_value_lower(s);
        lemma_word_power_pos((s.len() - 1) as nat);
    }
}

/// Splitting a 64-bit word into its low digit and carry.
proof fn lemma_split_word(x: u64)
    ensures
        (x as u32) as nat == x as nat % word_base(),
        (x >> 32u64) as nat == x as nat / word_base(),
        x as nat == (x as nat / word_base()) * word_base() + x as nat % word_base(),
{
    assert((x as u32) as u64 == x % 0x1_0000_0000u64) by (bit_vector);
    assert(x >> 32u64 == x / 0x1_0000_0000u64) by (bit_vector);
}

// =====================================================================
// Construction and inspection
// =====================================================================

/// The leading zeros of a 32-bit word are the bits above its significant
/// binary digits.
proof fn lemma_leading_zeros(x: u32)
    ensures
        vstd::std_specs::bits::u32_leading_zeros(x) as nat == 32 - bit_count(x as nat),
    decreases x,
{
    vstd::std_specs::bits::axiom_u32_leading_zeros(x);
    let k = vstd::std_specs::bits::u32_leading_zeros(x);
    if x != 0 {
        let y = x / 2;
        lemma_leading_zeros(y);
        vstd::std_specs::bits::axiom_u32_leading_zeros(y);
        let k2 = vstd::std_specs::bits::u32_leading_zeros(y);
        assert(k < 32);
        assert(k2 == k + 1) by (bit_vector)
            requires
                y == x / 2,
                x != 0,
                k < 32,
                k2 <= 32,
                (x >> ((31 - k) as u32)) & 1u32 != 0u32,
                x >> ((32 - k) as u32) == 0,
                y == 0 <==> k2 == 32,
                k2 < 32 ==> (y >> ((31 - k2) as u32)) & 1u32 != 0u32,
                y >> ((32 - k2) as u32) == 0,
        ;
    }
}

impl ApInt {
    /// The value zero.
    pub fn zero() -> (r: ApInt)
        ensures
            r.digits@ == Seq::<u32>::empty(),
            r@ == 0,
    {
        ApInt { digits: Vec::new() }
    }

    /// The value one.
    pub fn one() -> (r: ApInt)
        ensures
            r.digits@ == seq![1u32],
            r@ == 1,
            is_canonical(r.digits@),
    {
        let mut digits: Vec<u32> = Vec::new();
        digits.push(1);
        proof {
            assert(digits@.skip(1) =~= Seq::<u32>::empty());
            assert(digits_value(digits@.skip(1)) == 0);
        }
        ApInt { digits }
    }

    /// Create from a `u64`.
    pub fn from_u64(v: u64) -> (r: ApInt)
        ensures
            r@ == v,
            is_canonical(r.digits@),
            r.digits@.len() <= 2,
    {
        if v == 0 {
            return Self::zero();
        }
        let lo = v as u32;
        let hi = (v >> 32) as u32;
        let mut digits: Vec<u32> = Vec::new();
        digits.push(lo);
        proof {
            lemma_split_word(v);
            assert(digits@.skip(1) =~= Seq::<u32>::empty());
            assert(digits_value(digits@.skip(1)) == 0);
            assert((v >> 32u64) < 0x1_0000_0000u64) by (bit_vector);
        }
        if hi != 0 {
            proof {
                lemma_value_push(digits@, hi);
                assert(word_power(0) == 1);
                assert(word_power(1) == word_base());
            }
            digits.push(hi);
        }
        ApInt { digits }
    }

    /// Exact representation of 2^n.
    pub fn two_power(n: u32) -> (r: ApInt)
        ensures
            r@ == pow2(n as nat),
            is_canonical(r.digits@),
            r.digits@.len() == n / 32 + 1,
    {
        let word_idx = (n / 32) as usize;
        let bit_idx = n % 32;
        let mut digits: Vec<u32> = Vec::new();
        let mut i: usize = 0;
        while i < word_idx
            invariant
                i <= word_idx,
                digits@.len() == i,
                forall|j: int| 0 <= j < i ==> digits@[j] == 0,
            decreases word_idx - i,
        {
            digits.push(0);
            i += 1;
        }
        proof {
            vstd::bits::lemma_u32_pow2_no_overflow(bit_idx as nat);
            vstd::bits::lemma_u32_shl_is_mul(1u32, bit_idx);
            lemma_value_zeros(digits@);
            lemma_value_push(digits@, (1u32 << bit_idx));
            lemma_word_power_pow2(word_idx as nat);
            lemma_pow2_adds(32 * word_idx as nat, bit_idx as nat);
            assert(32 * (word_idx as nat) + bit_idx as nat == n as nat);
            assert((1u32 << bit_idx) as nat == pow2(bit_idx as nat));
            assert(digits_value(digits@.push(1u32 << bit_idx)) == pow2(bit_idx as nat) * pow2(
                32 * word_idx as nat,
            ));
            assert(pow2(bit_idx as nat) * pow2(32 * word_idx as nat) == pow2(n as nat)) by (
            nonlinear_arith)
                requires
                    pow2(32 * word_idx as nat + bit_idx as nat) == pow2(
                        32 * word_idx as nat,
                    ) * pow2(bit_idx as nat),
                    32 * (word_idx as nat) + bit_idx as nat == n as nat,
            ;
        }
        digits.push(1u32 << bit_idx);
        ApInt { digits }
    }

    /// Returns `true` if the value is zero.
    ///
    /// For canonical digits this is exactly `self@ == 0`.
    pub fn is_zero(&self) -> (r: bool)
        ensures
            r == (self.digits@.len() == 0),
            is_canonical(self.digits@) ==> (r == (self@ == 0)),
    {
        proof {
            if is_canonical(self.digits@) {
                lemma_canonical_zero(self.digits@);
            }
        }
        self.digits.len() == 0
    }

    /// Remove trailing zero digits to keep canonical form.
    pub fn trim(&mut self)
        ensures
            final(self)@ == old(self)@,
            is_canonical(final(self).digits@),
            final(self).digits@ == old(self).digits@.take(final(self).digits@.len() as int),
            is_canonical(old(self).digits@) ==> final(self).digits@ == old(self).digits@,
    {
        let ghost orig = self.digits@;
        while self.digits.len() > 0 && self.digits[self.digits.len() - 1] == 0
            invariant
                digits_value(self.digits@) == digits_value(orig),
                self.digits@ == orig.take(self.digits@.len() as int),
                self.digits@.len() <= orig.len(),
                is_canonical(orig) ==> self.digits@ == orig,
            decreases self.digits@.len(),
        {
            proof {
                lemma_value_drop_zero(self.digits@);
            }
            self.digits.pop();
        }
        proof {
            if self.digits@.len() == orig.len() {
                assert(self.digits@ =~= orig);
            }
        }
    }

    /// Number of significant bits (0 for zero).
    ///
    /// Reads the most significant stored digit; for canonical digits this
    /// is the bit length of the value.
    pub fn bit_length(&self) -> (r: u32)
        requires
            self.digits@.len() == 0 || 32 * (self.digits@.len() - 1) + bit_count(
                self.digits@.last() as nat,
            ) <= 0xFFFF_FFFF,
        ensures
            self.digits@.len() == 0 ==> r == 0,
            self.digits@.len() > 0 ==> r == 32 * (self.digits@.len() - 1) + bit_count(
                self.digits@.last() as nat,
            ),
    {
        if self.digits.len() == 0 {
            return 0;
        }
        let top = self.digits[self.digits.len() - 1];
        let lz = top.leading_zeros();
        proof {
            lemma_leading_zeros(top);
        }
        let top_bits = 32 - lz;
        (self.digits.len() as u32 - 1) * 32 + top_bits
    }
}

// =====================================================================
// Addition
// =====================================================================

/// Sum of two values, in canonical form.
pub fn add_ref(a: &ApInt, b: &ApInt) -> (r: ApInt)
    ensures
        r@ == a@ + b@,
        is_canonical(r.digits@),
{
    let len = if a.digits.len() >= b.digits.len() {
        a.digits.len()
    } else {
        b.digits.len()
    };
    let mut result: Vec<u32> = Vec::with_capacity(len);
    let mut carry: u64 = 0;
    let mut i: usize = 0;
    while i < len
        invariant
            i <= len,
            len >= a.digits@.len(),
            len >= b.digits@.len(),
            result@.len() == i,
            carry <= 1,
            digits_value(result@) + carry * word_power(i as nat) == low_value(a.digits@, i as nat)
                + low_value(b.digits@, i as nat),
        decreases len - i,
    {
        let da: u64 = if i < a.digits.len() {
            a.digits[i] as u64
        } else {
            0
        };
        let db: u64 = if i < b.digits.len() {
            b.digits[i] as u64
        } else {
            0
        };
        let sum = da + db + carry;
        proof {
            lemma_split_word(sum);
            lemma_low_value_step(a.digits@, i as nat);
            lemma_low_value_step(b.digits@, i as nat);
            lemma_value_push(result@, sum as u32);
            let p = word_power(i as nat);
            let s = sum as nat;
            let q = s / word_base();
            let m = s % word_base();
            assert(m * p + q * (word_base() * p) == s * p) by (nonlinear_arith)
                requires
                    s == q * word_base() + m,
            ;
            assert(s == da + db + carry);
            assert(s * p == da * p + db * p + carry * p) by (nonlinear_arith)
                requires
                    s == da + db + carry,
            ;
            assert(q <= 1);
        }
        result.push(sum as u32);
        carry = sum >> 32;
        i += 1;
    }
    proof {
        lemma_low_value_full(a.digits@, len as nat);
        lemma_low_value_full(b.digits@, len as nat);
    }
    if carry != 0 {
        proof {
            lemma_value_push(result@, carry as u32);
        }
        result.push(carry as u32);
    }
    let mut r = ApInt { digits: result };
    r.trim();
    r
}


/// `B^(x + y) == B^x * B^y`.
#[verifier::spinoff_prover]
pub proof fn lemma_word_power_add(x: nat, y: nat)
    ensures
        word_power(x + y) == word_power(x) * word_power(y),
    decreases x,
{
    if x > 0 {
        let x1 = (x - 1) as nat;
        lemma_word_power_add(x1, y);
        let a = word_power(x1);
        let b = word_power(y);
        assert(((x + y) - 1) as nat == x1 + y);
        assert(word_power(x + y) == word_base() * word_power(x1 + y));
        assert(word_power(x) == word_base() * a);
        assert(word_base() * (a * b) == (word_base() * a) * b) by (nonlinear_arith);
        assert(word_power(x + y) == word_power(x) * b);
    } else {
        assert(word_power(0) == 1);
        assert(x + y == y);
    }
}

// =====================================================================
// Subtraction
// =====================================================================

/// Difference of two values, in canonical form.
///
/// Defined when `b` does not compare above `a` and does not denote more
/// than `a`; the result denotes `a - b`.
pub fn sub_ref(a: &ApInt, b: &ApInt) -> (r: ApInt)
    requires
        !digits_lt(a.digits@, b.digits@),
        b@ <= a@,
    ensures
        r@ == a@ - b@,
        is_canonical(r.digits@),
{
    let alen = a.digits.len();
    let mut result: Vec<u32> = Vec::with_capacity(alen);
    let mut borrow: i64 = 0;
    let mut i: usize = 0;
    while i < alen
        invariant
            alen == a.digits@.len(),
            alen >= b.digits@.len(),
            i <= alen,
            result@.len() == i,
            0 <= borrow <= 1,
            digits_value(result@) + low_value(b.digits@, i as nat) == digits_value(
                a.digits@.take(i as int),
            ) + borrow * word_power(i as nat),
        decreases alen - i,
    {
        let da = a.digits[i] as i64;
        let db = if i < b.digits.len() {
            b.digits[i] as i64
        } else {
            0
        };
        let diff = da - db - borrow;
        let ghost p = word_power(i as nat);
        proof {
            lemma_low_value_step(b.digits@, i as nat);
            lemma_value_take_step(a.digits@, i as int);
            assert(word_power(i as nat + 1) == word_base() * p);
        }
        if diff < 0 {
            let digit = (diff + 0x1_0000_0000i64) as u32;
            proof {
                lemma_value_push(result@, digit);
                assert((da - db - borrow + word_base()) * p == da * p - db * p - borrow * p
                    + word_base() * p) by (nonlinear_arith);
            }
            result.push(digit);
            borrow = 1;
        } else {
            let digit = diff as u32;
            proof {
                lemma_value_push(result@, digit);
                assert((da - db - borrow) * p == da * p - db * p - borrow * p) by (nonlinear_arith);
            }
            result.push(digit);
            borrow = 0;
        }
        i += 1;
    }
    proof {
        lemma_low_value_full(b.digits@, alen as nat);
        assert(a.digits@.take(alen as int) =~= a.digits@);
        lemma_value_upper(result@);
        if borrow == 1 {
            assert(false);
        }
    }
    let mut r = ApInt { digits: result };
    r.trim();
    r
}

// =====================================================================
// Scalar multiplication
// =====================================================================

/// Product of a value and a 32-bit factor, in canonical form.
pub fn scalar_mul(a: &ApInt, b: u32) -> (r: ApInt)
    ensures
        r@ == a@ * b,
        is_canonical(r.digits@),
{
    if b == 0 || a.is_zero() {
        proof {
            assert(a@ * b == 0) by (nonlinear_arith)
                requires
                    b == 0 || a@ == 0,
            ;
        }
        return ApInt::zero();
    }
    let bb = b as u64;
    let alen = a.digits.len();
    let mut result: Vec<u32> = Vec::with_capacity(alen);
    let mut carry: u64 = 0;
    let mut i: usize = 0;
    proof {
        assert(a.digits@.take(0) =~= Seq::<u32>::empty());
        assert(digits_value(Seq::<u32>::empty()) == 0);
        assert(result@ =~= Seq::<u32>::empty());
    }
    while i < alen
        invariant
            alen == a.digits@.len(),
            bb == b,
            i <= alen,
            result@.len() == i,
            carry < word_base(),
            digits_value(result@) + carry * word_power(i as nat) == digits_value(
                a.digits@.take(i as int),
            ) * b,
        decreases alen - i,
    {
        let d = a.digits[i];
        proof {
            assert((d as nat) * (bb as nat) + carry as nat <= 0xFFFF_FFFF_FFFF_FFFF) by (
            nonlinear_arith)
                requires
                    d < 0x1_0000_0000,
                    bb < 0x1_0000_0000,
                    carry < 0x1_0000_0000,
            ;
        }
        let prod = d as u64 * bb + carry;
        let ghost p = word_power(i as nat);
        proof {
            lemma_split_word(prod);
            lemma_value_take_step(a.digits@, i as int);
            lemma_value_push(result@, prod as u32);
            assert(word_power(i as nat + 1) == word_base() * p);
            let q = prod as nat / word_base();
            let m = prod as nat % word_base();
            let old_a = digits_value(a.digits@.take(i as int));
            assert(m * p + q * (word_base() * p) == (prod as nat) * p) by (nonlinear_arith)
                requires
                    prod as nat == q * word_base() + m,
            ;
            assert((prod as nat) * p == (old_a + d * p) * b - (old_a * b - carry * p)) by (
            nonlinear_arith)
                requires
                    prod as nat == d * b + carry,
            ;
            assert(q < word_base()) by (nonlinear_arith)
                requires
                    prod as nat == q * word_base() + m,
                    m >= 0,
                    prod as nat == d * b + carry,
                    d < word_base(),
                    b < word_base(),
                    carry < word_base(),
                    word_base() == 0x1_0000_0000,
            ;
        }
        result.push(prod as u32);
        carry = prod >> 32;
        i += 1;
    }
    proof {
        assert(a.digits@.take(alen as int) =~= a.digits@);
    }
    if carry != 0 {
        proof {
            lemma_value_push(result@, carry as u32);
        }
        result.push(carry as u32);
    }
    let mut r = ApInt { digits: result };
    r.trim();
    r
}


// =====================================================================
// Left shift
// =====================================================================

/// Shifting a digit left by `bs < 32` bits and or-ing in a carry below
/// `2^bs` is the sum `d * 2^bs + c`, split into a low digit and carry.
proof fn lemma_shift_digit(d: u32, c: u32, bs: u32)
    requires
        0 < bs < 32,
        (c as nat) < pow2(bs as nat),
    ensures
        ((((d as u64) << bs) | (c as u64)) as nat) == (d as nat) * pow2(bs as nat) + c as nat,
        ((((d as u64) << bs) | (c as u64)) >> 32u64) < pow2(bs as nat),
{
    let d64 = d as u64;
    let c64 = c as u64;
    let bs64 = bs as u64;
    vstd::bits::lemma_u64_pow2_no_overflow(bs as nat);
    vstd::bits::lemma_u64_shl_is_mul(1u64, bs64);
    assert(c64 < (1u64 << bs64));
    assert(((d64 << bs64) | c64) == (d64 << bs64) + c64) by (bit_vector)
        requires
            bs64 < 32,
            d64 < 0x1_0000_0000u64,
            c64 < (1u64 << bs64),
    ;
    assert(((d64 << bs64) | c64) >> 32u64 < (1u64 << bs64)) by (bit_vector)
        requires
            0 < bs64 < 32,
            d64 < 0x1_0000_0000u64,
            c64 < (1u64 << bs64),
    ;
    lemma_pow2_strictly_increases(bs as nat, 32);
    lemma2_to64();
    assert((d as nat) * pow2(bs as nat) <= 0xFFFF_FFFF * 0x8000_0000) by (nonlinear_arith)
        requires
            d <= 0xFFFF_FFFF,
            pow2(bs as nat) <= 0x8000_0000,
    ;
    vstd::bits::lemma_u64_shl_is_mul(d64, bs64);
}

/// A value multiplied by `2^n`.
///
/// A zero (empty) value and a zero shift return the digits unchanged;
/// otherwise the result is canonical.
pub fn shl_ref(a: &ApInt, n: u32) -> (r: ApInt)
    requires
        a.digits@.len() + n / 32 + 1 <= usize::MAX,
    ensures
        r@ == a@ * pow2(n as nat),
        (a.digits@.len() == 0 || n == 0) ==> r.digits@ == a.digits@,
        !(a.digits@.len() == 0 || n == 0) ==> is_canonical(r.digits@),
{
    if a.is_zero() || n == 0 {
        let digits = a.digits.clone();
        proof {
            assert(digits@ =~= a.digits@);
            lemma2_to64();
            if a.digits@.len() == 0 {
                assert(a@ == 0);
                assert(a@ * pow2(n as nat) == 0) by (nonlinear_arith)
                    requires
                        a@ == 0,
                ;
            } else {
                assert(pow2(0) == 1);
                assert(a@ * pow2(n as nat) == a@) by (nonlinear_arith)
                    requires
                        n == 0,
                        pow2(0) == 1,
                ;
            }
        }
        return ApInt { digits };
    }
    let word_shift = (n / 32) as usize;
    let bit_shift = n % 32;
    let alen = a.digits.len();
    let new_len = alen + word_shift + if bit_shift > 0 {
        1
    } else {
        0
    };
    let mut result: Vec<u32> = Vec::new();
    let mut k: usize = 0;
    while k < new_len
        invariant
            k <= new_len,
            result@.len() == k,
            forall|j: int| 0 <= j < k ==> result@[j] == 0,
        decreases new_len - k,
    {
        result.push(0);
        k += 1;
    }
    let ghost pw = word_power(word_shift as nat);
    let ghost pb = pow2(bit_shift as nat);
    proof {
        assert(result@.take(word_shift as int) =~= Seq::new(word_shift as nat, |j: int| 0u32));
        lemma_value_zeros(result@.take(word_shift as int));
        assert(a.digits@.take(0) =~= Seq::<u32>::empty());
        assert(digits_value(Seq::<u32>::empty()) == 0);
        lemma_pow2_pos(bit_shift as nat);
    }
    let mut carry: u32 = 0;
    let mut i: usize = 0;
    while i < alen
        invariant
            alen == a.digits@.len(),
            new_len == alen + word_shift + (if bit_shift > 0 { 1int } else { 0int }),
            result@.len() == new_len,
            i <= alen,
            bit_shift < 32,
            pw == word_power(word_shift as nat),
            pb == pow2(bit_shift as nat),
            pb >= 1,
            (carry as nat) < pb,
            bit_shift == 0 ==> carry == 0,
            forall|j: int| word_shift + i <= j < new_len ==> result@[j] == 0,
            digits_value(result@.take(word_shift + i)) + carry * word_power((word_shift + i) as nat)
                == digits_value(a.digits@.take(i as int)) * pb * pw,
        decreases alen - i,
    {
        let d = a.digits[i];
        let ghost pos = (word_shift + i) as nat;
        let ghost old_r = result@;
        let ghost old_a = digits_value(a.digits@.take(i as int));
        let ghost old_carry = carry;
        proof {
            lemma_value_take_step(a.digits@, i as int);
            lemma_word_power_add(word_shift as nat, i as nat);
            assert(word_power(pos + 1) == word_base() * word_power(pos));
        }
        let digit: u32;
        if bit_shift == 0 {
            digit = d;
            proof {
                lemma2_to64();
                let pp = word_power(pos);
                let pi = word_power(i as nat);
                assert(d * pp == d * pi * pw) by (nonlinear_arith)
                    requires
                        pp == pw * pi,
                ;
                assert((old_a + d * pi) * 1 * pw == old_a * 1 * pw + d * pi * pw) by (
                nonlinear_arith);
            }
        } else {
            let shifted = ((d as u64) << bit_shift) | carry as u64;
            proof {
                lemma_shift_digit(d, carry, bit_shift);
                lemma_split_word(shifted);
                let pp = word_power(pos);
                let pi = word_power(i as nat);
                let q = shifted as nat / word_base();
                let m = shifted as nat % word_base();
                assert(m * pp + q * (word_base() * pp) == (shifted as nat) * pp) by (
                nonlinear_arith)
                    requires
                        shifted as nat == q * word_base() + m,
                ;
                assert((shifted as nat) * pp == old_carry * pp + d * pb * pi * pw) by (
                nonlinear_arith)
                    requires
                        shifted as nat == d * pb + old_carry,
                        pp == pw * pi,
                ;
                assert((old_a + d * pi) * pb * pw == old_a * pb * pw + d * pb * pi * pw) by (
                nonlinear_arith);
            }
            digit = shifted as u32;
            carry = (shifted >> 32) as u32;
        }
        proof {
            assert(result@.take(word_shift + i + 1) =~= result@.take(word_shift + i).push(
                result@[word_shift + i],
            ));
        }
        result.set(word_shift + i, digit);
        proof {
            assert(result@.take(word_shift + i) =~= old_r.take(word_shift + i));
            assert(result@.take(word_shift + i + 1) =~= old_r.take(word_shift + i).push(digit));
            lemma_value_push(old_r.take(word_shift + i), digit);
        }
        i += 1;
    }
    let ghost before = result@;
    proof {
        assert(a.digits@.take(alen as int) =~= a.digits@);
    }
    if carry != 0 {
        result.set(alen + word_shift, carry);
    }
    proof {
        let top = (alen + word_shift) as int;
        assert(result@.take(top) =~= before.take(top));
        assert(digits_value(result@.take(top)) + carry * word_power(top as nat) == a@ * pb * pw);
        if bit_shift > 0 {
            assert(result@ =~= result@.take(top).push(result@[top]));
            lemma_value_push(result@.take(top), result@[top]);
        } else {
            assert(result@ =~= result@.take(top));
        }
        lemma_word_power_pow2(word_shift as nat);
        lemma_pow2_adds(32 * word_shift as nat, bit_shift as nat);
        assert(32 * (word_shift as nat) + bit_shift as nat == n as nat);
        assert(a@ * pb * pw == a@ * pow2(n as nat)) by (nonlinear_arith)
            requires
                pow2(n as nat) == pw * pb,
        ;
    }
    let mut r = ApInt { digits: result };
    r.trim();
    r
}


// =====================================================================
// Comparison model
// =====================================================================

/// `B^x <= B^y` when `x <= y`.
pub proof fn lemma_word_power_mono(x: nat, y: nat)
    requires
        x <= y,
    ensures
        word_power(x) <= word_power(y),
    decreases y,
{
    if x < y {
        lemma_word_power_mono(x, (y - 1) as nat);
        let p = word_power((y - 1) as nat);
        assert(p <= word_base() * p) by (nonlinear_arith)
            requires
                p >= 0,
        ;
    }
}

/// Prefix form of the digit-wise comparison.
proof fn lemma_top_less_prefix(a: Seq<u32>, b: Seq<u32>, k: nat)
    requires
        k <= a.len(),
        k <= b.len(),
    ensures
        top_less(a, b, k) ==> digits_value(a.take(k as int)) < digits_value(b.take(k as int)),
        (!top_less(a, b, k) && !top_less(b, a, k)) ==> a.take(k as int) =~= b.take(k as int),
    decreases k,
{
    if k > 0 {
        let j = (k - 1) as int;
        lemma_top_less_prefix(a, b, (k - 1) as nat);
        lemma_value_take_step(a, j);
        lemma_value_take_step(b, j);
        let p = word_power(j as nat);
        let va = digits_value(a.take(j));
        let vb = digits_value(b.take(j));
        lemma_value_upper(a.take(j));
        if a[j] < b[j] {
            let x = a[j] as nat;
            let y = b[j] as nat;
            assert(va + x * p < y * p + vb) by (nonlinear_arith)
                requires
                    va < p,
                    x + 1 <= y,
                    vb >= 0,
            ;
        } else if a[j] == b[j] {
            if !top_less(a, b, (k - 1) as nat) && !top_less(b, a, (k - 1) as nat) {
                assert(a.take(k as int) =~= a.take(j).push(a[j]));
                assert(b.take(k as int) =~= b.take(j).push(b[j]));
            }
        }
    }
}

/// For canonical digits, the digit-wise comparison is the numeric order.
pub proof fn lemma_digits_lt_value(a: Seq<u32>, b: Seq<u32>)
    requires
        is_canonical(a),
        is_canonical(b),
    ensures
        digits_lt(a, b) <==> digits_value(a) < digits_value(b),
        (!digits_lt(a, b) && !digits_lt(b, a)) <==> a == b,
{
    lemma_value_upper(a);
    lemma_value_upper(b);
    if a.len() < b.len() {
        lemma_value_lower(b);
        lemma_word_power_mono(a.len(), (b.len() - 1) as nat);
    } else if b.len() < a.len() {
        lemma_value_lower(a);
        lemma_word_power_mono(b.len(), (a.len() - 1) as nat);
    } else {
        lemma_top_less_prefix(a, b, a.len());
        lemma_top_less_prefix(b, a, a.len());
        assert(a.take(a.len() as int) =~= a);
        assert(b.take(b.len() as int) =~= b);
    }
}

// =====================================================================
// Operators
// =====================================================================

impl core::ops::Add for ApInt {
    type Output = ApInt;

    /// Sum, in canonical form.
    fn add(self, rhs: ApInt) -> (r: ApInt)
        ensures
            r@ == self@ + rhs@,
            is_canonical(r.digits@),
    {
        add_ref(&self, &rhs)
    }
}

impl vstd::std_specs::ops::AddSpecImpl for ApInt {
    /// The sum is stated by the impl's own `ensures` (a digit vector
    /// cannot be built in a specification).
    open spec fn obeys_add_spec() -> bool {
        false
    }

    open spec fn add_req(self, rhs: ApInt) -> bool {
        true
    }

    open spec fn add_spec(self, rhs: ApInt) -> ApInt {
        vstd::pervasive::arbitrary()
    }
}

impl<'a> core::ops::Add for &'a ApInt {
    type Output = ApInt;

    /// Sum, in canonical form.
    fn add(self, rhs: &'a ApInt) -> (r: ApInt)
        ensures
            r@ == self@ + rhs@,
            is_canonical(r.digits@),
    {
        add_ref(self, rhs)
    }
}

impl<'a> vstd::std_specs::ops::AddSpecImpl for &'a ApInt {
    /// The sum is stated by the impl's own `ensures`.
    open spec fn obeys_add_spec() -> bool {
        false
    }

    open spec fn add_req(self, rhs: &'a ApInt) -> bool {
        true
    }

    open spec fn add_spec(self, rhs: &'a ApInt) -> ApInt {
        vstd::pervasive::arbitrary()
    }
}

impl core::ops::Sub for ApInt {
    type Output = ApInt;

    /// Difference, in canonical form.
    fn sub(self, rhs: ApInt) -> (r: ApInt)
        ensures
            r@ == self@ - rhs@,
            is_canonical(r.digits@),
    {
        sub_ref(&self, &rhs)
    }
}

impl vstd::std_specs::ops::SubSpecImpl for ApInt {
    /// The difference is stated by the impl's own `ensures`.
    open spec fn obeys_sub_spec() -> bool {
        false
    }

    /// The subtrahend must not exceed the minuend.
    open spec fn sub_req(self, rhs: ApInt) -> bool {
        !digits_lt(self.digits@, rhs.digits@) && rhs@ <= self@
    }

    open spec fn sub_spec(self, rhs: ApInt) -> ApInt {
        vstd::pervasive::arbitrary()
    }
}

impl<'a> core::ops::Sub for &'a ApInt {
    type Output = ApInt;

    /// Difference, in canonical form.
    fn sub(self, rhs: &'a ApInt) -> (r: ApInt)
        ensures
            r@ == self@ - rhs@,
            is_canonical(r.digits@),
    {
        sub_ref(self, rhs)
    }
}

impl<'a> vstd::std_specs::ops::SubSpecImpl for &'a ApInt {
    /// The difference is stated by the impl's own `ensures`.
    open spec fn obeys_sub_spec() -> bool {
        false
    }

    /// The subtrahend must not exceed the minuend.
    open spec fn sub_req(self, rhs: &'a ApInt) -> bool {
        !digits_lt(self.digits@, rhs.digits@) && rhs@ <= self@
    }

    open spec fn sub_spec(self, rhs: &'a ApInt) -> ApInt {
        vstd::pervasive::arbitrary()
    }
}

impl core::ops::Mul<u32> for ApInt {
    type Output = ApInt;

    /// Product with a 32-bit factor, in canonical form.
    fn mul(self, rhs: u32) -> (r: ApInt)
        ensures
            r@ == self@ * rhs,
            is_canonical(r.digits@),
    {
        scalar_mul(&self, rhs)
    }
}

impl vstd::std_specs::ops::MulSpecImpl<u32> for ApInt {
    /// The product is stated by the impl's own `ensures`.
    open spec fn obeys_mul_spec() -> bool {
        false
    }

    open spec fn mul_req(self, rhs: u32) -> bool {
        true
    }

    open spec fn mul_spec(self, rhs: u32) -> ApInt {
        vstd::pervasive::arbitrary()
    }
}

impl<'a> core::ops::Mul<u32> for &'a ApInt {
    type Output = ApInt;

    /// Product with a 32-bit factor, in canonical form.
    fn mul(self, rhs: u32) -> (r: ApInt)
        ensures
            r@ == self@ * rhs,
            is_canonical(r.digits@),
    {
        scalar_mul(self, rhs)
    }
}

impl<'a> vstd::std_specs::ops::MulSpecImpl<u32> for &'a ApInt {
    /// The product is stated by the impl's own `ensures`.
    open spec fn obeys_mul_spec() -> bool {
        false
    }

    open spec fn mul_req(self, rhs: u32) -> bool {
        true
    }

    open spec fn mul_spec(self, rhs: u32) -> ApInt {
        vstd::pervasive::arbitrary()
    }
}

impl core::ops::Shl<u32> for ApInt {
    type Output = ApInt;

    /// Multiplication by `2^n`.
    fn shl(self, n: u32) -> (r: ApInt)
        ensures
            r@ == self@ * pow2(n as nat),
    {
        shl_ref(&self, n)
    }
}

impl vstd::std_specs::ops::ShlSpecImpl<u32> for ApInt {
    /// The product is stated by the impl's own `ensures`.
    open spec fn obeys_shl_spec() -> bool {
        false
    }

    /// The shifted digit count must fit in `usize`.
    open spec fn shl_req(self, n: u32) -> bool {
        self.digits@.len() + n / 32 + 1 <= usize::MAX
    }

    open spec fn shl_spec(self, n: u32) -> ApInt {
        vstd::pervasive::arbitrary()
    }
}

impl<'a> core::ops::Shl<u32> for &'a ApInt {
    type Output = ApInt;

    /// Multiplication by `2^n`.
    fn shl(self, n: u32) -> (r: ApInt)
        ensures
            r@ == self@ * pow2(n as nat),
    {
        shl_ref(self, n)
    }
}

impl<'a> vstd::std_specs::ops::ShlSpecImpl<u32> for &'a ApInt {
    /// The product is stated by the impl's own `ensures`.
    open spec fn obeys_shl_spec() -> bool {
        false
    }

    /// The shifted digit count must fit in `usize`.
    open spec fn shl_req(self, n: u32) -> bool {
        self.digits@.len() + n / 32 + 1 <= usize::MAX
    }

    open spec fn shl_spec(self, n: u32) -> ApInt {
        vstd::pervasive::arbitrary()
    }
}


// =====================================================================
// Decimal rendering
// =====================================================================

/// The group base used for rendering, 10^9.
pub open spec fn group_base() -> nat {
    1_000_000_000
}

/// The number denoted by little-endian base-10^9 groups.
pub open spec fn group_value(s: Seq<u32>) -> nat
    decreases s.len(),
{
    if s.len() == 0 {
        0
    } else {
        s[0] as nat + group_base() * group_value(s.skip(1))
    }
}

/// `group_base()` raised to the power `n`.
pub open spec fn group_power(n: nat) -> nat
    decreases n,
{
    if n == 0 {
        1
    } else {
        group_base() * group_power((n - 1) as nat)
    }
}

/// Appending a most significant group adds `x * D^len`.
proof fn lemma_group_push(s: Seq<u32>, x: u32)
    ensures
        group_value(s.push(x)) == group_value(s) + x * group_power(s.len()),
    decreases s.len(),
{
    let sp = s.push(x);
    if s.len() == 0 {
        assert(sp.skip(1) =~= Seq::<u32>::empty());
        assert(group_value(sp.skip(1)) == 0);
        assert(group_value(sp) == sp[0] as nat + group_base() * group_value(sp.skip(1)));
        assert(group_power(0) == 1);
    } else {
        lemma_group_push(s.skip(1), x);
        assert(sp.skip(1) =~= s.skip(1).push(x));
        let a = group_value(s.skip(1));
        let p = group_power((s.len() - 1) as nat);
        let b = group_base();
        assert(group_value(sp) == sp[0] as nat + b * group_value(sp.skip(1)));
        assert(group_power(s.len()) == b * p);
        assert(b * (a + x * p) == b * a + x * (b * p)) by (nonlinear_arith);
    }
}

/// `D^n >= 1`.
proof fn lemma_group_power_pos(n: nat)
    ensures
        group_power(n) >= 1,
    decreases n,
{
    if n > 0 {
        lemma_group_power_pos((n - 1) as nat);
        let p = group_power((n - 1) as nat);
        assert(group_base() * p >= 1) by (nonlinear_arith)
            requires
                p >= 1,
        ;
    }
}

/// A group sequence whose last group is positive denotes a positive number.
proof fn lemma_group_value_pos(s: Seq<u32>)
    requires
        s.len() > 0,
        s.last() > 0,
    ensures
        group_value(s) > 0,
{
    assert(s =~= s.drop_last().push(s.last()));
    lemma_group_push(s.drop_last(), s.last());
    lemma_group_power_pos((s.len() - 1) as nat);
    let p = group_power((s.len() - 1) as nat);
    let t = s.last() as nat;
    assert(t * p >= 1) by (nonlinear_arith)
        requires
            t >= 1,
            p >= 1,
    ;
}

/// One step of long division by 10^9, from the most significant digit.
proof fn lemma_division_step(orig: Seq<u32>, rem_seq: Seq<u32>, i: int, rem: nat, q: u32, r2: nat)
    requires
        0 < i <= orig.len(),
        orig.len() == rem_seq.len(),
        digits_value(orig.skip(i)) == digits_value(rem_seq.skip(i)) * group_base() + rem,
        (rem * word_base() + orig[i - 1]) == q * group_base() + r2,
    ensures
        digits_value(orig.skip(i - 1)) == digits_value(rem_seq.update(i - 1, q).skip(i - 1))
            * group_base() + r2,
{
    let ns = rem_seq.update(i - 1, q);
    assert(orig.skip(i - 1).skip(1) =~= orig.skip(i));
    assert(ns.skip(i - 1).skip(1) =~= rem_seq.skip(i));
    let x = digits_value(rem_seq.skip(i));
    let d = orig[i - 1] as nat;
    assert(digits_value(orig.skip(i - 1)) == d + word_base() * digits_value(orig.skip(i)));
    assert(digits_value(ns.skip(i - 1)) == q + word_base() * x);
    assert(d + word_base() * (x * group_base() + rem) == (q + word_base() * x) * group_base() + r2)
        by (nonlinear_arith)
        requires
            rem * word_base() + d == q * group_base() + r2,
    ;
}

impl ApInt {
    /// The decimal notation of the value.
    ///
    /// Digits are extracted nine at a time by repeated long division
    /// by 10^9; every group but the most significant is zero-padded.
    pub fn to_string(&self) -> (r: String)
        ensures
            r@ == decimal(self@),
    {
        if self.is_zero() {
            let mut s = String::new();
            push_decimal(&mut s, 0);
            proof {
                assert(s@ =~= decimal(0));
            }
            return s;
        }
        let divisor: u64 = 1_000_000_000;
        let mut remaining = ApInt { digits: self.digits.clone() };
        proof {
            assert(remaining.digits@ =~= self.digits@);
        }
        let mut groups: Vec<u32> = Vec::new();
        proof {
            assert(group_value(groups@) == 0);
            assert(group_power(0) == 1);
        }
        while remaining.digits.len() > 0
            invariant
                group_value(groups@) + group_power(groups@.len()) * remaining@ == self@,
                groups@.len() > 0 ==> is_canonical(remaining.digits@),
                groups@.len() >= 2 && remaining.digits@.len() == 0 ==> groups@.last() > 0,
                groups@.len() == 1 && remaining.digits@.len() == 0 ==> groups@[0] as nat
                    == self@,
                remaining.digits@.len() == 0 ==> groups@.len() > 0,
                forall|j: int| 0 <= j < groups@.len() ==> groups@[j] < 1_000_000_000,
                divisor == 1_000_000_000,
            decreases remaining@, remaining.digits@.len(),
        {
            let ghost orig = remaining.digits@;
            let ghost old_groups = groups@;
            let mut rem: u64 = 0;
            let mut i = remaining.digits.len();
            proof {
                assert(orig.skip(orig.len() as int) =~= Seq::<u32>::empty());
                assert(digits_value(Seq::<u32>::empty()) == 0);
            }
            while i > 0
                invariant
                    i <= orig.len(),
                    remaining.digits@.len() == orig.len(),
                    rem < divisor,
                    divisor == 1_000_000_000,
                    forall|j: int| 0 <= j < i ==> remaining.digits@[j] == orig[j],
                    digits_value(orig.skip(i as int)) == digits_value(
                        remaining.digits@.skip(i as int),
                    ) * group_base() + rem,
                decreases i,
            {
                let d = remaining.digits[i - 1];
                assert((rem << 32u64) | (d as u64) == rem * 0x1_0000_0000u64 + d as u64) by (
                bit_vector)
                    requires
                        rem < 1_000_000_000u64,
                ;
                let cur = rem << 32 | d as u64;
                let q = cur / divisor;
                let r2 = cur % divisor;
                proof {
                    assert(q < 0x1_0000_0000) by (nonlinear_arith)
                        requires
                            cur == rem * 0x1_0000_0000 + d,
                            rem < 1_000_000_000,
                            d < 0x1_0000_0000,
                            q == cur / 1_000_000_000,
                    ;
                    assert(cur == q * 1_000_000_000 + r2);
                    lemma_division_step(orig, remaining.digits@, i as int, rem as nat, q as u32, r2 as nat);
                }
                remaining.digits.set(i - 1, q as u32);
                rem = r2;
                i -= 1;
            }
            proof {
                assert(orig.skip(0) =~= orig);
                assert(remaining.digits@.skip(0) =~= remaining.digits@);
                lemma_group_push(groups@, rem as u32);
                let gp = group_power(groups@.len());
                assert(gp * (remaining@ * group_base() + rem) == rem * gp + (gp * group_base())
                    * remaining@) by (nonlinear_arith);
                assert(group_power(groups@.len() + 1) == group_base() * gp);
                if old_groups.len() > 0 {
                    lemma_canonical_zero(orig);
                }
            }
            groups.push(rem as u32);
            let ghost before_trim = remaining.digits@;
            remaining.trim();
            proof {
                lemma_canonical_zero(remaining.digits@);
                if remaining.digits@.len() == 0 {
                    lemma_value_zeros(Seq::<u32>::empty());
                }
                let ov = digits_value(orig);
                let nv = remaining@;
                assert(nv < ov || (nv == ov && remaining.digits@.len() < orig.len())) by (
                nonlinear_arith)
                    requires
                        ov == nv * 1_000_000_000 + rem,
                        (nv == 0) ==> remaining.digits@.len() == 0,
                        orig.len() > 0,
                ;
            }
        }
        proof {
            assert(group_power(groups@.len()) * 0 == 0) by (nonlinear_arith);
        }
        let last = groups.len() - 1;
        let mut s = String::new();
        push_decimal(&mut s, groups[last] as u64);
        proof {
            assert(groups@.skip(last as int) =~= seq![groups@[last as int]]);
            assert(groups@.skip(last as int).skip(1) =~= Seq::<u32>::empty());
            assert(group_value(Seq::<u32>::empty()) == 0);
            assert(group_value(groups@.skip(last as int)) == groups@[last as int]);
            assert(s@ =~= decimal(group_value(groups@.skip(last as int))));
            if last > 0 {
                lemma_group_value_pos(groups@.skip(last as int));
            }
        }
        let mut k = last;
        while k > 0
            invariant
                k <= last,
                last == groups@.len() - 1,
                s@ == decimal(group_value(groups@.skip(k as int))),
                forall|j: int| 0 <= j < groups@.len() ==> groups@[j] < 1_000_000_000,
                last > 0 ==> group_value(groups@.skip(k as int)) > 0,
                group_value(groups@) == self@,
            decreases k,
        {
            let g = groups[k - 1];
            proof {
                let a = group_value(groups@.skip(k as int));
                assert(groups@.skip(k - 1).skip(1) =~= groups@.skip(k as int));
                assert(group_value(groups@.skip(k - 1)) == g + group_base() * a);
                reveal_with_fuel(pow10, 10);
                assert(pow10(9) == 1_000_000_000);
                lemma_decimal_concat(a, g as nat, 9);
                assert(a * pow10(9) + g == g + group_base() * a);
            }
            push_padded(&mut s, g as u64, 9);
            k -= 1;
        }
        proof {
            assert(groups@.skip(0) =~= groups@);
        }
        s
    }
}

} // verus!
