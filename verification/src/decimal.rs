//! Decimal rendering of unsigned integers into strings.
use vstd::prelude::*;

verus! {

/// The ASCII digit character for `d < 10`.
pub open spec fn digit_char(d: nat) -> char {
    if d == 0 {
        '0'
    } else if d == 1 {
        '1'
    } else if d == 2 {
        '2'
    } else if d == 3 {
        '3'
    } else if d == 4 {
        '4'
    } else if d == 5 {
        '5'
    } else if d == 6 {
        '6'
    } else if d == 7 {
        '7'
    } else if d == 8 {
        '8'
    } else {
        '9'
    }
}

/// The decimal notation of `n`, without leading zeros ("0" for zero).
pub open spec fn decimal(n: nat) -> Seq<char>
    decreases n,
{
    if n < 10 {
        seq![digit_char(n)]
    } else {
        decimal(n / 10).push(digit_char(n % 10))
    }
}

/// The lowest `k` decimal digits of `n`, zero-padded to exactly `k` characters.
pub open spec fn padded(n: nat, k: nat) -> Seq<char>
    decreases k,
{
    if k == 0 {
        Seq::empty()
    } else {
        padded(n / 10, (k - 1) as nat).push(digit_char(n % 10))
    }
}

/// `10^k`.
pub open spec fn pow10(k: nat) -> nat
    decreases k,
{
    if k == 0 {
        1
    } else {
        10 * pow10((k - 1) as nat)
    }
}

/// Writing `a` followed by exactly `k` digits of `g`.
pub proof fn lemma_decimal_concat(a: nat, g: nat, k: nat)
    requires
        a > 0,
        g < pow10(k),
    ensures
        decimal(a * pow10(k) + g) == decimal(a) + padded(g, k),
    decreases k,
{
    if k == 0 {
        assert(decimal(a) + Seq::<char>::empty() =~= decimal(a));
    } else {
        let k1 = (k - 1) as nat;
        let p = pow10(k1);
        let n = a * pow10(k) + g;
        assert(pow10(k) == 10 * p);
        assert(n / 10 == a * p + g / 10 && n % 10 == g % 10 && g / 10 < p && n >= 10) by (
        nonlinear_arith)
            requires
                n == a * (10 * p) + g,
                g < 10 * p,
                a >= 1,
                p >= 1,
        ;
        lemma_pow10_pos(k1);
        lemma_decimal_concat(a, g / 10, k1);
        assert(decimal(n) == decimal(n / 10).push(digit_char(n % 10)));
        assert(padded(g, k) == padded(g / 10, k1).push(digit_char(g % 10)));
        assert(decimal(n) =~= decimal(a) + padded(g, k));
    }
}

/// `10^k` is positive.
pub proof fn lemma_pow10_pos(k: nat)
    ensures
        pow10(k) >= 1,
    decreases k,
{
    if k > 0 {
        lemma_pow10_pos((k - 1) as nat);
    }
}

/// Append one decimal digit.
fn push_digit(s: &mut String, d: u64)
    requires
        d < 10,
    ensures
        final(s)@ == old(s)@.push(digit_char(d as nat)),
{
    if d == 0 {
        s.append("0");
        proof {
            reveal_strlit("0");
        }
    } else if d == 1 {
        s.append("1");
        proof {
            reveal_strlit("1");
        }
    } else if d == 2 {
        s.append("2");
        proof {
            reveal_strlit("2");
        }
    } else if d == 3 {
        s.append("3");
        proof {
            reveal_strlit("3");
        }
    } else if d == 4 {
        s.append("4");
        proof {
            reveal_strlit("4");
        }
    } else if d == 5 {
        s.append("5");
        proof {
            reveal_strlit("5");
        }
    } else if d == 6 {
        s.append("6");
        proof {
            reveal_strlit("6");
        }
    } else if d == 7 {
        s.append("7");
        proof {
            reveal_strlit("7");
        }
    } else if d == 8 {
        s.append("8");
        proof {
            reveal_strlit("8");
        }
    } else {
        s.append("9");
        proof {
            reveal_strlit("9");
        }
    }
    proof {
        assert(final(s)@ =~= old(s)@.push(digit_char(d as nat)));
    }
}

/// Append the decimal notation of `n`.
pub fn push_decimal(s: &mut String, n: u64)
    ensures
        final(s)@ == old(s)@ + decimal(n as nat),
    decreases n,
{
    if n >= 10 {
        push_decimal(s, n / 10);
    }
    push_digit(s, n % 10);
    proof {
        if n >= 10 {
            assert(decimal(n as nat) == decimal((n / 10) as nat).push(digit_char((n % 10) as nat)));
        }
        assert(final(s)@ =~= old(s)@ + decimal(n as nat));
    }
}

/// Append exactly `k` decimal digits of `n`, zero-padded on the left.
pub fn push_padded(s: &mut String, n: u64, k: u32)
    ensures
        final(s)@ == old(s)@ + padded(n as nat, k as nat),
    decreases k,
{
    if k > 0 {
        push_padded(s, n / 10, k - 1);
        push_digit(s, n % 10);
        proof {
            assert(final(s)@ =~= old(s)@ + padded(n as nat, k as nat));
        }
    } else {
        proof {
            assert(final(s)@ =~= old(s)@ + padded(n as nat, k as nat));
        }
    }
}

/// The decimal notation of `n` as a fresh string.
pub fn decimal_string(n: u64) -> (r: String)
    ensures
        r@ == decimal(n as nat),
{
    let mut s = String::new();
    push_decimal(&mut s, n);
    proof {
        assert(s@ =~= decimal(n as nat));
    }
    s
}

/// The decimal notation of `x`, with a leading `-` when it is negative.
pub open spec fn signed_decimal(x: int) -> Seq<char> {
    if x < 0 {
        "-"@ + decimal((-x) as nat)
    } else {
        decimal(x as nat)
    }
}

/// Append the decimal notation of `x`, with a leading `-` when it is
/// negative.
pub fn push_signed(s: &mut String, x: i64)
    ensures
        final(s)@ == old(s)@ + signed_decimal(x as int),
{
    if x < 0 {
        s.append("-");
        let m: u64 = if x == i64::MIN {
            0x8000_0000_0000_0000
        } else {
            (-x) as u64
        };
        push_decimal(s, m);
        proof {
            assert(final(s)@ =~= old(s)@ + signed_decimal(x as int));
        }
    } else {
        push_decimal(s, x as u64);
    }
}

} // verus!
