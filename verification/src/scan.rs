//! Scanning text: white space, words and unsigned decimal numbers.
use vstd::prelude::*;
use crate::decimal::{decimal, digit_char, signed_decimal};

verus! {

/// `c` has the Unicode `White_Space` property.
pub open spec fn is_white_space(c: char) -> bool {
    let u = c as u32;
    ||| 0x09 <= u <= 0x0D
    ||| u == 0x20
    ||| u == 0x85
    ||| u == 0xA0
    ||| u == 0x1680
    ||| 0x2000 <= u <= 0x200A
    ||| u == 0x2028
    ||| u == 0x2029
    ||| u == 0x202F
    ||| u == 0x205F
    ||| u == 0x3000
}

/// Whether `c` is white space.
pub fn is_white(c: char) -> (r: bool)
    ensures
        r == is_white_space(c),
{
    let u = c as u32;
    (0x09 <= u && u <= 0x0D) || u == 0x20 || u == 0x85 || u == 0xA0 || u == 0x1680 || (0x2000 <= u
        && u <= 0x200A) || u == 0x2028 || u == 0x2029 || u == 0x202F || u == 0x205F || u == 0x3000
}

/// The number of characters at the front of `s` before its first white space.
pub open spec fn word_len(s: Seq<char>) -> nat
    decreases s.len(),
{
    if s.len() == 0 || is_white_space(s[0]) {
        0
    } else {
        1 + word_len(s.skip(1))
    }
}

/// A leading word is no longer than the text.
pub proof fn lemma_word_len_bound(s: Seq<char>)
    ensures
        word_len(s) <= s.len(),
    decreases s.len(),
{
    if s.len() > 0 && !is_white_space(s[0]) {
        lemma_word_len_bound(s.skip(1));
    }
}

/// The words of `s`: its maximal runs of characters that are not white
/// space, in order.
pub open spec fn words(s: Seq<char>) -> Seq<Seq<char>>
    decreases s.len(),
{
    if s.len() == 0 {
        Seq::empty()
    } else if is_white_space(s[0]) {
        words(s.skip(1))
    } else {
        proof {
            lemma_word_len_bound(s);
        }
        seq![s.take(word_len(s) as int)] + words(s.skip(word_len(s) as int))
    }
}

/// The characters of `s`, in order.
pub fn chars_of(s: &str) -> (r: Vec<char>)
    ensures
        r@ == s@,
{
    let mut out: Vec<char> = Vec::new();
    for c in it: s.chars()
        invariant
            out@ == it.seq().take(it.index() as int),
    {
        out.push(c);
    }
    out
}

/// The words of `s`, each as its characters.
pub fn split_words(s: &str) -> (r: Vec<Vec<char>>)
    ensures
        r@.len() == words(s@).len(),
        forall|i: int| 0 <= i < r@.len() ==> (#[trigger] r@[i])@ == words(s@)[i],
{
    let cs = chars_of(s);
    split_word_chars(&cs)
}

/// The words of the characters `cs`, each as its characters.
pub fn split_word_chars(cs: &[char]) -> (r: Vec<Vec<char>>)
    ensures
        r@.len() == words(cs@).len(),
        forall|i: int| 0 <= i < r@.len() ==> (#[trigger] r@[i])@ == words(cs@)[i],
{
    let n = cs.len();
    let mut out: Vec<Vec<char>> = Vec::new();
    let mut i: usize = 0;
    let ghost text = cs@;
    proof {
        assert(text.skip(0) =~= text);
        assert(Seq::new(out@.len(), |k: int| out@[k]@) + words(text) =~= words(text));
    }
    while i < n
        invariant
            cs@ == text,
            n == text.len(),
            i <= n,
            words(text) == Seq::new(out@.len(), |k: int| out@[k]@) + words(text.skip(i as int)),
        decreases n - i,
    {
        let ghost rest = text.skip(i as int);
        proof {
            assert(rest.skip(1) =~= text.skip(i + 1));
        }
        if is_white(cs[i]) {
            i += 1;
            proof {
                assert(words(rest) == words(text.skip(i as int)));
            }
        } else {
            let start = i;
            let mut w: Vec<char> = Vec::new();
            while i < n && !is_white(cs[i])
                invariant
                    cs@ == text,
                    n == text.len(),
                    start <= i <= n,
                    rest == text.skip(start as int),
                    w@ == text.subrange(start as int, i as int),
                    word_len(rest) == (i - start) + word_len(text.skip(i as int)),
                decreases n - i,
            {
                proof {
                    assert(text.skip(i as int).skip(1) =~= text.skip(i + 1));
                }
                w.push(cs[i]);
                i += 1;
                proof {
                    assert(w@ =~= text.subrange(start as int, i as int));
                }
            }
            proof {
                assert(word_len(text.skip(i as int)) == 0);
                assert(rest.take(word_len(rest) as int) =~= w@);
                assert(rest.skip(word_len(rest) as int) =~= text.skip(i as int));
                let before = Seq::new(out@.len(), |k: int| out@[k]@);
                assert(words(rest) == seq![w@] + words(text.skip(i as int)));
                assert(words(text) == before + seq![w@] + words(text.skip(i as int)));
            }
            let ghost before = Seq::new(out@.len(), |k: int| out@[k]@);
            out.push(w);
            proof {
                assert(Seq::new(out@.len(), |k: int| out@[k]@) =~= before + seq![out@[out@.len() - 1]@]);
            }
        }
    }
    proof {
        assert(text.skip(n as int).len() == 0);
        assert(words(text.skip(n as int)) =~= Seq::<Seq<char>>::empty());
        assert(words(text) =~= Seq::new(out@.len(), |k: int| out@[k]@));
        assert forall|k: int| 0 <= k < out@.len() implies (#[trigger] out@[k])@ == words(text)[k] by {
            assert(Seq::new(out@.len(), |j: int| out@[j]@)[k] == out@[k]@);
        }
    }
    out
}

/// The number of white-space characters at the front of `s`.
pub open spec fn lead_white(s: Seq<char>) -> nat
    decreases s.len(),
{
    if s.len() > 0 && is_white_space(s[0]) {
        1 + lead_white(s.skip(1))
    } else {
        0
    }
}

/// The number of white-space characters at the back of `s`.
pub open spec fn trail_white(s: Seq<char>) -> nat
    decreases s.len(),
{
    if s.len() > 0 && is_white_space(s.last()) {
        1 + trail_white(s.drop_last())
    } else {
        0
    }
}

/// `s` without the white space at its front and back.
pub open spec fn trimmed(s: Seq<char>) -> Seq<char> {
    if lead_white(s) >= s.len() {
        Seq::empty()
    } else {
        s.subrange(lead_white(s) as int, s.len() - trail_white(s))
    }
}



/// The bounds of `cs` without the white space at its front and back: the
/// characters from the first to just before the second are `trimmed(cs)`.
pub fn trim_bounds(cs: &[char]) -> (r: (usize, usize))
    ensures
        r.0 <= r.1 <= cs@.len(),
        cs@.subrange(r.0 as int, r.1 as int) == trimmed(cs@),
{
    let n = cs.len();
    let ghost s = cs@;
    let mut a: usize = 0;
    proof {
        assert(s.skip(0) =~= s);
    }
    while a < n && is_white(cs[a])
        invariant
            a <= n,
            n == s.len(),
            s == cs@,
            lead_white(s) == a + lead_white(s.skip(a as int)),
        decreases n - a,
    {
        proof {
            assert(s.skip(a as int).skip(1) =~= s.skip(a + 1));
        }
        a += 1;
    }
    proof {
        if a < n {
            assert(s.skip(a as int)[0] == s[a as int]);
        }
        assert(lead_white(s) == a);
    }
    if a == n {
        proof {
            assert(s.subrange(n as int, n as int) =~= Seq::<char>::empty());
        }
        return (n, n);
    }
    let mut b: usize = n;
    proof {
        assert(s.take(n as int) =~= s);
    }
    while b > a && is_white(cs[b - 1])
        invariant
            a < n,
            a < b <= n,
            n == s.len(),
            s == cs@,
            lead_white(s) == a,
            !is_white_space(s[a as int]),
            trail_white(s) == (n - b) + trail_white(s.take(b as int)),
        decreases b,
    {
        proof {
            assert(s.take(b as int).drop_last() =~= s.take(b - 1));
            assert(s.take(b as int).last() == s[b - 1]);
        }
        b -= 1;
    }
    proof {
        assert(s.take(b as int).last() == s[b - 1]);
        assert(trail_white(s) == n - b);
    }
    (a, b)
}

/// The characters of `cs` from `start` on begin with `p`.
pub fn has_prefix_at(cs: &[char], start: usize, p: &[char]) -> (r: bool)
    requires
        start <= cs@.len(),
    ensures
        r == (cs@.len() - start >= p@.len() && cs@.subrange(start as int, start + p@.len()) == p@),
{
    let total = cs.len();
    if total - start < p.len() {
        return false;
    }
    let mut i: usize = 0;
    while i < p.len()
        invariant
            total == cs@.len(),
            i <= p@.len(),
            start + p@.len() <= cs@.len(),
            forall|k: int| 0 <= k < i ==> cs@[start + k] == p@[k],
        decreases p@.len() - i,
    {
        if cs[start + i] != p[i] {
            proof {
                assert(cs@.subrange(start as int, start + p@.len())[i as int] != p@[i as int]);
            }
            return false;
        }
        i += 1;
    }
    proof {
        assert(cs@.subrange(start as int, start + p@.len()) =~= p@);
    }
    true
}

/// Why a word is not a decimal number of the wanted type.
#[derive(Clone, Copy, Debug, PartialEq, Eq, Structural)]
pub enum NumberError {
    /// The word is empty.
    Empty,
    /// The word holds a character that is not a decimal digit where one is
    /// needed.
    InvalidDigit,
    /// The number is above the largest value of the type.
    TooLarge,
    /// The number is below the smallest value of the type.
    TooSmall,
}

/// The text that describes a number error.
pub open spec fn number_error_text(e: NumberError) -> Seq<char> {
    match e {
        NumberError::Empty => "cannot parse integer from empty string"@,
        NumberError::InvalidDigit => "invalid digit found in string"@,
        NumberError::TooLarge => "number too large to fit in target type"@,
        NumberError::TooSmall => "number too small to fit in target type"@,
    }
}

impl NumberError {
    /// The text that describes this error.
    pub fn message(&self) -> (r: String)
        ensures
            r@ == number_error_text(*self),
    {
        let mut s = String::new();
        match self {
            NumberError::Empty => s.append("cannot parse integer from empty string"),
            NumberError::InvalidDigit => s.append("invalid digit found in string"),
            NumberError::TooLarge => s.append("number too large to fit in target type"),
            NumberError::TooSmall => s.append("number too small to fit in target type"),
        }
        proof {
            assert(s@ =~= number_error_text(*self));
        }
        s
    }
}

/// `c` is one of the ASCII digits `0` to `9`.
pub open spec fn is_digit(c: char) -> bool {
    48 <= (c as u32) <= 57
}

/// The value of the digit `c`.
pub open spec fn digit_value(c: char) -> nat {
    ((c as u32) - 48) as nat
}

/// The number of digits at the front of `d`.
pub open spec fn digit_run(d: Seq<char>) -> nat
    decreases d.len(),
{
    if d.len() == 0 || !is_digit(d[0]) {
        0
    } else {
        1 + digit_run(d.skip(1))
    }
}

/// The value of the digits `d`, read in base ten.
pub open spec fn dec_value(d: Seq<char>) -> nat
    decreases d.len(),
{
    if d.len() == 0 {
        0
    } else {
        10 * dec_value(d.drop_last()) + digit_value(d.last())
    }
}

/// The number that the digits `d` spell, if it is at most `max`;
/// otherwise the first problem met reading them from the left: a value
/// past `max`, or a character that is no digit.
pub open spec fn magnitude(d: Seq<char>, max: nat) -> Result<nat, NumberError> {
    let p = digit_run(d);
    if dec_value(d.take(p as int)) > max {
        Err(NumberError::TooLarge)
    } else if p < d.len() {
        Err(NumberError::InvalidDigit)
    } else {
        Ok(dec_value(d))
    }
}

/// `w` without the one `+` sign that may lead it.
pub open spec fn unsigned_part(w: Seq<char>) -> Seq<char> {
    if w.len() > 0 && w[0] == '+' {
        w.skip(1)
    } else {
        w
    }
}

/// The number at most `max` that `w` denotes in decimal, with an optional
/// leading `+`, as an unsigned type's `parse` reads it.
pub open spec fn unsigned_of(w: Seq<char>, max: nat) -> Result<nat, NumberError> {
    if w.len() == 0 {
        Err(NumberError::Empty)
    } else if unsigned_part(w).len() == 0 {
        Err(NumberError::InvalidDigit)
    } else {
        magnitude(unsigned_part(w), max)
    }
}

/// The `usize` that `w` denotes, as `usize`'s `parse` reads it.
pub open spec fn usize_of(w: Seq<char>) -> Result<usize, NumberError> {
    match unsigned_of(w, usize::MAX as nat) {
        Ok(v) => Ok(v as usize),
        Err(e) => Err(e),
    }
}

/// The `i64` that `w` denotes in decimal, with an optional leading `+` or
/// `-`, as `i64`'s `parse` reads it.
pub open spec fn i64_of(w: Seq<char>) -> Result<i64, NumberError> {
    if w.len() > 0 && w[0] == '-' {
        if w.len() == 1 {
            Err(NumberError::InvalidDigit)
        } else {
            match magnitude(w.skip(1), 0x8000_0000_0000_0000) {
                Ok(m) => Ok((-m) as i64),
                Err(NumberError::TooLarge) => Err(NumberError::TooSmall),
                Err(e) => Err(e),
            }
        }
    } else {
        match unsigned_of(w, i64::MAX as nat) {
            Ok(v) => Ok(v as i64),
            Err(e) => Err(e),
        }
    }
}

/// A longer prefix never reads as a smaller number.
pub proof fn lemma_dec_value_mono(d: Seq<char>, a: nat, b: nat)
    requires
        a <= b <= d.len(),
    ensures
        dec_value(d.take(a as int)) <= dec_value(d.take(b as int)),
    decreases b - a,
{
    if a < b {
        lemma_dec_value_mono(d, a, (b - 1) as nat);
        assert(d.take(b as int).drop_last() =~= d.take(b - 1));
    }
}

/// A run of leading digits is no longer than the text.
proof fn lemma_digit_run_bound(d: Seq<char>)
    ensures
        digit_run(d) <= d.len(),
    decreases d.len(),
{
    if d.len() > 0 && is_digit(d[0]) {
        lemma_digit_run_bound(d.skip(1));
    }
}

/// A run of leading digits goes on past the first `j` of them.
proof fn lemma_digit_run_step(d: Seq<char>, j: nat)
    requires
        j < d.len(),
        digit_run(d) == j + digit_run(d.skip(j as int)),
    ensures
        is_digit(d[j as int]) ==> digit_run(d) == (j + 1) + digit_run(d.skip(j + 1int)),
        !is_digit(d[j as int]) ==> digit_run(d) == j,
{
    assert(d.skip(j as int).skip(1) =~= d.skip(j + 1int));
}

/// Read the characters of `w` from `start` on as digits of a number at
/// most `max`.
fn parse_magnitude(w: &[char], start: usize, max: u64) -> (r: Result<u64, NumberError>)
    requires
        start <= w@.len(),
    ensures
        match r {
            Ok(v) => magnitude(w@.skip(start as int), max as nat) == Ok::<nat, NumberError>(v as nat),
            Err(e) => magnitude(w@.skip(start as int), max as nat) == Err::<nat, NumberError>(e),
        },
        r matches Ok(v) ==> v <= max,
{
    let n = w.len();
    let ghost d = w@.skip(start as int);
    let mut i: usize = start;
    let mut acc: u64 = 0;
    proof {
        assert(d.take(0) =~= Seq::<char>::empty());
        assert(d.skip(0) =~= d);
    }
    while i < n
        invariant
            start <= i <= n,
            n == w@.len(),
            d == w@.skip(start as int),
            d.len() == n - start,
            acc as nat == dec_value(d.take(i - start)),
            acc <= max,
            digit_run(d) == (i - start) + digit_run(d.skip(i - start)),
        decreases n - i,
    {
        let c = w[i];
        let j: usize = i - start;
        proof {
            assert(d[j as int] == c);
            lemma_digit_run_step(d, j as nat);
            assert(d.take(j + 1).drop_last() =~= d.take(j as int));
            assert(d.take(j + 1).last() == c);
            lemma_digit_run_bound(d);
        }
        let u = c as u32;
        if u < 48 || u > 57 {
            proof {
                assert(digit_run(d) == j);
            }
            return Err(NumberError::InvalidDigit);
        }
        let dv = (u - 48) as u64;
        let ghost p = digit_run(d);
        match acc.checked_mul(10) {
            None => {
                proof {
                    lemma_dec_value_mono(d, (j + 1) as nat, p);
                }
                return Err(NumberError::TooLarge);
            },
            Some(m) => {
                match m.checked_add(dv) {
                    None => {
                        proof {
                            lemma_dec_value_mono(d, (j + 1) as nat, p);
                        }
                        return Err(NumberError::TooLarge);
                    },
                    Some(v) => {
                        if v > max {
                            proof {
                                lemma_dec_value_mono(d, (j + 1) as nat, p);
                            }
                            return Err(NumberError::TooLarge);
                        }
                        acc = v;
                    },
                }
            },
        }
        i += 1;
    }
    proof {
        assert(d.skip(n - start).len() == 0);
        assert(digit_run(d) == d.len());
        assert(d.take(d.len() as int) =~= d);
    }
    Ok(acc)
}

/// Read `w` as an unsigned decimal number at most `max`, as the `parse` of
/// an unsigned type whose largest value is `max` does.
pub fn parse_unsigned(w: &[char], max: u64) -> (r: Result<u64, NumberError>)
    ensures
        match r {
            Ok(v) => unsigned_of(w@, max as nat) == Ok::<nat, NumberError>(v as nat),
            Err(e) => unsigned_of(w@, max as nat) == Err::<nat, NumberError>(e),
        },
        r matches Ok(v) ==> v <= max,
{
    let n = w.len();
    if n == 0 {
        return Err(NumberError::Empty);
    }
    let start: usize = if w[0] == '+' {
        1
    } else {
        0
    };
    proof {
        if start == 0 {
            assert(unsigned_part(w@) =~= w@.skip(0));
        }
    }
    if start == n {
        return Err(NumberError::InvalidDigit);
    }
    parse_magnitude(w, start, max)
}

/// Read `w` as an unsigned decimal number, as `usize`'s `parse` does.
pub fn parse_usize(w: &[char]) -> (r: Result<usize, NumberError>)
    ensures
        r == usize_of(w@),
{
    match parse_unsigned(w, usize::MAX as u64) {
        Ok(v) => Ok(v as usize),
        Err(e) => Err(e),
    }
}

/// Read `w` as a signed decimal number, as `i64`'s `parse` does.
pub fn parse_i64(w: &[char]) -> (r: Result<i64, NumberError>)
    ensures
        r == i64_of(w@),
{
    let n = w.len();
    if n > 0 && w[0] == '-' {
        if n == 1 {
            return Err(NumberError::InvalidDigit);
        }
        match parse_magnitude(w, 1, 0x8000_0000_0000_0000) {
            Ok(m) => {
                if m == 0x8000_0000_0000_0000 {
                    Ok(i64::MIN)
                } else {
                    let v = m as i64;
                    Ok(-v)
                }
            },
            Err(NumberError::TooLarge) => Err(NumberError::TooSmall),
            Err(e) => Err(e),
        }
    } else {
        match parse_unsigned(w, i64::MAX as u64) {
            Ok(v) => Ok(v as i64),
            Err(e) => Err(e),
        }
    }
}

/// The first `k` words of `ws` all read as numbers.
pub open spec fn all_numbers(ws: Seq<Seq<char>>, k: int) -> bool {
    forall|i: int| 0 <= i < k ==> usize_of(#[trigger] ws[i]) is Ok
}

/// The count of words that `parse_values` reads: `want`, or all the
/// words if there are fewer.
pub open spec fn wanted(ws: Seq<Seq<char>>, want: usize) -> int {
    if want < ws.len() {
        want as int
    } else {
        ws.len() as int
    }
}

/// Read the first `want` words of `line` (all of them if there are fewer)
/// as numbers; the first word among them that is no number gives the
/// error.
pub fn parse_values(line: &str, want: usize) -> (r: Result<Vec<usize>, NumberError>)
    ensures
        (r is Ok) <==> all_numbers(words(line@), wanted(words(line@), want)),
        r matches Ok(v) ==> v@.len() == wanted(words(line@), want) && forall|i: int|
            0 <= i < v@.len() ==> usize_of(words(line@)[i]) == Ok::<usize, NumberError>(
                #[trigger] v@[i],
            ),
        r matches Err(e) ==> exists|j: int|
            0 <= j < wanted(words(line@), want) && all_numbers(words(line@), j) && #[trigger] usize_of(
                words(line@)[j],
            ) == Err::<usize, NumberError>(e),
{
    let ws = split_words(line);
    let ghost all = words(line@);
    let k: usize = if want < ws.len() {
        want
    } else {
        ws.len()
    };
    let mut out: Vec<usize> = Vec::new();
    let mut i: usize = 0;
    while i < k
        invariant
            all == words(line@),
            k == wanted(all, want),
            k <= ws@.len(),
            ws@.len() == all.len(),
            forall|m: int| 0 <= m < ws@.len() ==> (#[trigger] ws@[m])@ == all[m],
            i <= k,
            out@.len() == i,
            all_numbers(all, i as int),
            forall|m: int| 0 <= m < i ==> usize_of(all[m]) == Ok::<usize, NumberError>(#[trigger] out@[m]),
        decreases k - i,
    {
        let w = &ws[i];
        proof {
            assert(ws@[i as int]@ == all[i as int]);
        }
        match parse_usize(w.as_slice()) {
            Ok(v) => {
                out.push(v);
            },
            Err(e) => {
                proof {
                    assert(usize_of(all[i as int]) == Err::<usize, NumberError>(e));
                    assert(!all_numbers(all, k as int));
                    assert(usize_of(words(line@)[i as int]) == Err::<usize, NumberError>(e));
                }
                return Err(e);
            },
        }
        i += 1;
    }
    Ok(out)
}

/// The numbers among the words `ws`, in order, skipping the words that do
/// not read as numbers.
pub open spec fn numbers_among(ws: Seq<Seq<char>>) -> Seq<usize>
    decreases ws.len(),
{
    if ws.len() == 0 {
        Seq::empty()
    } else {
        let rest = numbers_among(ws.drop_last());
        match usize_of(ws.last()) {
            Ok(v) => rest.push(v),
            Err(_) => rest,
        }
    }
}

/// The numbers among the words of `line`, in order.
pub fn numbers_in(line: &str) -> (r: Vec<usize>)
    ensures
        r@ == numbers_among(words(line@)),
{
    let ws = split_words(line);
    let ghost all = words(line@);
    let mut out: Vec<usize> = Vec::new();
    let mut i: usize = 0;
    proof {
        assert(all.take(0) =~= Seq::<Seq<char>>::empty());
    }
    while i < ws.len()
        invariant
            ws@.len() == all.len(),
            forall|m: int| 0 <= m < ws@.len() ==> (#[trigger] ws@[m])@ == all[m],
            i <= ws@.len(),
            out@ == numbers_among(all.take(i as int)),
        decreases ws@.len() - i,
    {
        proof {
            assert(ws@[i as int]@ == all[i as int]);
            assert(all.take(i + 1).drop_last() =~= all.take(i as int));
            assert(all.take(i + 1).last() == all[i as int]);
        }
        match parse_usize(ws[i].as_slice()) {
            Ok(v) => {
                out.push(v);
            },
            Err(_) => {},
        }
        i += 1;
    }
    proof {
        assert(all.take(all.len() as int) =~= all);
    }
    out
}

/// `String::push`: appends `c` to the end of `s`.
#[verifier::external_body]
pub(crate) fn push_char(s: &mut String, c: char)
    ensures
        final(s)@ == old(s)@.push(c),
{
    s.push(c);
}

/// `s` holds no white space.
pub open spec fn no_white(s: Seq<char>) -> bool {
    forall|i: int| 0 <= i < s.len() ==> !is_white_space(#[trigger] s[i])
}

/// `s` is made of digits only.
pub open spec fn all_digits(s: Seq<char>) -> bool {
    forall|i: int| 0 <= i < s.len() ==> is_digit(#[trigger] s[i])
}

/// A decimal digit character is a digit of that value.
proof fn lemma_digit_char(d: nat)
    requires
        d < 10,
    ensures
        is_digit(digit_char(d)),
        digit_value(digit_char(d)) == d,
{
}

/// Decimal notation is a non-empty run of digits that reads back as the
/// number.
pub proof fn lemma_decimal_digits(n: nat)
    ensures
        decimal(n).len() >= 1,
        all_digits(decimal(n)),
        dec_value(decimal(n)) == n,
    decreases n,
{
    if n < 10 {
        lemma_digit_char(n);
        assert(decimal(n).drop_last() =~= Seq::<char>::empty());
        assert(dec_value(Seq::<char>::empty()) == 0);
        assert(decimal(n).last() == digit_char(n));
        assert(dec_value(decimal(n)) == 10 * dec_value(decimal(n).drop_last()) + digit_value(
            decimal(n).last(),
        ));
    } else {
        lemma_decimal_digits(n / 10);
        lemma_digit_char(n % 10);
        let d = decimal(n / 10);
        assert(decimal(n) == d.push(digit_char(n % 10)));
        assert(decimal(n).drop_last() =~= d);
        assert(decimal(n).last() == digit_char(n % 10));
        assert(dec_value(decimal(n)) == 10 * dec_value(decimal(n).drop_last()) + digit_value(
            decimal(n).last(),
        ));
        assert(all_digits(decimal(n))) by {
            assert forall|i: int| 0 <= i < decimal(n).len() implies is_digit(#[trigger] decimal(n)[i]) by {
                if i < d.len() {
                    assert(decimal(n)[i] == d[i]);
                }
            }
        }
    }
}

/// A run of digits is all digit run.
proof fn lemma_digit_run_all(s: Seq<char>)
    requires
        all_digits(s),
    ensures
        digit_run(s) == s.len(),
    decreases s.len(),
{
    if s.len() > 0 {
        assert(is_digit(s[0]));
        assert(all_digits(s.skip(1))) by {
            assert forall|i: int| 0 <= i < s.skip(1).len() implies is_digit(#[trigger] s.skip(1)[i]) by {
                assert(s.skip(1)[i] == s[i + 1]);
            }
        }
        lemma_digit_run_all(s.skip(1));
    }
}

/// Digits hold no white space.
pub proof fn lemma_digits_no_white(s: Seq<char>)
    requires
        all_digits(s),
    ensures
        no_white(s),
{
    assert forall|i: int| 0 <= i < s.len() implies !is_white_space(#[trigger] s[i]) by {
        assert(is_digit(s[i]));
    }
}

/// The decimal notation of a number at most `max` reads back as it.
pub proof fn lemma_unsigned_of_decimal(n: nat, max: nat)
    requires
        n <= max,
    ensures
        unsigned_of(decimal(n), max) == Ok::<nat, NumberError>(n),
{
    let w = decimal(n);
    lemma_decimal_digits(n);
    lemma_digit_run_all(w);
    assert(is_digit(w[0]));
    assert(unsigned_part(w) == w);
    assert(w.take(w.len() as int) =~= w);
}

/// The signed decimal notation of an `i64` reads back as it.
pub proof fn lemma_i64_of_signed_decimal(x: i64)
    ensures
        i64_of(signed_decimal(x as int)) == Ok::<i64, NumberError>(x),
{
    let w = signed_decimal(x as int);
    if x < 0 {
        let m = (-(x as int)) as nat;
        let d = decimal(m);
        lemma_decimal_digits(m);
        lemma_digit_run_all(d);
        reveal_strlit("-");
        assert(w =~= seq!['-'] + d);
        assert(w.skip(1) =~= d);
        assert(d.take(d.len() as int) =~= d);
        assert(magnitude(d, 0x8000_0000_0000_0000) == Ok::<nat, NumberError>(m));
    } else {
        lemma_unsigned_of_decimal(x as nat, i64::MAX as nat);
        lemma_decimal_digits(x as nat);
        assert(is_digit(w[0]));
    }
}

/// The words of a word, a space and more text.
pub proof fn lemma_words_cons(w: Seq<char>, rest: Seq<char>)
    requires
        w.len() >= 1,
        no_white(w),
    ensures
        words(w + seq![' '] + rest) == seq![w] + words(rest),
        words(w) == seq![w],
{
    let s = w + seq![' '] + rest;
    lemma_word_len_prefix(w, seq![' '] + rest);
    assert(s =~= w + (seq![' '] + rest));
    assert(s.take(w.len() as int) =~= w);
    assert(s.skip(w.len() as int) =~= seq![' '] + rest);
    assert(!is_white_space(s[0]));
    let sp = seq![' '] + rest;
    assert(sp.skip(1) =~= rest);
    assert(words(sp) == words(rest));
    lemma_word_len_prefix(w, Seq::empty());
    assert(w + Seq::<char>::empty() =~= w);
    assert(w.take(w.len() as int) =~= w);
    assert(w.skip(w.len() as int) =~= Seq::<char>::empty());
    assert(!is_white_space(w[0]));
    assert(words(Seq::<char>::empty()) =~= Seq::<Seq<char>>::empty());
    assert(words(w) == seq![w.take(word_len(w) as int)] + words(w.skip(word_len(w) as int)));
    assert(seq![w] + Seq::<Seq<char>>::empty() =~= seq![w]);
}

/// A word without white space, followed by text that starts with white
/// space or is empty, is a leading word of its full length.
pub proof fn lemma_word_len_prefix(w: Seq<char>, rest: Seq<char>)
    requires
        no_white(w),
        rest.len() == 0 || is_white_space(rest[0]),
    ensures
        word_len(w + rest) == w.len(),
    decreases w.len(),
{
    if w.len() == 0 {
        assert(w + rest =~= rest);
    } else {
        assert((w + rest)[0] == w[0]);
        assert((w + rest).skip(1) =~= w.skip(1) + rest);
        assert(no_white(w.skip(1))) by {
            assert forall|i: int| 0 <= i < w.skip(1).len() implies !is_white_space(#[trigger] w.skip(1)[i]) by {
                assert(w.skip(1)[i] == w[i + 1]);
            }
        }
        lemma_word_len_prefix(w.skip(1), rest);
    }
}

/// A line whose body starts and ends with characters that are not white
/// space trims back to the body, with or without its newline.
pub proof fn lemma_trim_line(body: Seq<char>)
    requires
        body.len() >= 1,
        !is_white_space(body[0]),
        !is_white_space(body.last()),
    ensures
        trimmed(body + seq!['\n']) == body,
        trimmed(body) == body,
{
    let s = body + seq!['\n'];
    assert(s[0] == body[0]);
    assert(lead_white(s) == 0);
    assert(lead_white(body) == 0);
    assert(s.last() == '\n');
    assert(s.drop_last() =~= body);
    assert(trail_white(body) == 0);
    assert(trail_white(s) == 1 + trail_white(body));
    assert(s.subrange(0, s.len() - 1) =~= body);
    assert(body.subrange(0, body.len() as int) =~= body);
}

/// A white-space character separates the words before it from those
/// after it.
pub proof fn lemma_words_split(a: Seq<char>, c: char, b: Seq<char>)
    requires
        is_white_space(c),
    ensures
        words(a + seq![c] + b) == words(a) + words(b),
    decreases a.len(),
{
    let s = a + seq![c] + b;
    if a.len() == 0 {
        assert(s =~= seq![c] + b);
        assert(s.skip(1) =~= b);
        assert(words(a) =~= Seq::<Seq<char>>::empty());
        assert(words(a) + words(b) =~= words(b));
    } else if is_white_space(a[0]) {
        assert(s[0] == a[0]);
        assert(s.skip(1) =~= a.skip(1) + seq![c] + b);
        lemma_words_split(a.skip(1), c, b);
    } else {
        assert(s[0] == a[0]);
        lemma_word_len_split(a, c, b);
        let wl = word_len(a);
        lemma_word_len_bound(a);
        assert(wl >= 1);
        assert(s.take(wl as int) =~= a.take(wl as int));
        assert(s.skip(wl as int) =~= a.skip(wl as int) + seq![c] + b);
        lemma_words_split(a.skip(wl as int), c, b);
        assert(words(a) == seq![a.take(wl as int)] + words(a.skip(wl as int)));
        assert(words(s) == seq![s.take(wl as int)] + words(s.skip(wl as int)));
        assert(seq![a.take(wl as int)] + (words(a.skip(wl as int)) + words(b)) =~= (seq![
            a.take(wl as int),
        ] + words(a.skip(wl as int))) + words(b));
    }
}

/// A leading word ends at the latest at a white-space character.
proof fn lemma_word_len_split(a: Seq<char>, c: char, b: Seq<char>)
    requires
        is_white_space(c),
    ensures
        word_len(a + seq![c] + b) == word_len(a),
    decreases a.len(),
{
    let s = a + seq![c] + b;
    if a.len() == 0 {
        assert(s[0] == c);
    } else {
        assert(s[0] == a[0]);
        if !is_white_space(a[0]) {
            assert(s.skip(1) =~= a.skip(1) + seq![c] + b);
            lemma_word_len_split(a.skip(1), c, b);
        }
    }
}

/// Trailing white space stops at a character that is not white space.
pub proof fn lemma_trail_white_stop(s: Seq<char>, j: int)
    requires
        0 <= j < s.len(),
        !is_white_space(s[j]),
    ensures
        trail_white(s) <= s.len() - 1 - j,
    decreases s.len(),
{
    if s.len() > 0 && is_white_space(s.last()) {
        assert(j < s.len() - 1);
        assert(s.drop_last()[j] == s[j]);
        lemma_trail_white_stop(s.drop_last(), j);
    }
}

/// A line whose first three characters are not white space trims to text
/// that starts with them.
pub proof fn lemma_trim_keeps_front(s: Seq<char>)
    requires
        s.len() >= 3,
        !is_white_space(s[0]),
        !is_white_space(s[1]),
        !is_white_space(s[2]),
    ensures
        trimmed(s).len() >= 3,
        trimmed(s)[0] == s[0],
        trimmed(s)[1] == s[1],
        trimmed(s)[2] == s[2],
{
    assert(lead_white(s) == 0);
    lemma_trail_white_stop(s, 2);
}

} // verus!
