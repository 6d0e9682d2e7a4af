//! Sizes written as text, such as `10MB`, as the `--min-size` option takes them.
//!
//! A size is a decimal number followed by an optional unit `B`, `KB`, `MB` or
//! `GB` (powers of 1024), with surrounding white space allowed and the unit's
//! letters taken without regard to case.
use vstd::prelude::*;
use crate::text::{
    chars_of, decimal, digit_char, is_white_space, trim, trim_bounds, trim_end, trim_start,
};

verus! {

/// Why the number of a size could not be read; the kinds of
/// `std::num::IntErrorKind` that reading a `u64` can give.
#[derive(PartialEq, Eq, Structural, Debug, Clone, Copy)]
pub enum SizeError {
    /// The number is empty.
    Empty,
    /// The number holds a character that is not a decimal digit.
    InvalidDigit,
    /// The number does not fit in a `u64`.
    PosOverflow,
}

/// Whether `c` is an ASCII decimal digit.
pub open spec fn is_digit(c: char) -> bool {
    '0' <= c <= '9'
}

/// The value of the decimal digit `c`.
pub open spec fn digit_value(c: char) -> nat {
    (c as u32 - '0' as u32) as nat
}

/// Reads the digits `s` after the value `acc` already read, as
/// `u64::from_str` does: from left to right, failing at the first character
/// that is not a digit or at the first digit that overflows.
pub open spec fn digits_value(s: Seq<char>, acc: nat) -> Result<u64, SizeError>
    decreases s.len(),
{
    if s.len() == 0 {
        Ok(acc as u64)
    } else if !is_digit(s[0]) {
        Err(SizeError::InvalidDigit)
    } else if acc * 10 + digit_value(s[0]) > u64::MAX {
        Err(SizeError::PosOverflow)
    } else {
        digits_value(s.drop_first(), acc * 10 + digit_value(s[0]))
    }
}

/// What `u64::from_str` gives for `s`: an optional `+` sign, then at least one
/// decimal digit.
pub open spec fn parse_u64(s: Seq<char>) -> Result<u64, SizeError> {
    if s.len() == 0 {
        Err(SizeError::Empty)
    } else if s.len() == 1 && (s[0] == '+' || s[0] == '-') {
        Err(SizeError::InvalidDigit)
    } else if s[0] == '+' {
        digits_value(s.drop_first(), 0)
    } else {
        digits_value(s, 0)
    }
}

/// `c` is the letter `upper` or its lower-case form `lower`.
pub open spec fn letter_is(c: char, upper: char, lower: char) -> bool {
    c == upper || c == lower
}

/// `t` ends with the two letters `x` and `B`, in any case.
pub open spec fn ends_with_unit(t: Seq<char>, upper: char, lower: char) -> bool {
    t.len() >= 2 && letter_is(t[t.len() - 2], upper, lower) && letter_is(t[t.len() - 1], 'B', 'b')
}

/// The number part of the trimmed size `t` and the factor that its unit
/// stands for.
pub open spec fn size_parts(t: Seq<char>) -> (Seq<char>, nat) {
    if ends_with_unit(t, 'G', 'g') {
        (t.take(t.len() - 2), 1024 * 1024 * 1024)
    } else if ends_with_unit(t, 'M', 'm') {
        (t.take(t.len() - 2), 1024 * 1024)
    } else if ends_with_unit(t, 'K', 'k') {
        (t.take(t.len() - 2), 1024)
    } else if t.len() >= 1 && letter_is(t[t.len() - 1], 'B', 'b') {
        (t.take(t.len() - 1), 1)
    } else {
        (t, 1)
    }
}

/// The number of bytes that the text `s` stands for.
pub open spec fn size_value(s: Seq<char>) -> Result<nat, SizeError> {
    let (number, factor) = size_parts(trim(s));
    match parse_u64(trim(number)) {
        Ok(n) => Ok(n as nat * factor),
        Err(e) => Err(e),
    }
}

/// The size that `s` stands for fits in a `u64`, or `s` is no size at all.
pub open spec fn size_in_range(s: Seq<char>) -> bool {
    size_value(s) matches Ok(v) ==> v <= u64::MAX
}

/// Reads `v[lo..hi]` as `u64::from_str` would.
fn parse_u64_range(v: &Vec<char>, lo: usize, hi: usize) -> (r: Result<u64, SizeError>)
    requires
        lo <= hi <= v@.len(),
    ensures
        r == parse_u64(v@.subrange(lo as int, hi as int)),
{
    let ghost s = v@.subrange(lo as int, hi as int);
    if lo == hi {
        return Err(SizeError::Empty);
    }
    if hi - lo == 1 && (v[lo] == '+' || v[lo] == '-') {
        return Err(SizeError::InvalidDigit);
    }
    let mut j = lo;
    if v[lo] == '+' {
        j = lo + 1;
        assert(s.drop_first() =~= v@.subrange(j as int, hi as int));
    } else {
        assert(s =~= v@.subrange(j as int, hi as int));
    }
    let mut acc: u64 = 0;
    while j < hi
        invariant
            lo <= j <= hi <= v@.len(),
            s == v@.subrange(lo as int, hi as int),
            parse_u64(s) == digits_value(v@.subrange(j as int, hi as int), acc as nat),
        decreases hi - j,
    {
        let ghost rest = v@.subrange(j as int, hi as int);
        let c = v[j];
        assert(rest[0] == c);
        assert(rest.drop_first() =~= v@.subrange(j + 1, hi as int));
        if !('0' <= c && c <= '9') {
            return Err(SizeError::InvalidDigit);
        }
        let d: u64 = (c as u32 - '0' as u32) as u64;
        match acc.checked_mul(10) {
            None => {
                return Err(SizeError::PosOverflow);
            },
            Some(m) => match m.checked_add(d) {
                None => {
                    return Err(SizeError::PosOverflow);
                },
                Some(next) => {
                    acc = next;
                },
            },
        }
        j = j + 1;
    }
    Ok(acc)
}

/// Whether `c` is the letter `upper` or `lower`.
fn is_letter(c: char, upper: char, lower: char) -> (r: bool)
    ensures
        r == letter_is(c, upper, lower),
{
    c == upper || c == lower
}

/// Splits the trimmed size `v[a..b]` into its number part `v[a..e]` and the
/// factor of its unit.
fn unit_of(v: &Vec<char>, a: usize, b: usize) -> (r: (usize, u64))
    requires
        a <= b <= v@.len(),
    ensures
        a <= r.0 <= b,
        size_parts(v@.subrange(a as int, b as int)) == (
            v@.subrange(a as int, r.0 as int),
            r.1 as nat,
        ),
{
    let ghost t = v@.subrange(a as int, b as int);
    if b - a >= 2 && is_letter(v[b - 1], 'B', 'b') {
        let x = v[b - 2];
        assert(t[t.len() - 2] == x && t[t.len() - 1] == v[b - 1]);
        assert(t.take(t.len() - 2) =~= v@.subrange(a as int, b - 2));
        if is_letter(x, 'G', 'g') {
            return (b - 2, 1024 * 1024 * 1024);
        } else if is_letter(x, 'M', 'm') {
            return (b - 2, 1024 * 1024);
        } else if is_letter(x, 'K', 'k') {
            return (b - 2, 1024);
        }
    }
    if b - a >= 1 && is_letter(v[b - 1], 'B', 'b') {
        assert(t[t.len() - 1] == v[b - 1]);
        assert(t.take(t.len() - 1) =~= v@.subrange(a as int, b - 1));
        return (b - 1, 1);
    }
    if b - a >= 1 {
        assert(t[t.len() - 1] == v[b - 1]);
    }
    (b, 1)
}

/// Reads a size such as `10MB`: surrounding white space is ignored, and an
/// optional unit `B`, `KB`, `MB` or `GB` in any case multiplies the number by
/// 1, 1024, 1024² or 1024³. A number that `u64::from_str` refuses gives its
/// error.
pub fn parse_size(s: &str) -> (r: Result<u64, SizeError>)
    requires
        size_in_range(s@),
    ensures
        match r {
            Ok(v) => size_value(s@) == Ok::<nat, SizeError>(v as nat),
            Err(e) => size_value(s@) == Err::<nat, SizeError>(e),
        },
{
    let v = chars_of(s);
    assert(v@.subrange(0, v@.len() as int) =~= s@);
    let (a, b) = trim_bounds(&v, 0, v.len());
    let (e, factor) = unit_of(&v, a, b);
    let (c, d) = trim_bounds(&v, a, e);
    assert(v@.subrange(a as int, e as int) =~= v@.subrange(a as int, b as int).take(e - a));
    match parse_u64_range(&v, c, d) {
        Ok(n) => {
            proof {
                assert(n as nat * factor as nat <= u64::MAX);
            }
            Ok(n * factor)
        },
        Err(err) => Err(err),
    }
}

/// Whether the size that `s` stands for fits in a `u64` (or `s` is no size),
/// that is, whether [`parse_size`] may be called on it.
pub fn size_fits(s: &str) -> (r: bool)
    ensures
        r == size_in_range(s@),
{
    let v = chars_of(s);
    assert(v@.subrange(0, v@.len() as int) =~= s@);
    let (a, b) = trim_bounds(&v, 0, v.len());
    let (e, factor) = unit_of(&v, a, b);
    let (c, d) = trim_bounds(&v, a, e);
    assert(v@.subrange(a as int, e as int) =~= v@.subrange(a as int, b as int).take(e - a));
    match parse_u64_range(&v, c, d) {
        Ok(n) => n.checked_mul(factor).is_some(),
        Err(_) => true,
    }
}

/// The minimum size given by an optional `--min-size` argument: 0 when it is
/// absent, else the size it stands for.
pub fn min_size_from(arg: Option<&str>) -> (r: Result<u64, SizeError>)
    requires
        arg matches Some(s) ==> size_in_range(s@),
    ensures
        arg is None ==> r == Ok::<u64, SizeError>(0),
        arg matches Some(s) ==> match r {
            Ok(v) => size_value(s@) == Ok::<nat, SizeError>(v as nat),
            Err(e) => size_value(s@) == Err::<nat, SizeError>(e),
        },
{
    match arg {
        None => Ok(0),
        Some(s) => parse_size(s),
    }
}

// ---------------------------------------------------------------------------
// Decimal numbers read back
// ---------------------------------------------------------------------------

proof fn lemma_digit_char(d: nat)
    requires
        d < 10,
    ensures
        is_digit(digit_char(d)),
        digit_value(digit_char(d)) == d,
        !is_white_space(digit_char(d)),
        !letter_is(digit_char(d), 'B', 'b'),
        digit_char(d) != '+',
        digit_char(d) != '-',
{
}

/// Every character of a decimal number is a digit.
pub proof fn lemma_decimal_is_digits(n: nat)
    ensures
        decimal(n).len() > 0,
        forall|i: int| 0 <= i < decimal(n).len() ==> is_digit(#[trigger] decimal(n)[i]),
    decreases n,
{
    if n < 10 {
        lemma_digit_char(n);
    } else {
        lemma_decimal_is_digits(n / 10);
        lemma_digit_char(n % 10);
        assert forall|i: int| 0 <= i < decimal(n).len() implies is_digit(#[trigger] decimal(n)[i]) by {
            if i < decimal(n / 10).len() {
                assert(decimal(n)[i] == decimal(n / 10)[i]);
            }
        }
    }
}

proof fn lemma_digits_push(s: Seq<char>, c: char, acc: nat)
    requires
        acc <= u64::MAX,
        is_digit(c),
    ensures
        digits_value(s.push(c), acc) == match digits_value(s, acc) {
            Ok(v) => if v * 10 + digit_value(c) > u64::MAX {
                Err(SizeError::PosOverflow)
            } else {
                Ok((v * 10 + digit_value(c)) as u64)
            },
            Err(e) => Err(e),
        },
    decreases s.len(),
{
    reveal_with_fuel(digits_value, 2);
    if s.len() == 0 {
        assert(s.push(c).drop_first() =~= Seq::<char>::empty());
    } else {
        assert(s.push(c)[0] == s[0]);
        assert(s.push(c).drop_first() =~= s.drop_first().push(c));
        if is_digit(s[0]) && acc * 10 + digit_value(s[0]) <= u64::MAX {
            lemma_digits_push(s.drop_first(), c, acc * 10 + digit_value(s[0]));
        }
    }
}

/// The digits of `n` read back as `n`.
pub proof fn lemma_decimal_reads_back(n: nat)
    requires
        n <= u64::MAX,
    ensures
        digits_value(decimal(n), 0) == Ok::<u64, SizeError>(n as u64),
    decreases n,
{
    if n < 10 {
        reveal_with_fuel(digits_value, 2);
        lemma_digit_char(n);
        assert(decimal(n).drop_first() =~= Seq::<char>::empty());
    } else {
        lemma_decimal_reads_back(n / 10);
        lemma_digit_char(n % 10);
        lemma_digits_push(decimal(n / 10), digit_char(n % 10), 0);
    }
}

proof fn lemma_no_white_space_trims_to_itself(s: Seq<char>)
    requires
        forall|i: int| 0 <= i < s.len() ==> !is_white_space(#[trigger] s[i]),
    ensures
        trim(s) == s,
{
    if s.len() > 0 {
        assert(!is_white_space(s[0]));
        assert(!is_white_space(s[s.len() - 1]));
    }
    assert(trim_start(s) == s);
    assert(trim_end(s) == s);
}

/// A size written as a bare decimal number, as `n.to_string()` writes it,
/// reads back as that number of bytes.
pub proof fn lemma_decimal_size_reads_back(n: u64)
    ensures
        size_value(decimal(n as nat)) == Ok::<nat, SizeError>(n as nat),
{
    let d = decimal(n as nat);
    lemma_decimal_is_digits(n as nat);
    lemma_decimal_reads_back(n as nat);
    assert forall|i: int| 0 <= i < d.len() implies !is_white_space(#[trigger] d[i]) by {
        assert(is_digit(d[i]));
    }
    lemma_no_white_space_trims_to_itself(d);
    assert(is_digit(d[d.len() - 1]));
    assert(!letter_is(d[d.len() - 1], 'B', 'b'));
    assert(size_parts(d) == (d, 1nat));
    assert(is_digit(d[0]));
    assert(d[0] != '+' && d[0] != '-');
    assert(parse_u64(d) == Ok::<u64, SizeError>(n));
    assert(trim(d) == d);
    assert(parse_u64(trim(d)) == Ok::<u64, SizeError>(n));
}

/// The factor of the unit whose first letter is `x`.
pub open spec fn unit_factor(x: char) -> nat {
    if letter_is(x, 'G', 'g') {
        1024 * 1024 * 1024
    } else if letter_is(x, 'M', 'm') {
        1024 * 1024
    } else {
        1024
    }
}

/// A number followed by the unit `KB`, `MB` or `GB`, its letters in any case,
/// reads as the number times the unit's factor; followed by `B` alone, as the
/// number itself.
pub proof fn lemma_number_with_unit(n: u64, x: char, b: char)
    requires
        letter_is(x, 'G', 'g') || letter_is(x, 'M', 'm') || letter_is(x, 'K', 'k'),
        letter_is(b, 'B', 'b'),
    ensures
        size_value(decimal(n as nat) + seq![x, b]) == Ok::<nat, SizeError>(n as nat * unit_factor(x)),
        size_value(decimal(n as nat) + seq![b]) == Ok::<nat, SizeError>(n as nat),
{
    let d = decimal(n as nat);
    lemma_decimal_is_digits(n as nat);
    lemma_decimal_reads_back(n as nat);
    assert forall|i: int| 0 <= i < d.len() implies !is_white_space(#[trigger] d[i]) by {
        assert(is_digit(d[i]));
    }
    lemma_no_white_space_trims_to_itself(d);
    assert(is_digit(d[0]));
    assert(d[0] != '+' && d[0] != '-');
    assert(parse_u64(d) == Ok::<u64, SizeError>(n));

    let t2 = d + seq![x, b];
    assert forall|i: int| 0 <= i < t2.len() implies !is_white_space(#[trigger] t2[i]) by {
        if i < d.len() {
            assert(t2[i] == d[i]);
            assert(is_digit(d[i]));
        }
    }
    lemma_no_white_space_trims_to_itself(t2);
    assert(t2.take(t2.len() - 2) =~= d);
    assert(t2[t2.len() - 2] == x && t2[t2.len() - 1] == b);

    let t1 = d + seq![b];
    assert forall|i: int| 0 <= i < t1.len() implies !is_white_space(#[trigger] t1[i]) by {
        if i < d.len() {
            assert(t1[i] == d[i]);
            assert(is_digit(d[i]));
        }
    }
    lemma_no_white_space_trims_to_itself(t1);
    assert(t1.take(t1.len() - 1) =~= d);
    assert(t1[t1.len() - 1] == b);
    assert(t1[t1.len() - 2] == d[d.len() - 1]);
    assert(is_digit(d[d.len() - 1]));
    assert(!ends_with_unit(t1, 'G', 'g'));
    assert(!ends_with_unit(t1, 'M', 'm'));
    assert(!ends_with_unit(t1, 'K', 'k'));
    assert(size_parts(t1) == (d, 1nat));
    assert(trim(t1) == t1);
    assert(size_parts(trim(t1)).0 == d);
    assert(size_parts(trim(t1)).1 == 1);
    assert(parse_u64(trim(d)) == Ok::<u64, SizeError>(n));
    assert(n as nat * 1nat == n as nat);
}

} // verus!
