//! Decimal text of non-negative integers, as ASCII bytes.

use vstd::prelude::*;

verus! {

/// ASCII `0`.
pub const DIGIT_ZERO: u8 = 48;

/// ASCII `9`.
pub const DIGIT_NINE: u8 = 57;

/// ASCII `+`.
pub const PLUS_SIGN: u8 = 43;

/// The ASCII digits `0` to `9`.
pub open spec fn is_digit(b: u8) -> bool {
    DIGIT_ZERO <= b && b <= DIGIT_NINE
}

/// Every byte of `s` is an ASCII digit.
pub open spec fn all_digits(s: Seq<u8>) -> bool {
    forall|i: int| 0 <= i < s.len() ==> is_digit(#[trigger] s[i])
}

/// The number that a run of ASCII digits writes in base ten.
pub open spec fn digits_value(s: Seq<u8>) -> nat
    decreases s.len(),
{
    if s.len() == 0 {
        0
    } else {
        digits_value(s.drop_last()) * 10 + (s.last() - DIGIT_ZERO) as nat
    }
}

/// `v` without its leading `+`, if it has one.
pub open spec fn unsigned_part(v: Seq<u8>) -> Seq<u8> {
    if v.len() > 0 && v[0] == PLUS_SIGN {
        v.drop_first()
    } else {
        v
    }
}

/// The count that the text `v` stands for, if any: an optional leading `+`
/// and then one or more ASCII digits, whose value fits in a `usize`.
/// Any other byte sequence, text or not, stands for no count.
pub open spec fn parsed_count(v: Seq<u8>) -> Option<nat> {
    let digits = unsigned_part(v);
    if digits.len() > 0 && all_digits(digits) && digits_value(digits) <= usize::MAX {
        Some(digits_value(digits))
    } else {
        None
    }
}

/// The shortest decimal text of `n`: no sign and no leading zero, `0` for zero.
pub open spec fn decimal_digits(n: nat) -> Seq<u8>
    decreases n,
{
    if n < 10 {
        seq![(DIGIT_ZERO + n) as u8]
    } else {
        decimal_digits(n / 10).push((DIGIT_ZERO + n % 10) as u8)
    }
}

/// Reads a partial count: the bytes must be the decimal text of a `usize`,
/// optionally preceded by `+`; anything else, including bytes that are not
/// UTF-8 (no such sequence consists of ASCII digits), yields `None`.
pub fn parse_count(v: &[u8]) -> (r: Option<usize>)
    ensures
        match r {
            Some(n) => parsed_count(v@) == Some(n as nat),
            None => parsed_count(v@) is None,
        },
{
    let start: usize = if v.len() > 0 && v[0] == PLUS_SIGN { 1 } else { 0 };
    let ghost digits = v@.subrange(start as int, v@.len() as int);
    assert(digits =~= unsigned_part(v@));
    if start == v.len() {
        return None;
    }
    let mut acc: usize = 0;
    let mut i: usize = start;
    while i < v.len()
        invariant
            start <= i <= v.len(),
            digits == v@.subrange(start as int, v@.len() as int),
            digits == unsigned_part(v@),
            all_digits(v@.subrange(start as int, i as int)),
            acc as nat == digits_value(v@.subrange(start as int, i as int)),
        decreases v.len() - i,
    {
        let b = v[i];
        let ghost prefix = v@.subrange(start as int, i as int);
        let ghost next = v@.subrange(start as int, i + 1);
        assert(next.drop_last() =~= prefix);
        if b < DIGIT_ZERO || b > DIGIT_NINE {
            assert(digits[i - start] == b);
            assert(!all_digits(digits));
            assert(parsed_count(v@) is None);
            return None;
        }
        let d = (b - DIGIT_ZERO) as usize;
        if acc > (usize::MAX - d) / 10 {
            assert(acc * 10 + d > usize::MAX) by (nonlinear_arith)
                requires
                    acc > (usize::MAX - d) / 10,
                    d <= 9,
            ;
            assert(digits_value(next) == acc * 10 + d);
            proof {
                if all_digits(digits) {
                    assert(digits.subrange(0, (i + 1 - start) as int) =~= next);
                    lemma_digits_value_prefix_bound(digits, (i + 1 - start) as nat);
                }
            }
            assert(parsed_count(v@) is None);
            return None;
        }
        assert(all_digits(next)) by {
            assert forall|j: int| 0 <= j < next.len() implies is_digit(#[trigger] next[j]) by {
                if j < prefix.len() {
                    assert(next[j] == prefix[j]);
                }
            }
        }
        assert(digits_value(next) == acc * 10 + d);
        acc = acc * 10 + d;
        i = i + 1;
    }
    assert(v@.subrange(start as int, i as int) =~= digits);
    Some(acc)
}

/// The decimal text of `n`, as characters.
pub open spec fn decimal_chars(n: nat) -> Seq<char> {
    decimal_digits(n).map_values(|b: u8| b as char)
}

/// Appends the decimal text of `n` to `out`.
pub fn push_decimal(n: u128, out: &mut Vec<u8>)
    ensures
        final(out)@ == old(out)@ + decimal_digits(n as nat),
    decreases n,
{
    if n >= 10 {
        push_decimal(n / 10, out);
    }
    out.push((DIGIT_ZERO as u128 + n % 10) as u8);
    assert(final(out)@ =~= old(out)@ + decimal_digits(n as nat));
}

/// Appends the decimal text of `n` to `out`, one character per digit.
pub fn push_decimal_chars(n: u64, out: &mut Vec<char>)
    ensures
        final(out)@ == old(out)@ + decimal_chars(n as nat),
    decreases n,
{
    if n >= 10 {
        push_decimal_chars(n / 10, out);
    }
    let d: u8 = (DIGIT_ZERO as u64 + n % 10) as u8;
    out.push(d as char);
    assert(final(out)@ =~= old(out)@ + decimal_chars(n as nat));
}

/// The decimal text of `n`.
pub fn decimal_text(n: u128) -> (r: Vec<u8>)
    ensures
        r@ == decimal_digits(n as nat),
{
    let mut out: Vec<u8> = Vec::new();
    push_decimal(n, &mut out);
    assert(out@ =~= decimal_digits(n as nat));
    out
}

/// A run of digits is worth at least as much as any of its prefixes.
proof fn lemma_digits_value_prefix_bound(s: Seq<u8>, k: nat)
    requires
        k <= s.len(),
        all_digits(s),
    ensures
        digits_value(s.subrange(0, k as int)) <= digits_value(s),
    decreases s.len(),
{
    if k < s.len() {
        assert(s.drop_last() =~= s.subrange(0, s.len() - 1));
        assert(s.drop_last().subrange(0, k as int) =~= s.subrange(0, k as int));
        lemma_digits_value_prefix_bound(s.drop_last(), k);
        assert(s.subrange(0, s.len() as int) =~= s);
    } else {
        assert(s.subrange(0, k as int) =~= s);
    }
}

} // verus!
