//! Decimal text: what digits denote, and how an integer is written.

use vstd::prelude::*;

verus! {

/// The byte `0`.
pub const ZERO: u8 = 48;

/// The byte `9`.
pub const NINE: u8 = 57;

/// The byte `-`.
pub const MINUS: u8 = 45;

/// The byte `+`.
pub const PLUS: u8 = 43;

/// An ASCII decimal digit.
pub open spec fn is_digit(b: u8) -> bool {
    ZERO <= b <= NINE
}

/// Every byte of `s` is a decimal digit.
pub open spec fn all_digits(s: Seq<u8>) -> bool {
    forall|i: int| 0 <= i < s.len() ==> is_digit(#[trigger] s[i])
}

/// The number that the digits `s` denote, most significant first.
pub open spec fn digits_value(s: Seq<u8>) -> nat
    decreases s.len(),
{
    if s.len() == 0 {
        0
    } else {
        digits_value(s.drop_last()) * 10 + (s.last() - ZERO) as nat
    }
}

/// The digits of `n`, without leading zeros.
pub open spec fn nat_digits(n: nat) -> Seq<u8>
    decreases n,
{
    if n < 10 {
        seq![(ZERO + n) as u8]
    } else {
        nat_digits(n / 10).push((ZERO + n % 10) as u8)
    }
}

/// The decimal text of `v`: a minus sign where it is negative, then its digits.
pub open spec fn int_text(v: int) -> Seq<u8> {
    if v < 0 {
        seq![MINUS] + nat_digits((-v) as nat)
    } else {
        nat_digits(v as nat)
    }
}

/// The integer that `s` denotes as an optional sign followed by at least one
/// digit, and `None` for any other text.
pub open spec fn signed_decimal(s: Seq<u8>) -> Option<int> {
    if s.len() > 0 && (s[0] == PLUS || s[0] == MINUS) {
        let digits = s.subrange(1, s.len() as int);
        if digits.len() > 0 && all_digits(digits) {
            if s[0] == MINUS {
                Some(-(digits_value(digits) as int))
            } else {
                Some(digits_value(digits) as int)
            }
        } else {
            None
        }
    } else if s.len() > 0 && all_digits(s) {
        Some(digits_value(s) as int)
    } else {
        None
    }
}

/// What `s` denotes as a 64-bit signed integer: `None` where it is no signed
/// decimal or its value does not fit.
pub open spec fn decimal_i64(s: Seq<u8>) -> Option<i64> {
    match signed_decimal(s) {
        Some(v) => if i64::MIN <= v <= i64::MAX {
            Some(v as i64)
        } else {
            None
        },
        None => None,
    }
}

/// Digits denote at least what any of their prefixes denotes.
pub proof fn lemma_digits_value_prefix(s: Seq<u8>, k: int)
    requires
        all_digits(s),
        0 <= k <= s.len(),
    ensures
        digits_value(s.subrange(0, k)) <= digits_value(s),
    decreases s.len() - k,
{
    if k == s.len() {
        assert(s.subrange(0, k) =~= s);
    } else {
        lemma_digits_value_prefix(s, k + 1);
        let longer = s.subrange(0, k + 1);
        assert(longer.drop_last() =~= s.subrange(0, k));
        assert(is_digit(s[k]));
    }
}

/// The digits of a number are digits, at least one of them, and denote it.
pub proof fn lemma_nat_digits(n: nat)
    ensures
        nat_digits(n).len() >= 1,
        all_digits(nat_digits(n)),
        digits_value(nat_digits(n)) == n,
        n > 0 ==> nat_digits(n)[0] != ZERO,
    decreases n,
{
    if n < 10 {
        let s = nat_digits(n);
        assert(s.drop_last() =~= Seq::<u8>::empty());
        assert(digits_value(s.drop_last()) == 0);
    } else {
        lemma_nat_digits(n / 10);
        let s = nat_digits(n);
        assert(s.drop_last() =~= nat_digits(n / 10));
    }
}

/// The decimal text of an integer denotes that integer.
pub proof fn lemma_signed_decimal_int_text(v: int)
    ensures
        signed_decimal(int_text(v)) == Some(v),
        int_text(v).len() >= 1,
        forall|i: int| 0 <= i < int_text(v).len() ==> #[trigger] int_text(v)[i] == MINUS || is_digit(int_text(v)[i]),
{
    let s = int_text(v);
    if v < 0 {
        let d = nat_digits((-v) as nat);
        lemma_nat_digits((-v) as nat);
        assert(s.subrange(1, s.len() as int) =~= d);
    } else {
        lemma_nat_digits(v as nat);
        assert(is_digit(s[0]));
    }
}

/// Reads the digits `s[start..]`: their value where they are all digits and
/// denote at most `limit`.
fn parse_magnitude(s: &[u8], start: usize, limit: u64) -> (r: Option<u64>)
    requires
        start <= s@.len(),
        limit >= 9,
    ensures
        ({
            let digits = s@.subrange(start as int, s@.len() as int);
            r == if all_digits(digits) && digits_value(digits) <= limit {
                Some(digits_value(digits) as u64)
            } else {
                None
            }
        }),
{
    let n: usize = s.len();
    let ghost digits = s@.subrange(start as int, n as int);
    let mut acc: u64 = 0;
    let mut i: usize = start;
    while i < n
        invariant
            start <= i <= n,
            n == s@.len(),
            limit >= 9,
            digits == s@.subrange(start as int, n as int),
            all_digits(digits.subrange(0, i - start)),
            acc == digits_value(digits.subrange(0, i - start)),
            acc <= limit,
        decreases n - i,
    {
        let b: u8 = s[i];
        if b < ZERO || b > NINE {
            assert(!is_digit(digits[i - start]));
            return None;
        }
        let d: u64 = (b - ZERO) as u64;
        let ghost longer = digits.subrange(0, i - start + 1);
        assert(longer.drop_last() =~= digits.subrange(0, i - start));
        assert(digits_value(longer) == acc * 10 + d);
        if acc > (limit - d) / 10 {
            proof {
                if all_digits(digits) {
                    lemma_digits_value_prefix(digits, i - start + 1);
                }
            }
            return None;
        }
        acc = acc * 10 + d;
        i += 1;
        assert forall|j: int| 0 <= j < longer.len() implies is_digit(#[trigger] longer[j]) by {
            if j < longer.len() - 1 {
                assert(longer[j] == digits.subrange(0, i - start - 1)[j]);
            }
        }
    }
    assert(digits.subrange(0, n - start) =~= digits);
    Some(acc)
}

/// Reads `s` as an optional sign followed by at least one digit.
pub fn parse_i64(s: &[u8]) -> (r: Option<i64>)
    ensures
        r == decimal_i64(s@),
{
    let n: usize = s.len();
    if n == 0 {
        return None;
    }
    let first: u8 = s[0];
    if first == MINUS {
        if n == 1 {
            return None;
        }
        match parse_magnitude(s, 1, 0x8000_0000_0000_0000) {
            Some(m) => if m == 0x8000_0000_0000_0000 {
                Some(i64::MIN)
            } else {
                Some(-(m as i64))
            },
            None => None,
        }
    } else if first == PLUS {
        if n == 1 {
            return None;
        }
        match parse_magnitude(s, 1, 0x7fff_ffff_ffff_ffff) {
            Some(m) => Some(m as i64),
            None => None,
        }
    } else {
        assert(s@.subrange(0, n as int) =~= s@);
        match parse_magnitude(s, 0, 0x7fff_ffff_ffff_ffff) {
            Some(m) => Some(m as i64),
            None => None,
        }
    }
}

/// Appends the digits of `n` to `out`.
pub fn push_decimal(out: &mut Vec<u8>, n: u64)
    ensures
        final(out)@ == old(out)@ + nat_digits(n as nat),
    decreases n,
{
    if n >= 10 {
        push_decimal(out, n / 10);
    }
    out.push(ZERO + (n % 10) as u8);
    assert(final(out)@ =~= old(out)@ + nat_digits(n as nat));
}

/// The decimal text of `v`.
pub fn format_i64(v: i64) -> (text: Vec<u8>)
    ensures
        text@ == int_text(v as int),
{
    let mut text: Vec<u8> = Vec::new();
    if v < 0 {
        text.push(MINUS);
        let magnitude: u64 = (-(v + 1)) as u64 + 1;
        push_decimal(&mut text, magnitude);
    } else {
        push_decimal(&mut text, v as u64);
    }
    text
}

} // verus!
