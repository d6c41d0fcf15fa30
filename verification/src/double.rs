//! The decimal text of floating-point numbers.
//!
//! The library carries such a number as its text and never computes with it.

use vstd::prelude::*;
use vstd::slice::slice_subrange;
use crate::bignum::unsigned_part;
use crate::decimal::is_digit;
use crate::decimal::MINUS;
use crate::decimal::NINE;
use crate::decimal::PLUS;
use crate::decimal::ZERO;

verus! {

/// The byte `.`.
pub const POINT: u8 = 46;

/// The byte `e`.
pub const LOWER_E: u8 = 101;

/// The byte `E`.
pub const UPPER_E: u8 = 69;

/// How many digits stand in `s` from index `from` on, one after another.
pub open spec fn digit_run(s: Seq<u8>, from: int) -> nat
    decreases s.len() - from,
{
    if 0 <= from < s.len() && is_digit(s[from]) {
        1 + digit_run(s, from + 1)
    } else {
        0
    }
}

/// The lower-case form of an ASCII letter, and any other byte as it is.
pub open spec fn lower(b: u8) -> u8 {
    if 65 <= b <= 90 {
        (b + 32) as u8
    } else {
        b
    }
}

/// `s` is `word`, in whatever case.
pub open spec fn is_word(s: Seq<u8>, word: Seq<u8>) -> bool {
    &&& s.len() == word.len()
    &&& forall|i: int| 0 <= i < s.len() ==> lower(#[trigger] s[i]) == word[i]
}

/// The bytes of `inf`.
pub open spec fn word_inf() -> Seq<u8> {
    seq![105u8, 110u8, 102u8]
}

/// The bytes of `infinity`.
pub open spec fn word_infinity() -> Seq<u8> {
    seq![105u8, 110u8, 102u8, 105u8, 110u8, 105u8, 116u8, 121u8]
}

/// The bytes of `nan`.
pub open spec fn word_nan() -> Seq<u8> {
    seq![110u8, 97u8, 110u8]
}

/// Where the exponent's digits begin, if the exponent begins at `at`: after
/// the letter and a sign, if there is one.
pub open spec fn exponent_digits_at(s: Seq<u8>, at: int) -> int {
    if at + 1 < s.len() && (s[at + 1] == PLUS || s[at + 1] == MINUS) {
        at + 2
    } else {
        at + 1
    }
}

/// `s` is an unsigned number: digits with at most one point among them, at
/// least one digit in all, and then, if anything, an exponent: `e` or `E`, an
/// optional sign, and at least one digit.
pub open spec fn is_double_number(s: Seq<u8>) -> bool {
    let whole = digit_run(s, 0) as int;
    let has_point = whole < s.len() && s[whole] == POINT;
    let fraction = if has_point {
        digit_run(s, whole + 1) as int
    } else {
        0
    };
    let end = if has_point {
        whole + 1 + fraction
    } else {
        whole
    };
    &&& whole + fraction >= 1
    &&& end == s.len() || {
        &&& end < s.len()
        &&& s[end] == LOWER_E || s[end] == UPPER_E
        &&& digit_run(s, exponent_digits_at(s, end)) >= 1
        &&& exponent_digits_at(s, end) + digit_run(s, exponent_digits_at(s, end)) == s.len()
    }
}

/// `s` is the text of a floating-point number: an optional sign, then
/// `inf`, `infinity` or `nan` in whatever case, or an unsigned number.
pub open spec fn is_double_text(s: Seq<u8>) -> bool {
    let body = unsigned_part(s);
    ||| is_word(body, word_inf())
    ||| is_word(body, word_infinity())
    ||| is_word(body, word_nan())
    ||| is_double_number(body)
}

/// The digits of a run are digits, and the run ends within the text.
pub proof fn lemma_digit_run(s: Seq<u8>, from: int)
    requires
        0 <= from <= s.len(),
    ensures
        from + digit_run(s, from) <= s.len(),
        forall|j: int| from <= j < from + digit_run(s, from) ==> is_digit(#[trigger] s[j]),
        from + digit_run(s, from) < s.len() ==> !is_digit(s[from + digit_run(s, from)]),
    decreases s.len() - from,
{
    if from < s.len() && is_digit(s[from]) {
        lemma_digit_run(s, from + 1);
    }
}

/// How many digits stand in `s` from index `from` on.
fn count_digits(s: &[u8], from: usize) -> (n: usize)
    requires
        from <= s@.len(),
    ensures
        n == digit_run(s@, from as int),
        from + n <= s@.len(),
{
    let mut i: usize = from;
    while i < s.len() && s[i] >= ZERO && s[i] <= NINE
        invariant
            from <= i <= s@.len(),
            digit_run(s@, from as int) == (i - from) + digit_run(s@, i as int),
        decreases s@.len() - i,
    {
        i += 1;
    }
    i - from
}

/// The lower-case form of an ASCII letter, and any other byte as it is.
fn lower_byte(b: u8) -> (l: u8)
    ensures
        l == lower(b),
{
    if b >= 65 && b <= 90 {
        b + 32
    } else {
        b
    }
}

/// Whether `s` is `inf`, `infinity` or `nan`, in whatever case.
fn is_special(s: &[u8]) -> (special: bool)
    ensures
        special == (is_word(s@, word_inf()) || is_word(s@, word_infinity()) || is_word(
            s@,
            word_nan(),
        )),
{
    let n: usize = s.len();
    if n == 3 {
        let a: u8 = lower_byte(s[0]);
        let b: u8 = lower_byte(s[1]);
        let c: u8 = lower_byte(s[2]);
        (a == 105 && b == 110 && c == 102) || (a == 110 && b == 97 && c == 110)
    } else if n == 8 {
        lower_byte(s[0]) == 105 && lower_byte(s[1]) == 110 && lower_byte(s[2]) == 102
            && lower_byte(s[3]) == 105 && lower_byte(s[4]) == 110 && lower_byte(s[5]) == 105
            && lower_byte(s[6]) == 116 && lower_byte(s[7]) == 121
    } else {
        false
    }
}

/// Whether `s` is an unsigned number.
fn is_number(s: &[u8]) -> (number: bool)
    ensures
        number == is_double_number(s@),
{
    let n: usize = s.len();
    let whole: usize = count_digits(s, 0);
    let has_point: bool = whole < n && s[whole] == POINT;
    let fraction: usize = if has_point {
        count_digits(s, whole + 1)
    } else {
        0
    };
    let end: usize = if has_point {
        whole + 1 + fraction
    } else {
        whole
    };
    if whole + fraction < 1 {
        return false;
    }
    if end == n {
        return true;
    }
    if s[end] != LOWER_E && s[end] != UPPER_E {
        return false;
    }
    let digits_at: usize = if end + 1 < n && (s[end + 1] == PLUS || s[end + 1] == MINUS) {
        end + 2
    } else {
        end + 1
    };
    let digits: usize = count_digits(s, digits_at);
    digits >= 1 && digits_at + digits == n
}

/// Whether `text` is the text of a floating-point number.
pub fn is_double(text: &[u8]) -> (ok: bool)
    ensures
        ok == is_double_text(text@),
{
    let n: usize = text.len();
    let start: usize = if n > 0 && (text[0] == PLUS || text[0] == MINUS) {
        1
    } else {
        0
    };
    let body = slice_subrange(text, start, n);
    assert(body@ =~= unsigned_part(text@));
    is_special(body) || is_number(body)
}

/// The text of a floating-point number holds neither a line feed nor a
/// carriage return, and no byte outside ASCII.
pub proof fn lemma_double_text_bytes(s: Seq<u8>)
    requires
        is_double_text(s),
    ensures
        forall|i: int| 0 <= i < s.len() ==> #[trigger] s[i] != 10 && s[i] != 13 && s[i] < 128,
{
    let body = unsigned_part(s);
    let shift = s.len() - body.len();
    assert forall|j: int| 0 <= j < body.len() implies #[trigger] body[j] != 10 && body[j] != 13
        && body[j] < 128 by {
        if is_word(body, word_inf()) {
            assert(lower(body[j]) == word_inf()[j]);
        } else if is_word(body, word_infinity()) {
            assert(lower(body[j]) == word_infinity()[j]);
        } else if is_word(body, word_nan()) {
            assert(lower(body[j]) == word_nan()[j]);
        } else {
            let whole = digit_run(body, 0) as int;
            lemma_digit_run(body, 0);
            let has_point = whole < body.len() && body[whole] == POINT;
            if has_point {
                lemma_digit_run(body, whole + 1);
            }
            let fraction = if has_point {
                digit_run(body, whole + 1) as int
            } else {
                0
            };
            let end = if has_point {
                whole + 1 + fraction
            } else {
                whole
            };
            if end < body.len() {
                let k = exponent_digits_at(body, end);
                lemma_digit_run(body, k);
            }
            if j < whole {
                assert(is_digit(body[j]));
            } else if j < end {
                if j > whole {
                    assert(is_digit(body[j]));
                }
            } else if j >= exponent_digits_at(body, end) {
                assert(is_digit(body[j]));
            }
        }
    }
    assert forall|i: int| 0 <= i < s.len() implies #[trigger] s[i] != 10 && s[i] != 13 && s[i]
        < 128 by {
        if i >= shift {
            assert(s[i] == body[i - shift]);
        }
    }
}

} // verus!
