//! Integers of any size, held as their decimal text.

use vstd::prelude::*;
use num_bigint::BigInt;
use crate::decimal::all_digits;
use crate::decimal::digits_value;
use crate::decimal::format_i64;
use crate::decimal::int_text;
use crate::decimal::is_digit;
use crate::decimal::lemma_nat_digits;
use crate::decimal::lemma_signed_decimal_int_text;
use crate::decimal::nat_digits;
use crate::decimal::signed_decimal;
use crate::decimal::MINUS;
use crate::decimal::PLUS;

verus! {

/// The byte `_`.
pub const UNDERSCORE: u8 = 95;

/// `s` without a sign in front.
pub open spec fn unsigned_part(s: Seq<u8>) -> Seq<u8> {
    if s.len() > 0 && (s[0] == PLUS || s[0] == MINUS) {
        s.subrange(1, s.len() as int)
    } else {
        s
    }
}

/// `s` without its underscores.
pub open spec fn without_underscores(s: Seq<u8>) -> Seq<u8>
    decreases s.len(),
{
    if s.len() == 0 {
        s
    } else if s.last() == UNDERSCORE {
        without_underscores(s.drop_last())
    } else {
        without_underscores(s.drop_last()).push(s.last())
    }
}

/// `s` is a big number: an optional sign, a digit, then digits and
/// underscores.
pub open spec fn is_big_decimal(s: Seq<u8>) -> bool {
    let body = unsigned_part(s);
    &&& body.len() > 0
    &&& is_digit(body[0])
    &&& forall|i: int| 0 <= i < body.len() ==> is_digit(#[trigger] body[i]) || body[i] == UNDERSCORE
}

/// The integer that the big number `s` denotes: its digits, the underscores
/// left out, with its sign.
pub open spec fn big_decimal_value(s: Seq<u8>) -> int {
    let magnitude = digits_value(without_underscores(unsigned_part(s))) as int;
    if s.len() > 0 && s[0] == MINUS {
        -magnitude
    } else {
        magnitude
    }
}

/// Calls `BigInt::parse_bytes` with radix 10 and, where that gives a number,
/// `to_string` on it. Trusted: parsing succeeds on an optional sign followed
/// by a digit and then digits and underscores, and on nothing else; the
/// number is the one that the digits denote, negative under a minus sign; and
/// the text that comes back is that number's decimal text, with a minus sign
/// where it is negative and without leading zeros.
#[verifier::external_body]
fn canonical_big_decimal(text: &[u8]) -> (r: Option<Vec<u8>>)
    ensures
        r is Some <==> is_big_decimal(text@),
        r matches Some(digits) ==> digits@ == int_text(big_decimal_value(text@)),
{
    match BigInt::parse_bytes(text, 10) {
        Some(n) => Some(n.to_string().into_bytes()),
        None => None,
    }
}

/// An integer of any size.
#[derive(Debug, PartialEq, Eq)]
pub struct BigNumber {
    text: Vec<u8>,
}

impl BigNumber {
    #[verifier::type_invariant]
    spec fn canonical(&self) -> bool {
        self.text@ == int_text(self.value())
    }

    /// The integer.
    pub closed spec fn value(&self) -> int {
        signed_decimal(self.text@)->Some_0
    }

    /// Reads a big number: an optional sign, a digit, then digits and
    /// underscores.
    pub fn parse(text: &[u8]) -> (r: Option<BigNumber>)
        ensures
            r is Some <==> is_big_decimal(text@),
            r matches Some(n) ==> n.value() == big_decimal_value(text@),
    {
        match canonical_big_decimal(text) {
            Some(digits) => {
                proof {
                    lemma_signed_decimal_int_text(big_decimal_value(text@));
                }
                Some(BigNumber { text: digits })
            },
            None => None,
        }
    }

    /// The big number that equals `v`.
    pub fn from_i64(v: i64) -> (n: BigNumber)
        ensures
            n.value() == v,
    {
        proof {
            lemma_signed_decimal_int_text(v as int);
        }
        BigNumber { text: format_i64(v) }
    }

    /// The decimal text of the number: a minus sign where it is negative,
    /// then its digits without leading zeros.
    pub fn text(&self) -> (text: &[u8])
        ensures
            text@ == int_text(self.value()),
    {
        proof {
            use_type_invariant(self);
        }
        self.text.as_slice()
    }
}

impl Clone for BigNumber {
    fn clone(&self) -> (n: BigNumber)
        ensures
            n.value() == self.value(),
    {
        proof {
            use_type_invariant(self);
        }
        let text = self.text.clone();
        assert(text@ =~= self.text@);
        BigNumber { text }
    }
}

/// Digits hold no underscore to leave out.
pub proof fn lemma_without_underscores_digits(s: Seq<u8>)
    requires
        all_digits(s),
    ensures
        without_underscores(s) == s,
    decreases s.len(),
{
    if s.len() > 0 {
        lemma_without_underscores_digits(s.drop_last());
        assert(is_digit(s.last()));
        assert(s.drop_last().push(s.last()) =~= s);
    }
}

/// The decimal text of an integer is a big number, and denotes the integer.
pub proof fn lemma_big_decimal_int_text(v: int)
    ensures
        is_big_decimal(int_text(v)),
        big_decimal_value(int_text(v)) == v,
{
    let s = int_text(v);
    if v < 0 {
        let d = nat_digits((-v) as nat);
        lemma_nat_digits((-v) as nat);
        assert(s.subrange(1, s.len() as int) =~= d);
        lemma_without_underscores_digits(d);
        assert(is_digit(d[0]));
    } else {
        lemma_nat_digits(v as nat);
        lemma_without_underscores_digits(s);
        assert(is_digit(s[0]));
    }
}

} // verus!
