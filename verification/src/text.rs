//! Text and the bytes that carry it.

use vstd::prelude::*;
use vstd::string::StringExecFns;
use vstd::utf8::decode_utf8;
use vstd::utf8::encode_scalar;
use vstd::utf8::encode_utf8;
use vstd::utf8::encode_utf8_decode_utf8;
use vstd::utf8::valid_utf8;

verus! {

/// The text that `String::from_utf8_lossy` makes of `bytes`.
pub uninterp spec fn utf8_lossy(bytes: Seq<u8>) -> Seq<char>;

/// The text that `bytes` carry: what they encode where they are UTF-8, and
/// else what lossy decoding makes of them.
pub open spec fn lossy_text(bytes: Seq<u8>) -> Seq<char> {
    if valid_utf8(bytes) {
        decode_utf8(bytes)
    } else {
        utf8_lossy(bytes)
    }
}

/// Calls `String::from_utf8_lossy`. Trusted: the result is a function of the
/// bytes alone, and where the bytes are UTF-8 it is the text that they encode.
#[verifier::external_body]
pub(crate) fn string_from_utf8_lossy(bytes: &[u8]) -> (text: String)
    ensures
        text@ == utf8_lossy(bytes@),
        valid_utf8(bytes@) ==> text@ == decode_utf8(bytes@),
{
    String::from_utf8_lossy(bytes).into_owned()
}

/// Calls `std::str::from_utf8`. Trusted: it succeeds on UTF-8 and on nothing
/// else, and the text is the one that the bytes encode.
#[verifier::external_body]
pub(crate) fn string_from_utf8(bytes: &[u8]) -> (text: Option<String>)
    ensures
        text is Some <==> valid_utf8(bytes@),
        text matches Some(t) ==> t@ == decode_utf8(bytes@),
{
    match std::str::from_utf8(bytes) {
        Ok(s) => Some(s.to_string()),
        Err(_) => None,
    }
}

/// The text that `bytes` carry, with ill-formed parts replaced.
pub fn text_of(bytes: &[u8]) -> (text: String)
    ensures
        text@ == lossy_text(bytes@),
{
    string_from_utf8_lossy(bytes)
}

/// The texts of `strings`, in order.
pub open spec fn texts(strings: Seq<String>) -> Seq<Seq<char>> {
    strings.map_values(|s: String| s@)
}

/// The texts of the pairs `pairs`, in order.
pub open spec fn pair_texts(pairs: Seq<(String, String)>) -> Seq<(Seq<char>, Seq<char>)> {
    pairs.map_values(|p: (String, String)| (p.0@, p.1@))
}

/// `items` one after another, with `sep` between each two.
pub open spec fn joined(items: Seq<Seq<char>>, sep: Seq<char>) -> Seq<char>
    decreases items.len(),
{
    if items.len() == 0 {
        Seq::empty()
    } else if items.len() == 1 {
        items[0]
    } else {
        joined(items.drop_last(), sep) + sep + items.last()
    }
}

/// `items` one after another, with `sep` between each two.
pub fn join(items: &Vec<String>, sep: &str) -> (text: String)
    ensures
        text@ == joined(texts(items@), sep@),
{
    let mut text = String::new();
    let mut i: usize = 0;
    while i < items.len()
        invariant
            i <= items.len(),
            text@ == joined(texts(items@).subrange(0, i as int), sep@),
        decreases items.len() - i,
    {
        let ghost done = texts(items@).subrange(0, i as int);
        let ghost next = texts(items@).subrange(0, i + 1);
        assert(next.drop_last() =~= done);
        assert(next.last() == items[i as int]@);
        if i > 0 {
            text.append(sep);
        }
        text.append(items[i].as_str());
        assert(text@ =~= joined(next, sep@));
        i += 1;
    }
    assert(texts(items@).subrange(0, items.len() as int) =~= texts(items@));
    text
}

/// The text of `value`, if there is one.
pub open spec fn option_text(value: Option<String>) -> Option<Seq<char>> {
    match value {
        Some(text) => Some(text@),
        None => None,
    }
}

/// Whether `a` and `b` are the same text.
pub fn same_text(a: &str, b: &str) -> (same: bool)
    ensures
        same == (a@ == b@),
{
    let x = a.as_bytes();
    let y = b.as_bytes();
    if x.len() != y.len() {
        return false;
    }
    let mut i: usize = 0;
    while i < x.len()
        invariant
            i <= x.len(),
            x.len() == y.len(),
            x@ == encode_utf8(a@),
            y@ == encode_utf8(b@),
            forall|j: int| 0 <= j < i ==> x@[j] == y@[j],
        decreases x.len() - i,
    {
        if x[i] != y[i] {
            return false;
        }
        i += 1;
    }
    proof {
        assert(x@ =~= y@);
        encode_utf8_decode_utf8(a@);
        encode_utf8_decode_utf8(b@);
    }
    true
}

/// The value under `name` in `pairs`: that of the last pair with this name.
pub open spec fn spec_lookup(pairs: Seq<(Seq<char>, Seq<char>)>, name: Seq<char>) -> Option<
    Seq<char>,
>
    decreases pairs.len(),
{
    if pairs.len() == 0 {
        None
    } else if pairs.last().0 == name {
        Some(pairs.last().1)
    } else {
        spec_lookup(pairs.drop_last(), name)
    }
}

/// The value under `name` in `pairs`. Where a name occurs more than once,
/// the last value stands.
pub fn lookup(pairs: &Vec<(String, String)>, name: &str) -> (value: Option<String>)
    ensures
        option_text(value) == spec_lookup(pair_texts(pairs@), name@),
{
    let ghost all = pair_texts(pairs@);
    let mut i: usize = pairs.len();
    assert(all.subrange(0, i as int) =~= all);
    while i > 0
        invariant
            i <= pairs.len(),
            all == pair_texts(pairs@),
            spec_lookup(all, name@) == spec_lookup(all.subrange(0, i as int), name@),
        decreases i,
    {
        let ghost prefix = all.subrange(0, i as int);
        assert(prefix.drop_last() =~= all.subrange(0, i - 1));
        assert(prefix.last() == (pairs[i - 1].0@, pairs[i - 1].1@));
        i -= 1;
        if same_text(pairs[i].0.as_str(), name) {
            return Some(pairs[i].1.clone());
        }
    }
    None
}

/// Among the bytes that encode a scalar value, a line feed is the whole
/// encoding of the line feed character, and stands nowhere else.
proof fn lemma_scalar_line_feed(scalar: u32)
    by (bit_vector)
    requires
        scalar <= 0x10FFFF,
    ensures
        scalar <= 0x7F ==> ((scalar & 0x7F) as u8 == 10u8 <==> scalar == 10),
        (0xC0u8 | ((scalar >> 6) & 0x1F) as u8) != 10u8,
        (0xE0u8 | ((scalar >> 12) & 0x0F) as u8) != 10u8,
        (0xF0u8 | ((scalar >> 18) & 0x7) as u8) != 10u8,
        (0x80u8 | (scalar & 0x3F) as u8) != 10u8,
        (0x80u8 | ((scalar >> 6) & 0x3F) as u8) != 10u8,
        (0x80u8 | ((scalar >> 12) & 0x3F) as u8) != 10u8,
{
}

/// The bytes that encode a character hold a line feed where the character
/// is one, and nowhere else.
pub proof fn lemma_char_line_feed(c: char)
    ensures
        encode_scalar(c as u32).contains(10) <==> c == '\n',
{
    let scalar = c as u32;
    let bytes = encode_scalar(scalar);
    lemma_scalar_line_feed(scalar);
    if c == '\n' {
        assert(bytes[0] == 10);
    }
    if bytes.contains(10) {
        let i = choose|i: int| 0 <= i < bytes.len() && bytes[i] == 10;
        assert(bytes[i] == 10);
    }
}

/// The bytes that encode a text hold a line feed where the text holds one,
/// and nowhere else.
pub proof fn lemma_text_line_feed(text: Seq<char>)
    ensures
        encode_utf8(text).contains(10) <==> text.contains('\n'),
    decreases text.len(),
{
    let bytes = encode_utf8(text);
    if text.len() == 0 {
        assert(!bytes.contains(10));
        assert(!text.contains('\n'));
    } else {
        let first = encode_scalar(text[0] as u32);
        let rest = text.drop_first();
        let others = encode_utf8(rest);
        lemma_char_line_feed(text[0]);
        lemma_text_line_feed(rest);
        assert(bytes == first + others);
        if text.contains('\n') {
            let i = choose|i: int| 0 <= i < text.len() && text[i] == '\n';
            if i == 0 {
                let j = choose|j: int| 0 <= j < first.len() && first[j] == 10;
                assert(bytes[j] == 10);
            } else {
                assert(rest[i - 1] == '\n');
                assert(rest.contains('\n'));
                let j = choose|j: int| 0 <= j < others.len() && others[j] == 10;
                assert(bytes[first.len() + j] == 10);
            }
        }
        if bytes.contains(10) {
            let j = choose|j: int| 0 <= j < bytes.len() && bytes[j] == 10;
            if j < first.len() {
                assert(first[j] == 10);
                assert(first.contains(10));
                assert(text[0] == '\n');
            } else {
                assert(others[j - first.len()] == 10);
                assert(others.contains(10));
                let i = choose|i: int| 0 <= i < rest.len() && rest[i] == '\n';
                assert(text[i + 1] == '\n');
            }
        }
    }
}

} // verus!
