//! What is encoded can be decoded, and gives the message back.

use vstd::prelude::*;
use vstd::utf8::decode_utf8;
use vstd::utf8::decode_utf8_encode_utf8;
use vstd::utf8::encode_utf8;
use vstd::utf8::encode_utf8_decode_utf8;
use vstd::utf8::encode_utf8_valid_utf8;
use vstd::utf8::is_ascii_chars;
use vstd::utf8::is_ascii_chars_encode_utf8;
use vstd::utf8::valid_utf8;
use crate::bignum::lemma_big_decimal_int_text;
use crate::decimal::int_text;
use crate::decimal::lemma_signed_decimal_int_text;
use crate::double::lemma_double_text_bytes;
use crate::error::DecodeError;
use crate::resp::crlf;
use crate::resp::lemma_decode_consumes;
use crate::resp::lemma_line_feed_at;
use crate::resp::line;
use crate::resp::line_feed_at;
use crate::resp::spec_decode;
use crate::resp::spec_decode_elements;
use crate::resp::spec_encode;
use crate::resp::spec_encode_all;
use crate::resp::spec_read_line;
use crate::resp::Message;
use crate::resp::ARRAY;
use crate::resp::BIG_NUMBER;
use crate::resp::BOOLEAN;
use crate::resp::BULK_ERROR;
use crate::resp::BULK_STRING;
use crate::resp::DOUBLE;
use crate::resp::FALSE;
use crate::resp::INTEGER;
use crate::resp::LF;
use crate::resp::NULL;
use crate::resp::SIMPLE_ERROR;
use crate::resp::SIMPLE_STRING;
use crate::resp::TRUE;
use crate::text::lemma_text_line_feed;

verus! {

/// Bytes of ASCII are UTF-8.
pub proof fn lemma_ascii_is_utf8(bytes: Seq<u8>)
    requires
        forall|i: int| 0 <= i < bytes.len() ==> #[trigger] bytes[i] < 128,
    ensures
        valid_utf8(bytes),
{
    let chars = Seq::new(bytes.len(), |i: int| bytes[i] as char);
    assert(is_ascii_chars(chars));
    is_ascii_chars_encode_utf8(chars);
    assert(encode_utf8(chars) =~= bytes);
    encode_utf8_valid_utf8(chars);
}

/// A line that was written is read back: content without a line feed,
/// followed by the end of a line, is the line at the start of whatever
/// buffer begins with them.
pub proof fn lemma_line_round_trip(content: Seq<u8>, rest: Seq<u8>)
    requires
        !content.contains(LF),
        valid_utf8(content),
    ensures
        spec_read_line(content + crlf() + rest) == Ok::<(Seq<u8>, int), DecodeError>(
            (content, content.len() as int + 2),
        ),
{
    let s = content + crlf() + rest;
    let at = content.len() as int + 1;
    assert forall|j: int| 0 <= j < at implies s[j] != LF by {
        if j < content.len() {
            assert(content.contains(content[j]));
        }
    }
    lemma_line_feed_at(s, at);
    assert(s.subrange(0, at - 1) =~= content);
}

/// The decimal text of an integer can stand in a line.
pub proof fn lemma_int_text_line(v: int)
    ensures
        !int_text(v).contains(LF),
        valid_utf8(int_text(v)),
{
    lemma_signed_decimal_int_text(v);
    lemma_ascii_is_utf8(int_text(v));
}

/// Messages one after another are carried by the first one's bytes and
/// then the bytes of the others.
pub proof fn lemma_encode_all_front(items: Seq<Message>)
    requires
        items.len() > 0,
    ensures
        spec_encode_all(items) == spec_encode(items[0]) + spec_encode_all(items.drop_first()),
    decreases items.len(),
{
    if items.len() == 1 {
        assert(spec_encode_all(items.drop_last()) =~= Seq::<u8>::empty());
        assert(spec_encode_all(items.drop_first()) =~= Seq::<u8>::empty());
        assert(spec_encode_all(items) =~= spec_encode(items[0]) + spec_encode_all(
            items.drop_first(),
        ));
    } else {
        lemma_encode_all_front(items.drop_last());
        assert(items.drop_first().drop_last() =~= items.drop_last().drop_first());
        assert(items.drop_first().last() == items.last());
        assert(spec_encode_all(items) =~= spec_encode(items[0]) + spec_encode_all(
            items.drop_first(),
        ));
    }
}

/// What decoding gives where it gives `m` and takes the bytes that carry it.
pub open spec fn decoded(m: Message) -> Result<(Message, int), DecodeError> {
    Ok((m, spec_encode(m).len() as int))
}

/// A line with its marker, at the start of a buffer: after the marker the
/// line is read back.
pub proof fn lemma_marked_line(marker: u8, content: Seq<u8>, rest: Seq<u8>)
    requires
        !content.contains(LF),
        valid_utf8(content),
    ensures
        (line(marker, content) + rest).len() > 0,
        (line(marker, content) + rest)[0] == marker,
        spec_read_line((line(marker, content) + rest).skip(1)) == Ok::<
            (Seq<u8>, int),
            DecodeError,
        >((content, content.len() as int + 2)),
        (line(marker, content) + rest).skip(1).skip(content.len() as int + 2) == rest,
        line(marker, content).len() == content.len() + 3,
{
    let s = line(marker, content) + rest;
    lemma_line_round_trip(content, rest);
    assert(s.skip(1) =~= content + crlf() + rest);
    assert(s.skip(1).skip(content.len() as int + 2) =~= rest);
}

/// A simple string is read back.
pub proof fn lemma_simple_string_round_trip(text: Seq<char>, rest: Seq<u8>)
    requires
        Message::SimpleString(text).wf(),
    ensures
        spec_decode(spec_encode(Message::SimpleString(text)) + rest) == decoded(
            Message::SimpleString(text),
        ),
{
    encode_utf8_valid_utf8(text);
    encode_utf8_decode_utf8(text);
    lemma_text_line_feed(text);
    lemma_marked_line(SIMPLE_STRING, encode_utf8(text), rest);
}

/// A simple error is read back.
pub proof fn lemma_simple_error_round_trip(text: Seq<char>, rest: Seq<u8>)
    requires
        Message::SimpleError(text).wf(),
    ensures
        spec_decode(spec_encode(Message::SimpleError(text)) + rest) == decoded(
            Message::SimpleError(text),
        ),
{
    encode_utf8_valid_utf8(text);
    encode_utf8_decode_utf8(text);
    lemma_text_line_feed(text);
    lemma_marked_line(SIMPLE_ERROR, encode_utf8(text), rest);
}

/// An integer is read back.
pub proof fn lemma_integer_round_trip(i: i64, rest: Seq<u8>)
    ensures
        spec_decode(spec_encode(Message::Integer(i)) + rest) == decoded(Message::Integer(i)),
{
    lemma_int_text_line(i as int);
    lemma_signed_decimal_int_text(i as int);
    lemma_marked_line(INTEGER, int_text(i as int), rest);
}

/// A length or a count, written as a line, is read back as a number.
pub proof fn lemma_length_line(marker: u8, n: int, rest: Seq<u8>)
    requires
        -1 <= n <= i64::MAX,
    ensures
        (line(marker, int_text(n)) + rest).len() > 0,
        (line(marker, int_text(n)) + rest)[0] == marker,
        spec_read_line((line(marker, int_text(n)) + rest).skip(1)) == Ok::<
            (Seq<u8>, int),
            DecodeError,
        >((int_text(n), int_text(n).len() as int + 2)),
        crate::decimal::decimal_i64(int_text(n)) == Some(n as i64),
        (line(marker, int_text(n)) + rest).skip(1).skip(int_text(n).len() as int + 2) == rest,
        line(marker, int_text(n)).len() == int_text(n).len() + 3,
{
    lemma_int_text_line(n);
    lemma_signed_decimal_int_text(n);
    lemma_marked_line(marker, int_text(n), rest);
}

/// A bulk string is read back.
pub proof fn lemma_bulk_string_round_trip(bytes: Seq<u8>, rest: Seq<u8>)
    requires
        Message::BulkString(Some(bytes)).wf(),
    ensures
        spec_decode(spec_encode(Message::BulkString(Some(bytes))) + rest) == decoded(
            Message::BulkString(Some(bytes)),
        ),
{
    let n = bytes.len() as int;
    let after = bytes + crlf() + rest;
    let s = spec_encode(Message::BulkString(Some(bytes))) + rest;
    lemma_length_line(BULK_STRING, n, after);
    assert(s =~= line(BULK_STRING, int_text(n)) + after);
    assert(after.subrange(0, n) =~= bytes);
}

/// The null bulk string is read back.
pub proof fn lemma_null_bulk_string_round_trip(rest: Seq<u8>)
    ensures
        spec_decode(spec_encode(Message::BulkString(None)) + rest) == decoded(
            Message::BulkString(None),
        ),
{
    lemma_length_line(BULK_STRING, -1, rest);
}

/// A bulk error is read back.
pub proof fn lemma_bulk_error_round_trip(text: Seq<char>, rest: Seq<u8>)
    requires
        Message::BulkError(text).wf(),
    ensures
        spec_decode(spec_encode(Message::BulkError(text)) + rest) == decoded(
            Message::BulkError(text),
        ),
{
    let bytes = encode_utf8(text);
    encode_utf8_valid_utf8(text);
    encode_utf8_decode_utf8(text);
    let n = bytes.len() as int;
    let after = bytes + crlf() + rest;
    let s = spec_encode(Message::BulkError(text)) + rest;
    lemma_length_line(BULK_ERROR, n, after);
    assert(s =~= line(BULK_ERROR, int_text(n)) + after);
    assert(after.subrange(0, n) =~= bytes);
}

/// The null array is read back.
pub proof fn lemma_null_array_round_trip(rest: Seq<u8>)
    ensures
        spec_decode(spec_encode(Message::Array(None)) + rest) == decoded(Message::Array(None)),
{
    lemma_length_line(ARRAY, -1, rest);
}

/// The null is read back.
pub proof fn lemma_null_round_trip(rest: Seq<u8>)
    ensures
        spec_decode(spec_encode(Message::Null) + rest) == decoded(Message::Null),
{
    let content = Seq::<u8>::empty();
    lemma_ascii_is_utf8(content);
    lemma_marked_line(NULL, content, rest);
}

/// A boolean is read back.
pub proof fn lemma_boolean_round_trip(b: bool, rest: Seq<u8>)
    ensures
        spec_decode(spec_encode(Message::Boolean(b)) + rest) == decoded(Message::Boolean(b)),
{
    let content = seq![if b { TRUE } else { FALSE }];
    lemma_ascii_is_utf8(content);
    lemma_marked_line(BOOLEAN, content, rest);
}

/// A double is read back.
pub proof fn lemma_double_round_trip(text: Seq<char>, rest: Seq<u8>)
    requires
        Message::Double(text).wf(),
    ensures
        spec_decode(spec_encode(Message::Double(text)) + rest) == decoded(Message::Double(text)),
{
    let content = encode_utf8(text);
    encode_utf8_valid_utf8(text);
    encode_utf8_decode_utf8(text);
    lemma_double_text_bytes(content);
    lemma_marked_line(DOUBLE, content, rest);
}

/// A big number is read back.
pub proof fn lemma_big_number_round_trip(v: int, rest: Seq<u8>)
    ensures
        spec_decode(spec_encode(Message::BigNumber(v)) + rest) == decoded(Message::BigNumber(v)),
{
    lemma_int_text_line(v);
    lemma_big_decimal_int_text(v);
    lemma_marked_line(BIG_NUMBER, int_text(v), rest);
}

/// A message that was encoded is decoded from whatever buffer begins with
/// its bytes, and takes exactly those bytes.
pub proof fn lemma_round_trip_in(m: Message, rest: Seq<u8>)
    requires
        m.wf(),
    ensures
        spec_decode(spec_encode(m) + rest) == decoded(m),
    decreases m,
{
    match m {
        Message::SimpleString(text) => lemma_simple_string_round_trip(text, rest),
        Message::SimpleError(text) => lemma_simple_error_round_trip(text, rest),
        Message::Integer(i) => lemma_integer_round_trip(i, rest),
        Message::BulkString(Some(bytes)) => lemma_bulk_string_round_trip(bytes, rest),
        Message::BulkString(None) => lemma_null_bulk_string_round_trip(rest),
        Message::BulkError(text) => lemma_bulk_error_round_trip(text, rest),
        Message::Array(Some(items)) => {
            let n = items.len() as int;
            let after = spec_encode_all(items) + rest;
            let s = spec_encode(m) + rest;
            lemma_length_line(ARRAY, n, after);
            assert(s =~= line(ARRAY, int_text(n)) + after);
            lemma_round_trip_all(items, rest);
        },
        Message::Array(None) => lemma_null_array_round_trip(rest),
        Message::Null => lemma_null_round_trip(rest),
        Message::Boolean(b) => lemma_boolean_round_trip(b, rest),
        Message::Double(text) => lemma_double_round_trip(text, rest),
        Message::BigNumber(v) => lemma_big_number_round_trip(v, rest),
    }
}

/// Messages that were encoded one after another are decoded, in order, from
/// whatever buffer begins with their bytes.
pub proof fn lemma_round_trip_all(items: Seq<Message>, rest: Seq<u8>)
    requires
        forall|i: int| 0 <= i < items.len() ==> (#[trigger] items[i]).wf(),
    ensures
        spec_decode_elements(spec_encode_all(items) + rest, items.len()) == Ok::<
            (Seq<Message>, int),
            DecodeError,
        >((items, spec_encode_all(items).len() as int)),
    decreases items,
{
    if items.len() == 0 {
        assert(items =~= Seq::<Message>::empty());
    } else {
        let first = items[0];
        let others = items.drop_first();
        let after = spec_encode_all(others) + rest;
        let s = spec_encode_all(items) + rest;
        lemma_encode_all_front(items);
        assert(s =~= spec_encode(first) + after);
        assert(first.wf());
        lemma_round_trip_in(first, after);
        lemma_decode_consumes(s);
        let n = spec_encode(first).len() as int;
        assert(s.skip(n) =~= after);
        assert forall|i: int| 0 <= i < others.len() implies (#[trigger] others[i]).wf() by {
            assert(others[i] == items[i + 1]);
        }
        lemma_round_trip_all(others, rest);
        assert(seq![first] + others =~= items);
    }
}

/// Decoding undoes encoding: the bytes that carry a message decode to
/// that message, and to the last byte.
pub proof fn lemma_round_trip(m: Message)
    requires
        m.wf(),
    ensures
        spec_decode(spec_encode(m)) == decoded(m),
{
    lemma_round_trip_in(m, Seq::empty());
    assert(spec_encode(m) + Seq::<u8>::empty() =~= spec_encode(m));
}

/// The bytes before the first line feed hold no line feed.
pub proof fn lemma_before_line_feed(s: Seq<u8>)
    ensures
        line_feed_at(s) <= s.len(),
        forall|i: int| 0 <= i < line_feed_at(s) ==> s[i] != LF,
    decreases s.len(),
{
    if s.len() > 0 && s[0] != LF {
        let rest = s.drop_first();
        lemma_before_line_feed(rest);
        assert forall|i: int| 0 <= i < line_feed_at(s) implies s[i] != LF by {
            if i > 0 {
                assert(rest[i - 1] == s[i]);
            }
        }
    }
}

/// The text of a line that was read holds no line feed, and is carried by
/// the bytes of the line.
pub proof fn lemma_line_text(s: Seq<u8>)
    requires
        spec_read_line(s) is Ok,
    ensures
        !decode_utf8(spec_read_line(s)->Ok_0.0).contains('\n'),
        encode_utf8(decode_utf8(spec_read_line(s)->Ok_0.0)) == spec_read_line(s)->Ok_0.0,
{
    let content = spec_read_line(s)->Ok_0.0;
    lemma_before_line_feed(s);
    decode_utf8_encode_utf8(content);
    lemma_text_line_feed(decode_utf8(content));
    if content.contains(LF) {
        let i = choose|i: int| 0 <= i < content.len() && content[i] == LF;
        assert(s[i] == LF);
    }
}

/// What is decoded can be carried and read back.
pub proof fn lemma_decoded_is_wf(s: Seq<u8>)
    requires
        spec_decode(s) is Ok,
    ensures
        spec_decode(s)->Ok_0.0.wf(),
    decreases s.len(), 0nat,
{
    let rest = s.skip(1);
    if s[0] == SIMPLE_STRING || s[0] == SIMPLE_ERROR || s[0] == DOUBLE {
        lemma_line_text(rest);
    } else if s[0] == BULK_ERROR {
        let (content, n) = spec_read_line(rest)->Ok_0;
        let length = crate::decimal::decimal_i64(content)->Some_0;
        let bytes = rest.skip(n).subrange(0, length as int);
        decode_utf8_encode_utf8(bytes);
    } else if s[0] == ARRAY {
        let (content, n) = spec_read_line(rest)->Ok_0;
        let count = crate::decimal::decimal_i64(content)->Some_0;
        if count >= 0 {
            lemma_decoded_all_wf(rest.skip(n), count as nat);
            crate::resp::lemma_elements_consume(rest.skip(n), count as nat);
        }
    }
}

/// Messages that are decoded one after another can each be carried and
/// read back.
pub proof fn lemma_decoded_all_wf(s: Seq<u8>, count: nat)
    requires
        spec_decode_elements(s, count) is Ok,
    ensures
        forall|i: int|
            0 <= i < spec_decode_elements(s, count)->Ok_0.0.len() ==> (
            #[trigger] spec_decode_elements(s, count)->Ok_0.0[i]).wf(),
    decreases s.len(), 1nat,
{
    if count > 0 {
        lemma_decode_consumes(s);
        lemma_decoded_is_wf(s);
        let (first, n) = spec_decode(s)->Ok_0;
        lemma_decoded_all_wf(s.skip(n), (count - 1) as nat);
        let others = spec_decode_elements(s.skip(n), (count - 1) as nat)->Ok_0.0;
        let all = spec_decode_elements(s, count)->Ok_0.0;
        assert(all == seq![first] + others);
        assert forall|i: int| 0 <= i < all.len() implies (#[trigger] all[i]).wf() by {
            if i > 0 {
                assert(all[i] == others[i - 1]);
            }
        }
    }
}

/// Decoding, encoding and decoding again gives what decoding gave: the
/// bytes written for a decoded message carry that message.
pub proof fn lemma_decode_encode_decode(s: Seq<u8>)
    requires
        spec_decode(s) is Ok,
    ensures
        spec_decode(spec_encode(spec_decode(s)->Ok_0.0)) == decoded(spec_decode(s)->Ok_0.0),
{
    lemma_decoded_is_wf(s);
    lemma_round_trip(spec_decode(s)->Ok_0.0);
}

} // verus!
