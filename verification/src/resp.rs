//! The wire codec: messages, their encoding, and the decoder.

use vstd::prelude::*;
use vstd::slice::slice_subrange;
use vstd::slice::slice_to_vec;
use vstd::utf8::decode_utf8;
use vstd::utf8::decode_utf8_encode_utf8;
use vstd::utf8::encode_utf8;
use vstd::utf8::valid_utf8;
use crate::bignum::big_decimal_value;
use crate::bignum::is_big_decimal;
use crate::decimal::decimal_i64;
use crate::decimal::parse_i64;
use crate::double::is_double;
use crate::error::DecodeError;
use crate::text::lemma_text_line_feed;
use crate::text::string_from_utf8;
use crate::bignum::BigNumber;
use crate::decimal::int_text;
use crate::decimal::nat_digits;
use crate::decimal::push_decimal;
use crate::decimal::format_i64;
use crate::double::is_double_text;

verus! {

/// The byte of a carriage return.
pub const CR: u8 = 13;

/// The byte of a line feed.
pub const LF: u8 = 10;

/// The marker of a simple string, `+`.
pub const SIMPLE_STRING: u8 = 43;

/// The marker of a simple error, `-`.
pub const SIMPLE_ERROR: u8 = 45;

/// The marker of an integer, `:`.
pub const INTEGER: u8 = 58;

/// The marker of a bulk string, `$`.
pub const BULK_STRING: u8 = 36;

/// The marker of a bulk error, `!`.
pub const BULK_ERROR: u8 = 33;

/// The marker of an array, `*`.
pub const ARRAY: u8 = 42;

/// The marker of the null, `_`.
pub const NULL: u8 = 95;

/// The marker of a boolean, `#`.
pub const BOOLEAN: u8 = 35;

/// The marker of a double, `,`.
pub const DOUBLE: u8 = 44;

/// The marker of a big number, `(`.
pub const BIG_NUMBER: u8 = 40;

/// The byte that stands for true, `t`.
pub const TRUE: u8 = 116;

/// The byte that stands for false, `f`.
pub const FALSE: u8 = 102;

/// A message, as mathematics sees it.
pub enum Message {
    SimpleString(Seq<char>),
    SimpleError(Seq<char>),
    Integer(i64),
    BulkString(Option<Seq<u8>>),
    BulkError(Seq<char>),
    Array(Option<Seq<Message>>),
    Null,
    Boolean(bool),
    /// A floating-point number, as its decimal text.
    Double(Seq<char>),
    BigNumber(int),
}

impl Message {
    /// The message can be carried and read back: its lines hold no line
    /// feed, its double is the text of a floating-point number, and its
    /// lengths can be written in 64 bits.
    pub open spec fn wf(self) -> bool
        decreases self,
    {
        match self {
            Message::SimpleString(text) => !text.contains('\n'),
            Message::SimpleError(text) => !text.contains('\n'),
            Message::BulkString(Some(bytes)) => bytes.len() <= i64::MAX,
            Message::BulkError(text) => encode_utf8(text).len() <= i64::MAX,
            Message::Array(Some(items)) => {
                &&& items.len() <= i64::MAX
                &&& forall|i: int| 0 <= i < items.len() ==> (#[trigger] items[i]).wf()
            },
            Message::Double(text) => is_double_text(encode_utf8(text)),
            _ => true,
        }
    }
}

/// A message of the wire protocol.
#[derive(Debug, PartialEq, Eq)]
pub enum RespType {
    SimpleString(String),
    SimpleError(String),
    Integer(i64),
    BulkString(Option<Vec<u8>>),
    BulkError(String),
    Array(Option<Vec<RespType>>),
    Null,
    Boolean(bool),
    /// A floating-point number, as its decimal text.
    Double(String),
    BigNumber(BigNumber),
}

/// The messages that `items` stand for, in order.
pub open spec fn messages(items: Seq<RespType>) -> Seq<Message>
    decreases items,
{
    if items.len() == 0 {
        Seq::empty()
    } else {
        messages(items.drop_last()).push(items.last().view())
    }
}

impl View for RespType {
    type V = Message;

    open spec fn view(&self) -> Message
        decreases self,
    {
        match self {
            RespType::SimpleString(text) => Message::SimpleString(text@),
            RespType::SimpleError(text) => Message::SimpleError(text@),
            RespType::Integer(i) => Message::Integer(*i),
            RespType::BulkString(Some(bytes)) => Message::BulkString(Some(bytes@)),
            RespType::BulkString(None) => Message::BulkString(None),
            RespType::BulkError(text) => Message::BulkError(text@),
            RespType::Array(Some(items)) => Message::Array(Some(messages(items@))),
            RespType::Array(None) => Message::Array(None),
            RespType::Null => Message::Null,
            RespType::Boolean(b) => Message::Boolean(*b),
            RespType::Double(text) => Message::Double(text@),
            RespType::BigNumber(n) => Message::BigNumber(n.value()),
        }
    }
}

/// The end of a line: a carriage return and a line feed.
pub open spec fn crlf() -> Seq<u8> {
    seq![CR, LF]
}

/// A line: a marker, what the line holds, and the end of the line.
pub open spec fn line(marker: u8, content: Seq<u8>) -> Seq<u8> {
    seq![marker] + content + crlf()
}

/// The bytes that carry `m`.
pub open spec fn spec_encode(m: Message) -> Seq<u8>
    decreases m,
{
    match m {
        Message::SimpleString(text) => line(SIMPLE_STRING, encode_utf8(text)),
        Message::SimpleError(text) => line(SIMPLE_ERROR, encode_utf8(text)),
        Message::Integer(i) => line(INTEGER, int_text(i as int)),
        Message::BulkString(Some(bytes)) => line(BULK_STRING, nat_digits(bytes.len())) + bytes + crlf(),
        Message::BulkString(None) => line(BULK_STRING, int_text(-1)),
        Message::BulkError(text) => line(BULK_ERROR, nat_digits(encode_utf8(text).len())) + encode_utf8(
            text,
        ) + crlf(),
        Message::Array(Some(items)) => line(ARRAY, nat_digits(items.len())) + spec_encode_all(items),
        Message::Array(None) => line(ARRAY, int_text(-1)),
        Message::Null => line(NULL, Seq::empty()),
        Message::Boolean(b) => line(BOOLEAN, seq![if b { TRUE } else { FALSE }]),
        Message::Double(text) => line(DOUBLE, encode_utf8(text)),
        Message::BigNumber(v) => line(BIG_NUMBER, int_text(v)),
    }
}

/// The bytes that carry `items`, one after another.
pub open spec fn spec_encode_all(items: Seq<Message>) -> Seq<u8>
    decreases items,
{
    if items.len() == 0 {
        Seq::empty()
    } else {
        spec_encode_all(items.drop_last()) + spec_encode(items.last())
    }
}

/// The messages of a longer list are those of the shorter one and the last.
pub proof fn lemma_messages_push(items: Seq<RespType>, last: RespType)
    ensures
        messages(items.push(last)) == messages(items).push(last@),
{
    assert(items.push(last).drop_last() =~= items);
}

/// A list of messages has as many items as the list it stands for, each the
/// view of its item.
pub proof fn lemma_messages_index(items: Seq<RespType>)
    ensures
        messages(items).len() == items.len(),
        forall|i: int| 0 <= i < items.len() ==> (#[trigger] messages(items)[i]) == items[i]@,
    decreases items.len(),
{
    if items.len() > 0 {
        lemma_messages_index(items.drop_last());
        assert(messages(items) == messages(items.drop_last()).push(items.last()@));
    }
}

/// Appends the bytes that carry `items`, one after another, to `out`.
pub fn write_all(items: &Vec<RespType>, out: &mut Vec<u8>)
    ensures
        final(out)@ == old(out)@ + spec_encode_all(messages(items@)),
    decreases items,
{
    let ghost before = out@;
    let mut i: usize = 0;
    proof {
        lemma_messages_index(items@);
    }
    while i < items.len()
        invariant
            i <= items.len(),
            messages(items@).len() == items.len(),
            forall|j: int| 0 <= j < items.len() ==> (#[trigger] messages(items@)[j]) == items[j]@,
            out@ == before + spec_encode_all(messages(items@).subrange(0, i as int)),
        decreases items.len() - i,
    {
        let ghost done = messages(items@).subrange(0, i as int);
        let ghost more = messages(items@).subrange(0, i + 1);
        assert(more.drop_last() =~= done);
        proof {
            vstd::std_specs::vec::axiom_vec_index_decreases(*items, i as int);
        }
        items[i].write_to(out);
        i += 1;
    }
    assert(messages(items@).subrange(0, items.len() as int) =~= messages(items@));
}

/// Whether `bytes` hold a line feed.
fn holds_line_feed(bytes: &[u8]) -> (found: bool)
    ensures
        found == bytes@.contains(LF),
{
    let mut i: usize = 0;
    while i < bytes.len()
        invariant
            i <= bytes.len(),
            forall|j: int| 0 <= j < i ==> bytes@[j] != LF,
        decreases bytes.len() - i,
    {
        if bytes[i] == LF {
            return true;
        }
        i += 1;
    }
    false
}

/// Whether each of `items` can be carried and read back.
pub fn all_well_formed(items: &Vec<RespType>) -> (ok: bool)
    ensures
        ok == forall|i: int| 0 <= i < items.len() ==> (#[trigger] items[i]@).wf(),
    decreases items,
{
    let mut i: usize = 0;
    while i < items.len()
        invariant
            i <= items.len(),
            forall|j: int| 0 <= j < i ==> (#[trigger] items[j]@).wf(),
        decreases items.len() - i,
    {
        proof {
            vstd::std_specs::vec::axiom_vec_index_decreases(*items, i as int);
        }
        if !items[i].is_well_formed() {
            return false;
        }
        i += 1;
    }
    true
}

impl RespType {
    /// Appends the bytes that carry the message to `out`.
    pub fn write_to(&self, out: &mut Vec<u8>)
        ensures
            final(out)@ == old(out)@ + spec_encode(self@),
        decreases self,
    {
        let ghost before = out@;
        match self {
            RespType::SimpleString(text) => {
                out.push(SIMPLE_STRING);
                out.extend_from_slice(text.as_str().as_bytes());
                out.push(CR);
                out.push(LF);
            },
            RespType::SimpleError(text) => {
                out.push(SIMPLE_ERROR);
                out.extend_from_slice(text.as_str().as_bytes());
                out.push(CR);
                out.push(LF);
            },
            RespType::Integer(i) => {
                out.push(INTEGER);
                let digits = format_i64(*i);
                out.extend_from_slice(digits.as_slice());
                out.push(CR);
                out.push(LF);
            },
            RespType::BulkString(Some(bytes)) => {
                out.push(BULK_STRING);
                push_decimal(out, bytes.len() as u64);
                out.push(CR);
                out.push(LF);
                out.extend_from_slice(bytes.as_slice());
                out.push(CR);
                out.push(LF);
            },
            RespType::BulkString(None) => {
                out.push(BULK_STRING);
                let digits = format_i64(-1);
                out.extend_from_slice(digits.as_slice());
                out.push(CR);
                out.push(LF);
            },
            RespType::BulkError(text) => {
                let bytes = text.as_str().as_bytes();
                out.push(BULK_ERROR);
                push_decimal(out, bytes.len() as u64);
                out.push(CR);
                out.push(LF);
                out.extend_from_slice(bytes);
                out.push(CR);
                out.push(LF);
            },
            RespType::Array(Some(items)) => {
                out.push(ARRAY);
                push_decimal(out, items.len() as u64);
                out.push(CR);
                out.push(LF);
                write_all(items, out);
                proof {
                    lemma_messages_index(items@);
                }
            },
            RespType::Array(None) => {
                out.push(ARRAY);
                let digits = format_i64(-1);
                out.extend_from_slice(digits.as_slice());
                out.push(CR);
                out.push(LF);
            },
            RespType::Null => {
                out.push(NULL);
                out.push(CR);
                out.push(LF);
            },
            RespType::Boolean(b) => {
                out.push(BOOLEAN);
                out.push(if *b { TRUE } else { FALSE });
                out.push(CR);
                out.push(LF);
            },
            RespType::Double(text) => {
                out.push(DOUBLE);
                out.extend_from_slice(text.as_str().as_bytes());
                out.push(CR);
                out.push(LF);
            },
            RespType::BigNumber(n) => {
                out.push(BIG_NUMBER);
                out.extend_from_slice(n.text());
                out.push(CR);
                out.push(LF);
            },
        }
        assert(out@ =~= before + spec_encode(self@));
    }

    /// Whether the message can be carried and read back.
    pub fn is_well_formed(&self) -> (ok: bool)
        ensures
            ok == self@.wf(),
        decreases self,
    {
        match self {
            RespType::SimpleString(text) => {
                proof {
                    lemma_text_line_feed(text@);
                }
                !holds_line_feed(text.as_str().as_bytes())
            },
            RespType::SimpleError(text) => {
                proof {
                    lemma_text_line_feed(text@);
                }
                !holds_line_feed(text.as_str().as_bytes())
            },
            RespType::BulkString(Some(bytes)) => bytes.len() as u64 <= 0x7fff_ffff_ffff_ffff,
            RespType::BulkError(text) => text.as_str().as_bytes().len() as u64
                <= 0x7fff_ffff_ffff_ffff,
            RespType::Array(Some(items)) => {
                let each: bool = all_well_formed(items);
                proof {
                    lemma_messages_index(items@);
                    let models = messages(items@);
                    if each {
                        assert forall|i: int| 0 <= i < models.len() implies (
                        #[trigger] models[i]).wf() by {
                            assert(models[i] == items[i]@);
                        }
                    } else {
                        let i = choose|i: int| 0 <= i < items.len() && !(#[trigger] items[i]@).wf();
                        assert(models[i] == items[i]@);
                    }
                }
                items.len() as u64 <= 0x7fff_ffff_ffff_ffff && each
            },
            RespType::Double(text) => is_double(text.as_str().as_bytes()),
            _ => true,
        }
    }

    /// The bytes that carry the message.
    pub fn serialize(&self) -> (bytes: Vec<u8>)
        ensures
            bytes@ == spec_encode(self@),
    {
        let mut bytes: Vec<u8> = Vec::new();
        self.write_to(&mut bytes);
        bytes
    }
}

/// Where the first line feed of `s` stands, and the length of `s` where it
/// holds none.
pub open spec fn line_feed_at(s: Seq<u8>) -> nat
    decreases s.len(),
{
    if s.len() == 0 || s[0] == LF {
        0
    } else {
        1 + line_feed_at(s.drop_first())
    }
}

/// The line at the start of `s`, without its end, and how many bytes it
/// takes with its end.
///
/// The line ends at the first line feed, which a carriage return must
/// precede; what stands before the two must be UTF-8.
pub open spec fn spec_read_line(s: Seq<u8>) -> Result<(Seq<u8>, int), DecodeError> {
    let at = line_feed_at(s) as int;
    if at >= s.len() {
        Err(DecodeError::UnterminatedLine)
    } else if at == 0 || s[at - 1] != CR {
        Err(DecodeError::BadTerminator)
    } else if !valid_utf8(s.subrange(0, at - 1)) {
        Err(DecodeError::InvalidUtf8)
    } else {
        Ok((s.subrange(0, at - 1), at + 1))
    }
}

/// The payload of `length` bytes at the start of `s`, which a carriage return
/// and a line feed must follow.
pub open spec fn spec_payload(s: Seq<u8>, length: int) -> Result<Seq<u8>, DecodeError> {
    if s.len() < length + 2 {
        Err(DecodeError::Truncated)
    } else if s[length] != CR || s[length + 1] != LF {
        Err(DecodeError::BadTerminator)
    } else {
        Ok(s.subrange(0, length))
    }
}

/// A simple string, after its marker: a line of text.
pub open spec fn spec_simple_string(s: Seq<u8>) -> Result<(Message, int), DecodeError> {
    match spec_read_line(s) {
        Ok((content, n)) => Ok((Message::SimpleString(decode_utf8(content)), n)),
        Err(e) => Err(e),
    }
}

/// A simple error, after its marker: a line of text.
pub open spec fn spec_simple_error(s: Seq<u8>) -> Result<(Message, int), DecodeError> {
    match spec_read_line(s) {
        Ok((content, n)) => Ok((Message::SimpleError(decode_utf8(content)), n)),
        Err(e) => Err(e),
    }
}

/// An integer, after its marker: a line that holds a signed decimal which
/// fits in 64 bits.
pub open spec fn spec_integer(s: Seq<u8>) -> Result<(Message, int), DecodeError> {
    match spec_read_line(s) {
        Ok((content, n)) => match decimal_i64(content) {
            Some(i) => Ok((Message::Integer(i), n)),
            None => Err(DecodeError::MalformedNumber),
        },
        Err(e) => Err(e),
    }
}

/// A bulk string, after its marker: a line that holds the length, then as
/// many bytes and the end of a line. The length -1 stands for the null bulk
/// string, which has no bytes; no other negative length is one.
pub open spec fn spec_bulk_string(s: Seq<u8>) -> Result<(Message, int), DecodeError> {
    match spec_read_line(s) {
        Ok((content, n)) => match decimal_i64(content) {
            Some(length) => if length == -1 {
                Ok((Message::BulkString(None), n))
            } else if length < 0 {
                Err(DecodeError::MalformedNumber)
            } else {
                match spec_payload(s.skip(n), length as int) {
                    Ok(bytes) => Ok((Message::BulkString(Some(bytes)), n + length + 2)),
                    Err(e) => Err(e),
                }
            },
            None => Err(DecodeError::MalformedNumber),
        },
        Err(e) => Err(e),
    }
}

/// A bulk error, after its marker: a line that holds the length, then as
/// many bytes of text and the end of a line.
pub open spec fn spec_bulk_error(s: Seq<u8>) -> Result<(Message, int), DecodeError> {
    match spec_read_line(s) {
        Ok((content, n)) => match decimal_i64(content) {
            Some(length) => if length < 0 {
                Err(DecodeError::MalformedNumber)
            } else {
                match spec_payload(s.skip(n), length as int) {
                    Ok(bytes) => if valid_utf8(bytes) {
                        Ok((Message::BulkError(decode_utf8(bytes)), n + length + 2))
                    } else {
                        Err(DecodeError::InvalidUtf8)
                    },
                    Err(e) => Err(e),
                }
            },
            None => Err(DecodeError::MalformedNumber),
        },
        Err(e) => Err(e),
    }
}

/// The null, after its marker: an empty line.
pub open spec fn spec_null(s: Seq<u8>) -> Result<(Message, int), DecodeError> {
    match spec_read_line(s) {
        Ok((content, n)) => if content.len() == 0 {
            Ok((Message::Null, n))
        } else {
            Err(DecodeError::Corrupt)
        },
        Err(e) => Err(e),
    }
}

/// A boolean, after its marker: a line that holds `t` or `f`.
pub open spec fn spec_boolean(s: Seq<u8>) -> Result<(Message, int), DecodeError> {
    match spec_read_line(s) {
        Ok((content, n)) => if content.len() == 1 && content[0] == TRUE {
            Ok((Message::Boolean(true), n))
        } else if content.len() == 1 && content[0] == FALSE {
            Ok((Message::Boolean(false), n))
        } else {
            Err(DecodeError::MalformedNumber)
        },
        Err(e) => Err(e),
    }
}

/// A double, after its marker: a line that holds the text of a
/// floating-point number.
pub open spec fn spec_double(s: Seq<u8>) -> Result<(Message, int), DecodeError> {
    match spec_read_line(s) {
        Ok((content, n)) => if is_double_text(content) {
            Ok((Message::Double(decode_utf8(content)), n))
        } else {
            Err(DecodeError::MalformedNumber)
        },
        Err(e) => Err(e),
    }
}

/// A big number, after its marker: a line that holds a decimal of any size.
pub open spec fn spec_big_number(s: Seq<u8>) -> Result<(Message, int), DecodeError> {
    match spec_read_line(s) {
        Ok((content, n)) => if is_big_decimal(content) {
            Ok((Message::BigNumber(big_decimal_value(content)), n))
        } else {
            Err(DecodeError::MalformedNumber)
        },
        Err(e) => Err(e),
    }
}

/// `r`, with `k` more bytes counted as taken.
pub open spec fn and_taken<T>(r: Result<(T, int), DecodeError>, k: int) -> Result<
    (T, int),
    DecodeError,
> {
    match r {
        Ok((value, n)) => Ok((value, n + k)),
        Err(e) => Err(e),
    }
}

/// `r`, after the messages `first`.
pub open spec fn after_messages(
    first: Seq<Message>,
    r: Result<(Seq<Message>, int), DecodeError>,
) -> Result<(Seq<Message>, int), DecodeError> {
    match r {
        Ok((items, n)) => Ok((first + items, n)),
        Err(e) => Err(e),
    }
}

/// The message at the start of `s`, and how many bytes it takes.
///
/// The first byte is the marker of the message's kind. A buffer without
/// one is cut off, and a byte that is no marker makes it corrupt.
pub open spec fn spec_decode(s: Seq<u8>) -> Result<(Message, int), DecodeError>
    decreases s.len(), 0nat,
{
    if s.len() == 0 {
        Err(DecodeError::Truncated)
    } else {
        let rest = s.skip(1);
        and_taken(
            if s[0] == SIMPLE_STRING {
                spec_simple_string(rest)
            } else if s[0] == SIMPLE_ERROR {
                spec_simple_error(rest)
            } else if s[0] == INTEGER {
                spec_integer(rest)
            } else if s[0] == BULK_STRING {
                spec_bulk_string(rest)
            } else if s[0] == BULK_ERROR {
                spec_bulk_error(rest)
            } else if s[0] == ARRAY {
                spec_array(rest)
            } else if s[0] == NULL {
                spec_null(rest)
            } else if s[0] == BOOLEAN {
                spec_boolean(rest)
            } else if s[0] == DOUBLE {
                spec_double(rest)
            } else if s[0] == BIG_NUMBER {
                spec_big_number(rest)
            } else {
                Err(DecodeError::Corrupt)
            },
            1,
        )
    }
}

/// An array, after its marker: a line that holds the count, then as many
/// messages of any kind. The count -1 stands for the null array; no other
/// negative count is one.
pub open spec fn spec_array(s: Seq<u8>) -> Result<(Message, int), DecodeError>
    decreases s.len(), 0nat,
{
    match spec_read_line(s) {
        Ok((content, n)) => match decimal_i64(content) {
            Some(count) => if count == -1 {
                Ok((Message::Array(None), n))
            } else if count < 0 {
                Err(DecodeError::MalformedNumber)
            } else {
                match spec_decode_elements(s.skip(n), count as nat) {
                    Ok((items, m)) => Ok((Message::Array(Some(items)), n + m)),
                    Err(e) => Err(e),
                }
            },
            None => Err(DecodeError::MalformedNumber),
        },
        Err(e) => Err(e),
    }
}

/// The `count` messages at the start of `s`, and how many bytes they take.
pub open spec fn spec_decode_elements(s: Seq<u8>, count: nat) -> Result<
    (Seq<Message>, int),
    DecodeError,
>
    decreases s.len(), 1nat,
{
    if count == 0 {
        Ok((Seq::empty(), 0))
    } else {
        match spec_decode(s) {
            Ok((first, n)) => if 0 < n <= s.len() {
                and_taken(
                    after_messages(
                        seq![first],
                        spec_decode_elements(s.skip(n), (count - 1) as nat),
                    ),
                    n,
                )
            } else {
                Err(DecodeError::Corrupt)
            },
            Err(e) => Err(e),
        }
    }
}

/// The first line feed stands at `at` where no byte before `at` is one and
/// the byte at `at`, if there is one, is.
pub proof fn lemma_line_feed_at(s: Seq<u8>, at: int)
    requires
        0 <= at <= s.len(),
        forall|j: int| 0 <= j < at ==> s[j] != LF,
        at < s.len() ==> s[at] == LF,
    ensures
        line_feed_at(s) == at,
    decreases at,
{
    if at > 0 {
        let t = s.drop_first();
        assert forall|j: int| 0 <= j < at - 1 implies t[j] != LF by {
            assert(t[j] == s[j + 1]);
        }
        lemma_line_feed_at(t, at - 1);
    }
}

/// A message takes at least one byte and no more than there are.
pub proof fn lemma_decode_consumes(s: Seq<u8>)
    ensures
        spec_decode(s) matches Ok((_, n)) ==> 1 <= n <= s.len(),
    decreases s.len(), 0nat,
{
    if s.len() > 0 && s[0] == ARRAY {
        lemma_array_consumes(s.skip(1));
    }
}

/// An array, after its marker, takes no more bytes than there are.
pub proof fn lemma_array_consumes(s: Seq<u8>)
    ensures
        spec_array(s) matches Ok((_, n)) ==> 0 <= n <= s.len(),
    decreases s.len(), 0nat,
{
    match spec_read_line(s) {
        Ok((content, n)) => match decimal_i64(content) {
            Some(count) => {
                if count >= 0 {
                    lemma_elements_consume(s.skip(n), count as nat);
                }
            },
            None => {},
        },
        Err(_) => {},
    }
}

/// Messages one after another take no more bytes than there are.
pub proof fn lemma_elements_consume(s: Seq<u8>, count: nat)
    ensures
        spec_decode_elements(s, count) matches Ok((items, n)) ==> 0 <= n <= s.len() && items.len()
            == count,
    decreases s.len(), 1nat,
{
    if count > 0 {
        lemma_decode_consumes(s);
        match spec_decode(s) {
            Ok((_, n)) => {
                lemma_elements_consume(s.skip(n), (count - 1) as nat);
            },
            Err(_) => {},
        }
    }
}

/// A cursor over a buffer of messages.
///
/// A method that fails leaves the cursor where it was.
pub struct RespParser<'a> {
    input: &'a [u8],
    pos: usize,
}

impl<'a> RespParser<'a> {
    #[verifier::type_invariant]
    spec fn in_bounds(&self) -> bool {
        self.pos <= self.input@.len()
    }

    /// The whole buffer.
    pub closed spec fn buffer(&self) -> Seq<u8> {
        self.input@
    }

    /// How many bytes have been consumed: the place of the cursor, which
    /// never lies past the end of the buffer.
    pub closed spec fn position(&self) -> int {
        if self.pos <= self.input@.len() {
            self.pos as int
        } else {
            self.input@.len() as int
        }
    }

    /// The cursor lies within the buffer. This holds of every value of the
    /// type, also of one that only a contract speaks of.
    pub proof fn lemma_position_in_bounds(&self)
        ensures
            0 <= self.position() <= self.buffer().len(),
            self.remaining().len() == self.buffer().len() - self.position(),
    {
    }

    /// The bytes not yet consumed.
    pub open spec fn remaining(&self) -> Seq<u8> {
        self.buffer().skip(self.position())
    }

    /// What a method that reads `expected` leaves: the value and the cursor
    /// after it, or the error and the cursor where it was.
    pub open spec fn reads(
        before: &Self,
        after: &Self,
        r: Result<RespType, DecodeError>,
        expected: Result<(Message, int), DecodeError>,
    ) -> bool {
        &&& after.buffer() == before.buffer()
        &&& match expected {
            Ok((m, n)) => r is Ok && r->Ok_0@ == m && after.position() == before.position() + n,
            Err(e) => r is Err && r->Err_0 == e && after.position() == before.position(),
        }
    }

    /// A cursor at the start of `input`.
    pub fn new(input: &'a [u8]) -> (parser: Self)
        ensures
            parser.buffer() == input@,
            parser.position() == 0,
    {
        Self { input, pos: 0 }
    }

    /// Consumes a line, and gives it without its end.
    pub fn read_line(&mut self) -> (r: Result<String, DecodeError>)
        ensures
            final(self).buffer() == old(self).buffer(),
            match spec_read_line(old(self).remaining()) {
                Ok((content, n)) => r is Ok && r->Ok_0@ == decode_utf8(content) && final(self).position() == old(self).position() + n,
                Err(e) => r is Err && r->Err_0 == e && final(self).position() == old(self).position(),
            },
    {
        proof {
            use_type_invariant(&*self);
        }
        let start: usize = self.pos;
        let n: usize = self.input.len();
        let ghost s = self.remaining();
        let mut end: usize = start;
        while end < n && self.input[end] != LF
            invariant
                start <= end <= n,
                n == self.input@.len(),
                forall|j: int| start <= j < end ==> self.input@[j] != LF,
            decreases n - end,
        {
            end += 1;
        }
        proof {
            lemma_line_feed_at(s, end - start);
        }
        if end >= n {
            return Err(DecodeError::UnterminatedLine);
        }
        if end == start || self.input[end - 1] != CR {
            return Err(DecodeError::BadTerminator);
        }
        let content = slice_subrange(self.input, start, end - 1);
        assert(content@ =~= s.subrange(0, end - start - 1));
        match string_from_utf8(content) {
            Some(text) => {
                self.pos = end + 1;
                Ok(text)
            },
            None => Err(DecodeError::InvalidUtf8),
        }
    }

    /// Consumes a line that holds a signed decimal of 64 bits.
    fn read_number(&mut self) -> (r: Result<i64, DecodeError>)
        ensures
            final(self).buffer() == old(self).buffer(),
            match spec_read_line(old(self).remaining()) {
                Ok((content, n)) => match decimal_i64(content) {
                    Some(i) => r == Ok::<i64, DecodeError>(i) && final(self).position() == old(self).position() + n,
                    None => r == Err::<i64, DecodeError>(DecodeError::MalformedNumber) && final(self).position() == old(self).position(),
                },
                Err(e) => r == Err::<i64, DecodeError>(e) && final(self).position() == old(self).position(),
            },
    {
        proof {
            use_type_invariant(&*self);
        }
        let start: usize = self.pos;
        let ghost content = spec_read_line(self.remaining())->Ok_0.0;
        let text = self.read_line()?;
        proof {
            decode_utf8_encode_utf8(content);
        }
        match parse_i64(text.as_str().as_bytes()) {
            Some(i) => Ok(i),
            None => {
                self.pos = start;
                Err(DecodeError::MalformedNumber)
            },
        }
    }

    /// Consumes a payload of `length` bytes and the end of a line after it.
    fn read_payload(&mut self, length: i64) -> (r: Result<&'a [u8], DecodeError>)
        requires
            length >= 0,
        ensures
            final(self).buffer() == old(self).buffer(),
            match spec_payload(old(self).remaining(), length as int) {
                Ok(bytes) => r is Ok && r->Ok_0@ == bytes && final(self).position() == old(self).position() + length + 2,
                Err(e) => r is Err && r->Err_0 == e && final(self).position() == old(self).position(),
            },
    {
        proof {
            use_type_invariant(&*self);
        }
        let left: usize = self.input.len() - self.pos;
        if left < 2 || length as u64 > (left - 2) as u64 {
            return Err(DecodeError::Truncated);
        }
        let start: usize = self.pos;
        let end: usize = start + length as usize;
        if self.input[end] != CR || self.input[end + 1] != LF {
            return Err(DecodeError::BadTerminator);
        }
        self.pos = end + 2;
        let bytes = slice_subrange(self.input, start, end);
        assert(bytes@ =~= old(self).remaining().subrange(0, length as int));
        Ok(bytes)
    }

    fn parse_simple_string(&mut self) -> (r: Result<RespType, DecodeError>)
        ensures
            Self::reads(old(self), final(self), r, spec_simple_string(old(self).remaining())),
    {
        let text = self.read_line()?;
        Ok(RespType::SimpleString(text))
    }

    fn parse_simple_error(&mut self) -> (r: Result<RespType, DecodeError>)
        ensures
            Self::reads(old(self), final(self), r, spec_simple_error(old(self).remaining())),
    {
        let text = self.read_line()?;
        Ok(RespType::SimpleError(text))
    }

    fn parse_integer(&mut self) -> (r: Result<RespType, DecodeError>)
        ensures
            Self::reads(old(self), final(self), r, spec_integer(old(self).remaining())),
    {
        let number: i64 = self.read_number()?;
        Ok(RespType::Integer(number))
    }

    fn parse_bulk_string(&mut self) -> (r: Result<RespType, DecodeError>)
        ensures
            Self::reads(old(self), final(self), r, spec_bulk_string(old(self).remaining())),
    {
        proof {
            use_type_invariant(&*self);
        }
        let start: usize = self.pos;
        let ghost s = self.remaining();
        let length: i64 = self.read_number()?;
        if length == -1 {
            return Ok(RespType::BulkString(None));
        }
        if length < 0 {
            self.pos = start;
            return Err(DecodeError::MalformedNumber);
        }
        assert(self.remaining() =~= s.skip(self.position() - start));
        match self.read_payload(length) {
            Ok(bytes) => Ok(RespType::BulkString(Some(slice_to_vec(bytes)))),
            Err(e) => {
                self.pos = start;
                Err(e)
            },
        }
    }

    fn parse_bulk_error(&mut self) -> (r: Result<RespType, DecodeError>)
        ensures
            Self::reads(old(self), final(self), r, spec_bulk_error(old(self).remaining())),
    {
        proof {
            use_type_invariant(&*self);
        }
        let start: usize = self.pos;
        let ghost s = self.remaining();
        let length: i64 = self.read_number()?;
        if length < 0 {
            self.pos = start;
            return Err(DecodeError::MalformedNumber);
        }
        assert(self.remaining() =~= s.skip(self.position() - start));
        match self.read_payload(length) {
            Ok(bytes) => match string_from_utf8(bytes) {
                Some(text) => Ok(RespType::BulkError(text)),
                None => {
                    self.pos = start;
                    Err(DecodeError::InvalidUtf8)
                },
            },
            Err(e) => {
                self.pos = start;
                Err(e)
            },
        }
    }

    fn parse_null(&mut self) -> (r: Result<RespType, DecodeError>)
        ensures
            Self::reads(old(self), final(self), r, spec_null(old(self).remaining())),
    {
        proof {
            use_type_invariant(&*self);
        }
        let start: usize = self.pos;
        let ghost content = spec_read_line(self.remaining())->Ok_0.0;
        let text = self.read_line()?;
        proof {
            decode_utf8_encode_utf8(content);
        }
        if text.as_str().as_bytes().len() != 0 {
            self.pos = start;
            return Err(DecodeError::Corrupt);
        }
        Ok(RespType::Null)
    }

    fn parse_boolean(&mut self) -> (r: Result<RespType, DecodeError>)
        ensures
            Self::reads(old(self), final(self), r, spec_boolean(old(self).remaining())),
    {
        proof {
            use_type_invariant(&*self);
        }
        let start: usize = self.pos;
        let ghost content = spec_read_line(self.remaining())->Ok_0.0;
        let text = self.read_line()?;
        proof {
            decode_utf8_encode_utf8(content);
        }
        let bytes = text.as_str().as_bytes();
        if bytes.len() == 1 && bytes[0] == TRUE {
            Ok(RespType::Boolean(true))
        } else if bytes.len() == 1 && bytes[0] == FALSE {
            Ok(RespType::Boolean(false))
        } else {
            self.pos = start;
            Err(DecodeError::MalformedNumber)
        }
    }

    fn parse_double(&mut self) -> (r: Result<RespType, DecodeError>)
        ensures
            Self::reads(old(self), final(self), r, spec_double(old(self).remaining())),
    {
        proof {
            use_type_invariant(&*self);
        }
        let start: usize = self.pos;
        let ghost content = spec_read_line(self.remaining())->Ok_0.0;
        let text = self.read_line()?;
        proof {
            decode_utf8_encode_utf8(content);
        }
        if !is_double(text.as_str().as_bytes()) {
            self.pos = start;
            return Err(DecodeError::MalformedNumber);
        }
        Ok(RespType::Double(text))
    }

    fn parse_big_number(&mut self) -> (r: Result<RespType, DecodeError>)
        ensures
            Self::reads(old(self), final(self), r, spec_big_number(old(self).remaining())),
    {
        proof {
            use_type_invariant(&*self);
        }
        let start: usize = self.pos;
        let ghost content = spec_read_line(self.remaining())->Ok_0.0;
        let text = self.read_line()?;
        proof {
            decode_utf8_encode_utf8(content);
        }
        match BigNumber::parse(text.as_str().as_bytes()) {
            Some(number) => Ok(RespType::BigNumber(number)),
            None => {
                self.pos = start;
                Err(DecodeError::MalformedNumber)
            },
        }
    }

    fn parse_array(&mut self) -> (r: Result<RespType, DecodeError>)
        ensures
            Self::reads(old(self), final(self), r, spec_array(old(self).remaining())),
        decreases old(self).remaining().len(), 1nat,
    {
        proof {
            use_type_invariant(&*self);
        }
        let start: usize = self.pos;
        let ghost s = self.remaining();
        let ghost buffer = self.buffer();
        let count: i64 = self.read_number()?;
        if count == -1 {
            return Ok(RespType::Array(None));
        }
        if count < 0 {
            self.pos = start;
            return Err(DecodeError::MalformedNumber);
        }
        let ghost body = self.remaining();
        let ghost header = self.position() - start;
        assert(body =~= s.skip(header));
        let mut elements: Vec<RespType> = Vec::new();
        let mut i: i64 = 0;
        assert(messages(elements@) =~= Seq::empty());
        while i < count
            invariant
                0 <= i <= count,
                spec_array(s) == (match spec_decode_elements(body, count as nat) {
                    Ok((items, m)) => Ok((Message::Array(Some(items)), header + m)),
                    Err(e) => Err(e),
                }),
                self.buffer() == buffer,
                buffer == old(self).buffer(),
                start == old(self).position(),
                s == old(self).remaining(),
                body == s.skip(header),
                1 <= header,
                start + header <= self.position() <= buffer.len(),
                spec_decode_elements(body, count as nat) == and_taken(
                    after_messages(
                        messages(elements@),
                        spec_decode_elements(self.remaining(), (count - i) as nat),
                    ),
                    self.position() - (start + header),
                ),
            decreases count - i,
        {
            proof {
                use_type_invariant(&*self);
            }
            let ghost before = self.remaining();
            let ghost at = self.position();
            let ghost done = messages(elements@);
            proof {
                lemma_decode_consumes(before);
            }
            match self.parse() {
                Ok(element) => {
                    proof {
                        use_type_invariant(&*self);
                        lemma_messages_push(elements@, element);
                        assert(self.remaining() =~= before.skip(self.position() - at));
                        let next = spec_decode_elements(
                            self.remaining(),
                            (count - i - 1) as nat,
                        );
                        match next {
                            Ok((items, n)) => {
                                assert(done + (seq![element@] + items) =~= done.push(element@)
                                    + items);
                            },
                            Err(_) => {},
                        }
                    }
                    elements.push(element);
                },
                Err(e) => {
                    self.pos = start;
                    return Err(e);
                },
            }
            i += 1;
        }
        proof {
            assert(messages(elements@) + Seq::<Message>::empty() =~= messages(elements@));
        }
        Ok(RespType::Array(Some(elements)))
    }

    /// Consumes one message.
    pub fn parse(&mut self) -> (r: Result<RespType, DecodeError>)
        ensures
            Self::reads(old(self), final(self), r, spec_decode(old(self).remaining())),
        decreases old(self).remaining().len(), 0nat,
    {
        proof {
            use_type_invariant(&*self);
        }
        if self.pos >= self.input.len() {
            return Err(DecodeError::Truncated);
        }
        let start: usize = self.pos;
        let ghost s = self.remaining();
        let prefix: u8 = self.input[self.pos];
        self.pos += 1;
        assert(self.remaining() =~= s.skip(1));
        let r = if prefix == SIMPLE_STRING {
            self.parse_simple_string()
        } else if prefix == SIMPLE_ERROR {
            self.parse_simple_error()
        } else if prefix == INTEGER {
            self.parse_integer()
        } else if prefix == BULK_STRING {
            self.parse_bulk_string()
        } else if prefix == BULK_ERROR {
            self.parse_bulk_error()
        } else if prefix == ARRAY {
            self.parse_array()
        } else if prefix == NULL {
            self.parse_null()
        } else if prefix == BOOLEAN {
            self.parse_boolean()
        } else if prefix == DOUBLE {
            self.parse_double()
        } else if prefix == BIG_NUMBER {
            self.parse_big_number()
        } else {
            Err(DecodeError::Corrupt)
        };
        match r {
            Ok(message) => Ok(message),
            Err(e) => {
                self.pos = start;
                Err(e)
            },
        }
    }
}

/// Decodes the message at the start of `buffer`.
pub fn decode(buffer: &[u8]) -> (r: Result<RespType, DecodeError>)
    ensures
        match spec_decode(buffer@) {
            Ok((m, _)) => r is Ok && r->Ok_0@ == m,
            Err(e) => r is Err && r->Err_0 == e,
        },
{
    let mut parser = RespParser::new(buffer);
    assert(parser.remaining() =~= buffer@);
    parser.parse()
}

} // verus!
