//! The decoder for binary snapshots.
//!
//! A snapshot is a nine-byte header, a stream of opcodes and value records, and
//! an end marker with a checksum. The `spec_*` functions say what a run of bytes
//! means; the methods of [`RdbParser`] compute it.

use vstd::prelude::*;
use vstd::slice::slice_to_vec;
use vstd::slice::slice_subrange;
use byteorder::ByteOrder;
use byteorder::LittleEndian;
use crate::decimal::format_i64;
use crate::decimal::int_text;
use crate::error::DecodeError;
use crate::text::join;
use crate::text::joined;
use crate::text::lookup;
use crate::text::lossy_text;
use crate::text::option_text;
use crate::text::spec_lookup;
use crate::text::pair_texts;
use crate::text::string_from_utf8;
use crate::text::text_of;
use crate::text::texts;
use vstd::string::StringExecFns;
use vstd::utf8::decode_utf8;
use vstd::utf8::valid_utf8;

verus! {

/// What a length byte announces.
#[derive(Debug, Clone, Copy, PartialEq, Eq, Structural)]
pub enum RdLength {
    /// A binary integer of this many bytes follows, to be read as a string.
    Integer(u8),
    /// A plain length.
    Len(u32),
    /// A compressed string follows.
    LZF,
}

/// A string as the snapshot stores it.
#[derive(Debug, Clone)]
pub enum RdbString {
    /// The bytes as they stand in the file.
    String(Vec<u8>),
    /// The decimal text of an integer that the file holds in binary.
    Integer(Vec<u8>),
    /// A compressed string. Decoding never yields one.
    LZF(Vec<u8>),
}

/// The model of an [`RdbString`].
pub enum SnapshotString {
    Raw(Seq<u8>),
    Integer(Seq<u8>),
    Compressed(Seq<u8>),
}

impl SnapshotString {
    /// The string as text.
    pub open spec fn text(self) -> Seq<char> {
        match self {
            SnapshotString::Raw(bytes) => lossy_text(bytes),
            SnapshotString::Integer(digits) => lossy_text(digits),
            SnapshotString::Compressed(_) => "LZF"@,
        }
    }
}

impl View for RdbString {
    type V = SnapshotString;

    open spec fn view(&self) -> SnapshotString {
        match self {
            RdbString::String(bytes) => SnapshotString::Raw(bytes@),
            RdbString::Integer(digits) => SnapshotString::Integer(digits@),
            RdbString::LZF(bytes) => SnapshotString::Compressed(bytes@),
        }
    }
}

impl RdbString {
    /// The string as text.
    pub fn to_string(&self) -> (text: String)
        ensures
            text@ == self@.text(),
    {
        match self {
            RdbString::String(bytes) => text_of(bytes.as_slice()),
            RdbString::Integer(digits) => text_of(digits.as_slice()),
            RdbString::LZF(_) => "LZF".to_owned(),
        }
    }
}

/// The number that `s` holds, least significant byte first.
pub open spec fn le_value(s: Seq<u8>) -> nat
    decreases s.len(),
{
    if s.len() == 0 {
        0
    } else {
        s[0] as nat + 256 * le_value(s.drop_first())
    }
}

/// The number that `s` holds, most significant byte first.
pub open spec fn be_value(s: Seq<u8>) -> nat
    decreases s.len(),
{
    if s.len() == 0 {
        0
    } else {
        be_value(s.drop_last()) * 256 + s.last() as nat
    }
}

/// The number of values that `width` bytes can hold, for the widths in use.
pub open spec fn width_modulus(width: nat) -> int {
    if width == 1 {
        0x100
    } else if width == 2 {
        0x1_0000
    } else {
        0x1_0000_0000
    }
}

/// The signed number that `s` holds in two's complement, least significant
/// byte first.
pub open spec fn le_signed(s: Seq<u8>) -> int {
    let unsigned = le_value(s) as int;
    if 2 * unsigned >= width_modulus(s.len()) {
        unsigned - width_modulus(s.len())
    } else {
        unsigned
    }
}

/// The length encoding at the start of `s`, and how many bytes it takes.
///
/// The two top bits of the first byte select the form: its six low bits as the
/// length; those six bits and the next byte; the next four bytes, most
/// significant first; or a marker in the six low bits.
pub open spec fn spec_read_length(s: Seq<u8>) -> Result<(RdLength, int), DecodeError> {
    if s.len() < 1 {
        Err(DecodeError::Truncated)
    } else {
        let form = s[0] / 64;
        let low = s[0] % 64;
        if form == 0 {
            Ok((RdLength::Len(low as u32), 1))
        } else if form == 1 {
            if s.len() < 2 {
                Err(DecodeError::Truncated)
            } else {
                Ok((RdLength::Len((low * 256 + s[1]) as u32), 2))
            }
        } else if form == 2 {
            if s.len() < 5 {
                Err(DecodeError::Truncated)
            } else {
                Ok((RdLength::Len(be_value(s.subrange(1, 5)) as u32), 5))
            }
        } else if low == 0 {
            Ok((RdLength::Integer(1), 1))
        } else if low == 1 {
            Ok((RdLength::Integer(2), 1))
        } else if low == 2 {
            Ok((RdLength::Integer(4), 1))
        } else if low == 3 {
            Ok((RdLength::LZF, 1))
        } else {
            Err(DecodeError::Corrupt)
        }
    }
}

/// The string at the start of `s`, and how many bytes it takes.
pub open spec fn spec_read_string(s: Seq<u8>) -> Result<(SnapshotString, int), DecodeError> {
    match spec_read_length(s) {
        Err(e) => Err(e),
        Ok((RdLength::Len(n), k)) => if s.len() - k < n {
            Err(DecodeError::Truncated)
        } else {
            Ok((SnapshotString::Raw(s.subrange(k, k + n)), k + n))
        },
        Ok((RdLength::Integer(width), k)) => if s.len() - k < width {
            Err(DecodeError::Truncated)
        } else {
            Ok((SnapshotString::Integer(int_text(le_signed(s.subrange(k, k + width)))), k + width))
        },
        Ok((RdLength::LZF, _)) => Err(DecodeError::UnsupportedCompression),
    }
}

/// Four bytes, most significant first, are the sum of their weighted
/// bytes.
proof fn lemma_be_value_4(s: Seq<u8>)
    requires
        s.len() == 4,
    ensures
        be_value(s) == s[0] * 0x100_0000 + s[1] * 0x1_0000 + s[2] * 0x100 + s[3],
{
    let three = s.drop_last();
    let two = three.drop_last();
    let one = two.drop_last();
    assert(one.drop_last().len() == 0);
    assert(be_value(one) == s[0]) by {
        assert(be_value(one.drop_last()) == 0);
    }
    assert(be_value(two) == be_value(one) * 256 + s[1]);
    assert(be_value(three) == be_value(two) * 256 + s[2]);
}

/// Up to four bytes, least significant first, are the sum of their weighted
/// bytes.
proof fn lemma_le_value_small(s: Seq<u8>)
    requires
        1 <= s.len() <= 4,
    ensures
        s.len() == 1 ==> le_value(s) == s[0],
        s.len() == 2 ==> le_value(s) == s[0] + s[1] * 0x100,
        s.len() == 4 ==> le_value(s) == s[0] + s[1] * 0x100 + s[2] * 0x1_0000 + s[3] * 0x100_0000,
    decreases s.len(),
{
    let t = s.drop_first();
    if s.len() == 1 {
        assert(le_value(t) == 0);
    } else if s.len() == 2 {
        lemma_le_value_small(t);
    } else if s.len() == 4 {
        let u = t.drop_first();
        lemma_le_value_small(u);
        assert(le_value(t) == t[0] + 256 * le_value(u));
    }
}

/// The decimal text of the signed integer that `bytes` hold, least
/// significant byte first.
fn integer_text(bytes: &[u8]) -> (text: Vec<u8>)
    requires
        bytes@.len() == 1 || bytes@.len() == 2 || bytes@.len() == 4,
    ensures
        text@ == int_text(le_signed(bytes@)),
{
    proof {
        lemma_le_value_small(bytes@);
    }
    let width: usize = bytes.len();
    let unsigned: i64 = if width == 1 {
        bytes[0] as i64
    } else if width == 2 {
        bytes[0] as i64 + bytes[1] as i64 * 0x100
    } else {
        bytes[0] as i64 + bytes[1] as i64 * 0x100 + bytes[2] as i64 * 0x1_0000 + bytes[3] as i64
            * 0x100_0000
    };
    let modulus: i64 = if width == 1 {
        0x100
    } else if width == 2 {
        0x1_0000
    } else {
        0x1_0000_0000
    };
    let signed: i64 = if 2 * unsigned >= modulus {
        unsigned - modulus
    } else {
        unsigned
    };
    format_i64(signed)
}

/// Calls `byteorder::LittleEndian::read_u32`, which reads the first four
/// bytes of a slice. Trusted: the result is their value, least significant
/// byte first.
#[verifier::external_body]
fn read_u32_le(bytes: &[u8]) -> (value: u32)
    requires
        bytes@.len() >= 4,
    ensures
        value == le_value(bytes@.subrange(0, 4)),
{
    LittleEndian::read_u32(bytes)
}

/// Calls `byteorder::LittleEndian::read_u64`, which reads the first eight
/// bytes of a slice. Trusted: the result is their value, least significant
/// byte first.
#[verifier::external_body]
fn read_u64_le(bytes: &[u8]) -> (value: u64)
    requires
        bytes@.len() >= 8,
    ensures
        value == le_value(bytes@.subrange(0, 8)),
{
    LittleEndian::read_u64(bytes)
}

/// The directive that a byte of the stream stands for.
#[derive(Debug, Clone, Copy, PartialEq, Eq, Structural)]
pub enum OpCode {
    /// A pair of strings of metadata follows.
    Aux,
    /// Two size hints follow.
    ResizeDb,
    /// An expiry in milliseconds follows, for the next value record.
    ExpireTimeMs,
    /// An expiry in seconds follows, for the next value record.
    ExpireTime,
    /// The index of the database of the records to come follows.
    SelectDb,
    /// The end of the stream; the checksum follows.
    Eof,
    /// No directive: the type tag of a value record.
    Unknown(u8),
}

impl OpCode {
    /// The directive that `v` stands for.
    pub open spec fn of(v: u8) -> OpCode {
        if v == 0xFA {
            OpCode::Aux
        } else if v == 0xFB {
            OpCode::ResizeDb
        } else if v == 0xFC {
            OpCode::ExpireTimeMs
        } else if v == 0xFD {
            OpCode::ExpireTime
        } else if v == 0xFE {
            OpCode::SelectDb
        } else if v == 0xFF {
            OpCode::Eof
        } else {
            OpCode::Unknown(v)
        }
    }
}

impl From<u8> for OpCode {
    fn from(v: u8) -> (code: OpCode) {
        match v {
            0xFA => OpCode::Aux,
            0xFB => OpCode::ResizeDb,
            0xFC => OpCode::ExpireTimeMs,
            0xFD => OpCode::ExpireTime,
            0xFE => OpCode::SelectDb,
            0xFF => OpCode::Eof,
            _ => OpCode::Unknown(v),
        }
    }
}

impl vstd::std_specs::convert::FromSpecImpl<u8> for OpCode {
    open spec fn obeys_from_spec() -> bool {
        true
    }

    open spec fn from_spec(v: u8) -> OpCode {
        OpCode::of(v)
    }
}

/// The kind of value that a type tag announces.
#[derive(Debug, Clone, Copy, PartialEq, Eq, Structural)]
pub enum RdValueType {
    String,
    List,
    UnorderedSet,
    SortedSet,
    Hash,
    ZipMap,
    ZipList,
    IntSet,
    SortedSetInZipList,
    HashMapInZipList,
    ZipInQuickList,
    /// A tag that announces no known kind.
    Unknown(u8),
}

impl RdValueType {
    /// The kind that the tag `v` announces.
    pub open spec fn of(v: u8) -> RdValueType {
        if v == 0 {
            RdValueType::String
        } else if v == 1 {
            RdValueType::List
        } else if v == 2 {
            RdValueType::UnorderedSet
        } else if v == 3 {
            RdValueType::SortedSet
        } else if v == 4 {
            RdValueType::Hash
        } else if v == 9 {
            RdValueType::ZipMap
        } else if v == 10 {
            RdValueType::ZipList
        } else if v == 11 {
            RdValueType::IntSet
        } else if v == 12 {
            RdValueType::SortedSetInZipList
        } else if v == 13 {
            RdValueType::HashMapInZipList
        } else if v == 14 {
            RdValueType::ZipInQuickList
        } else {
            RdValueType::Unknown(v)
        }
    }
}

impl From<u8> for RdValueType {
    fn from(v: u8) -> (kind: RdValueType) {
        match v {
            0 => RdValueType::String,
            1 => RdValueType::List,
            2 => RdValueType::UnorderedSet,
            3 => RdValueType::SortedSet,
            4 => RdValueType::Hash,
            9 => RdValueType::ZipMap,
            10 => RdValueType::ZipList,
            11 => RdValueType::IntSet,
            12 => RdValueType::SortedSetInZipList,
            13 => RdValueType::HashMapInZipList,
            14 => RdValueType::ZipInQuickList,
            _ => RdValueType::Unknown(v),
        }
    }
}

impl vstd::std_specs::convert::FromSpecImpl<u8> for RdValueType {
    open spec fn obeys_from_spec() -> bool {
        true
    }

    open spec fn from_spec(v: u8) -> RdValueType {
        RdValueType::of(v)
    }
}

/// A member of a sorted set and its score.
#[derive(Debug, Clone)]
pub struct SortedSetEntry {
    pub member: String,
    /// The score, as decimal text.
    pub score: String,
}

/// A value as the snapshot stores it.
#[derive(Debug, Clone)]
pub enum RdbValue {
    String(RdbString),
    List(Vec<String>),
    UnorderedSet(Vec<String>),
    SortedSet(Vec<SortedSetEntry>),
    Hash(Vec<(String, String)>),
}

/// The model of an [`RdbValue`].
pub enum ValueModel {
    String(SnapshotString),
    List(Seq<Seq<char>>),
    UnorderedSet(Seq<Seq<char>>),
    SortedSet(Seq<(Seq<char>, Seq<char>)>),
    Hash(Seq<(Seq<char>, Seq<char>)>),
}

/// Each pair written as its first part, a colon and its second part.
pub open spec fn colon_pairs(pairs: Seq<(Seq<char>, Seq<char>)>) -> Seq<Seq<char>> {
    pairs.map_values(|p: (Seq<char>, Seq<char>)| p.0 + ":"@ + p.1)
}

impl ValueModel {
    /// The value as text: a string as it is, the items of a collection with
    /// commas between them.
    pub open spec fn text(self) -> Seq<char> {
        match self {
            ValueModel::String(s) => s.text(),
            ValueModel::List(items) => joined(items, ","@),
            ValueModel::UnorderedSet(items) => joined(items, ","@),
            ValueModel::SortedSet(entries) => joined(colon_pairs(entries), ","@),
            ValueModel::Hash(fields) => joined(colon_pairs(fields), ","@),
        }
    }
}

/// Members and scores of `entries`, in order.
pub open spec fn entry_texts(entries: Seq<SortedSetEntry>) -> Seq<(Seq<char>, Seq<char>)> {
    entries.map_values(|e: SortedSetEntry| (e.member@, e.score@))
}

impl View for RdbValue {
    type V = ValueModel;

    open spec fn view(&self) -> ValueModel {
        match self {
            RdbValue::String(s) => ValueModel::String(s@),
            RdbValue::List(items) => ValueModel::List(texts(items@)),
            RdbValue::UnorderedSet(items) => ValueModel::UnorderedSet(texts(items@)),
            RdbValue::SortedSet(entries) => ValueModel::SortedSet(entry_texts(entries@)),
            RdbValue::Hash(fields) => ValueModel::Hash(pair_texts(fields@)),
        }
    }
}

/// `first`, a colon, `second`.
fn colon_pair(first: &String, second: &String) -> (text: String)
    ensures
        text@ == first@ + ":"@ + second@,
{
    let mut text = first.clone();
    text.append(":");
    text.append(second.as_str());
    text
}

/// The pairs, each written as its first part, a colon and its second part,
/// with commas between them.
fn join_pairs(pairs: &Vec<(String, String)>) -> (text: String)
    ensures
        text@ == joined(colon_pairs(pair_texts(pairs@)), ","@),
{
    let mut parts: Vec<String> = Vec::new();
    let mut i: usize = 0;
    while i < pairs.len()
        invariant
            i <= pairs.len(),
            texts(parts@) == colon_pairs(pair_texts(pairs@)).subrange(0, i as int),
        decreases pairs.len() - i,
    {
        let ghost before = texts(parts@);
        let part = colon_pair(&pairs[i].0, &pairs[i].1);
        parts.push(part);
        assert(texts(parts@) =~= before.push(part@));
        assert(colon_pairs(pair_texts(pairs@))[i as int] == part@);
        i += 1;
    }
    assert(texts(parts@) =~= colon_pairs(pair_texts(pairs@)));
    join(&parts, ",")
}

/// Members and scores of `entries` as pairs, in order.
fn entry_pairs(entries: &Vec<SortedSetEntry>) -> (pairs: Vec<(String, String)>)
    ensures
        pair_texts(pairs@) == entry_texts(entries@),
{
    let mut pairs: Vec<(String, String)> = Vec::new();
    let mut i: usize = 0;
    while i < entries.len()
        invariant
            i <= entries.len(),
            pair_texts(pairs@) == entry_texts(entries@).subrange(0, i as int),
        decreases entries.len() - i,
    {
        let ghost before = pair_texts(pairs@);
        let pair = (entries[i].member.clone(), entries[i].score.clone());
        pairs.push(pair);
        assert(pair_texts(pairs@) =~= before.push((pair.0@, pair.1@)));
        i += 1;
    }
    assert(pair_texts(pairs@) =~= entry_texts(entries@));
    pairs
}

impl RdbValue {
    /// The value as text.
    pub fn to_string(&self) -> (text: String)
        ensures
            text@ == self@.text(),
    {
        match self {
            RdbValue::String(s) => s.to_string(),
            RdbValue::List(items) => join(items, ","),
            RdbValue::UnorderedSet(items) => join(items, ","),
            RdbValue::SortedSet(entries) => {
                let pairs = entry_pairs(entries);
                join_pairs(&pairs)
            },
            RdbValue::Hash(fields) => join_pairs(fields),
        }
    }
}

/// The value that follows a key under the type tag `tag`, and how many bytes
/// it takes: a string under the tag of plain strings, and no other.
pub open spec fn spec_read_value(s: Seq<u8>, tag: u8) -> Result<(ValueModel, int), DecodeError> {
    if RdValueType::of(tag) == RdValueType::String {
        match spec_read_string(s) {
            Ok((string, n)) => Ok((ValueModel::String(string), n)),
            Err(e) => Err(e),
        }
    } else {
        Err(DecodeError::UnsupportedValueType(tag))
    }
}

/// One item of the stream: a directive with what it carries, or a value
/// record.
#[derive(Debug, Clone)]
pub enum Record {
    /// Metadata: a name and its value.
    Aux(RdbString, RdbString),
    /// The size hints of the hash table and of the expiry table.
    ResizeDb(u32, u32),
    /// An expiry, in milliseconds since the epoch.
    ExpireTimeMs(u64),
    /// An expiry, in seconds since the epoch.
    ExpireTime(u32),
    /// The index of the database of the records to come.
    SelectDb(u32),
    /// The end of the stream, with the checksum.
    Eof(u64),
    /// A key and its value.
    Value(RdbString, RdbValue),
}

/// The model of a [`Record`].
pub enum RecordModel {
    Aux(SnapshotString, SnapshotString),
    ResizeDb(u32, u32),
    ExpireTimeMs(u64),
    ExpireTime(u32),
    SelectDb(u32),
    Eof(u64),
    Value(SnapshotString, ValueModel),
}

impl View for Record {
    type V = RecordModel;

    open spec fn view(&self) -> RecordModel {
        match self {
            Record::Aux(name, value) => RecordModel::Aux(name@, value@),
            Record::ResizeDb(a, b) => RecordModel::ResizeDb(*a, *b),
            Record::ExpireTimeMs(ms) => RecordModel::ExpireTimeMs(*ms),
            Record::ExpireTime(secs) => RecordModel::ExpireTime(*secs),
            Record::SelectDb(index) => RecordModel::SelectDb(*index),
            Record::Eof(checksum) => RecordModel::Eof(*checksum),
            Record::Value(key, value) => RecordModel::Value(key@, value@),
        }
    }
}

/// The plain length at the start of `s`, and how many bytes it takes. A
/// marker in its place is an error.
pub open spec fn spec_read_plain_length(s: Seq<u8>) -> Result<(u32, int), DecodeError> {
    match spec_read_length(s) {
        Ok((RdLength::Len(n), k)) => Ok((n, k)),
        Ok(_) => Err(DecodeError::Corrupt),
        Err(e) => Err(e),
    }
}

/// The record at the start of `s`, and how many bytes it takes.
///
/// An end marker whose checksum is not zero asks for a validation that is
/// not there, and is an error.
#[verifier::opaque]
pub open spec fn spec_read_record(s: Seq<u8>) -> Result<(RecordModel, int), DecodeError> {
    if s.len() < 1 {
        Err(DecodeError::Truncated)
    } else {
        let rest = s.skip(1);
        match OpCode::of(s[0]) {
            OpCode::Aux => match spec_read_string(rest) {
                Err(e) => Err(e),
                Ok((name, n)) => match spec_read_string(rest.skip(n)) {
                    Err(e) => Err(e),
                    Ok((value, m)) => Ok((RecordModel::Aux(name, value), 1 + n + m)),
                },
            },
            OpCode::ResizeDb => match spec_read_plain_length(rest) {
                Err(e) => Err(e),
                Ok((table, n)) => match spec_read_plain_length(rest.skip(n)) {
                    Err(e) => Err(e),
                    Ok((expiring, m)) => Ok((RecordModel::ResizeDb(table, expiring), 1 + n + m)),
                },
            },
            OpCode::ExpireTimeMs => if rest.len() < 8 {
                Err(DecodeError::Truncated)
            } else {
                Ok((RecordModel::ExpireTimeMs(le_value(rest.subrange(0, 8)) as u64), 9))
            },
            OpCode::ExpireTime => if rest.len() < 4 {
                Err(DecodeError::Truncated)
            } else {
                Ok((RecordModel::ExpireTime(le_value(rest.subrange(0, 4)) as u32), 5))
            },
            OpCode::SelectDb => match spec_read_plain_length(rest) {
                Err(e) => Err(e),
                Ok((index, n)) => Ok((RecordModel::SelectDb(index), 1 + n)),
            },
            OpCode::Eof => if rest.len() < 8 {
                Err(DecodeError::Truncated)
            } else if le_value(rest.subrange(0, 8)) != 0 {
                Err(DecodeError::UnsupportedChecksum)
            } else {
                Ok((RecordModel::Eof(0), 9))
            },
            OpCode::Unknown(tag) => match spec_read_string(rest) {
                Err(e) => Err(e),
                Ok((key, n)) => match spec_read_value(rest.skip(n), tag) {
                    Err(e) => Err(e),
                    Ok((value, m)) => Ok((RecordModel::Value(key, value), 1 + n + m)),
                },
            },
        }
    }
}

/// A key with its value, the database it belongs to and, where it has one,
/// its expiry in milliseconds since the epoch.
#[derive(Debug, Clone)]
pub struct SnapshotEvent {
    pub db_index: usize,
    pub key: String,
    pub value: String,
    pub expires_at: Option<u64>,
}

/// The model of a [`SnapshotEvent`].
pub struct EventModel {
    pub db_index: usize,
    pub key: Seq<char>,
    pub value: Seq<char>,
    pub expires_at: Option<u64>,
}

impl View for SnapshotEvent {
    type V = EventModel;

    open spec fn view(&self) -> EventModel {
        EventModel {
            db_index: self.db_index,
            key: self.key@,
            value: self.value@,
            expires_at: self.expires_at,
        }
    }
}

/// The models of `events`, in order.
pub open spec fn event_models(events: Seq<SnapshotEvent>) -> Seq<EventModel> {
    events.map_values(|e: SnapshotEvent| e@)
}

/// What the decoder holds between two records.
pub struct Progress {
    /// The database that value records belong to.
    pub db_index: usize,
    /// The expiry that waits for the next value record.
    pub pending_expiry: Option<u64>,
    /// The metadata read so far.
    pub info: Seq<(Seq<char>, Seq<char>)>,
    /// The events emitted so far.
    pub events: Seq<EventModel>,
}

impl Progress {
    /// Before the first record: database 0, no expiry waiting, nothing read.
    pub open spec fn start() -> Progress {
        Progress { db_index: 0, pending_expiry: None, info: Seq::empty(), events: Seq::empty() }
    }

    /// What the decoder holds after `record`.
    ///
    /// A value record becomes an event with the expiry that waits, and none
    /// waits after it.
    pub open spec fn after(self, record: RecordModel) -> Progress {
        match record {
            RecordModel::Aux(name, value) => Progress {
                info: self.info.push((name.text(), value.text())),
                ..self
            },
            RecordModel::ResizeDb(_, _) => self,
            RecordModel::ExpireTimeMs(ms) => Progress { pending_expiry: Some(ms), ..self },
            RecordModel::ExpireTime(secs) => Progress {
                pending_expiry: Some((secs * 1000) as u64),
                ..self
            },
            RecordModel::SelectDb(index) => Progress { db_index: index as usize, ..self },
            RecordModel::Eof(_) => self,
            RecordModel::Value(key, value) => Progress {
                pending_expiry: None,
                events: self.events.push(
                    EventModel {
                        db_index: self.db_index,
                        key: key.text(),
                        value: value.text(),
                        expires_at: self.pending_expiry,
                    },
                ),
                ..self
            },
        }
    }
}

/// The records from the start of `s` up to the end marker, applied in order
/// to `progress`: what the decoder then holds, the checksum, and how many
/// bytes were taken.
pub open spec fn spec_run(s: Seq<u8>, progress: Progress) -> Result<(Progress, u64, int), DecodeError>
    decreases s.len(),
{
    match spec_read_record(s) {
        Err(e) => Err(e),
        Ok((RecordModel::Eof(checksum), n)) => Ok((progress, checksum, n)),
        Ok((record, n)) => if 0 < n <= s.len() {
            match spec_run(s.skip(n), progress.after(record)) {
                Err(e) => Err(e),
                Ok((last, checksum, m)) => Ok((last, checksum, n + m)),
            }
        } else {
            Err(DecodeError::Corrupt)
        },
    }
}

/// The magic constant: the bytes of `REDIS`.
pub open spec fn magic() -> Seq<u8> {
    seq![82u8, 69u8, 68u8, 73u8, 83u8]
}

/// The first lines of a snapshot: the magic constant and the version.
#[derive(Debug, Clone)]
pub struct RdbHeader {
    pub magic: String,
    pub version: String,
}

/// The model of an [`RdbHeader`].
pub struct HeaderModel {
    pub magic: Seq<char>,
    pub version: Seq<char>,
}

impl View for RdbHeader {
    type V = HeaderModel;

    open spec fn view(&self) -> HeaderModel {
        HeaderModel { magic: self.magic@, version: self.version@ }
    }
}

/// The header at the start of `s`: the five bytes of the magic constant, then
/// four bytes of version. It takes nine bytes.
pub open spec fn spec_parse_header(s: Seq<u8>) -> Result<HeaderModel, DecodeError> {
    if s.len() < 5 {
        Err(DecodeError::Truncated)
    } else if s.subrange(0, 5) != magic() {
        Err(DecodeError::BadMagic)
    } else if s.len() < 9 {
        Err(DecodeError::Truncated)
    } else if !valid_utf8(s.subrange(5, 9)) {
        Err(DecodeError::InvalidUtf8)
    } else {
        Ok(HeaderModel { magic: "REDIS"@, version: decode_utf8(s.subrange(5, 9)) })
    }
}

/// The metadata of a snapshot: names and their values, in the order of the
/// file.
#[derive(Debug, Clone)]
pub struct RdbMetadata {
    info: Vec<(String, String)>,
}

impl View for RdbMetadata {
    type V = Seq<(Seq<char>, Seq<char>)>;

    closed spec fn view(&self) -> Seq<(Seq<char>, Seq<char>)> {
        pair_texts(self.info@)
    }
}

impl RdbMetadata {
    /// How many pairs there are.
    pub fn len(&self) -> (n: usize)
        ensures
            n == self@.len(),
    {
        self.info.len()
    }

    /// The value under `name`. Where a name occurs more than once, the last
    /// value stands.
    pub fn get(&self, name: &str) -> (value: Option<String>)
        ensures
            option_text(value) == spec_lookup(self@, name@),
    {
        lookup(&self.info, name)
    }
}

/// A decoded snapshot.
#[derive(Debug, Clone)]
pub struct Rdb {
    pub header: RdbHeader,
    pub metadata: RdbMetadata,
    /// The value records, in the order of the file.
    pub events: Vec<SnapshotEvent>,
    /// The checksum at the end of the file; zero stands for none.
    pub checksum: u64,
}

/// The model of an [`Rdb`].
pub struct RdbModel {
    pub header: HeaderModel,
    pub info: Seq<(Seq<char>, Seq<char>)>,
    pub events: Seq<EventModel>,
    pub checksum: u64,
}

impl View for Rdb {
    type V = RdbModel;

    open spec fn view(&self) -> RdbModel {
        RdbModel {
            header: self.header@,
            info: self.metadata@,
            events: event_models(self.events@),
            checksum: self.checksum,
        }
    }
}

/// The snapshot at the start of `s`, and how many bytes it takes: the
/// header, then the records up to the end marker.
pub open spec fn spec_parse(s: Seq<u8>) -> Result<(RdbModel, int), DecodeError> {
    match spec_parse_header(s) {
        Err(e) => Err(e),
        Ok(header) => match spec_run(s.skip(9), Progress::start()) {
            Err(e) => Err(e),
            Ok((last, checksum, n)) => Ok(
                (
                    RdbModel { header, info: last.info, events: last.events, checksum },
                    9 + n,
                ),
            ),
        },
    }
}

/// `r`, with `k` more bytes counted as taken.
pub open spec fn shifted(r: Result<(Progress, u64, int), DecodeError>, k: int) -> Result<
    (Progress, u64, int),
    DecodeError,
> {
    match r {
        Ok((last, checksum, n)) => Ok((last, checksum, n + k)),
        Err(e) => Err(e),
    }
}

/// A length encoding takes at least one byte and no more than there are.
pub proof fn lemma_length_consumes(s: Seq<u8>)
    ensures
        spec_read_length(s) matches Ok((_, n)) ==> 1 <= n <= s.len(),
{
}

/// A string takes at least one byte and no more than there are.
pub proof fn lemma_string_consumes(s: Seq<u8>)
    ensures
        spec_read_string(s) matches Ok((_, n)) ==> 1 <= n <= s.len(),
{
}

/// A record takes at least one byte and no more than there are.
pub proof fn lemma_record_consumes(s: Seq<u8>)
    ensures
        spec_read_record(s) matches Ok((_, n)) ==> 1 <= n <= s.len(),
{
    reveal(spec_read_record);
    if s.len() >= 1 {
        let rest = s.skip(1);
        lemma_string_consumes(rest);
        lemma_length_consumes(rest);
        match spec_read_string(rest) {
            Ok((_, n)) => {
                lemma_string_consumes(rest.skip(n));
            },
            Err(_) => {},
        }
        match spec_read_length(rest) {
            Ok((_, n)) => {
                lemma_length_consumes(rest.skip(n));
            },
            Err(_) => {},
        }
    }
}

/// A run of records takes at least one byte and no more than there are.
pub proof fn lemma_run_consumes(s: Seq<u8>, progress: Progress)
    ensures
        spec_run(s, progress) matches Ok((_, _, n)) ==> 1 <= n <= s.len(),
    decreases s.len(),
{
    lemma_record_consumes(s);
    match spec_read_record(s) {
        Ok((RecordModel::Eof(_), _)) => {},
        Ok((record, n)) => {
            lemma_run_consumes(s.skip(n), progress.after(record));
        },
        Err(_) => {},
    }
}

/// A snapshot takes at least ten bytes and no more than there are.
pub proof fn lemma_parse_consumes(s: Seq<u8>)
    ensures
        spec_parse(s) matches Ok((_, n)) ==> 10 <= n <= s.len(),
{
    if s.len() >= 9 {
        lemma_run_consumes(s.skip(9), Progress::start());
    }
}

/// A cursor over a snapshot buffer.
///
/// A method that fails leaves the cursor where it was.
pub struct RdbParser {
    input: Vec<u8>,
    pos: usize,
}

impl RdbParser {
    #[verifier::type_invariant]
    spec fn in_bounds(&self) -> bool {
        self.pos <= self.input@.len()
    }

    /// The whole buffer.
    pub closed spec fn buffer(&self) -> Seq<u8> {
        self.input@
    }

    /// How many bytes have been consumed: the place of the cursor, which
    /// never lies past the end of the buffer.
    pub closed spec fn position(&self) -> int {
        if self.pos <= self.input@.len() {
            self.pos as int
        } else {
            self.input@.len() as int
        }
    }

    /// The cursor lies within the buffer. This holds of every value of the
    /// type, also of one that only a contract speaks of.
    pub proof fn lemma_position_in_bounds(&self)
        ensures
            0 <= self.position() <= self.buffer().len(),
            self.remaining().len() == self.buffer().len() - self.position(),
    {
    }

    /// The bytes not yet consumed.
    pub open spec fn remaining(&self) -> Seq<u8> {
        self.buffer().skip(self.position())
    }

    /// A cursor at the start of `input`.
    pub fn new(input: Vec<u8>) -> (parser: Self)
        ensures
            parser.buffer() == input@,
            parser.position() == 0,
    {
        RdbParser { input, pos: 0 }
    }

    /// Consumes the next `length` bytes.
    pub fn read_bytes(&mut self, length: usize) -> (r: Result<&[u8], DecodeError>)
        ensures
            final(self).buffer() == old(self).buffer(),
            match r {
                Ok(bytes) => {
                    &&& length <= old(self).remaining().len()
                    &&& bytes@ == old(self).remaining().subrange(0, length as int)
                    &&& final(self).position() == old(self).position() + length
                },
                Err(e) => {
                    &&& length > old(self).remaining().len()
                    &&& e == DecodeError::Truncated
                    &&& final(self).position() == old(self).position()
                },
            },
    {
        proof {
            use_type_invariant(&*self);
        }
        if length > self.input.len() - self.pos {
            return Err(DecodeError::Truncated);
        }
        let start: usize = self.pos;
        self.pos = self.pos + length;
        Ok(slice_subrange(self.input.as_slice(), start, start + length))
    }

    /// Consumes the next byte.
    pub fn read_byte(&mut self) -> (r: Result<u8, DecodeError>)
        ensures
            final(self).buffer() == old(self).buffer(),
            match r {
                Ok(byte) => {
                    &&& old(self).remaining().len() >= 1
                    &&& byte == old(self).remaining()[0]
                    &&& final(self).position() == old(self).position() + 1
                },
                Err(e) => {
                    &&& old(self).remaining().len() == 0
                    &&& e == DecodeError::Truncated
                    &&& final(self).position() == old(self).position()
                },
            },
    {
        let bytes = self.read_bytes(1)?;
        Ok(bytes[0])
    }

    /// Consumes a length encoding.
    pub fn read_length(&mut self) -> (r: Result<RdLength, DecodeError>)
        ensures
            final(self).buffer() == old(self).buffer(),
            match spec_read_length(old(self).remaining()) {
                Ok((length, n)) => r == Ok::<RdLength, DecodeError>(length) && final(self).position()
                    == old(self).position() + n,
                Err(e) => r == Err::<RdLength, DecodeError>(e) && final(self).position() == old(self).position(),
            },
    {
        proof {
            use_type_invariant(&*self);
        }
        let start: usize = self.pos;
        let ghost s = self.remaining();
        let byte: u8 = self.read_byte()?;
        let form: u8 = byte >> 6;
        let low: u8 = byte & 0x3f;
        assert(byte >> 6 == byte / 64 && byte & 0x3f == byte % 64) by (bit_vector);
        if form == 0 {
            Ok(RdLength::Len(low as u32))
        } else if form == 1 {
            match self.read_byte() {
                Ok(next) => Ok(RdLength::Len(low as u32 * 256 + next as u32)),
                Err(e) => {
                    self.pos = start;
                    Err(e)
                },
            }
        } else if form == 2 {
            match self.read_bytes(4) {
                Ok(bytes) => {
                    proof {
                        lemma_be_value_4(bytes@);
                        assert(bytes@ =~= s.subrange(1, 5));
                    }
                    Ok(
                        RdLength::Len(
                            bytes[0] as u32 * 0x100_0000 + bytes[1] as u32 * 0x1_0000
                                + bytes[2] as u32 * 0x100 + bytes[3] as u32,
                        ),
                    )
                },
                Err(e) => {
                    self.pos = start;
                    Err(e)
                },
            }
        } else if low == 0 {
            Ok(RdLength::Integer(1))
        } else if low == 1 {
            Ok(RdLength::Integer(2))
        } else if low == 2 {
            Ok(RdLength::Integer(4))
        } else if low == 3 {
            Ok(RdLength::LZF)
        } else {
            self.pos = start;
            Err(DecodeError::Corrupt)
        }
    }

    /// Consumes a string: a length encoding, then what it announces.
    pub fn read_string(&mut self) -> (r: Result<RdbString, DecodeError>)
        ensures
            final(self).buffer() == old(self).buffer(),
            match spec_read_string(old(self).remaining()) {
                Ok((string, n)) => r is Ok && r->Ok_0@ == string && final(self).position() == old(self).position() + n,
                Err(e) => r is Err && r->Err_0 == e && final(self).position() == old(self).position(),
            },
    {
        proof {
            use_type_invariant(&*self);
        }
        let start: usize = self.pos;
        let ghost s = self.remaining();
        match self.read_length()? {
            RdLength::Len(length) => {
                let ghost k = self.position() - start;
                match self.read_bytes(length as usize) {
                    Ok(bytes) => {
                        assert(bytes@ =~= s.subrange(k, k + length));
                        Ok(RdbString::String(slice_to_vec(bytes)))
                    },
                    Err(e) => {
                        self.pos = start;
                        Err(e)
                    },
                }
            },
            RdLength::Integer(width) => {
                let ghost k = self.position() - start;
                match self.read_bytes(width as usize) {
                    Ok(bytes) => {
                        assert(bytes@ =~= s.subrange(k, k + width));
                        Ok(RdbString::Integer(integer_text(bytes)))
                    },
                    Err(e) => {
                        self.pos = start;
                        Err(e)
                    },
                }
            },
            RdLength::LZF => {
                self.pos = start;
                Err(DecodeError::UnsupportedCompression)
            },
        }
    }

    /// Consumes a plain length, where a marker is an error.
    fn read_plain_length(&mut self) -> (r: Result<u32, DecodeError>)
        ensures
            final(self).buffer() == old(self).buffer(),
            match spec_read_plain_length(old(self).remaining()) {
                Ok((length, n)) => r == Ok::<u32, DecodeError>(length) && final(self).position()
                    == old(self).position() + n,
                Err(e) => r == Err::<u32, DecodeError>(e) && final(self).position() == old(self).position(),
            },
    {
        proof {
            use_type_invariant(&*self);
        }
        let start: usize = self.pos;
        match self.read_length()? {
            RdLength::Len(length) => Ok(length),
            _ => {
                self.pos = start;
                Err(DecodeError::Corrupt)
            },
        }
    }

    /// Consumes the value of a record whose type tag is `value_type`.
    pub fn read_value(&mut self, value_type: u8) -> (r: Result<RdbValue, DecodeError>)
        ensures
            final(self).buffer() == old(self).buffer(),
            match spec_read_value(old(self).remaining(), value_type) {
                Ok((value, n)) => r is Ok && r->Ok_0@ == value && final(self).position() == old(self).position() + n,
                Err(e) => r is Err && r->Err_0 == e && final(self).position() == old(self).position(),
            },
    {
        match RdValueType::from(value_type) {
            RdValueType::String => {
                let value = self.read_string()?;
                Ok(RdbValue::String(value))
            },
            _ => Err(DecodeError::UnsupportedValueType(value_type)),
        }
    }

    /// Consumes the header.
    pub fn parse_header(&mut self) -> (r: Result<RdbHeader, DecodeError>)
        ensures
            final(self).buffer() == old(self).buffer(),
            match spec_parse_header(old(self).remaining()) {
                Ok(header) => r is Ok && r->Ok_0@ == header && final(self).position() == old(self).position() + 9,
                Err(e) => r is Err && r->Err_0 == e && final(self).position() == old(self).position(),
            },
    {
        proof {
            use_type_invariant(&*self);
        }
        let start: usize = self.pos;
        let ghost s = self.remaining();
        let magic_bytes = self.read_bytes(5)?;
        let matches: bool = magic_bytes[0] == 82 && magic_bytes[1] == 69 && magic_bytes[2] == 68
            && magic_bytes[3] == 73 && magic_bytes[4] == 83;
        assert(matches <==> s.subrange(0, 5) =~= magic());
        if !matches {
            self.pos = start;
            return Err(DecodeError::BadMagic);
        }
        match self.read_bytes(4) {
            Ok(version_bytes) => {
                assert(version_bytes@ =~= s.subrange(5, 9));
                match string_from_utf8(version_bytes) {
                    Some(version) => Ok(RdbHeader { magic: "REDIS".to_owned(), version }),
                    None => {
                        self.pos = start;
                        Err(DecodeError::InvalidUtf8)
                    },
                }
            },
            Err(e) => {
                self.pos = start;
                Err(e)
            },
        }
    }

    /// Consumes one record.
    pub fn read_record(&mut self) -> (r: Result<Record, DecodeError>)
        ensures
            final(self).buffer() == old(self).buffer(),
            match spec_read_record(old(self).remaining()) {
                Ok((record, n)) => r is Ok && r->Ok_0@ == record && final(self).position() == old(self).position() + n,
                Err(e) => r is Err && r->Err_0 == e && final(self).position() == old(self).position(),
            },
    {
        proof {
            use_type_invariant(&*self);
        }
        reveal(spec_read_record);
        let start: usize = self.pos;
        let ghost s = self.remaining();
        let next_op: u8 = self.read_byte()?;
        let ghost rest = s.skip(1);
        assert(self.remaining() =~= rest);
        match OpCode::from(next_op) {
            OpCode::Aux => {
                let name = match self.read_string() {
                    Ok(name) => name,
                    Err(e) => {
                        self.pos = start;
                        return Err(e);
                    },
                };
                assert(self.remaining() =~= rest.skip(self.position() - start - 1));
                let value = match self.read_string() {
                    Ok(value) => value,
                    Err(e) => {
                        self.pos = start;
                        return Err(e);
                    },
                };
                Ok(Record::Aux(name, value))
            },
            OpCode::ResizeDb => {
                let table: u32 = match self.read_plain_length() {
                    Ok(table) => table,
                    Err(e) => {
                        self.pos = start;
                        return Err(e);
                    },
                };
                assert(self.remaining() =~= rest.skip(self.position() - start - 1));
                let expiring: u32 = match self.read_plain_length() {
                    Ok(expiring) => expiring,
                    Err(e) => {
                        self.pos = start;
                        return Err(e);
                    },
                };
                Ok(Record::ResizeDb(table, expiring))
            },
            OpCode::ExpireTimeMs => {
                match self.read_bytes(8) {
                    Ok(timestamp) => {
                        assert(timestamp@.subrange(0, 8) =~= rest.subrange(0, 8));
                        Ok(Record::ExpireTimeMs(read_u64_le(timestamp)))
                    },
                    Err(e) => {
                        self.pos = start;
                        Err(e)
                    },
                }
            },
            OpCode::ExpireTime => {
                match self.read_bytes(4) {
                    Ok(timestamp) => {
                        assert(timestamp@.subrange(0, 4) =~= rest.subrange(0, 4));
                        Ok(Record::ExpireTime(read_u32_le(timestamp)))
                    },
                    Err(e) => {
                        self.pos = start;
                        Err(e)
                    },
                }
            },
            OpCode::SelectDb => {
                match self.read_plain_length() {
                    Ok(index) => Ok(Record::SelectDb(index)),
                    Err(e) => {
                        self.pos = start;
                        Err(e)
                    },
                }
            },
            OpCode::Eof => {
                let checksum: u64 = match self.read_bytes(8) {
                    Ok(trailer) => {
                        assert(trailer@.subrange(0, 8) =~= rest.subrange(0, 8));
                        read_u64_le(trailer)
                    },
                    Err(e) => {
                        self.pos = start;
                        return Err(e);
                    },
                };
                if checksum != 0 {
                    self.pos = start;
                    return Err(DecodeError::UnsupportedChecksum);
                }
                Ok(Record::Eof(checksum))
            },
            OpCode::Unknown(value_type) => {
                let key = match self.read_string() {
                    Ok(key) => key,
                    Err(e) => {
                        self.pos = start;
                        return Err(e);
                    },
                };
                assert(self.remaining() =~= rest.skip(self.position() - start - 1));
                let value = match self.read_value(value_type) {
                    Ok(value) => value,
                    Err(e) => {
                        self.pos = start;
                        return Err(e);
                    },
                };
                Ok(Record::Value(key, value))
            },
        }
    }

    /// Decodes a snapshot: the header, then every record up to the end
    /// marker.
    pub fn parse(&mut self) -> (r: Result<Rdb, DecodeError>)
        ensures
            final(self).buffer() == old(self).buffer(),
            match spec_parse(old(self).remaining()) {
                Ok((rdb, n)) => r is Ok && r->Ok_0@ == rdb && final(self).position() == old(self).position() + n,
                Err(e) => r is Err && r->Err_0 == e && final(self).position() == old(self).position(),
            },
    {
        proof {
            use_type_invariant(&*self);
        }
        let start: usize = self.pos;
        let ghost s = self.remaining();
        let ghost buffer = self.buffer();
        let header = self.parse_header()?;
        let ghost body = s.skip(9);
        assert(self.remaining() =~= body);
        let mut db_index: usize = 0;
        let mut expires_at: Option<u64> = None;
        let mut info: Vec<(String, String)> = Vec::new();
        let mut events: Vec<SnapshotEvent> = Vec::new();
        assert(pair_texts(info@) =~= Seq::empty());
        assert(event_models(events@) =~= Seq::empty());
        loop
            invariant
                self.buffer() == buffer,
                buffer == old(self).buffer(),
                start == old(self).position(),
                s == old(self).remaining(),
                body == s.skip(9),
                start + 9 <= self.position() <= buffer.len(),
                header@ == spec_parse_header(s)->Ok_0,
                spec_parse_header(s) is Ok,
                shifted(
                    spec_run(
                        self.remaining(),
                        Progress {
                            db_index,
                            pending_expiry: expires_at,
                            info: pair_texts(info@),
                            events: event_models(events@),
                        },
                    ),
                    self.position() - (start + 9),
                ) == spec_run(body, Progress::start()),
            decreases buffer.len() - self.position(),
        {
            proof {
                use_type_invariant(&*self);
                lemma_record_consumes(self.remaining());
            }
            let ghost before = self.remaining();
            let ghost progress = Progress {
                db_index,
                pending_expiry: expires_at,
                info: pair_texts(info@),
                events: event_models(events@),
            };
            let record = match self.read_record() {
                Ok(record) => record,
                Err(e) => {
                    self.pos = start;
                    return Err(e);
                },
            };
            assert(self.remaining() =~= before.skip(self.position() - (buffer.len() - before.len())));
            match record {
                Record::Eof(checksum) => {
                    return Ok(Rdb { header, metadata: RdbMetadata { info }, events, checksum });
                },
                Record::Aux(name, value) => {
                    let ghost previous = pair_texts(info@);
                    let name_text = name.to_string();
                    let value_text = value.to_string();
                    info.push((name_text, value_text));
                    assert(pair_texts(info@) =~= previous.push((name@.text(), value@.text())));
                },
                Record::ResizeDb(_, _) => {},
                Record::ExpireTimeMs(ms) => {
                    expires_at = Some(ms);
                },
                Record::ExpireTime(secs) => {
                    expires_at = Some(secs as u64 * 1000);
                },
                Record::SelectDb(index) => {
                    db_index = index as usize;
                },
                Record::Value(key, value) => {
                    let ghost previous = event_models(events@);
                    let event = SnapshotEvent {
                        db_index,
                        key: key.to_string(),
                        value: value.to_string(),
                        expires_at,
                    };
                    events.push(event);
                    assert(event_models(events@) =~= previous.push(event@));
                    expires_at = None;
                },
            }
            assert(Progress {
                db_index,
                pending_expiry: expires_at,
                info: pair_texts(info@),
                events: event_models(events@),
            } == progress.after(record@));
        }
    }
}

} // verus!
