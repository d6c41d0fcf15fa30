//! What holds of every snapshot: a cut-off buffer is reported as cut off, a
//! value of a kind that is not decoded is reported as such, and an expiry
//! belongs to one record.

use vstd::prelude::*;
use crate::error::DecodeError;
use crate::rdb::lemma_parse_consumes;
use crate::rdb::lemma_record_consumes;
use crate::rdb::lemma_run_consumes;
use crate::rdb::shifted;
use crate::rdb::lemma_string_consumes;
use crate::rdb::lemma_length_consumes;
use crate::rdb::spec_parse;
use crate::rdb::spec_read_length;
use crate::rdb::spec_read_plain_length;
use crate::rdb::spec_read_record;
use crate::rdb::spec_read_string;
use crate::rdb::spec_read_value;
use crate::rdb::spec_run;
use crate::rdb::OpCode;
use crate::rdb::Progress;
use crate::rdb::RdValueType;
use crate::rdb::RecordModel;
use crate::rdb::SnapshotString;
use crate::rdb::ValueModel;

verus! {

/// What reading gives on the first `k` bytes of a buffer on which it gives
/// `whole`, having taken `n` bytes: the same where the `n` bytes are there,
/// and else the report that the buffer is cut off.
pub open spec fn cut<T>(whole: Result<(T, int), DecodeError>, k: int) -> Result<
    (T, int),
    DecodeError,
> {
    match whole {
        Ok((value, n)) => if n <= k {
            whole
        } else {
            Err(DecodeError::Truncated)
        },
        Err(e) => Err(e),
    }
}

/// A length encoding that can be read from a buffer is read alike from
/// each prefix that holds it, and a shorter prefix is reported as cut off.
pub proof fn lemma_length_prefix(s: Seq<u8>, k: int)
    requires
        0 <= k <= s.len(),
        spec_read_length(s) is Ok,
    ensures
        spec_read_length(s.subrange(0, k)) == cut(spec_read_length(s), k),
{
    let t = s.subrange(0, k);
    if k >= 5 {
        assert(t.subrange(1, 5) =~= s.subrange(1, 5));
    }
}

/// A plain length likewise.
pub proof fn lemma_plain_length_prefix(s: Seq<u8>, k: int)
    requires
        0 <= k <= s.len(),
        spec_read_plain_length(s) is Ok,
    ensures
        spec_read_plain_length(s.subrange(0, k)) == cut(spec_read_plain_length(s), k),
{
    lemma_length_prefix(s, k);
}

/// A string likewise.
pub proof fn lemma_string_prefix(s: Seq<u8>, k: int)
    requires
        0 <= k <= s.len(),
        spec_read_string(s) is Ok,
    ensures
        spec_read_string(s.subrange(0, k)) == cut(spec_read_string(s), k),
{
    let t = s.subrange(0, k);
    lemma_length_prefix(s, k);
    lemma_length_consumes(s);
    let (length, at) = spec_read_length(s)->Ok_0;
    let n = spec_read_string(s)->Ok_0.1;
    if n <= k {
        assert(t.subrange(at, n) =~= s.subrange(at, n));
    }
}

/// A value likewise.
pub proof fn lemma_value_prefix(s: Seq<u8>, tag: u8, k: int)
    requires
        0 <= k <= s.len(),
        spec_read_value(s, tag) is Ok,
    ensures
        spec_read_value(s.subrange(0, k), tag) == cut(spec_read_value(s, tag), k),
{
    lemma_string_prefix(s, k);
}

/// A record likewise.
pub proof fn lemma_record_prefix(s: Seq<u8>, k: int)
    requires
        0 <= k <= s.len(),
        spec_read_record(s) is Ok,
    ensures
        spec_read_record(s.subrange(0, k)) == cut(spec_read_record(s), k),
{
    reveal(spec_read_record);
    let t = s.subrange(0, k);
    if k >= 1 {
        let rest = s.skip(1);
        let cut_rest = t.skip(1);
        assert(cut_rest =~= rest.subrange(0, k - 1));
        match OpCode::of(s[0]) {
            OpCode::Aux => {
                lemma_string_prefix(rest, k - 1);
                lemma_string_consumes(rest);
                let n = spec_read_string(rest)->Ok_0.1;
                if n <= k - 1 {
                    assert(cut_rest.skip(n) =~= rest.skip(n).subrange(0, k - 1 - n));
                    lemma_string_prefix(rest.skip(n), k - 1 - n);
                }
            },
            OpCode::ResizeDb => {
                lemma_plain_length_prefix(rest, k - 1);
                lemma_length_consumes(rest);
                let n = spec_read_plain_length(rest)->Ok_0.1;
                if n <= k - 1 {
                    assert(cut_rest.skip(n) =~= rest.skip(n).subrange(0, k - 1 - n));
                    lemma_plain_length_prefix(rest.skip(n), k - 1 - n);
                }
            },
            OpCode::ExpireTimeMs => {
                if k >= 9 {
                    assert(cut_rest.subrange(0, 8) =~= rest.subrange(0, 8));
                }
            },
            OpCode::ExpireTime => {
                if k >= 5 {
                    assert(cut_rest.subrange(0, 4) =~= rest.subrange(0, 4));
                }
            },
            OpCode::SelectDb => {
                lemma_plain_length_prefix(rest, k - 1);
            },
            OpCode::Eof => {
                if k >= 9 {
                    assert(cut_rest.subrange(0, 8) =~= rest.subrange(0, 8));
                }
            },
            OpCode::Unknown(tag) => {
                lemma_string_prefix(rest, k - 1);
                lemma_string_consumes(rest);
                let n = spec_read_string(rest)->Ok_0.1;
                if n <= k - 1 {
                    assert(cut_rest.skip(n) =~= rest.skip(n).subrange(0, k - 1 - n));
                    lemma_value_prefix(rest.skip(n), tag, k - 1 - n);
                }
            },
        }
    }
}

/// A run of records that ends well on a buffer ends alike on each prefix
/// that holds all of it, and a shorter prefix is reported as cut off.
pub proof fn lemma_run_prefix(s: Seq<u8>, progress: Progress, k: int)
    requires
        0 <= k <= s.len(),
        spec_run(s, progress) is Ok,
    ensures
        spec_run(s.subrange(0, k), progress) == (match spec_run(s, progress) {
            Ok((last, checksum, n)) => if n <= k {
                spec_run(s, progress)
            } else {
                Err(DecodeError::Truncated)
            },
            Err(e) => Err(e),
        }),
    decreases s.len(),
{
    let t = s.subrange(0, k);
    lemma_record_prefix(s, k);
    lemma_record_consumes(s);
    lemma_record_consumes(t);
    let (record, n) = spec_read_record(s)->Ok_0;
    if record is Eof {
    } else {
        lemma_run_consumes(s.skip(n), progress.after(record));
        if n <= k {
            assert(t.skip(n) =~= s.skip(n).subrange(0, k - n));
            lemma_run_prefix(s.skip(n), progress.after(record), k - n);
        }
    }
}

/// Cutting a snapshot short gives `Truncated`: where a buffer decodes, with
/// the end marker and its checksum ending at offset `n`, its first `k`
/// bytes, for any `k` below `n`, do not, and the error says that the buffer
/// is cut off.
pub proof fn lemma_truncated_snapshot(s: Seq<u8>, k: int)
    requires
        spec_parse(s) is Ok,
        0 <= k < spec_parse(s)->Ok_0.1,
    ensures
        spec_parse(s.subrange(0, k)) == Err::<(crate::rdb::RdbModel, int), DecodeError>(
            DecodeError::Truncated,
        ),
{
    lemma_parse_consumes(s);
    let t = s.subrange(0, k);
    if k >= 9 {
        assert(t.subrange(0, 5) =~= s.subrange(0, 5));
        assert(t.subrange(5, 9) =~= s.subrange(5, 9));
        assert(t.skip(9) =~= s.skip(9).subrange(0, k - 9));
        lemma_run_prefix(s.skip(9), Progress::start(), k - 9);
    } else if k >= 5 {
        assert(t.subrange(0, 5) =~= s.subrange(0, 5));
    }
}

/// What follows a snapshot in its buffer does not change what is decoded.
pub proof fn lemma_snapshot_ignores_rest(s: Seq<u8>, k: int)
    requires
        spec_parse(s) is Ok,
        spec_parse(s)->Ok_0.1 <= k <= s.len(),
    ensures
        spec_parse(s.subrange(0, k)) == spec_parse(s),
{
    lemma_parse_consumes(s);
    let t = s.subrange(0, k);
    assert(t.subrange(0, 5) =~= s.subrange(0, 5));
    assert(t.subrange(5, 9) =~= s.subrange(5, 9));
    assert(t.skip(9) =~= s.skip(9).subrange(0, k - 9));
    lemma_run_prefix(s.skip(9), Progress::start(), k - 9);
}

/// A value record whose type tag is not that of plain strings is refused as
/// unsupported, whatever follows its key: the record is not read, and a run
/// of records that comes to it ends with that error.
pub proof fn lemma_unsupported_value_type(s: Seq<u8>, progress: Progress)
    requires
        s.len() >= 1,
        s[0] != 0,
        s[0] < 0xFA,
        spec_read_string(s.skip(1)) is Ok,
    ensures
        spec_read_record(s) == Err::<(RecordModel, int), DecodeError>(
            DecodeError::UnsupportedValueType(s[0]),
        ),
        spec_run(s, progress) == Err::<(Progress, u64, int), DecodeError>(
            DecodeError::UnsupportedValueType(s[0]),
        ),
{
    reveal(spec_read_record);
    assert(RdValueType::of(s[0]) != RdValueType::String);
}

/// A run goes on as its rest goes: after a record that is no end marker,
/// what the run gives is what the run of the following records gives from
/// the state after that record, and an error among them is the error of
/// the whole.
pub proof fn lemma_run_goes_on(s: Seq<u8>, progress: Progress)
    requires
        spec_read_record(s) matches Ok((record, _)) && !(record is Eof),
    ensures
        spec_run(s, progress) == shifted(
            spec_run(
                s.skip(spec_read_record(s)->Ok_0.1),
                progress.after(spec_read_record(s)->Ok_0.0),
            ),
            spec_read_record(s)->Ok_0.1,
        ),
{
    lemma_record_consumes(s);
}

/// A run of records keeps the events that were there and adds its own
/// after them.
pub proof fn lemma_run_keeps_events(s: Seq<u8>, progress: Progress)
    requires
        spec_run(s, progress) is Ok,
    ensures
        progress.events.len() <= spec_run(s, progress)->Ok_0.0.events.len(),
        spec_run(s, progress)->Ok_0.0.events.subrange(0, progress.events.len() as int)
            == progress.events,
    decreases s.len(),
{
    let (record, n) = spec_read_record(s)->Ok_0;
    let last = spec_run(s, progress)->Ok_0.0;
    if record is Eof {
        assert(last.events.subrange(0, progress.events.len() as int) =~= progress.events);
    } else {
        let next = progress.after(record);
        lemma_run_keeps_events(s.skip(n), next);
        assert(next.events.subrange(0, progress.events.len() as int) =~= progress.events);
        assert(last.events.subrange(0, progress.events.len() as int) =~= last.events.subrange(
            0,
            next.events.len() as int,
        ).subrange(0, progress.events.len() as int));
    }
}

/// An expiry is used once: after an expiry in milliseconds and two value
/// records, the event of the first record carries the expiry, the event of
/// the second carries none, and none waits.
pub proof fn lemma_expiry_is_used_once(
    progress: Progress,
    ms: u64,
    first_key: SnapshotString,
    first_value: ValueModel,
    second_key: SnapshotString,
    second_value: ValueModel,
)
    ensures
        ({
            let after = progress.after(RecordModel::ExpireTimeMs(ms)).after(
                RecordModel::Value(first_key, first_value),
            ).after(RecordModel::Value(second_key, second_value));
            let first = progress.events.len() as int;
            &&& after.events.len() == first + 2
            &&& after.events.subrange(0, first) == progress.events
            &&& after.events[first].expires_at == Some(ms)
            &&& after.events[first + 1].expires_at is None
            &&& after.pending_expiry is None
        }),
{
    let after = progress.after(RecordModel::ExpireTimeMs(ms)).after(
        RecordModel::Value(first_key, first_value),
    ).after(RecordModel::Value(second_key, second_value));
    assert(after.events.subrange(0, progress.events.len() as int) =~= progress.events);
}

/// An expiry belongs to the next value record and to no other: where an
/// expiry in milliseconds is followed by two value records, the first
/// event carries it and the second carries none.
pub proof fn lemma_expiry_scoping(s: Seq<u8>, progress: Progress)
    requires
        spec_run(s, progress) is Ok,
        spec_read_record(s) matches Ok((RecordModel::ExpireTimeMs(_), taken))
            && spec_read_record(s.skip(taken)) matches Ok((RecordModel::Value(_, _), more))
            && spec_read_record(s.skip(taken).skip(more)) matches Ok(
            (RecordModel::Value(_, _), _),
        ),
    ensures
        ({
            let events = spec_run(s, progress)->Ok_0.0.events;
            let first = progress.events.len() as int;
            &&& events.len() >= first + 2
            &&& spec_read_record(s) matches Ok((RecordModel::ExpireTimeMs(ms), _))
                && events[first].expires_at == Some(ms)
            &&& events[first + 1].expires_at is None
        }),
{
    let (expiry, expiry_len) = spec_read_record(s)->Ok_0;
    let at_first = s.skip(expiry_len);
    let with_expiry = progress.after(expiry);
    let (first_record, first_len) = spec_read_record(at_first)->Ok_0;
    let at_second = at_first.skip(first_len);
    let with_first = with_expiry.after(first_record);
    let (second_record, second_len) = spec_read_record(at_second)->Ok_0;
    let at_rest = at_second.skip(second_len);
    let with_second = with_first.after(second_record);
    lemma_record_consumes(s);
    lemma_record_consumes(at_first);
    lemma_record_consumes(at_second);
    assert(spec_run(s, progress) is Ok);
    assert(spec_run(at_first, with_expiry) is Ok);
    assert(spec_run(at_second, with_first) is Ok);
    assert(spec_run(at_rest, with_second) is Ok);
    lemma_run_keeps_events(at_rest, with_second);
    let events = spec_run(at_rest, with_second)->Ok_0.0.events;
    assert(events == spec_run(s, progress)->Ok_0.0.events);
    let first = progress.events.len() as int;
    assert(with_second.events.len() == first + 2);
    assert(events.subrange(0, first + 2)[first] == with_second.events[first]);
    assert(events.subrange(0, first + 2)[first + 1] == with_second.events[first + 1]);
}

} // verus!
