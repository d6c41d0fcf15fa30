//! What holds of every store: a value is read until its expiry comes, the
//! last write stands, and a write touches one key.

use vstd::prelude::*;
use crate::pattern::regex_is_match;
use crate::storage::lemma_position_is;
use crate::storage::lemma_position_of;
use crate::storage::position_of;
use crate::storage::spec_get;
use crate::storage::matches_of;
use crate::storage::spec_keys;
use crate::storage::spec_select;
use crate::storage::spec_set;
use crate::storage::ItemModel;

verus! {

/// After a write, the key stands where the write put it.
pub proof fn lemma_position_after_set(
    entries: Seq<ItemModel>,
    key: Seq<char>,
    value: Seq<char>,
    expires: Option<i128>,
    now: i128,
)
    ensures
        position_of(spec_set(entries, key, value, expires, now), key) == position_of(entries, key),
        position_of(entries, key) < spec_set(entries, key, value, expires, now).len(),
        spec_set(entries, key, value, expires, now)[position_of(entries, key)] == (ItemModel {
            key,
            value,
            expires,
            created: now,
        }),
{
    lemma_position_of(entries, key);
    let after = spec_set(entries, key, value, expires, now);
    let at = position_of(entries, key);
    assert forall|i: int| 0 <= i < at implies (#[trigger] after[i]).key != key by {
        assert(after[i] == entries[i]);
    }
    lemma_position_is(after, key, at);
}

/// A key that was written is read with the value written, at every instant
/// before its expiry and, without an expiry, at every instant; from its
/// expiry on it is not read.
pub proof fn lemma_get_after_set(
    entries: Seq<ItemModel>,
    key: Seq<char>,
    value: Seq<char>,
    expires: Option<i128>,
    now: i128,
    later: i128,
)
    ensures
        spec_get(spec_set(entries, key, value, expires, now), key, later) == (match expires {
            Some(deadline) => if later < deadline {
                Some(value)
            } else {
                None
            },
            None => Some(value),
        }),
{
    lemma_position_after_set(entries, key, value, expires, now);
}

/// Expiry: a value written with a deadline is read at every instant before
/// the deadline, and at no instant from the deadline on.
pub proof fn lemma_expiration(
    entries: Seq<ItemModel>,
    key: Seq<char>,
    value: Seq<char>,
    deadline: i128,
    now: i128,
    later: i128,
)
    ensures
        later < deadline ==> spec_get(
            spec_set(entries, key, value, Some(deadline), now),
            key,
            later,
        ) == Some(value),
        later >= deadline ==> spec_get(
            spec_set(entries, key, value, Some(deadline), now),
            key,
            later,
        ) is None,
{
    lemma_get_after_set(entries, key, value, Some(deadline), now, later);
}

/// Overwriting: of two writes of a key the second stands. Written without
/// an expiry, its value is read at every instant, whatever the first write
/// was.
pub proof fn lemma_overwrite(
    entries: Seq<ItemModel>,
    key: Seq<char>,
    first: Seq<char>,
    first_expires: Option<i128>,
    first_now: i128,
    second: Seq<char>,
    second_now: i128,
    later: i128,
)
    ensures
        spec_get(
            spec_set(
                spec_set(entries, key, first, first_expires, first_now),
                key,
                second,
                None,
                second_now,
            ),
            key,
            later,
        ) == Some(second),
{
    lemma_get_after_set(
        spec_set(entries, key, first, first_expires, first_now),
        key,
        second,
        None,
        second_now,
        later,
    );
}

/// A write leaves every other key as it was.
pub proof fn lemma_set_leaves_others(
    entries: Seq<ItemModel>,
    key: Seq<char>,
    value: Seq<char>,
    expires: Option<i128>,
    now: i128,
    other: Seq<char>,
    later: i128,
)
    requires
        other != key,
    ensures
        spec_get(spec_set(entries, key, value, expires, now), other, later) == spec_get(
            entries,
            other,
            later,
        ),
{
    lemma_position_of(entries, key);
    lemma_position_of(entries, other);
    let after = spec_set(entries, key, value, expires, now);
    let at = position_of(entries, other);
    assert forall|i: int| 0 <= i < at implies (#[trigger] after[i]).key != other by {
        if i != position_of(entries, key) {
            assert(after[i] == entries[i]);
        }
    }
    if at < entries.len() {
        assert(after[at] == entries[at]);
    }
    lemma_position_is(after, other, if at < entries.len() {
        at
    } else {
        after.len() as int
    });
}

/// A key is listed where a chosen entry has it that a reader finds, and
/// nowhere else.
pub proof fn lemma_selected(entries: Seq<ItemModel>, chosen: Seq<bool>, now: i128, key: Seq<char>)
    ensures
        spec_select(entries, chosen, now).contains(key) <==> exists|i: int|
            0 <= i < entries.len() && (#[trigger] entries[i]).key == key && entries[i].is_live(now)
                && i < chosen.len() && chosen[i],
    decreases entries.len(),
{
    let listed = spec_select(entries, chosen, now);
    if entries.len() == 0 {
        assert(!listed.contains(key));
    } else {
        let before = entries.drop_last();
        let last = entries.len() - 1;
        lemma_selected(before, chosen, now, key);
        let earlier = spec_select(before, chosen, now);
        let takes_last = entries[last].is_live(now) && last < chosen.len() && chosen[last];
        if listed.contains(key) {
            let at = choose|j: int| 0 <= j < listed.len() && listed[j] == key;
            if takes_last && at == earlier.len() {
                assert(entries[last].key == key);
            } else {
                assert(earlier[at] == key);
                assert(earlier.contains(key));
                let i = choose|i: int|
                    0 <= i < before.len() && (#[trigger] before[i]).key == key && before[i].is_live(
                        now,
                    ) && i < chosen.len() && chosen[i];
                assert(entries[i] == before[i]);
            }
        }
        if exists|i: int|
            0 <= i < entries.len() && (#[trigger] entries[i]).key == key && entries[i].is_live(now)
                && i < chosen.len() && chosen[i] {
            let i = choose|i: int|
                0 <= i < entries.len() && (#[trigger] entries[i]).key == key && entries[i].is_live(
                    now,
                ) && i < chosen.len() && chosen[i];
            if i == last {
                assert(listed.last() == key);
            } else {
                assert(before[i] == entries[i]);
                assert(earlier.contains(key));
                let at = choose|j: int| 0 <= j < earlier.len() && earlier[j] == key;
                assert(listed[at] == key);
            }
        }
    }
}

/// A key is listed where an entry has it that a reader finds and that the
/// expression matches, and nowhere else.
pub proof fn lemma_keys_listed(entries: Seq<ItemModel>, regex: Seq<char>, now: i128, key: Seq<char>)
    ensures
        spec_keys(entries, regex, now).contains(key) <==> exists|i: int|
            0 <= i < entries.len() && (#[trigger] entries[i]).key == key && entries[i].is_live(now)
                && regex_is_match(regex, key),
{
    lemma_selected(entries, matches_of(entries, regex), now, key);
}

} // verus!
