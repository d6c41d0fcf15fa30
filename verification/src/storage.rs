//! The keyed store, with expiry checked when a key is read.
//!
//! Instants are nanoseconds since the Unix epoch. An entry with an expiry
//! is gone for every reader from that instant on, though it stays in the
//! store until it is overwritten.

use vstd::prelude::*;
use crate::clock::now_unix_nanos;
use crate::pattern::pattern_regex;
use crate::pattern::regex_compiles;
use crate::pattern::regex_is_match;
use crate::pattern::KeyPattern;
use crate::rdb::EventModel;
use crate::text::option_text;
use crate::text::texts;
use crate::rdb::SnapshotEvent;
use crate::rdb::event_models;

verus! {

/// How many nanoseconds make a millisecond.
pub const NANOS_PER_MILLI: i128 = 1_000_000;

/// An entry of the store.
#[derive(Debug, Clone)]
pub struct Item {
    pub key: String,
    pub value: String,
    /// The instant from which the entry is gone.
    pub expires: Option<i128>,
    /// The instant at which the entry was written.
    pub created: i128,
}

/// The model of an [`Item`].
pub struct ItemModel {
    pub key: Seq<char>,
    pub value: Seq<char>,
    pub expires: Option<i128>,
    pub created: i128,
}

impl ItemModel {
    /// The entry is there for a reader at the instant `now`.
    pub open spec fn is_live(self, now: i128) -> bool {
        match self.expires {
            Some(deadline) => now < deadline,
            None => true,
        }
    }
}

impl View for Item {
    type V = ItemModel;

    open spec fn view(&self) -> ItemModel {
        ItemModel {
            key: self.key@,
            value: self.value@,
            expires: self.expires,
            created: self.created,
        }
    }
}

/// The models of `items`, in order.
pub open spec fn item_models(items: Seq<Item>) -> Seq<ItemModel> {
    items.map_values(|item: Item| item@)
}

/// No key occurs twice in `entries`.
pub open spec fn distinct_keys(entries: Seq<ItemModel>) -> bool {
    forall|i: int, j: int|
        0 <= i < j < entries.len() ==> (#[trigger] entries[i]).key != (#[trigger] entries[j]).key
}

/// Where the entry of `key` stands in `entries`, and their number where
/// there is none.
pub open spec fn position_of(entries: Seq<ItemModel>, key: Seq<char>) -> int
    decreases entries.len(),
{
    if entries.len() == 0 {
        0
    } else if entries[0].key == key {
        0
    } else {
        1 + position_of(entries.drop_first(), key)
    }
}

/// The store after `key` was set at the instant `now`: the new entry stands
/// in the place of the old one of that key, or after all others.
pub open spec fn spec_set(
    entries: Seq<ItemModel>,
    key: Seq<char>,
    value: Seq<char>,
    expires: Option<i128>,
    now: i128,
) -> Seq<ItemModel> {
    let at = position_of(entries, key);
    let entry = ItemModel { key, value, expires, created: now };
    if at < entries.len() {
        entries.update(at, entry)
    } else {
        entries.push(entry)
    }
}

/// What a reader finds under `key` at the instant `now`: the value of the
/// entry of that key, unless its expiry has come.
pub open spec fn spec_get(entries: Seq<ItemModel>, key: Seq<char>, now: i128) -> Option<Seq<char>> {
    let at = position_of(entries, key);
    if at < entries.len() && entries[at].is_live(now) {
        Some(entries[at].value)
    } else {
        None
    }
}

/// The keys of the entries that a reader finds at the instant `now` and
/// that are chosen, in the order of the store. The entry at a place is
/// chosen where `chosen` holds `true` at that place.
pub open spec fn spec_select(entries: Seq<ItemModel>, chosen: Seq<bool>, now: i128) -> Seq<
    Seq<char>,
>
    decreases entries.len(),
{
    if entries.len() == 0 {
        Seq::empty()
    } else {
        let before = spec_select(entries.drop_last(), chosen, now);
        let at = entries.len() - 1;
        if entries[at].is_live(now) && at < chosen.len() && chosen[at] {
            before.push(entries[at].key)
        } else {
            before
        }
    }
}

/// For each entry, whether the regular expression `regex` matches its key.
pub open spec fn matches_of(entries: Seq<ItemModel>, regex: Seq<char>) -> Seq<bool> {
    Seq::new(entries.len(), |i: int| regex_is_match(regex, entries[i].key))
}

/// The keys that a reader finds at the instant `now` and that the regular
/// expression `regex` matches, in the order of the store.
pub open spec fn spec_keys(entries: Seq<ItemModel>, regex: Seq<char>, now: i128) -> Seq<Seq<char>> {
    spec_select(entries, matches_of(entries, regex), now)
}

/// What is listed depends on the choice among the entries that a reader
/// finds, and on nothing else.
pub proof fn lemma_select_agrees(
    entries: Seq<ItemModel>,
    one: Seq<bool>,
    other: Seq<bool>,
    now: i128,
)
    requires
        forall|i: int|
            0 <= i < entries.len() && (#[trigger] entries[i]).is_live(now) ==> (i < one.len()
                && one[i]) == (i < other.len() && other[i]),
    ensures
        spec_select(entries, one, now) == spec_select(entries, other, now),
    decreases entries.len(),
{
    if entries.len() > 0 {
        let before = entries.drop_last();
        assert forall|i: int| 0 <= i < before.len() && (#[trigger] before[i]).is_live(now) implies (
        i < one.len() && one[i]) == (i < other.len() && other[i]) by {
            assert(before[i] == entries[i]);
        }
        lemma_select_agrees(before, one, other, now);
    }
}

/// The instant of an expiry given in milliseconds since the epoch.
pub open spec fn millis_to_instant(ms: u64) -> i128 {
    (ms * NANOS_PER_MILLI) as i128
}

/// The store after the events `events` were applied in order at the instant
/// `now`, each as a write of its key with its expiry.
pub open spec fn spec_load(entries: Seq<ItemModel>, events: Seq<EventModel>, now: i128) -> Seq<
    ItemModel,
>
    decreases events.len(),
{
    if events.len() == 0 {
        entries
    } else {
        let event = events.last();
        let expires = match event.expires_at {
            Some(ms) => Some(millis_to_instant(ms)),
            None => None,
        };
        spec_set(spec_load(entries, events.drop_last(), now), event.key, event.value, expires, now)
    }
}

/// The place of a key is a place of the store or just past it; at a place
/// of the store stands the key, and no earlier entry has it.
pub proof fn lemma_position_of(entries: Seq<ItemModel>, key: Seq<char>)
    ensures
        0 <= position_of(entries, key) <= entries.len(),
        position_of(entries, key) < entries.len() ==> entries[position_of(entries, key)].key
            == key,
        forall|i: int| 0 <= i < position_of(entries, key) ==> (#[trigger] entries[i]).key != key,
    decreases entries.len(),
{
    if entries.len() > 0 && entries[0].key != key {
        let rest = entries.drop_first();
        lemma_position_of(rest, key);
        assert forall|i: int| 0 <= i < position_of(entries, key) implies (#[trigger] entries[i]).key
            != key by {
            if i > 0 {
                assert(rest[i - 1] == entries[i]);
            }
        }
    }
}

/// The place of a key is the one place where no earlier entry has the key
/// and the key, if any entry has it, stands.
pub proof fn lemma_position_is(entries: Seq<ItemModel>, key: Seq<char>, at: int)
    requires
        0 <= at <= entries.len(),
        forall|i: int| 0 <= i < at ==> (#[trigger] entries[i]).key != key,
        at < entries.len() ==> entries[at].key == key,
    ensures
        position_of(entries, key) == at,
{
    lemma_position_of(entries, key);
    let p = position_of(entries, key);
    if p < at {
        assert(entries[p].key != key);
    } else if p > at {
        assert(entries[at].key != key);
    }
}

/// A write leaves no key twice in the store.
pub proof fn lemma_set_keeps_distinct(
    entries: Seq<ItemModel>,
    key: Seq<char>,
    value: Seq<char>,
    expires: Option<i128>,
    now: i128,
)
    requires
        distinct_keys(entries),
    ensures
        distinct_keys(spec_set(entries, key, value, expires, now)),
{
    lemma_position_of(entries, key);
    let after = spec_set(entries, key, value, expires, now);
    let at = position_of(entries, key);
    assert forall|i: int, j: int| 0 <= i < j < after.len() implies (#[trigger] after[i]).key != (
    #[trigger] after[j]).key by {
        if at < entries.len() {
            assert(after[i].key == entries[i].key);
            assert(after[j].key == entries[j].key);
        } else if j == entries.len() {
            assert(after[i] == entries[i]);
        } else {
            assert(after[i] == entries[i]);
            assert(after[j] == entries[j]);
        }
    }
}

/// The keyed store.
pub struct Store {
    items: Vec<Item>,
}

impl View for Store {
    type V = Seq<ItemModel>;

    closed spec fn view(&self) -> Seq<ItemModel> {
        item_models(self.items@)
    }
}

impl Store {
    #[verifier::type_invariant]
    spec fn distinct(&self) -> bool {
        distinct_keys(item_models(self.items@))
    }

    /// An empty store.
    pub fn new() -> (store: Store)
        ensures
            store@ == Seq::<ItemModel>::empty(),
            distinct_keys(store@),
    {
        let items: Vec<Item> = Vec::new();
        assert(item_models(items@) =~= Seq::empty());
        Store { items }
    }

    /// How many entries the store holds, those whose expiry has come among
    /// them.
    pub fn len(&self) -> (n: usize)
        ensures
            n == self@.len(),
    {
        self.items.len()
    }

    /// Where the entry of `key` stands.
    fn find(&self, key: &String) -> (at: usize)
        ensures
            at == position_of(self@, key@),
            at <= self@.len(),
    {
        let mut i: usize = 0;
        while i < self.items.len()
            invariant
                i <= self.items.len(),
                forall|j: int| 0 <= j < i ==> (#[trigger] self@[j]).key != key@,
            decreases self.items.len() - i,
        {
            if self.items[i].key == *key {
                proof {
                    lemma_position_is(self@, key@, i as int);
                }
                return i;
            }
            i += 1;
        }
        proof {
            lemma_position_is(self@, key@, i as int);
        }
        i
    }

    /// Writes `value` under `key` at the instant `now`, in the place of
    /// whatever was there. With `expires`, the entry is gone from that
    /// instant on.
    pub fn set_at(&mut self, key: &str, value: &str, expires: Option<i128>, now: i128)
        ensures
            final(self)@ == spec_set(old(self)@, key@, value@, expires, now),
            distinct_keys(final(self)@),
    {
        proof {
            use_type_invariant(&*self);
            lemma_set_keeps_distinct(self@, key@, value@, expires, now);
        }
        let item = Item { key: key.to_owned(), value: value.to_owned(), expires, created: now };
        let at: usize = self.find(&item.key);
        let ghost before = self@;
        let ghost model = item@;
        if at < self.items.len() {
            let mut items: Vec<Item> = Vec::new();
            core::mem::swap(&mut items, &mut self.items);
            items.set(at, item);
            assert(item_models(items@) =~= before.update(at as int, model));
            self.items = items;
        } else {
            let mut items: Vec<Item> = Vec::new();
            core::mem::swap(&mut items, &mut self.items);
            items.push(item);
            assert(item_models(items@) =~= before.push(model));
            self.items = items;
        }
    }

    /// Writes `value` under `key` now, in the place of whatever was there.
    /// With `expires`, the entry is gone from that instant on.
    pub fn set(&mut self, key: &str, value: &str, expires: Option<i128>)
        ensures
            exists|now: i128|
                final(self)@ == #[trigger] spec_set(old(self)@, key@, value@, expires, now),
            distinct_keys(final(self)@),
    {
        let now: i128 = now_unix_nanos();
        self.set_at(key, value, expires, now);
    }

    /// What stands under `key` for a reader at the instant `now`.
    pub fn get_at(&self, key: &str, now: i128) -> (value: Option<String>)
        ensures
            option_text(value) == spec_get(self@, key@, now),
    {
        let wanted = key.to_owned();
        let at: usize = self.find(&wanted);
        if at >= self.items.len() {
            return None;
        }
        let item = &self.items[at];
        assert(self@[at as int] == item@);
        let live: bool = match item.expires {
            Some(deadline) => now < deadline,
            None => true,
        };
        if live {
            Some(item.value.clone())
        } else {
            None
        }
    }

    /// What stands under `key` for a reader now.
    pub fn get(&self, key: &str) -> (value: Option<String>)
        ensures
            exists|now: i128| option_text(value) == #[trigger] spec_get(self@, key@, now),
    {
        let now: i128 = now_unix_nanos();
        self.get_at(key, now)
    }

    /// The keys of the entries that a reader finds at the instant `now` and
    /// that are chosen, in the order of the store. The entry at a place is
    /// chosen where `chosen` holds `true` at that place.
    pub fn select_keys(&self, chosen: &Vec<bool>, now: i128) -> (keys: Vec<String>)
        ensures
            texts(keys@) == spec_select(self@, chosen@, now),
    {
        let mut keys: Vec<String> = Vec::new();
        let mut i: usize = 0;
        assert(self@.subrange(0, 0) =~= Seq::empty());
        assert(texts(keys@) =~= Seq::empty());
        while i < self.items.len()
            invariant
                i <= self.items.len(),
                texts(keys@) == spec_select(self@.subrange(0, i as int), chosen@, now),
            decreases self.items.len() - i,
        {
            let item = &self.items[i];
            let ghost longer = self@.subrange(0, i + 1);
            assert(longer.drop_last() =~= self@.subrange(0, i as int));
            assert(longer[i as int] == item@);
            let live: bool = match item.expires {
                Some(deadline) => now < deadline,
                None => true,
            };
            if live && i < chosen.len() && chosen[i] {
                let ghost before = texts(keys@);
                keys.push(item.key.clone());
                assert(texts(keys@) =~= before.push(item.key@));
            }
            i += 1;
        }
        assert(self@.subrange(0, self.items.len() as int) =~= self@);
        keys
    }

    /// The keys that `pattern` matches among those that a reader finds at
    /// the instant `now`, in the order of the store.
    pub fn keys_matching(&self, pattern: &KeyPattern, now: i128) -> (keys: Vec<String>)
        ensures
            texts(keys@) == spec_keys(self@, pattern.regex(), now),
    {
        let mut chosen: Vec<bool> = Vec::new();
        let mut i: usize = 0;
        while i < self.items.len()
            invariant
                i <= self.items.len(),
                chosen@.len() == i,
                forall|j: int|
                    0 <= j < i && (#[trigger] self@[j]).is_live(now) ==> chosen@[j]
                        == regex_is_match(pattern.regex(), self@[j].key),
            decreases self.items.len() - i,
        {
            let item = &self.items[i];
            assert(self@[i as int] == item@);
            let live: bool = match item.expires {
                Some(deadline) => now < deadline,
                None => true,
            };
            chosen.push(live && pattern.matches(item.key.as_str()));
            i += 1;
        }
        proof {
            lemma_select_agrees(self@, chosen@, matches_of(self@, pattern.regex()), now);
        }
        self.select_keys(&chosen, now)
    }

    /// The keys that `pattern` matches among those that a reader finds at
    /// the instant `now`, in the order of the store. There is no list
    /// where the `regex` crate refuses the expression of the pattern, as it
    /// does for one that is too large.
    pub fn keys_at(&self, pattern: &str, now: i128) -> (keys: Option<Vec<String>>)
        ensures
            keys is Some <==> regex_compiles(pattern_regex(pattern@)),
            keys matches Some(found) ==> texts(found@) == spec_keys(
                self@,
                pattern_regex(pattern@),
                now,
            ),
    {
        match KeyPattern::new(pattern) {
            Some(compiled) => Some(self.keys_matching(&compiled, now)),
            None => None,
        }
    }

    /// The keys that `pattern` matches among those that a reader finds now.
    /// There is no list where the `regex` crate refuses the expression of
    /// the pattern.
    pub fn keys(&self, pattern: &str) -> (keys: Option<Vec<String>>)
        ensures
            keys is Some <==> regex_compiles(pattern_regex(pattern@)),
            keys matches Some(found) ==> exists|now: i128|
                texts(found@) == #[trigger] spec_keys(
                    self@,
                    pattern_regex(pattern@),
                    now,
                ),
    {
        let now: i128 = now_unix_nanos();
        self.keys_at(pattern, now)
    }

    /// Applies the events of a snapshot in order, each as a write at the
    /// instant `now`.
    pub fn load(&mut self, events: &Vec<SnapshotEvent>, now: i128)
        ensures
            final(self)@ == spec_load(old(self)@, event_models(events@), now),
            distinct_keys(final(self)@),
    {
        proof {
            use_type_invariant(&*self);
        }
        let mut i: usize = 0;
        assert(event_models(events@).subrange(0, 0) =~= Seq::empty());
        while i < events.len()
            invariant
                i <= events.len(),
                self@ == spec_load(old(self)@, event_models(events@).subrange(0, i as int), now),
                distinct_keys(self@),
            decreases events.len() - i,
        {
            let event = &events[i];
            let ghost longer = event_models(events@).subrange(0, i + 1);
            assert(longer.drop_last() =~= event_models(events@).subrange(0, i as int));
            assert(longer.last() == event@);
            let expires: Option<i128> = match event.expires_at {
                Some(ms) => Some(ms as i128 * NANOS_PER_MILLI),
                None => None,
            };
            self.set_at(event.key.as_str(), event.value.as_str(), expires, now);
            i += 1;
        }
        assert(event_models(events@).subrange(0, events.len() as int) =~= event_models(events@));
    }
}

} // verus!
