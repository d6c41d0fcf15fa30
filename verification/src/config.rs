//! The settings of the process, as names and their values.

use vstd::prelude::*;
use crate::text::lookup;
use crate::text::option_text;
use crate::text::pair_texts;
use crate::text::spec_lookup;

verus! {

/// Settings: names and their values, in the order in which they were set.
pub struct Config {
    values: Vec<(String, String)>,
}

impl View for Config {
    type V = Seq<(Seq<char>, Seq<char>)>;

    closed spec fn view(&self) -> Seq<(Seq<char>, Seq<char>)> {
        pair_texts(self.values@)
    }
}

impl Config {
    /// No settings.
    pub fn new() -> (config: Config)
        ensures
            config@ == Seq::<(Seq<char>, Seq<char>)>::empty(),
    {
        let values: Vec<(String, String)> = Vec::new();
        assert(pair_texts(values@) =~= Seq::empty());
        Config { values }
    }

    /// Sets `key` to `value`.
    pub fn set(&mut self, key: &str, value: &str)
        ensures
            final(self)@ == old(self)@.push((key@, value@)),
    {
        let ghost before = self@;
        self.values.push((key.to_owned(), value.to_owned()));
        assert(pair_texts(self.values@) =~= before.push((key@, value@)));
    }

    /// The value of `key`: the one that was set last.
    pub fn get(&self, key: &str) -> (value: Option<String>)
        ensures
            option_text(value) == spec_lookup(self@, key@),
    {
        lookup(&self.values, key)
    }
}

/// A setting has the value that was set last, and setting one leaves the
/// others.
pub proof fn lemma_lookup_after_set(
    values: Seq<(Seq<char>, Seq<char>)>,
    key: Seq<char>,
    value: Seq<char>,
    other: Seq<char>,
)
    ensures
        spec_lookup(values.push((key, value)), key) == Some(value),
        other != key ==> spec_lookup(values.push((key, value)), other) == spec_lookup(
            values,
            other,
        ),
{
    assert(values.push((key, value)).drop_last() =~= values);
}

} // verus!
