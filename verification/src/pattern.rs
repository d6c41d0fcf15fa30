//! Key patterns: a star stands for any run of characters, and every other
//! character for itself. A pattern describes the whole key.
//!
//! A pattern is matched by the `regex` crate, as an expression that is tied
//! to both ends of the key and in which every character but the star is
//! taken literally.

use vstd::prelude::*;
use vstd::string::StringExecFns;
use regex::Regex;

verus! {

/// `c` has a meaning of its own in a regular expression, and stands for
/// itself only behind a backslash.
pub open spec fn is_meta(c: char) -> bool {
    ||| c == '\\'
    ||| c == '.'
    ||| c == '+'
    ||| c == '*'
    ||| c == '?'
    ||| c == '('
    ||| c == ')'
    ||| c == '|'
    ||| c == '['
    ||| c == ']'
    ||| c == '{'
    ||| c == '}'
    ||| c == '^'
    ||| c == '$'
    ||| c == '#'
    ||| c == '&'
    ||| c == '-'
    ||| c == '~'
}

/// The expression that accepts `c` and nothing else: `c`, behind a backslash
/// where it has a meaning of its own.
pub open spec fn escaped(c: char) -> Seq<char> {
    if is_meta(c) {
        seq!['\\', c]
    } else {
        seq![c]
    }
}

/// What one character of a pattern stands for: `.*`, any run of characters,
/// for a star, and the character itself for any other.
pub open spec fn pattern_part(c: char) -> Seq<char> {
    if c == '*' {
        seq!['.', '*']
    } else {
        escaped(c)
    }
}

/// What the characters of a pattern stand for, one after another.
pub open spec fn pattern_body(pattern: Seq<char>) -> Seq<char>
    decreases pattern.len(),
{
    if pattern.len() == 0 {
        Seq::empty()
    } else {
        pattern_body(pattern.drop_last()) + pattern_part(pattern.last())
    }
}

/// What opens the expression of a pattern: `(?s)^`, which lets a dot accept
/// a line feed too and ties the expression to the start of the key.
pub open spec fn regex_start() -> Seq<char> {
    seq!['(', '?', 's', ')', '^']
}

/// What closes the expression of a pattern: `$`, which ties it to the end
/// of the key.
pub open spec fn regex_end() -> Seq<char> {
    seq!['$']
}

/// The regular expression that a key pattern stands for.
pub open spec fn pattern_regex(pattern: Seq<char>) -> Seq<char> {
    regex_start() + pattern_body(pattern) + regex_end()
}

/// Whether `Regex::new` accepts `regex`.
pub uninterp spec fn regex_compiles(regex: Seq<char>) -> bool;

/// Whether the regular expression `regex`, once compiled, matches somewhere
/// in `text`: what `Regex::is_match` returns.
pub uninterp spec fn regex_is_match(regex: Seq<char>, text: Seq<char>) -> bool;

/// Calls `regex::escape` on the text that holds `c` alone. Trusted: the
/// result is `c`, behind a backslash where `c` is one of the characters
/// that the crate escapes.
#[verifier::external_body]
fn escape_char(c: char) -> (r: String)
    ensures
        r@ == escaped(c),
{
    regex::escape(c.encode_utf8(&mut [0u8; 4]))
}

/// Calls `Regex::new` on `regex` and, where that compiles, `is_match` on
/// `text`. Trusted: whether the expression compiles depends on the
/// expression alone, and whether it matches on the expression and the text
/// alone.
#[verifier::external_body]
fn regex_search(regex: &str, text: &str) -> (r: Option<bool>)
    ensures
        r is Some <==> regex_compiles(regex@),
        r matches Some(found) ==> found == regex_is_match(regex@, text@),
{
    match Regex::new(regex) {
        Ok(compiled) => Some(compiled.is_match(text)),
        Err(_) => None,
    }
}

/// The regular expression that the key pattern `pattern` stands for.
pub fn regex_of(pattern: &str) -> (regex: String)
    ensures
        regex@ == pattern_regex(pattern@),
{
    proof {
        reveal_strlit("(?s)^");
        reveal_strlit("$");
    }
    let mut regex = "(?s)^".to_owned();
    assert(regex@ =~= regex_start());
    assert(pattern@.subrange(0, 0) =~= Seq::<char>::empty());
    for c in it: pattern.chars()
        invariant
            it.seq() == pattern@,
            regex@ == regex_start() + pattern_body(pattern@.subrange(0, it.index() as int)),
    {
        let ghost done = pattern@.subrange(0, it.index() as int);
        let ghost more = pattern@.subrange(0, it.index() + 1);
        assert(more.drop_last() =~= done);
        assert(more.last() == c);
        if c == '*' {
            proof {
                reveal_strlit(".*");
            }
            regex.append(".*");
            assert(".*"@ =~= seq!['.', '*']);
        } else {
            let literal = escape_char(c);
            regex.append(literal.as_str());
        }
        assert(regex@ =~= regex_start() + pattern_body(more));
    }
    assert(pattern@.subrange(0, pattern@.len() as int) =~= pattern@);
    regex.append("$");
    assert("$"@ =~= regex_end());
    regex
}

/// A key pattern, ready to be matched against keys.
pub struct KeyPattern {
    regex: String,
}

impl KeyPattern {
    #[verifier::type_invariant]
    spec fn compiles(&self) -> bool {
        regex_compiles(self.regex@)
    }

    /// The regular expression that the pattern stands for.
    pub closed spec fn regex(&self) -> Seq<char> {
        self.regex@
    }

    /// Reads a key pattern. There is none where the `regex` crate refuses
    /// the expression that it stands for, as it does for one that is too
    /// large.
    pub fn new(pattern: &str) -> (r: Option<KeyPattern>)
        ensures
            r is Some <==> regex_compiles(pattern_regex(pattern@)),
            r matches Some(p) ==> p.regex() == pattern_regex(pattern@),
    {
        let regex = regex_of(pattern);
        match regex_search(regex.as_str(), "") {
            Some(_) => Some(KeyPattern { regex }),
            None => None,
        }
    }

    /// Whether the pattern matches `key`.
    pub fn matches(&self, key: &str) -> (found: bool)
        ensures
            found == regex_is_match(self.regex(), key@),
    {
        proof {
            use_type_invariant(self);
        }
        match regex_search(self.regex.as_str(), key) {
            Some(found) => found,
            None => false,
        }
    }
}

} // verus!
