//! Regular expressions, as the `regex` crate compiles and runs them.
//!
//! Everything here is trusted: the contracts restate what the `regex`
//! crate's source and documentation say of the calls made, and name the
//! results that take its whole matching algorithm to compute.
use vstd::prelude::*;

use regex::Regex;

verus! {

/// `regex::Regex`, a compiled regular expression, opaque here.
#[verifier::external_type_specification]
#[verifier::external_body]
pub struct ExRegex(regex::Regex);

/// `regex::Error`, why a pattern did not compile, opaque here.
#[verifier::external_type_specification]
#[verifier::external_body]
pub struct ExRegexError(regex::Error);

/// Whether `regex::Regex::new` accepts `source` (with its default limits).
pub uninterp spec fn regex_compiles(source: Seq<char>) -> bool;

/// The leftmost-first match that `regex::Regex::find` reports for the
/// regex compiled from `source` in `haystack`: the byte offset where it
/// starts and the matched text.
pub uninterp spec fn regex_first_match(source: Seq<char>, haystack: Seq<char>) -> Option<(usize, Seq<char>)>;

/// A compiled regular expression together with the text it was compiled
/// from; its value is that text.
pub struct CompiledPattern {
    source: String,
    regex: Regex,
}

impl View for CompiledPattern {
    type V = Seq<char>;

    closed spec fn view(&self) -> Seq<char> {
        self.source@
    }
}

/// Why `regex::Regex::new` refused a pattern.
pub enum RegexFailure {
    /// The pattern is not valid syntax; the text describes the error.
    Syntax(String),
    /// The compiled program would exceed the size limit written here in
    /// decimal.
    TooBig(String),
    /// Another failure, in the form the error's `Debug` gives it.
    Other(String),
}

/// Compiles `source` with `regex::Regex::new`. Trusted: it succeeds exactly
/// when `regex_compiles(source)`, and the pattern it gives has `source` as
/// its value.
#[verifier::external_body]
pub(crate) fn compile_pattern(source: &str) -> (compiled: Result<CompiledPattern, regex::Error>)
    ensures
        compiled is Ok == regex_compiles(source@),
        compiled matches Ok(p) ==> p@ == source@,
{
    match Regex::new(source) {
        Ok(regex) => Ok(CompiledPattern { source: source.to_string(), regex }),
        Err(e) => Err(e),
    }
}

/// Runs `regex::Regex::find` of `pattern` on `haystack` and gives the start
/// offset and text of the match. Trusted: the result is
/// `regex_first_match` of the pattern's text and the haystack, and a match
/// that starts at offset 0 is a prefix of the haystack (the crate's
/// `Match::as_str` is the haystack sliced from start to end).
#[verifier::external_body]
pub(crate) fn find_first<'h>(pattern: &CompiledPattern, haystack: &'h str) -> (found: Option<(usize, &'h str)>)
    ensures
        match found {
            Some((start, text)) => regex_first_match(pattern@, haystack@) == Some((start, text@))
                && (start == 0 ==> text@.len() <= haystack@.len() && text@ == haystack@.subrange(
                0,
                text@.len() as int,
            )),
            None => regex_first_match(pattern@, haystack@) is None,
        },
{
    match pattern.regex.find(haystack) {
        Some(m) => Some((m.start(), m.as_str())),
        None => None,
    }
}

/// Tells the variants of a `regex::Error` apart. Trusted only for its
/// shape: nothing is said of the texts and sizes it carries.
#[verifier::external_body]
pub(crate) fn describe_regex_error(error: regex::Error) -> (failure: RegexFailure) {
    match error {
        regex::Error::Syntax(message) => RegexFailure::Syntax(message),
        regex::Error::CompiledTooBig(size) => RegexFailure::TooBig(size.to_string()),
        other => RegexFailure::Other(format!("{:?}", other)),
    }
}

/// The matches that `regex::Regex::find_iter` reports, one after another,
/// for the regex compiled from `source` in `haystack`: for each, the text
/// before it, the matched text and the text after it.
pub uninterp spec fn regex_match_splits(source: Seq<char>, haystack: Seq<char>) -> Seq<(Seq<char>, Seq<char>, Seq<char>)>;

/// The matches that `regex::Regex::captures_iter` reports, one after
/// another, for the regex compiled from `source` in `haystack`: for each,
/// the text before it, the matched text, and the text of the group named
/// `group` when that group took part in the match.
pub uninterp spec fn regex_group_captures(source: Seq<char>, haystack: Seq<char>, group: Seq<char>) -> Seq<(Seq<char>, Seq<char>, Option<Seq<char>>)>;

/// Runs `regex::Regex::find_iter` of `pattern` on `haystack` and gives,
/// for each match, the haystack before it, the match and the haystack after
/// it. Trusted: the result is `regex_match_splits` of the pattern's text and
/// the haystack, and each match lies in the haystack between the text
/// before it and the text after it (the crate's `Match` gives the byte
/// offsets of the match in the haystack).
#[verifier::external_body]
pub(crate) fn match_splits<'h>(pattern: &CompiledPattern, haystack: &'h str) -> (splits: Vec<(&'h str, &'h str, &'h str)>)
    ensures
        splits@.map_values(|m: (&'h str, &'h str, &'h str)| (m.0@, m.1@, m.2@)) == regex_match_splits(
            pattern@,
            haystack@,
        ),
        forall|i: int|
            0 <= i < splits@.len() ==> #[trigger] splits@[i].0@ + splits@[i].1@ + splits@[i].2@ == haystack@,
{
    pattern.regex.find_iter(haystack).map(|m| (&haystack[..m.start()], m.as_str(), &haystack[m.end()..])).collect()
}

/// Runs `regex::Regex::captures_iter` of `pattern` on `haystack` and gives,
/// for each match, the haystack before it, the match and the text of the
/// group named `group`. Trusted: the result is `regex_group_captures` of
/// the pattern's text, the haystack and the group name; each match lies in the haystack right
/// after the text before it; and the matches come in order without
/// overlapping (as the crate documents for `captures_iter`).
#[verifier::external_body]
pub(crate) fn group_captures<'h>(pattern: &CompiledPattern, haystack: &'h str, group: &str) -> (captures: Vec<(&'h str, &'h str, Option<&'h str>)>)
    ensures
        captures@.map_values(
            |c: (&'h str, &'h str, Option<&'h str>)|
                (
                    c.0@,
                    c.1@,
                    match c.2 {
                        Some(k) => Some(k@),
                        None => None,
                    },
                ),
        ) == regex_group_captures(pattern@, haystack@, group@),
        forall|i: int|
            0 <= i < captures@.len() ==> (#[trigger] captures@[i].0@ + captures@[i].1@).is_prefix_of(haystack@),
        forall|i: int, j: int|
            0 <= i < j < captures@.len() ==> #[trigger] captures@[i].0@.len() + captures@[i].1@.len()
                <= #[trigger] captures@[j].0@.len(),
{
    pattern
        .regex
        .captures_iter(haystack)
        .map(|c| (&haystack[..c.get(0).unwrap().start()], c.get(0).unwrap().as_str(), c.name(group).map(|k| k.as_str())))
        .collect()
}

/// A regex meta character: one that `regex::escape` puts a backslash
/// before.
pub open spec fn is_meta_character(c: char) -> bool {
    c == '\\' || c == '.' || c == '+' || c == '*' || c == '?' || c == '(' || c == ')' || c == '|' || c == '['
        || c == ']' || c == '{' || c == '}' || c == '^' || c == '$' || c == '#' || c == '&' || c == '-'
        || c == '~'
}

/// `text` with a backslash before each meta character.
pub open spec fn escaped(text: Seq<char>) -> Seq<char>
    decreases text.len(),
{
    if text.len() == 0 {
        Seq::empty()
    } else {
        let c = text.last();
        escaped(text.drop_last()) + if is_meta_character(c) {
            seq!['\\', c]
        } else {
            seq![c]
        }
    }
}

/// Escapes `text` with `regex::escape`. Trusted: the result is `text`
/// with a backslash before each meta character, as the crate's source
/// writes it.
#[verifier::external_body]
pub(crate) fn escape(text: &str) -> (escaped_text: String)
    ensures
        escaped_text@ == escaped(text@),
{
    regex::escape(text)
}

} // verus!
