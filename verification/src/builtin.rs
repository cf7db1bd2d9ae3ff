//! The general-purpose engine of the `regex` crate, as far as this library
//! relies on it. Nothing in this module is proved: each contract states what
//! the crate documents.

use crate::custom_regex::texts;
use vstd::prelude::*;

verus! {

#[verifier::external_type_specification]
#[verifier::external_body]
pub struct ExRegex(regex::Regex);

#[verifier::external_type_specification]
#[verifier::external_body]
pub struct ExRegexError(regex::Error);

/// `found` are pieces of `text` at the places `spans`, each given by its
/// first position and the position after its last, none before the end of
/// an earlier one.
pub open spec fn pieces_at(found: Seq<Seq<char>>, text: Seq<char>, spans: Seq<(int, int)>) -> bool {
    &&& spans.len() == found.len()
    &&& forall|i: int|
        0 <= i < spans.len() ==> 0 <= (#[trigger] spans[i]).0 <= spans[i].1 <= text.len()
            && found[i] == text.subrange(spans[i].0, spans[i].1)
    &&& forall|i: int, j: int|
        0 <= i < j < spans.len() ==> (#[trigger] spans[i]).1 <= (#[trigger] spans[j]).0
}

/// `found` are pieces of `text` that follow each other without overlap.
pub open spec fn successive_pieces(found: Seq<Seq<char>>, text: Seq<char>) -> bool {
    exists|spans: Seq<(int, int)>| pieces_at(found, text, spans)
}

/// Compiles `pattern` with the `regex` crate.
///
/// Trusted: this is `regex::Regex::new`. Which patterns it accepts is the
/// crate's business (its syntax, and a limit on the size of the compiled
/// program); nothing is claimed of the outcome.
#[verifier::external_body]
pub(crate) fn builtin_compile(pattern: &str) -> (result: Result<regex::Regex, regex::Error>) {
    regex::Regex::new(pattern)
}

/// The message of an error of the `regex` crate.
///
/// Trusted: this is the `Display` of `regex::Error`. Nothing is claimed of
/// the text.
#[verifier::external_body]
pub(crate) fn builtin_error_text(error: &regex::Error) -> (message: String) {
    error.to_string()
}

/// The matches of `regex` in `text`, from left to right.
///
/// Trusted: this is `regex::Regex::find_iter`, with each match handed out as
/// the piece of the text it covers (`regex::Match::as_str`). The crate
/// documents that the matches are successive and do not overlap: each search
/// starts where the match before it ended.
#[verifier::external_body]
pub(crate) fn builtin_find_all<'t>(regex: &regex::Regex, text: &'t str) -> (found: Vec<&'t str>)
    ensures
        successive_pieces(texts(found@), text@),
{
    regex.find_iter(text).map(|m| m.as_str()).collect()
}

} // verus!
