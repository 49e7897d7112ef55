//! Regular expressions. Matching is the work of the `regex` crate; this
//! module states what the engine relies on and nothing of how a pattern is
//! read.

use regex::Regex;
use vstd::prelude::*;

verus! {

/// `regex::Regex`, a compiled regular expression. Nothing inside it is
/// visible here; it is made by `Regex::new` and handed to `Regex::is_match`.
#[verifier::external_type_specification]
#[verifier::external_body]
pub struct ExRegex(regex::Regex);

/// `regex::Error`, the reason for which `Regex::new` refused a pattern.
#[verifier::external_type_specification]
#[verifier::external_body]
pub struct ExRegexError(regex::Error);

// The pattern that a compiled expression holds, which `Regex::as_str` returns:
// the text that it was compiled from.
pub uninterp spec fn regex_source(re: Regex) -> Seq<char>;

// Whether the expression compiled from `pattern` has a match anywhere in
// `text`, which is what `Regex::is_match` returns.
pub uninterp spec fn pattern_matches(pattern: Seq<char>, text: Seq<char>) -> bool;

/// `regex::Regex::new` compiles a pattern. It returns an error, and does not
/// panic, where it refuses the pattern: for its syntax, or because its
/// compiled form is larger than the limit that the crate sets, which is
/// measured in the memory of the machine. Nothing is said here of which
/// patterns it refuses; the expression that it returns otherwise holds the
/// pattern that it was given.
pub assume_specification[ Regex::new ](re: &str) -> (r: Result<Regex, regex::Error>)
    ensures
        r matches Ok(compiled) ==> regex_source(compiled) == re@,
;

/// `regex::Regex::is_match` tells whether the expression has a match anywhere
/// in the haystack. The answer depends on the pattern and the haystack alone.
pub assume_specification[ Regex::is_match ](this: &Regex, haystack: &str) -> (found: bool)
    ensures
        found == pattern_matches(regex_source(*this), haystack@),
;

/// Compiles `pattern` and looks for a match in `text`. The result is `None`
/// where the pattern was refused, and otherwise whether a match was found.
pub fn search(pattern: &str, text: &str) -> (found: Option<bool>)
    ensures
        found matches Some(hit) ==> hit == pattern_matches(pattern@, text@),
{
    match Regex::new(pattern) {
        Ok(compiled) => Some(compiled.is_match(text)),
        Err(_) => None,
    }
}

} // verus!
