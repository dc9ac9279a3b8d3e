//! Regular expressions, as the `regex` crate matches them.
//!
//! What a compiled pattern matches is taken on trust from the crate: it is
//! named here and stated nowhere.  It is named for the compiled pattern and
//! not for its text, since two patterns of one text may be built with
//! different options.
use regex::Regex;
use vstd::prelude::*;

verus! {

/// `regex::Regex`, a compiled pattern.
#[verifier::external_type_specification]
#[verifier::external_body]
pub struct ExRegex(regex::Regex);

/// `regex::Error`, which is carried and never looked into.
#[verifier::external_type_specification]
#[verifier::external_body]
pub struct ExRegexError(regex::Error);

/// The text that a pattern was compiled from, as `Regex::as_str` gives it.
pub uninterp spec fn regex_source(re: Regex) -> Seq<char>;

/// Whether the compiled pattern matches somewhere in the text, as
/// `Regex::is_match` tells.  The answer is a matter of the compiled pattern,
/// with the options that it was built with, and of the text; the text of
/// the pattern alone does not decide it.
pub uninterp spec fn regex_matches(re: Regex, text: Seq<char>) -> bool;

/// The groups of the leftmost match of the compiled pattern in the text, as
/// `Regex::captures` gives them: the whole match first, then the group of
/// each pair of parentheses, `None` for a group that took no part.  They
/// are a matter of the compiled pattern, with the options that it was built
/// with, and of the text.
pub uninterp spec fn regex_captures(re: Regex, text: Seq<char>) -> Option<
    Seq<Option<Seq<char>>>,
>;

/// The characters of the groups of a match.
pub open spec fn groups_view(groups: Option<Vec<Option<String>>>) -> Option<Seq<Option<Seq<char>>>> {
    match groups {
        None => None,
        Some(found) => Some(
            Seq::new(
                found@.len(),
                |i: int|
                    match found@[i] {
                        None => None,
                        Some(text) => Some(text@),
                    },
            ),
        ),
    }
}

/// `Regex::new`: the compiled pattern, which remembers its text, or the
/// error of the crate.
#[verifier::external_body]
pub(crate) fn compile(pattern: &str) -> (r: Result<Regex, regex::Error>)
    ensures
        r matches Ok(re) ==> regex_source(re) == pattern@,
{
    Regex::new(pattern)
}

/// `Regex::is_match`: whether the compiled pattern matches somewhere in the
/// text.  The answer depends on the compiled pattern and on the text alone,
/// and goes by the name `regex_matches`.
#[verifier::external_body]
pub(crate) fn is_match(re: &Regex, text: &str) -> (r: bool)
    ensures
        r == regex_matches(*re, text@),
{
    re.is_match(text)
}

/// `Regex::captures`, each group copied into a string: the groups of the
/// leftmost match, or `None` where the pattern matches nowhere.  The groups
/// depend on the compiled pattern and on the text alone, and go by the name
/// `regex_captures`.
#[verifier::external_body]
pub(crate) fn captures(re: &Regex, text: &str) -> (r: Option<Vec<Option<String>>>)
    ensures
        groups_view(r) == regex_captures(*re, text@),
{
    re.captures(text).map(
        |found| found.iter().map(|group| group.map(|m| m.as_str().to_string())).collect(),
    )
}

} // verus!
