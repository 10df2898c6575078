//! Regular-expression matching, done by the `regex` crate.
use regex::Regex;
use vstd::prelude::*;

verus! {

/// What `regex::Regex::captures` reports for `text` under the regular
/// expression that `regex::Regex::new` compiles from `pattern`: `None` where
/// the pattern is refused or nothing in `text` matches; else the capture
/// groups of the leftmost match, group 0 being the whole match, and a group
/// that took no part in the match being `None`.
pub uninterp spec fn regex_captures(pattern: Seq<char>, text: Seq<char>) -> Option<
    Seq<Option<Seq<char>>>,
>;

/// Compiles `pattern` with `regex::Regex::new` and matches `text` with
/// `regex::Regex::captures`; hands out the text of each capture group.
#[verifier::external_body]
pub(crate) fn capture_groups(pattern: &str, text: &str) -> (groups: Option<Vec<Option<String>>>)
    ensures
        groups.deep_view() == regex_captures(pattern@, text@),
{
    match Regex::new(pattern) {
        Ok(re) => re.captures(text).map(
            |found| found.iter().map(|group| group.map(|m| m.as_str().to_string())).collect(),
        ),
        Err(_) => None,
    }
}

} // verus!
