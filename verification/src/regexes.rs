//! Searching with regular expressions.

use vstd::prelude::*;


verus! {

/// The groups of a match; a group that took no part has no text.
pub open spec fn group_texts(v: Seq<Option<String>>) -> Seq<Option<Seq<char>>> {
    v.map_values(
        |g: Option<String>|
            match g {
                Some(text) => Some(text@),
                None => None,
            },
    )
}

/// The groups of the first match of a pattern in a text, the whole match first;
/// `None` where the pattern is not a regular expression or matches nowhere.
pub uninterp spec fn groups_of_match(pattern: Seq<char>, text: Seq<char>) -> Option<
    Seq<Option<Seq<char>>>,
>;

/// `regex::Regex::captures`, for a pattern compiled by `regex::Regex::new`: the
/// groups of the first match, which depend on the pattern and the text alone.
/// What a pattern matches is left unsaid.
#[verifier::external_body]
pub(crate) fn find_groups(pattern: &str, text: &str) -> (r: Option<Vec<Option<String>>>)
    ensures
        match r {
            Some(groups) => groups_of_match(pattern@, text@) == Some(group_texts(groups@)),
            None => groups_of_match(pattern@, text@) is None,
        },
{
    let compiled = regex::Regex::new(pattern).ok()?;
    let captures = compiled.captures(text)?;
    Some(captures.iter().map(|g| g.map(|m| m.as_str().to_string())).collect())
}

/// The text of a named group in the first match of a pattern in a text. The outer
/// option is `None` where nothing matches, the inner one where no group of that
/// name took part.
pub uninterp spec fn named_group_of_match(pattern: Seq<char>, text: Seq<char>, name: Seq<char>) -> Option<
    Option<Seq<char>>,
>;

/// `regex::Captures::name` on the first match of a pattern in a text. It depends
/// on the pattern, the text and the name alone; what a pattern matches is left
/// unsaid.
#[verifier::external_body]
pub(crate) fn find_named_group(pattern: &str, text: &str, name: &str) -> (r: Option<Option<String>>)
    ensures
        match r {
            Some(Some(group)) => named_group_of_match(pattern@, text@, name@) == Some(
                Some(group@),
            ),
            Some(None) => named_group_of_match(pattern@, text@, name@) == Some(None::<Seq<char>>),
            None => named_group_of_match(pattern@, text@, name@) is None,
        },
{
    let compiled = regex::Regex::new(pattern).ok()?;
    let captures = compiled.captures(text)?;
    Some(captures.name(name).map(|m| m.as_str().to_string()))
}

} // verus!
