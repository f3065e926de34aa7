//! Matching text against regular expressions.

use vstd::prelude::*;

verus! {

/// Why a regular expression could not be compiled.
#[verifier::external_type_specification]
#[verifier::external_body]
pub struct ExRegexError(regex::Error);

/// Whether `regex::Regex::new` takes `pattern` for a regular expression.
pub uninterp spec fn regex_compiles(pattern: Seq<char>) -> bool;

/// What `regex::Regex::captures` finds of `pattern` in `text`: `None` where
/// the pattern does not match; else the capture groups of the leftmost
/// match, the whole match first, each with the text that it matched, or
/// with `None` if it took no part in the match.
pub uninterp spec fn regex_captures(pattern: Seq<char>, text: Seq<char>) -> Option<
    Seq<Option<Seq<char>>>,
>;

/// The groups of `found`, each as its characters.
pub open spec fn groups_view(found: Option<Vec<Option<String>>>) -> Option<Seq<Option<Seq<char>>>> {
    match found {
        None => None,
        Some(groups) => Some(
            Seq::new(
                groups.len() as nat,
                |i: int|
                    match groups[i] {
                        Some(s) => Some(s@),
                        None => None,
                    },
            ),
        ),
    }
}

/// `regex::Regex::new` and then `regex::Regex::captures`. Taken on trust:
/// whether the pattern compiles depends on the pattern alone, which the
/// name `regex_compiles` stands for, and what is found depends on the
/// pattern and the text alone, which the name `regex_captures` stands for.
#[verifier::external_body]
pub(crate) fn captures(pattern: &str, text: &str) -> (r: Result<
    Option<Vec<Option<String>>>,
    regex::Error,
>)
    ensures
        r is Ok <==> regex_compiles(pattern@),
        r matches Ok(found) ==> groups_view(found) == regex_captures(pattern@, text@),
{
    let re = regex::Regex::new(pattern)?;
    Ok(re.captures(text).map(|c| c.iter().map(|m| m.map(|m| m.as_str().to_owned())).collect()))
}

} // verus!
