use vstd::prelude::*;
use crate::lexeme::lexeme_views;

verus! {

#[verifier::external_type_specification]
#[verifier::external_body]
pub struct ExRegexError(regex::Error);

/// Whether `regex::Regex::new` accepts a pattern; this depends on the pattern
/// alone.
pub uninterp spec fn regex_valid(pattern: Seq<char>) -> bool;

/// The successive leftmost-first, non-overlapping matches that
/// `regex::Regex::find_iter` yields for a pattern on a text, each as its
/// characters; this depends on the pattern and the text alone.
pub uninterp spec fn regex_find_all(pattern: Seq<char>, text: Seq<char>) -> Seq<Seq<char>>;

/// Relies on `regex::Regex::new`, which fails exactly on the patterns it
/// does not accept, and on `regex::Regex::find_iter`, whose matches are
/// handed back in order, each as the characters of `Match::as_str`.
#[verifier::external_body]
pub(crate) fn find_all(pattern: &str, text: &str) -> (r: Result<Vec<Vec<char>>, regex::Error>)
    ensures
        r is Ok <==> regex_valid(pattern@),
        r matches Ok(v) ==> lexeme_views(v@) == regex_find_all(pattern@, text@),
{
    let re = regex::Regex::new(pattern)?;
    Ok(re.find_iter(text).map(|m| m.as_str().chars().collect()).collect())
}

} // verus!
