//! Matching regular expressions, through the regex crate.
use vstd::prelude::*;

verus! {

/// The groups of one match: group 0 is the whole match, and a group that did
/// not take part in the match is `None`.
pub open spec fn groups_view(g: Seq<Option<String>>) -> Seq<Option<Seq<char>>> {
    Seq::new(
        g.len(),
        |i: int|
            match g[i] {
                Some(s) => Some(s@),
                None => None,
            },
    )
}

/// The groups of each match.
pub open spec fn matches_view(ms: Seq<Vec<Option<String>>>) -> Seq<Seq<Option<Seq<char>>>> {
    Seq::new(ms.len(), |i: int| groups_view(ms[i]@))
}

/// What the regex crate finds for the regular expression `pattern` in
/// `text`: the groups of each successive non-overlapping match, left to
/// right; `None` when `pattern` is not a valid regular expression.
pub uninterp spec fn regex_matches(pattern: Seq<char>, text: Seq<char>) -> Option<Seq<Seq<Option<Seq<char>>>>>;

/// Compiles `pattern` (`regex::Regex::new`) and collects the groups of each
/// match in `text` (`Regex::captures_iter`, `Captures::len`, `Captures::get`).
/// The result is what the regex crate computes, named `regex_matches`;
/// nothing more is stated of it.
#[verifier::external_body]
pub(crate) fn find_matches(pattern: &str, text: &str) -> (r: Option<Vec<Vec<Option<String>>>>)
    ensures
        r is None <==> regex_matches(pattern@, text@) is None,
        r matches Some(v) ==> regex_matches(pattern@, text@) == Some(matches_view(v@)),
{
    let re = regex::Regex::new(pattern).ok()?;
    Some(
        re.captures_iter(text)
            .map(|c| (0..c.len()).map(|i| c.get(i).map(|m| m.as_str().to_string())).collect())
            .collect(),
    )
}

} // verus!
