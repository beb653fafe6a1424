use vstd::prelude::*;

verus! {

/// Whether the regular-expression pattern compiles.
pub uninterp spec fn regex_valid(pattern: Seq<char>) -> bool;

/// Whether the compiled pattern matches somewhere in the text.
pub uninterp spec fn regex_match(pattern: Seq<char>, text: Seq<char>) -> bool;

/// The capture groups of every non-overlapping match of the pattern in the
/// text, in match order: `None` when the pattern does not match at all;
/// otherwise one entry per group after each match's implicit whole-match
/// group, `None` for a group that did not participate in its match.
pub uninterp spec fn regex_captures_of(pattern: Seq<char>, text: Seq<char>) -> Option<
    Seq<Option<Seq<char>>>,
>;

/// Relies on regex::Regex::new and regex::Regex::is_match: whether a pattern
/// compiles depends on the pattern alone, and whether it matches depends on
/// the pattern and the text alone. Returns `None` exactly when the pattern
/// does not compile.
#[verifier::external_body]
pub fn regex_is_match(pattern: &str, text: &str) -> (r: Option<bool>)
    ensures
        r is Some <==> regex_valid(pattern@),
        r is Some ==> r->0 == regex_match(pattern@, text@),
{
    match regex::Regex::new(pattern) {
        Ok(re) => Some(re.is_match(text)),
        Err(_) => None,
    }
}

/// Relies on regex::Regex::new and regex::Regex::captures_iter: the groups
/// of the non-overlapping matches depend on the pattern and the text alone.
/// Returns `None` when the pattern does not compile or does not match; the
/// two cases are not told apart, as callers treat them alike.
#[verifier::external_body]
pub fn regex_capture_groups(pattern: &str, text: &str) -> (r: Option<Vec<Option<String>>>)
    ensures
        regex_valid(pattern@) && regex_captures_of(pattern@, text@) is Some ==> r is Some
            && r->0.deep_view() == regex_captures_of(pattern@, text@)->0,
        regex_valid(pattern@) && regex_captures_of(pattern@, text@) is None ==> r is None,
        !regex_valid(pattern@) ==> r is None,
{
    let re = match regex::Regex::new(pattern) {
        Ok(re) => re,
        Err(_) => return None,
    };
    let mut out: Vec<Option<String>> = Vec::new();
    let mut matched = false;
    for caps in re.captures_iter(text) {
        matched = true;
        out.extend(caps.iter().skip(1).map(|m| m.map(|s| s.as_str().to_string())));
    }
    if matched { Some(out) } else { None }
}

} // verus!
