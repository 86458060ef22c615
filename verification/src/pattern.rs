//! The boundary to the regular-expression engine. The engine's behaviour is a
//! function of the pattern text and the haystack alone, so each outcome is
//! given a name here over the pattern text, and the trusted wrappers below
//! state their results over those names; everything downstream is verified
//! against them. Each query wrapper therefore takes the pattern text and
//! compiles it before running its one query: a compiled handle is opaque, so
//! no sound contract could connect it back to the text its results depend on.
//! Callers only hand in text that `compile_check` accepted, which keeps the
//! recompilation infallible.

use vstd::prelude::*;

verus! {

/// Name for what `regex::Regex::new` decides: whether the pattern text is
/// syntactically valid, a function of the text alone.
pub uninterp spec fn is_valid_pattern(pattern: Seq<char>) -> bool;

/// Name for what `regex::Regex::find_iter` yields on a haystack: the
/// successive non-overlapping matches in scan order, each as
/// (byte start, byte end, matched text), a function of the pattern text and
/// the haystack alone.
pub uninterp spec fn regex_found(pattern: Seq<char>, text: Seq<char>) -> Seq<(nat, nat, Seq<char>)>;

/// Name for what `regex::Regex::captures` yields on a haystack: absent when
/// the pattern does not match, otherwise the first match's capture-group texts
/// in group order, the whole-match group excluded and groups that did not
/// participate omitted.
pub uninterp spec fn regex_groups(pattern: Seq<char>, text: Seq<char>) -> Option<Seq<Seq<char>>>;

/// The mathematical content of a list of match records.
pub open spec fn found_views(ms: Seq<(usize, usize, String)>) -> Seq<(nat, nat, Seq<char>)> {
    ms.map_values(|m: (usize, usize, String)| (m.0 as nat, m.1 as nat, m.2@))
}

/// The mathematical content of an optional capture-group list.
pub open spec fn groups_views(groups: Option<Vec<String>>) -> Option<Seq<Seq<char>>> {
    match groups {
        Some(v) => Some(v.deep_view()),
        None => None,
    }
}

/// Relies on `regex::Regex::new`: whether a pattern compiles depends on its
/// text alone; on failure the engine's diagnostic is returned rendered.
#[verifier::external_body]
pub(crate) fn compile_check(pattern: &str) -> (r: Result<(), String>)
    ensures
        r is Ok <==> is_valid_pattern(pattern@),
{
    match regex::Regex::new(pattern) {
        Ok(_) => Ok(()),
        Err(e) => Err(e.to_string()),
    }
}

/// Relies on `regex::Regex::new` (the pattern is valid, so it compiles) and
/// `regex::Regex::is_match`: true iff the pattern matches somewhere in the
/// haystack, which holds exactly when `find_iter` would yield a match.
#[verifier::external_body]
pub(crate) fn pattern_is_match(pattern: &str, text: &str) -> (r: bool)
    requires
        is_valid_pattern(pattern@),
    ensures
        r == (regex_found(pattern@, text@).len() > 0),
{
    regex::Regex::new(pattern).unwrap().is_match(text)
}

/// Relies on `regex::Regex::new` (the pattern is valid, so it compiles) and
/// `regex::Regex::captures`: `Some` exactly when the pattern matches, carrying
/// the first match's participating capture groups, group 0 excluded.
#[verifier::external_body]
pub(crate) fn pattern_captures(pattern: &str, text: &str) -> (r: Option<Vec<String>>)
    requires
        is_valid_pattern(pattern@),
    ensures
        groups_views(r) == regex_groups(pattern@, text@),
        r is Some <==> (regex_found(pattern@, text@).len() > 0),
{
    let re = regex::Regex::new(pattern).unwrap();
    re.captures(text).map(
        |caps| caps.iter().skip(1).filter_map(|g| g.map(|m| m.as_str().to_string())).collect(),
    )
}

/// Relies on `regex::Regex::new` (the pattern is valid, so it compiles) and
/// `regex::Regex::find_iter`: every non-overlapping match in scan order, each
/// as (byte start, byte end, matched text).
#[verifier::external_body]
pub(crate) fn pattern_find_all(pattern: &str, text: &str) -> (r: Vec<(usize, usize, String)>)
    requires
        is_valid_pattern(pattern@),
    ensures
        found_views(r@) == regex_found(pattern@, text@),
{
    let re = regex::Regex::new(pattern).unwrap();
    re.find_iter(text).map(|m| (m.start(), m.end(), m.as_str().to_string())).collect()
}

} // verus!
