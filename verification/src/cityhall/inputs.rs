//! What a plan request reads from its change request: the target
//! deployables, the tier and the summary.

use vstd::prelude::*;
use crate::text::{trim, comma_items, views, trimmed, comma_list, owned};

verus! {

/// The strings of a JSON array of strings, when `s` is one (as
/// `serde_json::from_str::<Vec<String>>` reads it).
pub uninterp spec fn json_string_list(s: Seq<char>) -> Option<Seq<Seq<char>>>;

/// `s` read as a JSON array of strings.
#[verifier::external_body]
fn parse_json_strings(s: &str) -> (r: Option<Vec<String>>)
    ensures
        match r {
            Some(v) => json_string_list(s@) == Some(views(v@)),
            None => json_string_list(s@) is None,
        },
{
    serde_json::from_str::<Vec<String>>(s).ok()
}

/// The target deployables a change request lists: none when the field is
/// blank, the array's strings when it is a JSON array of strings, else its
/// comma-separated items (trimmed, empty ones dropped).
pub open spec fn targets_text(s: Seq<char>, parsed: Option<Seq<Seq<char>>>) -> Seq<Seq<char>> {
    if trim(s).len() == 0 {
        Seq::empty()
    } else {
        match parsed {
            Some(v) => v,
            None => comma_items(s),
        }
    }
}

/// The targets of field text `s`, given how it reads as a JSON array of
/// strings (`parsed`).
pub fn target_deployables_from(s: &str, parsed: Option<Vec<String>>) -> (r: Vec<String>)
    ensures
        views(r@) == targets_text(s@, match parsed { Some(v) => Some(views(v@)), None => None }),
{
    let t = trimmed(s);
    if t.as_str().is_empty() {
        let r: Vec<String> = Vec::new();
        assert(views(r@) =~= Seq::<Seq<char>>::empty());
        return r;
    }
    match parsed {
        Some(v) => v,
        None => comma_list(s),
    }
}

/// The target deployables of a change request's `target_deployables` text:
/// a JSON array of strings, or a comma-separated list.
pub fn parse_target_deployables(s: &str) -> (r: Vec<String>)
    ensures
        views(r@) == targets_text(s@, json_string_list(s@)),
{
    let t = trimmed(s);
    if t.as_str().is_empty() {
        let r: Vec<String> = Vec::new();
        assert(views(r@) =~= Seq::<Seq<char>>::empty());
        return r;
    }
    let parsed = parse_json_strings(s);
    target_deployables_from(s, parsed)
}

/// The tier a plan is computed for: the requested one, else the change
/// request's own, else `dev`.
pub fn resolve_tier(requested: Option<String>, stored: Option<String>) -> (t: String)
    ensures
        t@ == match (requested, stored) {
            (Some(r), _) => r@,
            (None, Some(s)) => s@,
            (None, None) => "dev"@,
        },
{
    match requested {
        Some(r) => r,
        None => match stored {
            Some(s) => s,
            None => owned("dev"),
        },
    }
}

} // verus!
