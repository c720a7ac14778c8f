//! The Groundwork catalogue tools: which entities they serve, how they read
//! their arguments, and the name search.

use vstd::prelude::*;
use crate::json::{JsonField, member_text, member_uint, text_member, uint_member};
use crate::text::{owned, append, join, views, join_with, contains_seq, contains_str, lowercase, to_lower,
    str_debug, debug_text, eq_str};
use crate::union::rollups::{Envelope, field_text, payload_str, envelope_view, envelope_views, kept};

verus! {

/// The entity kinds the catalogue tools serve.
pub open spec fn entities() -> Seq<Seq<char>> {
    seq!["deployable"@, "service"@, "exposes"@, "dependency"@, "contract"@, "sla"@]
}

fn entity_names() -> (v: Vec<&'static str>)
    ensures
        v@.map_values(|s: &'static str| s@) == entities(),
{
    let v = vec!["deployable", "service", "exposes", "dependency", "contract", "sla"];
    assert(v@.map_values(|s: &'static str| s@) =~= entities());
    v
}

/// The message for an entity kind the tools do not serve, from the `{:?}`
/// texts of the kinds and of the value.
pub open spec fn bad_entity_text(kinds_debug: Seq<Seq<char>>, got_debug: Seq<char>) -> Seq<char> {
    "entity must be one of ["@ + join(kinds_debug, ", "@) + "], got "@ + got_debug
}

/// The `entity` argument: its text when it names a served kind; an error
/// when it is missing (or not text) or names another kind.
pub fn entity_arg(args: &Vec<(String, JsonField)>) -> (r: Result<String, String>)
    ensures
        match member_text(args@, "entity"@) {
            None => r matches Err(m) && m@ == "missing 'entity' argument"@,
            Some(e) => if entities().contains(e) {
                r matches Ok(s) && s@ == e
            } else {
                r matches Err(m) && m@ == bad_entity_text(entities().map_values(|k: Seq<char>| str_debug(k)), str_debug(e))
            },
        },
{
    let e = match text_member(args, "entity") {
        Some(e) => e,
        None => return Err(owned("missing 'entity' argument")),
    };
    let kinds = entity_names();
    let mut found = false;
    let mut k: usize = 0;
    while k < kinds.len()
        invariant
            k <= kinds@.len(),
            kinds@.map_values(|s: &'static str| s@) == entities(),
            found <==> exists|q: int| 0 <= q < k && #[trigger] entities()[q] == e@,
        decreases kinds@.len() - k,
    {
        assert(entities()[k as int] == kinds@[k as int]@);
        if eq_str(kinds[k], e.as_str()) {
            found = true;
        }
        k = k + 1;
    }
    if found {
        return Ok(e);
    }
    let mut ds: Vec<String> = Vec::new();
    let mut k: usize = 0;
    while k < kinds.len()
        invariant
            k <= kinds@.len(),
            kinds@.map_values(|s: &'static str| s@) == entities(),
            ds@.len() == k,
            forall|q: int| 0 <= q < k ==> (#[trigger] ds@[q])@ == str_debug(entities()[q]),
        decreases kinds@.len() - k,
    {
        assert(entities()[k as int] == kinds@[k as int]@);
        ds.push(debug_text(kinds[k]));
        k = k + 1;
    }
    assert(views(ds@) =~= entities().map_values(|x: Seq<char>| str_debug(x)));
    let mut m = owned("entity must be one of [");
    let j = join_with(&ds, ", ");
    append(&mut m, j.as_str());
    append(&mut m, "], got ");
    let g = debug_text(e.as_str());
    append(&mut m, g.as_str());
    Err(m)
}

/// The `depth` argument when it is a non-negative integer, else `default`.
pub fn depth_arg(args: &Vec<(String, JsonField)>, default: usize) -> (d: usize)
    ensures
        d == match member_uint(args@, "depth"@) {
            Some(n) => n as usize,
            None => default,
        },
{
    match uint_member(args, "depth") {
        Some(n) => n as usize,
        None => default,
    }
}

/// A record's name: the payload's `name`, else the top-level one, else
/// empty.
pub fn name_of(env: &Envelope) -> (n: String)
    ensures
        n@ == field_text(*env, "name"@),
{
    payload_str(env, "name")
}

/// Record `e` matches a search for `needle`: its name contains the needle,
/// case ignored.
pub open spec fn name_matches(e: Envelope, needle: Seq<char>) -> bool {
    contains_seq(lowercase(field_text(e, "name"@)), lowercase(needle))
}

/// Which records a search keeps.
pub open spec fn search_keep(needle: Option<String>) -> spec_fn(Envelope) -> bool {
    match needle {
        Some(n) => |e: Envelope| name_matches(e, n@),
        None => |e: Envelope| true,
    }
}

/// The records a name search returns: all of them without a needle, else
/// those whose name contains it (case ignored), in order.
pub fn search_records(records: &Vec<Envelope>, needle: &Option<String>) -> (r: Vec<Envelope>)
    ensures
        envelope_views(r@) == match *needle {
            None => envelope_views(records@),
            Some(n) => envelope_views(kept(records@, |e: Envelope| name_matches(e, n@), records@.len() as int)),
        },
{
    let ghost keep = search_keep(*needle);
    let lower = match needle {
        Some(n) => Some(to_lower(n.as_str())),
        None => None,
    };
    let mut r: Vec<Envelope> = Vec::new();
    let mut k: usize = 0;
    while k < records.len()
        invariant
            k <= records@.len(),
            keep == search_keep(*needle),
            match *needle {
                Some(n) => lower matches Some(l) && l@ == lowercase(n@),
                None => lower is None,
            },
            envelope_views(r@) == envelope_views(kept(records@, keep, k as int)),
        decreases records@.len() - k,
    {
        let take = match &lower {
            Some(l) => {
                let nm = name_of(&records[k]);
                let ln = to_lower(nm.as_str());
                contains_str(ln.as_str(), l.as_str())
            },
            None => true,
        };
        if take {
            let c = crate::union::rollups::copy_envelope(&records[k]);
            let ghost before = envelope_views(r@);
            r.push(c);
            assert(envelope_views(r@) =~= before.push(envelope_view(records@[k as int])));
            assert(envelope_views(kept(records@, keep, k + 1)) =~= envelope_views(kept(records@, keep, k as int)).push(
                envelope_view(records@[k as int]),
            ));
        }
        k = k + 1;
    }
    proof {
        if needle is None {
            lemma_kept_all(records@, keep, records@.len() as int);
            assert(records@.take(records@.len() as int) =~= records@);
        }
    }
    r
}

proof fn lemma_kept_all(rows: Seq<Envelope>, keep: spec_fn(Envelope) -> bool, k: int)
    requires
        0 <= k <= rows.len(),
        forall|e: Envelope| #[trigger] keep(e),
    ensures
        envelope_views(kept(rows, keep, k)) == envelope_views(rows.take(k)),
    decreases k,
{
    if k > 0 {
        lemma_kept_all(rows, keep, k - 1);
        assert(rows.take(k) =~= rows.take(k - 1).push(rows[k - 1]));
        assert(envelope_views(rows.take(k)) =~= envelope_views(rows.take(k - 1)).push(envelope_view(rows[k - 1])));
        assert(envelope_views(kept(rows, keep, k)) =~= envelope_views(kept(rows, keep, k - 1)).push(envelope_view(rows[k - 1])));
    } else {
        assert(envelope_views(kept(rows, keep, 0)) =~= envelope_views(rows.take(0)));
    }
}

} // verus!
