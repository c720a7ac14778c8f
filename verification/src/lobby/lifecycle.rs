//! What each step of an advisory's life writes: the fields a raise, a
//! refresh, a re-raise or a resolution sets on the advisory, the fields a
//! person's acknowledge, dismiss, escalate or assign sets, and the
//! lifecycle entry and comment records that go with them.
//!
//! Each function returns the writes as `(field, value)` pairs, in order; a
//! value of none clears the field. The engine applies them to the stored
//! payload, later writes replacing earlier ones.

use vstd::prelude::*;
use crate::text::{owned, append, join, join_with, views, opt_view, decimal};
use crate::lobby::rules::{DerivedAdvisory, severity_name};
use crate::lobby::engine::{next_re_raise_count, prior_count};

verus! {

/// The writes, as character sequences.
pub open spec fn fields_view(v: Seq<(String, Option<String>)>) -> Seq<(Seq<char>, Option<Seq<char>>)> {
    v.map_values(|f: (String, Option<String>)| (f.0@, opt_view(f.1)))
}

/// The `last_action` text for `action` at `now`.
pub open spec fn last_action_text(action: Seq<char>, now: Seq<char>) -> Seq<char> {
    action + "@"@ + now
}

/// `caused_by` as it is stored: the ids joined by commas.
pub open spec fn caused_by_text(d: DerivedAdvisory) -> Seq<char> {
    join(views(d.caused_by@), ","@)
}

fn set(key: &str, value: &str) -> (f: (String, Option<String>))
    ensures
        f.0@ == key@,
        opt_view(f.1) == Some(value@),
{
    (owned(key), Some(owned(value)))
}

fn set_owned(key: &str, value: String) -> (f: (String, Option<String>))
    ensures
        f.0@ == key@,
        opt_view(f.1) == Some(value@),
{
    (owned(key), Some(value))
}

fn clear(key: &str) -> (f: (String, Option<String>))
    ensures
        f.0@ == key@,
        f.1 is None,
{
    (owned(key), None)
}

/// `action@now`.
pub fn last_action(action: &str, now: &str) -> (s: String)
    ensures
        s@ == last_action_text(action@, now@),
{
    let mut s = owned(action);
    append(&mut s, "@");
    append(&mut s, now);
    s
}

/// The payload of a newly raised advisory.
pub open spec fn raise_writes(d: DerivedAdvisory, now: Seq<char>) -> Seq<(Seq<char>, Option<Seq<char>>)> {
    seq![
        ("kind"@, Some(d.kind@)),
        ("subject_type"@, Some(d.subject_type@)),
        ("subject_id"@, Some(d.subject_id@)),
        ("subject_name"@, Some(d.subject_name@)),
        ("severity"@, Some(severity_name(d.severity))),
        ("state"@, Some("raised"@)),
        ("rule"@, Some(d.rule@)),
        ("explain"@, Some(d.explain@)),
        ("caused_by"@, Some(caused_by_text(d))),
        ("raised_at"@, Some(now)),
        ("re_raise_count"@, Some("0"@)),
        ("last_action"@, Some(last_action_text("raise"@, now))),
    ]
}

/// The payload of a new advisory raised at `now`: what the rule derived,
/// in state `raised`, never re-raised.
pub fn raise_fields(d: &DerivedAdvisory, now: &str) -> (r: Vec<(String, Option<String>)>)
    ensures
        fields_view(r@) == raise_writes(*d, now@),
{
    let mut r: Vec<(String, Option<String>)> = Vec::new();
    r.push(set("kind", d.kind));
    r.push(set("subject_type", d.subject_type));
    r.push(set("subject_id", d.subject_id.as_str()));
    r.push(set("subject_name", d.subject_name.as_str()));
    r.push(set("severity", d.severity.as_str()));
    r.push(set("state", "raised"));
    r.push(set("rule", d.rule));
    r.push(set("explain", d.explain.as_str()));
    r.push(set_owned("caused_by", join_with(&d.caused_by, ",")));
    r.push(set("raised_at", now));
    r.push(set("re_raise_count", "0"));
    r.push(set_owned("last_action", last_action("raise", now)));
    assert(fields_view(r@) =~= raise_writes(*d, now@));
    r
}

/// The writes that refresh an advisory still wanted.
pub open spec fn refresh_writes(d: DerivedAdvisory) -> Seq<(Seq<char>, Option<Seq<char>>)> {
    seq![("explain"@, Some(d.explain@)), ("caused_by"@, Some(caused_by_text(d)))]
}

/// Refresh an advisory the rule still wants: its explanation and causes,
/// leaving its state alone.
pub fn refresh_fields(d: &DerivedAdvisory) -> (r: Vec<(String, Option<String>)>)
    ensures
        fields_view(r@) == refresh_writes(*d),
{
    let mut r: Vec<(String, Option<String>)> = Vec::new();
    r.push(set("explain", d.explain.as_str()));
    r.push(set_owned("caused_by", join_with(&d.caused_by, ",")));
    assert(fields_view(r@) =~= refresh_writes(*d));
    r
}

/// The writes that re-raise an advisory whose stored re-raise count is
/// `stored`.
pub open spec fn re_raise_writes(d: DerivedAdvisory, now: Seq<char>, stored: Option<Seq<char>>) -> Seq<
    (Seq<char>, Option<Seq<char>>),
> {
    seq![
        ("state"@, Some("raised"@)),
        ("explain"@, Some(d.explain@)),
        ("caused_by"@, Some(caused_by_text(d))),
        ("raised_at"@, Some(now)),
        ("dismissed_at"@, None),
        ("resolved_at"@, None),
        ("re_raise_count"@, Some(decimal(prior_count(stored) + 1))),
        ("last_action"@, Some(last_action_text("re-raise"@, now))),
    ]
}

/// Re-raise a dismissed or resolved advisory the rule wants again: back to
/// `raised` at `now`, its dismissal and resolution times cleared, its
/// re-raise count one more than the stored one (a missing or unreadable
/// count counts as zero).
pub fn re_raise_fields(d: &DerivedAdvisory, now: &str, stored_count: &Option<String>) -> (r: Vec<(String, Option<String>)>)
    requires
        prior_count(opt_view(*stored_count)) < u32::MAX,
    ensures
        fields_view(r@) == re_raise_writes(*d, now@, opt_view(*stored_count)),
{
    let mut r: Vec<(String, Option<String>)> = Vec::new();
    r.push(set("state", "raised"));
    r.push(set("explain", d.explain.as_str()));
    r.push(set_owned("caused_by", join_with(&d.caused_by, ",")));
    r.push(set("raised_at", now));
    r.push(clear("dismissed_at"));
    r.push(clear("resolved_at"));
    r.push(set_owned("re_raise_count", next_re_raise_count(stored_count)));
    r.push(set_owned("last_action", last_action("re-raise", now)));
    assert(fields_view(r@) =~= re_raise_writes(*d, now@, opt_view(*stored_count)));
    r
}

/// The writes that resolve an advisory at `now`.
pub open spec fn resolve_writes(now: Seq<char>) -> Seq<(Seq<char>, Option<Seq<char>>)> {
    seq![
        ("state"@, Some("resolved"@)),
        ("resolved_at"@, Some(now)),
        ("last_action"@, Some(last_action_text("resolve"@, now))),
    ]
}

/// Resolve an advisory the rules stopped wanting.
pub fn resolve_fields(now: &str) -> (r: Vec<(String, Option<String>)>)
    ensures
        fields_view(r@) == resolve_writes(now@),
{
    let mut r: Vec<(String, Option<String>)> = Vec::new();
    r.push(set("state", "resolved"));
    r.push(set("resolved_at", now));
    r.push(set_owned("last_action", last_action("resolve", now)));
    assert(fields_view(r@) =~= resolve_writes(now@));
    r
}

/// The writes of a person acknowledging an advisory at `now`.
pub open spec fn acknowledge_writes(now: Seq<char>) -> Seq<(Seq<char>, Option<Seq<char>>)> {
    seq![
        ("state"@, Some("acknowledged"@)),
        ("acknowledged_at"@, Some(now)),
        ("last_action"@, Some(last_action_text("acknowledge"@, now))),
    ]
}

/// A person acknowledges an advisory.
pub fn acknowledge_fields(now: &str) -> (r: Vec<(String, Option<String>)>)
    ensures
        fields_view(r@) == acknowledge_writes(now@),
{
    let mut r: Vec<(String, Option<String>)> = Vec::new();
    r.push(set("state", "acknowledged"));
    r.push(set("acknowledged_at", now));
    r.push(set_owned("last_action", last_action("acknowledge", now)));
    assert(fields_view(r@) =~= acknowledge_writes(now@));
    r
}

/// The writes of a person dismissing an advisory at `now`, with a reason
/// and an optional note.
pub open spec fn dismiss_writes(now: Seq<char>, reason: Seq<char>, note: Option<Seq<char>>) -> Seq<
    (Seq<char>, Option<Seq<char>>),
> {
    let head = seq![
        ("state"@, Some("dismissed"@)),
        ("dismissed_at"@, Some(now)),
        ("dismiss_reason"@, Some(reason)),
    ];
    let with_note = match note {
        Some(n) => head.push(("dismiss_note"@, Some(n))),
        None => head,
    };
    with_note.push(("last_action"@, Some(last_action_text("dismiss"@, now))))
}

/// A person dismisses an advisory, giving a reason and perhaps a note.
pub fn dismiss_fields(now: &str, reason: &str, note: Option<&str>) -> (r: Vec<(String, Option<String>)>)
    ensures
        fields_view(r@) == dismiss_writes(now@, reason@, match note {
            Some(n) => Some(n@),
            None => None,
        }),
{
    let mut r: Vec<(String, Option<String>)> = Vec::new();
    r.push(set("state", "dismissed"));
    r.push(set("dismissed_at", now));
    r.push(set("dismiss_reason", reason));
    match note {
        Some(n) => r.push(set("dismiss_note", n)),
        None => {},
    }
    r.push(set_owned("last_action", last_action("dismiss", now)));
    assert(fields_view(r@) =~= dismiss_writes(now@, reason@, match note {
        Some(n) => Some(n@),
        None => None,
    }));
    r
}

/// The writes of a person escalating an advisory to `to` at `now`.
pub open spec fn escalate_writes(now: Seq<char>, to: Seq<char>) -> Seq<(Seq<char>, Option<Seq<char>>)> {
    seq![("escalated_to"@, Some(to)), ("last_action"@, Some(last_action_text("escalate"@, now)))]
}

/// A person escalates an advisory; its state is left alone.
pub fn escalate_fields(now: &str, to: &str) -> (r: Vec<(String, Option<String>)>)
    ensures
        fields_view(r@) == escalate_writes(now@, to@),
{
    let mut r: Vec<(String, Option<String>)> = Vec::new();
    r.push(set("escalated_to", to));
    r.push(set_owned("last_action", last_action("escalate", now)));
    assert(fields_view(r@) =~= escalate_writes(now@, to@));
    r
}

/// The writes of a person assigning an advisory to `assignee` at `now`.
pub open spec fn assign_writes(now: Seq<char>, assignee: Seq<char>) -> Seq<(Seq<char>, Option<Seq<char>>)> {
    seq![("assignee"@, Some(assignee)), ("last_action"@, Some(last_action_text("assign"@, now)))]
}

/// A person assigns an advisory; its state is left alone.
pub fn assign_fields(now: &str, assignee: &str) -> (r: Vec<(String, Option<String>)>)
    ensures
        fields_view(r@) == assign_writes(now@, assignee@),
{
    let mut r: Vec<(String, Option<String>)> = Vec::new();
    r.push(set("assignee", assignee));
    r.push(set_owned("last_action", last_action("assign", now)));
    assert(fields_view(r@) =~= assign_writes(now@, assignee@));
    r
}

/// Refreshing an advisory the rules still want, escalating it and assigning
/// it leave its state alone: none of them writes `state`.
pub proof fn lemma_state_kept(d: DerivedAdvisory, now: Seq<char>, to: Seq<char>, assignee: Seq<char>)
    ensures
        forall|k: int| 0 <= k < refresh_writes(d).len() ==> (#[trigger] refresh_writes(d)[k]).0 != "state"@,
        forall|k: int| 0 <= k < escalate_writes(now, to).len() ==> (#[trigger] escalate_writes(now, to)[k]).0 != "state"@,
        forall|k: int| 0 <= k < assign_writes(now, assignee).len() ==> (#[trigger] assign_writes(now, assignee)[k]).0 != "state"@,
{
    reveal_strlit("state");
    reveal_strlit("explain");
    reveal_strlit("caused_by");
    reveal_strlit("escalated_to");
    reveal_strlit("assignee");
    reveal_strlit("last_action");
    assert("state"@.len() == 5);
    assert("explain"@.len() == 7);
    assert("caused_by"@.len() == 9);
    assert("escalated_to"@.len() == 12);
    assert("assignee"@.len() == 8);
    assert("last_action"@.len() == 11);
}

/// A lifecycle entry: which advisory, when, who (`actor_type` is `system`
/// or `user`), what, and an optional reason and note.
pub open spec fn lifecycle_writes(
    advisory_id: Seq<char>,
    now: Seq<char>,
    actor_type: Seq<char>,
    actor_id: Seq<char>,
    action: Seq<char>,
    reason: Option<Seq<char>>,
    note: Option<Seq<char>>,
) -> Seq<(Seq<char>, Option<Seq<char>>)> {
    let head = seq![
        ("advisory_id"@, Some(advisory_id)),
        ("at"@, Some(now)),
        ("actor_type"@, Some(actor_type)),
        ("actor_id"@, Some(actor_id)),
        ("action"@, Some(action)),
    ];
    let with_reason = match reason {
        Some(r) => head.push(("reason"@, Some(r))),
        None => head,
    };
    match note {
        Some(n) => with_reason.push(("note"@, Some(n))),
        None => with_reason,
    }
}

/// The lifecycle entry recording `action` on an advisory.
pub fn lifecycle_fields(
    advisory_id: &str,
    now: &str,
    actor_type: &str,
    actor_id: &str,
    action: &str,
    reason: Option<&str>,
    note: Option<&str>,
) -> (r: Vec<(String, Option<String>)>)
    ensures
        fields_view(r@) == lifecycle_writes(
            advisory_id@,
            now@,
            actor_type@,
            actor_id@,
            action@,
            match reason {
                Some(x) => Some(x@),
                None => None,
            },
            match note {
                Some(x) => Some(x@),
                None => None,
            },
        ),
{
    let mut r: Vec<(String, Option<String>)> = Vec::new();
    r.push(set("advisory_id", advisory_id));
    r.push(set("at", now));
    r.push(set("actor_type", actor_type));
    r.push(set("actor_id", actor_id));
    r.push(set("action", action));
    match reason {
        Some(x) => r.push(set("reason", x)),
        None => {},
    }
    match note {
        Some(x) => r.push(set("note", x)),
        None => {},
    }
    assert(fields_view(r@) =~= lifecycle_writes(
        advisory_id@,
        now@,
        actor_type@,
        actor_id@,
        action@,
        match reason {
            Some(x) => Some(x@),
            None => None,
        },
        match note {
            Some(x) => Some(x@),
            None => None,
        },
    ));
    r
}

/// A comment on an advisory.
pub open spec fn comment_writes(advisory_id: Seq<char>, author: Seq<char>, body: Seq<char>, now: Seq<char>) -> Seq<
    (Seq<char>, Option<Seq<char>>),
> {
    seq![
        ("advisory_id"@, Some(advisory_id)),
        ("author"@, Some(author)),
        ("body"@, Some(body)),
        ("at"@, Some(now)),
    ]
}

/// The record of a person's comment on an advisory.
pub fn comment_fields(advisory_id: &str, author: &str, body: &str, now: &str) -> (r: Vec<(String, Option<String>)>)
    ensures
        fields_view(r@) == comment_writes(advisory_id@, author@, body@, now@),
{
    let mut r: Vec<(String, Option<String>)> = Vec::new();
    r.push(set("advisory_id", advisory_id));
    r.push(set("author", author));
    r.push(set("body", body));
    r.push(set("at", now));
    assert(fields_view(r@) =~= comment_writes(advisory_id@, author@, body@, now@));
    r
}

} // verus!
