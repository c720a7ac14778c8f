//! The rollups across Union's entity lists: a team's load, its members,
//! and a person's open assignments.
//!
//! Entities arrive as envelopes: an id and user fields nested under
//! `payload`, though some endpoints flatten the fields to the top level.

use vstd::prelude::*;
use crate::text::eq_str;
pub use crate::json::JsonField;
use crate::json::{member_text, member_int, text_member, int_member};

verus! {

/// An entity envelope: its top-level members other than `payload`, and
/// the members of `payload` when that is an object.
#[derive(Debug, Clone, PartialEq)]
pub struct Envelope {
    pub fields: Vec<(String, JsonField)>,
    pub payload: Option<Vec<(String, JsonField)>>,
}

/// The envelope's id, or empty.
pub open spec fn id_of(e: Envelope) -> Seq<char> {
    match member_text(e.fields@, "id"@) {
        Some(s) => s,
        None => Seq::empty(),
    }
}

/// Field `key`: the payload's text when it has one, else the top-level
/// text, else empty.
pub open spec fn field_text(e: Envelope, key: Seq<char>) -> Seq<char> {
    match e.payload {
        Some(p) if member_text(p@, key) is Some => member_text(p@, key).unwrap(),
        _ => match member_text(e.fields@, key) {
            Some(s) => s,
            None => Seq::empty(),
        },
    }
}

/// Field `key` as an integer: the payload's when it has one, else the
/// top-level one, else 0 (missing, null and other types count as 0).
pub open spec fn field_int(e: Envelope, key: Seq<char>) -> i64 {
    match e.payload {
        Some(p) if member_int(p@, key) is Some => member_int(p@, key).unwrap(),
        _ => match member_int(e.fields@, key) {
            Some(n) => n,
            None => 0,
        },
    }
}

/// The envelope's id, or empty.
pub fn env_id(env: &Envelope) -> (r: String)
    ensures
        r@ == id_of(*env),
{
    match text_member(&env.fields, "id") {
        Some(s) => s,
        None => String::new(),
    }
}

/// Read field `key` as text, nested under `payload` or flat.
pub fn payload_str(env: &Envelope, key: &str) -> (r: String)
    ensures
        r@ == field_text(*env, key@),
{
    match &env.payload {
        Some(p) => match text_member(p, key) {
            Some(s) => return s,
            None => {},
        },
        None => {},
    }
    match text_member(&env.fields, key) {
        Some(s) => s,
        None => String::new(),
    }
}

/// Read field `key` as an integer, nested under `payload` or flat; 0 when
/// missing, null or not an integer.
pub fn payload_i64(env: &Envelope, key: &str) -> (r: i64)
    ensures
        r == field_int(*env, key@),
{
    match &env.payload {
        Some(p) => match int_member(p, key) {
            Some(n) => return n,
            None => {},
        },
        None => {},
    }
    match int_member(&env.fields, key) {
        Some(n) => n,
        None => 0,
    }
}

// ── copies ──────────────────────────────────────────────────────────────────

fn copy_members(m: &Vec<(String, JsonField)>) -> (r: Vec<(String, JsonField)>)
    ensures
        r@ == m@,
{
    let mut r: Vec<(String, JsonField)> = Vec::new();
    let mut k: usize = 0;
    while k < m.len()
        invariant
            k <= m@.len(),
            r@ == m@.take(k as int),
        decreases m@.len() - k,
    {
        let v = match &m[k].1 {
            JsonField::Text(s) => JsonField::Text(s.clone()),
            JsonField::Integer(n) => JsonField::Integer(*n),
            JsonField::Other => JsonField::Other,
        };
        r.push((m[k].0.clone(), v));
        assert(r@ =~= m@.take(k + 1));
        k = k + 1;
    }
    assert(m@.take(m@.len() as int) =~= m@);
    r
}

/// An envelope's members, top-level and nested.
pub open spec fn envelope_view(e: Envelope) -> (Seq<(String, JsonField)>, Option<Seq<(String, JsonField)>>) {
    (e.fields@, match e.payload {
        Some(p) => Some(p@),
        None => None,
    })
}

/// The members of each envelope.
pub open spec fn envelope_views(s: Seq<Envelope>) -> Seq<(Seq<(String, JsonField)>, Option<Seq<(String, JsonField)>>)> {
    s.map_values(|e: Envelope| envelope_view(e))
}

pub(crate) fn copy_envelope(e: &Envelope) -> (r: Envelope)
    ensures
        envelope_view(r) == envelope_view(*e),
{
    let payload = match &e.payload {
        Some(p) => Some(copy_members(p)),
        None => None,
    };
    Envelope { fields: copy_members(&e.fields), payload }
}

// ── rollups ─────────────────────────────────────────────────────────────────

/// How loaded a team is.
#[derive(Debug, Clone)]
pub struct TeamCapacity {
    pub team_id: String,
    pub team_name: String,
    pub points_in_flight: i64,
    pub open_work_order_count: u64,
    pub member_count: u64,
}

/// A work order of the team that is not done.
pub open spec fn open_for_team(wo: Envelope, team_id: Seq<char>) -> bool {
    field_text(wo, "team_id"@) == team_id && field_text(wo, "status"@) != "done"@
}

/// The story points of the first `k` open work orders of the team.
pub open spec fn points_upto(wos: Seq<Envelope>, team_id: Seq<char>, k: int) -> int
    decreases k,
{
    if k <= 0 {
        0
    } else if open_for_team(wos[k - 1], team_id) {
        points_upto(wos, team_id, k - 1) + field_int(wos[k - 1], "story_points"@)
    } else {
        points_upto(wos, team_id, k - 1)
    }
}

/// How many of the first `k` work orders are open for the team.
pub open spec fn open_upto(wos: Seq<Envelope>, team_id: Seq<char>, k: int) -> nat
    decreases k,
{
    if k <= 0 {
        0
    } else if open_for_team(wos[k - 1], team_id) {
        open_upto(wos, team_id, k - 1) + 1
    } else {
        open_upto(wos, team_id, k - 1)
    }
}

/// How many of the first `k` team-member rows belong to the team.
pub open spec fn members_upto(ms: Seq<Envelope>, team_id: Seq<char>, k: int) -> nat
    decreases k,
{
    if k <= 0 {
        0
    } else if field_text(ms[k - 1], "team_id"@) == team_id {
        members_upto(ms, team_id, k - 1) + 1
    } else {
        members_upto(ms, team_id, k - 1)
    }
}

/// Index of the first team with id `team_id`, or -1.
pub open spec fn team_index(teams: Seq<Envelope>, team_id: Seq<char>, k: int) -> int
    decreases teams.len() - k,
{
    if k < 0 || k >= teams.len() {
        -1
    } else if id_of(teams[k]) == team_id {
        k
    } else {
        team_index(teams, team_id, k + 1)
    }
}

/// The running total of story points stays within `i64`.
pub open spec fn points_fit(wos: Seq<Envelope>, team_id: Seq<char>) -> bool {
    forall|k: int| 0 <= k <= wos.len() ==> i64::MIN <= #[trigger] points_upto(wos, team_id, k) <= i64::MAX
}

/// Whether the running total of the team's story points stays within
/// `i64` (see [`points_fit`]).
pub fn points_in_range(work_orders: &Vec<Envelope>, team_id: &str) -> (r: bool)
    ensures
        r == points_fit(work_orders@, team_id@),
{
    let mut acc: i128 = 0;
    let mut k: usize = 0;
    while k < work_orders.len()
        invariant
            k <= work_orders@.len(),
            acc == points_upto(work_orders@, team_id@, k as int),
            forall|j: int| 0 <= j <= k ==> i64::MIN <= #[trigger] points_upto(work_orders@, team_id@, j) <= i64::MAX,
        decreases work_orders@.len() - k,
    {
        let wo = &work_orders[k];
        let tid = payload_str(wo, "team_id");
        let status = payload_str(wo, "status");
        if eq_str(tid.as_str(), team_id) && !eq_str(status.as_str(), "done") {
            let sp = payload_i64(wo, "story_points");
            acc = acc + sp as i128;
        }
        assert(acc == points_upto(work_orders@, team_id@, k + 1));
        if acc < i64::MIN as i128 || acc > i64::MAX as i128 {
            return false;
        }
        k = k + 1;
    }
    true
}

/// A team's load: the story points across its open (not `done`) work
/// orders, how many those are, and how many members it has; with the
/// team's name (empty when the team is not listed).
pub fn team_capacity(
    team_id: &str,
    teams: &Vec<Envelope>,
    work_orders: &Vec<Envelope>,
    members: &Vec<Envelope>,
) -> (c: TeamCapacity)
    requires
        points_fit(work_orders@, team_id@),
    ensures
        c.team_id@ == team_id@,
        c.team_name@ == ({
            let i = team_index(teams@, team_id@, 0);
            if i >= 0 { field_text(teams@[i], "name"@) } else { Seq::empty() }
        }),
        c.points_in_flight == points_upto(work_orders@, team_id@, work_orders@.len() as int),
        c.open_work_order_count == open_upto(work_orders@, team_id@, work_orders@.len() as int),
        c.member_count == members_upto(members@, team_id@, members@.len() as int),
{
    let mut k: usize = 0;
    while k < teams.len()
        invariant
            k <= teams@.len(),
            team_index(teams@, team_id@, 0) == team_index(teams@, team_id@, k as int),
        ensures
            k <= teams@.len(),
            team_index(teams@, team_id@, 0) == if k < teams@.len() { k as int } else { -1 },
        decreases teams@.len() - k,
    {
        let id = env_id(&teams[k]);
        if eq_str(id.as_str(), team_id) {
            break;
        }
        k = k + 1;
    }
    let team_name = if k < teams.len() { payload_str(&teams[k], "name") } else { String::new() };
    let mut points: i64 = 0;
    let mut open: u64 = 0;
    let mut k: usize = 0;
    while k < work_orders.len()
        invariant
            k <= work_orders@.len(),
            points_fit(work_orders@, team_id@),
            points == points_upto(work_orders@, team_id@, k as int),
            open == open_upto(work_orders@, team_id@, k as int),
            open <= k,
        decreases work_orders@.len() - k,
    {
        let wo = &work_orders[k];
        let tid = payload_str(wo, "team_id");
        let status = payload_str(wo, "status");
        if eq_str(tid.as_str(), team_id) && !eq_str(status.as_str(), "done") {
            open = open + 1;
            let sp = payload_i64(wo, "story_points");
            assert(points_upto(work_orders@, team_id@, k + 1) == points + sp);
            points = points + sp;
        }
        k = k + 1;
    }
    let mut count: u64 = 0;
    let mut k: usize = 0;
    while k < members.len()
        invariant
            k <= members@.len(),
            count == members_upto(members@, team_id@, k as int),
            count <= k,
        decreases members@.len() - k,
    {
        let tid = payload_str(&members[k], "team_id");
        if eq_str(tid.as_str(), team_id) {
            count = count + 1;
        }
        k = k + 1;
    }
    TeamCapacity {
        team_id: team_id.to_owned(),
        team_name,
        points_in_flight: points,
        open_work_order_count: open,
        member_count: count,
    }
}

/// The non-empty values of field `out_key` among the first `k` rows whose
/// field `key` is `value`, in order.
pub open spec fn linked_ids(rows: Seq<Envelope>, key: Seq<char>, value: Seq<char>, out_key: Seq<char>, k: int) -> Seq<Seq<char>>
    decreases k,
{
    if k <= 0 {
        Seq::empty()
    } else {
        let before = linked_ids(rows, key, value, out_key, k - 1);
        let v = field_text(rows[k - 1], out_key);
        if field_text(rows[k - 1], key) == value && v.len() > 0 {
            before.push(v)
        } else {
            before
        }
    }
}

/// The first `k` envelopes that satisfy `keep`, in order.
pub open spec fn kept(rows: Seq<Envelope>, keep: spec_fn(Envelope) -> bool, k: int) -> Seq<Envelope>
    decreases k,
{
    if k <= 0 {
        Seq::empty()
    } else if keep(rows[k - 1]) {
        kept(rows, keep, k - 1).push(rows[k - 1])
    } else {
        kept(rows, keep, k - 1)
    }
}

/// Every row whose field `key` is `value` contributes its non-empty field
/// `out_key`, and nothing else is linked.
pub proof fn lemma_linked_ids_are_every_matching_row(
    rows: Seq<Envelope>,
    key: Seq<char>,
    value: Seq<char>,
    out_key: Seq<char>,
    k: int,
)
    requires
        0 <= k <= rows.len(),
    ensures
        forall|x: Seq<char>| #[trigger] linked_ids(rows, key, value, out_key, k).contains(x) <==> exists|i: int|
            0 <= i < k && field_text(rows[i], key) == value && #[trigger] field_text(rows[i], out_key) == x
                && x.len() > 0,
    decreases k,
{
    if k > 0 {
        lemma_linked_ids_are_every_matching_row(rows, key, value, out_key, k - 1);
        let before = linked_ids(rows, key, value, out_key, k - 1);
        let cur = linked_ids(rows, key, value, out_key, k);
        assert forall|x: Seq<char>| #[trigger] cur.contains(x) <==> exists|i: int|
            0 <= i < k && field_text(rows[i], key) == value && #[trigger] field_text(rows[i], out_key) == x
                && x.len() > 0 by {
            let v = field_text(rows[k - 1], out_key);
            if field_text(rows[k - 1], key) == value && v.len() > 0 {
                assert(cur == before.push(v));
                if cur.contains(x) && x != v {
                    let q = choose|q: int| 0 <= q < cur.len() && cur[q] == x;
                    assert(before[q] == x);
                    assert(before.contains(x));
                }
                if before.contains(x) {
                    let q = choose|q: int| 0 <= q < before.len() && before[q] == x;
                    assert(cur[q] == x);
                }
                if x == v {
                    assert(cur[before.len() as int] == x);
                }
            } else {
                if exists|i: int| 0 <= i < k && field_text(rows[i], key) == value
                    && #[trigger] field_text(rows[i], out_key) == x && x.len() > 0 {
                    let i = choose|i: int| 0 <= i < k && field_text(rows[i], key) == value
                        && #[trigger] field_text(rows[i], out_key) == x && x.len() > 0;
                    assert(i < k - 1);
                }
            }
        }
    }
}

/// Some TeamMember row of team `team` names person `person` (a non-empty id).
pub open spec fn member_row(members: Seq<Envelope>, team: Seq<char>, person: Seq<char>) -> bool {
    person.len() > 0 && exists|i: int|
        0 <= i < members.len() && field_text(members[i], "team_id"@) == team
            && #[trigger] field_text(members[i], "person_id"@) == person
}

/// Some TeamMember row of person `person` names team `team` (a non-empty id).
pub open spec fn team_row(members: Seq<Envelope>, person: Seq<char>, team: Seq<char>) -> bool {
    team.len() > 0 && exists|i: int|
        0 <= i < members.len() && field_text(members[i], "person_id"@) == person
            && #[trigger] field_text(members[i], "team_id"@) == team
}

/// `kept` is the standard filter of the first `k` rows: the rows that
/// satisfy `keep`, each once, in their order.
pub proof fn lemma_kept_is_filter(rows: Seq<Envelope>, keep: spec_fn(Envelope) -> bool, k: int)
    requires
        0 <= k <= rows.len(),
    ensures
        kept(rows, keep, k) == rows.take(k).filter(keep),
    decreases k,
{
    reveal(Seq::filter);
    if k > 0 {
        lemma_kept_is_filter(rows, keep, k - 1);
        assert(rows.take(k).drop_last() =~= rows.take(k - 1));
        assert(rows.take(k).last() == rows[k - 1]);
    } else {
        assert(rows.take(k) =~= Seq::<Envelope>::empty());
    }
}

/// The linked values are, in row order and one per row, the non-empty
/// field `out_key` of the rows whose field `key` is `value`.
pub proof fn lemma_linked_ids_are_the_matching_rows_in_order(
    rows: Seq<Envelope>,
    key: Seq<char>,
    value: Seq<char>,
    out_key: Seq<char>,
    k: int,
)
    requires
        0 <= k <= rows.len(),
    ensures
        linked_ids(rows, key, value, out_key, k) == rows.take(k).filter(
            |e: Envelope| field_text(e, key) == value && field_text(e, out_key).len() > 0,
        ).map_values(|e: Envelope| field_text(e, out_key)),
    decreases k,
{
    reveal(Seq::filter);
    let pred = |e: Envelope| field_text(e, key) == value && field_text(e, out_key).len() > 0;
    let f = |e: Envelope| field_text(e, out_key);
    if k > 0 {
        lemma_linked_ids_are_the_matching_rows_in_order(rows, key, value, out_key, k - 1);
        assert(rows.take(k).drop_last() =~= rows.take(k - 1));
        assert(rows.take(k).last() == rows[k - 1]);
        let fb = rows.take(k - 1).filter(pred);
        if pred(rows[k - 1]) {
            assert(fb.push(rows[k - 1]).map_values(f) =~= fb.map_values(f).push(f(rows[k - 1])));
        }
    } else {
        assert(rows.take(k) =~= Seq::<Envelope>::empty());
        assert(rows.take(k).filter(pred).map_values(f) =~= Seq::<Seq<char>>::empty());
    }
}

fn linked(rows: &Vec<Envelope>, key: &str, value: &str, out_key: &str) -> (r: Vec<String>)
    ensures
        r@.map_values(|s: String| s@) == linked_ids(rows@, key@, value@, out_key@, rows@.len() as int),
{
    let mut r: Vec<String> = Vec::new();
    let mut k: usize = 0;
    while k < rows.len()
        invariant
            k <= rows@.len(),
            r@.map_values(|s: String| s@) == linked_ids(rows@, key@, value@, out_key@, k as int),
        decreases rows@.len() - k,
    {
        let f = payload_str(&rows[k], key);
        let v = payload_str(&rows[k], out_key);
        if eq_str(f.as_str(), value) && !v.as_str().is_empty() {
            let ghost before = r@;
            r.push(v);
            assert(r@.map_values(|s: String| s@) =~= before.map_values(|s: String| s@).push(v@));
        }
        k = k + 1;
    }
    r
}

fn any_equal(ids: &Vec<String>, x: &str) -> (r: bool)
    ensures
        r == ids@.map_values(|s: String| s@).contains(x@),
{
    let ghost v = ids@.map_values(|s: String| s@);
    let mut k: usize = 0;
    while k < ids.len()
        invariant
            k <= ids@.len(),
            v == ids@.map_values(|s: String| s@),
            forall|q: int| 0 <= q < k ==> v[q] != x@,
        decreases ids@.len() - k,
    {
        assert(v[k as int] == ids@[k as int]@);
        if eq_str(ids[k].as_str(), x) {
            return true;
        }
        k = k + 1;
    }
    false
}

/// The Person envelopes on team `team_id`: those whose id a TeamMember row
/// of the team names, in the order of `persons`.
pub fn members_of_team(team_id: &str, members: &Vec<Envelope>, persons: &Vec<Envelope>) -> (r: Vec<Envelope>)
    ensures
        envelope_views(r@) == envelope_views(kept(
            persons@,
            |p: Envelope| linked_ids(members@, "team_id"@, team_id@, "person_id"@, members@.len() as int).contains(
                id_of(p),
            ),
            persons@.len() as int,
        )),
        forall|j: int| 0 <= j < persons@.len() && member_row(members@, team_id@, id_of(#[trigger] persons@[j]))
            ==> envelope_views(r@).contains(envelope_view(persons@[j])),
        envelope_views(r@) == envelope_views(persons@.filter(|p: Envelope| member_row(members@, team_id@, id_of(p)))),
{
    let ids = linked(members, "team_id", team_id, "person_id");
    let ghost keep = |p: Envelope| linked_ids(members@, "team_id"@, team_id@, "person_id"@, members@.len() as int).contains(
        id_of(p),
    );
    let mut r: Vec<Envelope> = Vec::new();
    let mut k: usize = 0;
    while k < persons.len()
        invariant
            k <= persons@.len(),
            ids@.map_values(|s: String| s@) == linked_ids(members@, "team_id"@, team_id@, "person_id"@, members@.len() as int),
            keep == (|p: Envelope| linked_ids(members@, "team_id"@, team_id@, "person_id"@, members@.len() as int).contains(
                id_of(p),
            )),
            envelope_views(r@) == envelope_views(kept(persons@, keep, k as int)),
        decreases persons@.len() - k,
    {
        let id = env_id(&persons[k]);
        if any_equal(&ids, id.as_str()) {
            let c = copy_envelope(&persons[k]);
            let ghost before = envelope_views(r@);
            r.push(c);
            assert(envelope_views(r@) =~= before.push(envelope_view(persons@[k as int])));
            assert(envelope_views(kept(persons@, keep, k + 1)) =~= envelope_views(kept(persons@, keep, k as int)).push(
                envelope_view(persons@[k as int]),
            ));
        }
        k = k + 1;
    }
    proof {
        let n = persons@.len() as int;
        let kp = kept(persons@, keep, n);
        lemma_kept_is_filter(persons@, keep, n);
        assert(persons@.take(n) =~= persons@);
        lemma_linked_ids_are_every_matching_row(members@, "team_id"@, team_id@, "person_id"@, members@.len() as int);
        assert(envelope_views(r@) == envelope_views(kp));
        assert(r@.len() == kp.len());
        assert forall|j: int| 0 <= j < persons@.len() && member_row(members@, team_id@, id_of(#[trigger] persons@[j]))
            implies envelope_views(r@).contains(envelope_view(persons@[j])) by {
            assert(keep(persons@[j]));
            persons@.lemma_filter_contains(keep, j);
            assert(kp.contains(persons@[j]));
            let q = choose|q: int| 0 <= q < kp.len() && kp[q] == persons@[j];
            assert(envelope_views(kp)[q] == envelope_view(persons@[j]));
            assert(envelope_views(r@)[q] == envelope_view(persons@[j]));
        }
        let pred = |p: Envelope| member_row(members@, team_id@, id_of(p));
        assert(keep =~= pred);
        assert(kp == persons@.filter(pred));
    }
    r
}

/// The open (not `done`) WorkOrder envelopes of the teams person
/// `person_id` belongs to, in the order of `work_orders`.
pub fn assignments_for_person(person_id: &str, members: &Vec<Envelope>, work_orders: &Vec<Envelope>) -> (r: Vec<Envelope>)
    ensures
        envelope_views(r@) == envelope_views(kept(
            work_orders@,
            |w: Envelope| linked_ids(members@, "person_id"@, person_id@, "team_id"@, members@.len() as int).contains(
                field_text(w, "team_id"@),
            ) && field_text(w, "status"@) != "done"@,
            work_orders@.len() as int,
        )),
        forall|j: int| 0 <= j < work_orders@.len() && field_text(#[trigger] work_orders@[j], "status"@) != "done"@
            && team_row(members@, person_id@, field_text(work_orders@[j], "team_id"@))
            ==> envelope_views(r@).contains(envelope_view(work_orders@[j])),
        envelope_views(r@) == envelope_views(work_orders@.filter(
            |w: Envelope| field_text(w, "status"@) != "done"@ && team_row(members@, person_id@, field_text(w, "team_id"@)),
        )),
{
    let teams = linked(members, "person_id", person_id, "team_id");
    let ghost keep = |w: Envelope| linked_ids(members@, "person_id"@, person_id@, "team_id"@, members@.len() as int).contains(
        field_text(w, "team_id"@),
    ) && field_text(w, "status"@) != "done"@;
    let mut r: Vec<Envelope> = Vec::new();
    let mut k: usize = 0;
    while k < work_orders.len()
        invariant
            k <= work_orders@.len(),
            teams@.map_values(|s: String| s@) == linked_ids(members@, "person_id"@, person_id@, "team_id"@, members@.len() as int),
            keep == (|w: Envelope| linked_ids(members@, "person_id"@, person_id@, "team_id"@, members@.len() as int).contains(
                field_text(w, "team_id"@),
            ) && field_text(w, "status"@) != "done"@),
            envelope_views(r@) == envelope_views(kept(work_orders@, keep, k as int)),
        decreases work_orders@.len() - k,
    {
        let tid = payload_str(&work_orders[k], "team_id");
        let status = payload_str(&work_orders[k], "status");
        if any_equal(&teams, tid.as_str()) && !eq_str(status.as_str(), "done") {
            let c = copy_envelope(&work_orders[k]);
            let ghost before = envelope_views(r@);
            r.push(c);
            assert(envelope_views(r@) =~= before.push(envelope_view(work_orders@[k as int])));
            assert(envelope_views(kept(work_orders@, keep, k + 1)) =~= envelope_views(kept(work_orders@, keep, k as int)).push(
                envelope_view(work_orders@[k as int]),
            ));
        }
        k = k + 1;
    }
    proof {
        let n = work_orders@.len() as int;
        let kp = kept(work_orders@, keep, n);
        lemma_kept_is_filter(work_orders@, keep, n);
        assert(work_orders@.take(n) =~= work_orders@);
        lemma_linked_ids_are_every_matching_row(members@, "person_id"@, person_id@, "team_id"@, members@.len() as int);
        assert(envelope_views(r@) == envelope_views(kp));
        assert(r@.len() == kp.len());
        assert forall|j: int| 0 <= j < work_orders@.len() && field_text(#[trigger] work_orders@[j], "status"@) != "done"@
            && team_row(members@, person_id@, field_text(work_orders@[j], "team_id"@))
            implies envelope_views(r@).contains(envelope_view(work_orders@[j])) by {
            assert(keep(work_orders@[j]));
            work_orders@.lemma_filter_contains(keep, j);
            assert(kp.contains(work_orders@[j]));
            let q = choose|q: int| 0 <= q < kp.len() && kp[q] == work_orders@[j];
            assert(envelope_views(kp)[q] == envelope_view(work_orders@[j]));
            assert(envelope_views(r@)[q] == envelope_view(work_orders@[j]));
        }
        let pred = |w: Envelope| field_text(w, "status"@) != "done"@ && team_row(members@, person_id@, field_text(w, "team_id"@));
        assert(keep =~= pred);
        assert(kp == work_orders@.filter(pred));
    }
    r
}

} // verus!
