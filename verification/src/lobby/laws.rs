//! What the per-subject derivation rules promise as a whole: one advisory
//! for each subject that qualifies, in the subjects' order, and nothing
//! else.

use vstd::prelude::*;
use crate::lobby::rules::{
    AdvisoryView, Severity, blocked_upto, blocked_edges, blockers, blocked_by_crs, blocked_by_wos,
    insert_first, insert_items, has_env, exposed_by, is_deployable_id, display_name, crit_of, crit_severity, undocumented_one, undocumented_upto, dependent_count, documented,
    watershed_one, watershed_upto, synced, missing_env_one, missing_env_upto, missing_upto, cr_summary,
    cycle_advisory, cycles_upto, circular_dependency, cycle_members, dependency_graph,
    lemma_cycle_subject_first_by_name, by_name_sorted, member_entries,
    ContentionEntry, WindowView, contention, contention_row, contention_rows, emit, all_windows,
    schedule_contention, lemma_contention_rows_ok,
};
use crate::lobby::scc::components;
use crate::lobby::snapshot::{GraphSnapshot, Service, TestEnvironment, ChangeRequest, WorkOrder, Dependency};
use crate::text::{opt_is, comma_items, seq_lt};

verus! {

/// The advisories of `one` over the first `k` items, in order.
pub open spec fn collect<T>(items: Seq<T>, one: spec_fn(T) -> Seq<AdvisoryView>, k: int) -> Seq<AdvisoryView>
    decreases k,
{
    if k <= 0 {
        Seq::empty()
    } else {
        collect(items, one, k - 1) + one(items[k - 1])
    }
}

/// The positions among the first `k` items for which `one` raises an
/// advisory, in order.
pub open spec fn picked<T>(items: Seq<T>, one: spec_fn(T) -> Seq<AdvisoryView>, k: int) -> Seq<int>
    decreases k,
{
    if k <= 0 {
        Seq::empty()
    } else if one(items[k - 1]).len() > 0 {
        picked(items, one, k - 1).push(k - 1)
    } else {
        picked(items, one, k - 1)
    }
}

/// When each item raises at most one advisory, the advisories are those of
/// the picked items, one each, in order.
proof fn lemma_collect<T>(items: Seq<T>, one: spec_fn(T) -> Seq<AdvisoryView>, k: int)
    requires
        0 <= k <= items.len(),
        forall|x: T| #[trigger] one(x).len() <= 1,
    ensures
        collect(items, one, k).len() == picked(items, one, k).len(),
        forall|t: int| 0 <= t < picked(items, one, k).len() ==>
            0 <= #[trigger] picked(items, one, k)[t] < k
                && collect(items, one, k)[t] == one(items[picked(items, one, k)[t]])[0],
        forall|t: int, u: int| 0 <= t < u < picked(items, one, k).len() ==>
            #[trigger] picked(items, one, k)[t] < #[trigger] picked(items, one, k)[u],
        forall|i: int| 0 <= i < k ==> (picked(items, one, k).contains(i) <==> #[trigger] one(items[i]).len() > 0),
    decreases k,
{
    if k > 0 {
        lemma_collect(items, one, k - 1);
        let pc = picked(items, one, k - 1);
        let cc = collect(items, one, k - 1);
        let x = items[k - 1];
        assert(one(x).len() <= 1);
        if one(x).len() > 0 {
            let p = picked(items, one, k);
            let c = collect(items, one, k);
            assert(p == pc.push(k - 1));
            assert forall|t: int| 0 <= t < p.len() implies 0 <= #[trigger] p[t] < k && c[t] == one(items[p[t]])[0] by {
                if t < pc.len() {
                    assert(p[t] == pc[t]);
                    assert(c[t] == cc[t]);
                } else {
                    assert(c[t] == one(x)[0]);
                }
            }
            assert forall|t: int, u: int| 0 <= t < u < p.len() implies #[trigger] p[t] < #[trigger] p[u] by {
                assert(p[t] == pc[t]);
                if u < pc.len() {
                    assert(p[u] == pc[u]);
                }
            }
            assert forall|i: int| 0 <= i < k implies (p.contains(i) <==> #[trigger] one(items[i]).len() > 0) by {
                if i < k - 1 {
                    if pc.contains(i) {
                        let t = choose|t: int| 0 <= t < pc.len() && pc[t] == i;
                        assert(p[t] == i);
                    }
                    if p.contains(i) {
                        let t = choose|t: int| 0 <= t < p.len() && p[t] == i;
                        if t < pc.len() {
                            assert(pc[t] == i);
                        }
                    }
                } else {
                    assert(p[pc.len() as int] == i);
                }
            }
        } else {
            assert(one(x) =~= Seq::<AdvisoryView>::empty());
            assert(collect(items, one, k) =~= cc);
            assert forall|i: int| 0 <= i < k implies (pc.contains(i) <==> #[trigger] one(items[i]).len() > 0) by {
                if i == k - 1 && pc.contains(i) {
                    let t = choose|t: int| 0 <= t < pc.len() && pc[t] == i;
                }
            }
        }
    }
}

// ── ScheduleContention@v1 ───────────────────────────────────────────────────

/// Every contention in `s` is the contention of a pair of windows `a < b`
/// that comes before position `(i, j)` in row-major order.
pub open spec fn contentions_sound(
    snap: GraphSnapshot,
    ws: Seq<WindowView>,
    s: Seq<ContentionEntry>,
    i: int,
    j: int,
) -> bool {
    forall|k: int| 0 <= k < s.len() ==> exists|a: int, b: int|
        #![trigger contention(snap, ws, a, b)]
        0 <= a < b < ws.len() && (a < i || (a == i && b < j))
            && contention(snap, ws, a, b) == Some(#[trigger] s[k])
}

/// Every pair of windows `a < b` before position `(i, j)` that contends has
/// its change-request pair reported in `s`.
pub open spec fn contentions_complete(
    snap: GraphSnapshot,
    ws: Seq<WindowView>,
    s: Seq<ContentionEntry>,
    i: int,
    j: int,
) -> bool {
    forall|a: int, b: int|
        0 <= a < b < ws.len() && (a < i || (a == i && b < j))
            && #[trigger] contention(snap, ws, a, b) is Some ==> exists|k: int|
            0 <= k < s.len() && (#[trigger] s[k]).0 == contention(snap, ws, a, b).unwrap().0
}

proof fn lemma_contention_row_exact(snap: GraphSnapshot, ws: Seq<WindowView>, i: nat, j: nat)
    requires
        i < ws.len(),
        j <= ws.len(),
    ensures
        contentions_sound(snap, ws, contention_row(snap, ws, i, j), i as int, j as int),
        contentions_complete(snap, ws, contention_row(snap, ws, i, j), i as int, j as int),
    decreases i, j, 1nat,
{
    if j <= i + 1 {
        lemma_contention_rows_exact(snap, ws, i);
        let s = contention_row(snap, ws, i, j);
        assert forall|k: int| 0 <= k < s.len() implies exists|a: int, b: int|
            #![trigger contention(snap, ws, a, b)]
            0 <= a < b < ws.len() && (a < i || (a == i && b < j))
                && contention(snap, ws, a, b) == Some(#[trigger] s[k]) by {
            let (a, b) = choose|a: int, b: int|
                #![trigger contention(snap, ws, a, b)]
                0 <= a < b < ws.len() && (a < i || (a == i && b < 0))
                    && contention(snap, ws, a, b) == Some(s[k]);
            assert(contention(snap, ws, a, b) == Some(s[k]));
        }
    } else {
        let jj = (j - 1) as nat;
        lemma_contention_row_exact(snap, ws, i, jj);
        let s = contention_row(snap, ws, i, jj);
        let c = contention(snap, ws, i as int, jj as int);
        let s2 = contention_row(snap, ws, i, j);
        assert(s2 == emit(s, c));
        assert(forall|k: int| 0 <= k < s.len() ==> s2[k] == s[k]);
        assert forall|k: int| 0 <= k < s2.len() implies exists|a: int, b: int|
            #![trigger contention(snap, ws, a, b)]
            0 <= a < b < ws.len() && (a < i || (a == i && b < j))
                && contention(snap, ws, a, b) == Some(#[trigger] s2[k]) by {
            if k < s.len() {
                assert(s2[k] == s[k]);
                let (a, b) = choose|a: int, b: int|
                    #![trigger contention(snap, ws, a, b)]
                    0 <= a < b < ws.len() && (a < i || (a == i && b < jj))
                        && contention(snap, ws, a, b) == Some(s[k]);
                assert(contention(snap, ws, a, b) == Some(s2[k]));
            } else {
                assert(contention(snap, ws, i as int, jj as int) == Some(s2[k]));
            }
        }
        assert forall|a: int, b: int|
            0 <= a < b < ws.len() && (a < i || (a == i && b < j))
                && #[trigger] contention(snap, ws, a, b) is Some implies exists|k: int|
                0 <= k < s2.len() && (#[trigger] s2[k]).0 == contention(snap, ws, a, b).unwrap().0 by {
            if a < i || b < jj {
                let k = choose|k: int| 0 <= k < s.len() && (#[trigger] s[k]).0 == contention(snap, ws, a, b).unwrap().0;
                assert(s2[k] == s[k]);
            } else {
                assert(a == i && b == jj);
                let e = c->0;
                if exists|k: int| 0 <= k < s.len() && s[k].0 == e.0 {
                    let k = choose|k: int| 0 <= k < s.len() && s[k].0 == e.0;
                    assert(s2[k] == s[k]);
                } else {
                    assert(s2 == s.push(e));
                    assert(s2[s.len() as int] == e);
                }
            }
        }
    }
}

proof fn lemma_contention_rows_exact(snap: GraphSnapshot, ws: Seq<WindowView>, i: nat)
    requires
        i <= ws.len(),
    ensures
        contentions_sound(snap, ws, contention_rows(snap, ws, i), i as int, 0),
        contentions_complete(snap, ws, contention_rows(snap, ws, i), i as int, 0),
    decreases i, 0nat, 0nat,
{
    let s = contention_rows(snap, ws, i);
    if i > 0 {
        let n = ws.len();
        lemma_contention_row_exact(snap, ws, (i - 1) as nat, n);
        assert forall|k: int| 0 <= k < s.len() implies exists|a: int, b: int|
            #![trigger contention(snap, ws, a, b)]
            0 <= a < b < ws.len() && (a < i || (a == i && b < 0))
                && contention(snap, ws, a, b) == Some(#[trigger] s[k]) by {
            let (a, b) = choose|a: int, b: int|
                #![trigger contention(snap, ws, a, b)]
                0 <= a < b < ws.len() && (a < i - 1 || (a == i - 1 && b < n))
                    && contention(snap, ws, a, b) == Some(s[k]);
            assert(contention(snap, ws, a, b) == Some(s[k]));
        }
        assert forall|a: int, b: int|
            0 <= a < b < ws.len() && (a < i || (a == i && b < 0))
                && #[trigger] contention(snap, ws, a, b) is Some implies exists|k: int|
                0 <= k < s.len() && (#[trigger] s[k]).0 == contention(snap, ws, a, b).unwrap().0 by {
            assert(a < i - 1 || (a == i - 1 && b < n));
        }
    }
}

/// ScheduleContention@v1 raises exactly one advisory per pair of change
/// requests that have windows on the same deployable whose intervals
/// overlap: every advisory is the contention of some pair of windows, on
/// the smaller change request of the pair and naming the pair in order,
/// every contending pair of windows has its change-request pair reported,
/// and no pair is reported twice.
pub proof fn lemma_schedule_contention_law(snap: GraphSnapshot)
    ensures
        ({
            let ws = all_windows(snap);
            let out = schedule_contention(snap);
            &&& forall|k: int| 0 <= k < out.len() ==> exists|a: int, b: int|
                #![trigger contention(snap, ws, a, b)]
                0 <= a < b < ws.len() && contention(snap, ws, a, b) == Some(
                    ((out[k].caused_by[0], out[k].caused_by[1]), #[trigger] out[k]),
                )
            &&& forall|a: int, b: int|
                0 <= a < b < ws.len() && #[trigger] contention(snap, ws, a, b) is Some ==> exists|k: int|
                    0 <= k < out.len() && ((#[trigger] out[k]).caused_by[0], out[k].caused_by[1])
                        == contention(snap, ws, a, b).unwrap().0
            &&& forall|p: int, q: int| 0 <= p < q < out.len() ==>
                ((#[trigger] out[p]).caused_by[0], out[p].caused_by[1])
                    != ((#[trigger] out[q]).caused_by[0], out[q].caused_by[1])
            &&& forall|k: int| 0 <= k < out.len() ==> (#[trigger] out[k]).subject_id == out[k].caused_by[0]
                && seq_lt(out[k].caused_by[0], out[k].caused_by[1])
        }),
{
    let ws = all_windows(snap);
    let n = ws.len();
    let rows = contention_rows(snap, ws, n);
    lemma_contention_rows_exact(snap, ws, n);
    lemma_contention_rows_ok(snap, ws, n);
    let out = schedule_contention(snap);
    assert(out == rows.map_values(|e: ContentionEntry| e.1));
    assert forall|k: int| 0 <= k < out.len() implies exists|a: int, b: int|
        #![trigger contention(snap, ws, a, b)]
        0 <= a < b < ws.len() && contention(snap, ws, a, b) == Some(
            ((out[k].caused_by[0], out[k].caused_by[1]), #[trigger] out[k]),
        ) by {
        assert(out[k] == rows[k].1);
        let (a, b) = choose|a: int, b: int|
            #![trigger contention(snap, ws, a, b)]
            0 <= a < b < ws.len() && (a < n || (a == n && b < 0))
                && contention(snap, ws, a, b) == Some(rows[k]);
        assert(contention(snap, ws, a, b) == Some(rows[k]));
        assert(rows[k] == ((out[k].caused_by[0], out[k].caused_by[1]), out[k]));
    }
    assert forall|a: int, b: int|
        0 <= a < b < ws.len() && #[trigger] contention(snap, ws, a, b) is Some implies exists|k: int|
            0 <= k < out.len() && ((#[trigger] out[k]).caused_by[0], out[k].caused_by[1])
                == contention(snap, ws, a, b).unwrap().0 by {
        let k = choose|k: int| 0 <= k < rows.len() && (#[trigger] rows[k]).0 == contention(snap, ws, a, b).unwrap().0;
        assert(out[k] == rows[k].1);
    }
    assert forall|p: int, q: int| 0 <= p < q < out.len() implies
        ((#[trigger] out[p]).caused_by[0], out[p].caused_by[1])
            != ((#[trigger] out[q]).caused_by[0], out[q].caused_by[1]) by {
        assert(out[p] == rows[p].1);
        assert(out[q] == rows[q].1);
        assert(rows[p].0 != rows[q].0);
    }
    assert forall|k: int| 0 <= k < out.len() implies (#[trigger] out[k]).subject_id == out[k].caused_by[0]
        && seq_lt(out[k].caused_by[0], out[k].caused_by[1]) by {
        assert(out[k] == rows[k].1);
    }
}

// ── UndocumentedInterface@v1 ────────────────────────────────────────────────

/// A service that is depended on and publishes no contract.
pub open spec fn undocumented(snap: GraphSnapshot, s: Service) -> bool {
    dependent_count(snap.dependencies@, s.id@, snap.dependencies@.len() as int) > 0
        && !documented(snap.contracts@, s.id@)
}

proof fn lemma_undocumented_collect(snap: GraphSnapshot, k: int)
    ensures
        undocumented_upto(snap, k) == collect(snap.services@, |s: Service| undocumented_one(snap, s), k),
    decreases k,
{
    if k > 0 {
        lemma_undocumented_collect(snap, k - 1);
    }
}

/// UndocumentedInterface@v1 raises, in the services' order, exactly one
/// advisory per service that is depended on and publishes no contract: on
/// the service, caused by it, Warn from three dependents up, else Info.
pub proof fn lemma_undocumented_one_per_service(snap: GraphSnapshot)
    ensures
        ({
            let ss = snap.services@;
            let out = undocumented_upto(snap, ss.len() as int);
            let p = picked(ss, |s: Service| undocumented_one(snap, s), ss.len() as int);
            &&& out.len() == p.len()
            &&& forall|t: int, u: int| 0 <= t < u < p.len() ==> #[trigger] p[t] < #[trigger] p[u]
            &&& forall|i: int| 0 <= i < ss.len() ==> (p.contains(i) <==> undocumented(snap, #[trigger] ss[i]))
            &&& forall|t: int| 0 <= t < p.len() ==> {
                let s = ss[#[trigger] p[t]];
                let n = dependent_count(snap.dependencies@, s.id@, snap.dependencies@.len() as int);
                &&& 0 <= p[t] < ss.len()
                &&& out[t].kind == "UndocumentedInterface"@
                &&& out[t].subject_type == "service"@
                &&& out[t].subject_id == s.id@
                &&& out[t].caused_by == seq![s.id@]
                &&& out[t].severity == if n >= 3 { Severity::Warn } else { Severity::Info }
            }
        }),
{
    let ss = snap.services@;
    let one = |s: Service| undocumented_one(snap, s);
    lemma_undocumented_collect(snap, ss.len() as int);
    lemma_collect(ss, one, ss.len() as int);
    let p = picked(ss, one, ss.len() as int);
    assert forall|i: int| 0 <= i < ss.len() implies (p.contains(i) <==> undocumented(snap, #[trigger] ss[i])) by {
        assert(one(ss[i]).len() > 0 <==> undocumented(snap, ss[i]));
    }
}

// ── WatershedMismatch@v1 ────────────────────────────────────────────────────

/// A test environment claiming a prod-like watershed with no data sync
/// feeding it.
pub open spec fn unfed_prod_like(snap: GraphSnapshot, env: TestEnvironment) -> bool {
    opt_is(env.watershed, "prod-like"@) && !synced(snap.data_syncs@, env.id@)
}

proof fn lemma_watershed_collect(snap: GraphSnapshot, k: int)
    ensures
        watershed_upto(snap, k) == collect(snap.test_environments@, |e: TestEnvironment| watershed_one(snap, e), k),
    decreases k,
{
    if k > 0 {
        lemma_watershed_collect(snap, k - 1);
    }
}

/// WatershedMismatch@v1 raises, in the environments' order, exactly one
/// Warn advisory per environment claiming a prod-like watershed that no
/// data sync feeds, on the environment and caused by it; environments
/// with another watershed, or none, are never flagged.
pub proof fn lemma_watershed_one_per_environment(snap: GraphSnapshot)
    ensures
        ({
            let es = snap.test_environments@;
            let out = watershed_upto(snap, es.len() as int);
            let p = picked(es, |e: TestEnvironment| watershed_one(snap, e), es.len() as int);
            &&& out.len() == p.len()
            &&& forall|t: int, u: int| 0 <= t < u < p.len() ==> #[trigger] p[t] < #[trigger] p[u]
            &&& forall|i: int| 0 <= i < es.len() ==> (p.contains(i) <==> unfed_prod_like(snap, #[trigger] es[i]))
            &&& forall|t: int| 0 <= t < p.len() ==> {
                let e = es[#[trigger] p[t]];
                &&& 0 <= p[t] < es.len()
                &&& out[t].kind == "WatershedMismatch"@
                &&& out[t].subject_type == "test_environment"@
                &&& out[t].subject_id == e.id@
                &&& out[t].caused_by == seq![e.id@]
                &&& out[t].severity == Severity::Warn
            }
        }),
{
    let es = snap.test_environments@;
    let one = |e: TestEnvironment| watershed_one(snap, e);
    lemma_watershed_collect(snap, es.len() as int);
    lemma_collect(es, one, es.len() as int);
    let p = picked(es, one, es.len() as int);
    assert forall|i: int| 0 <= i < es.len() implies (p.contains(i) <==> unfed_prod_like(snap, #[trigger] es[i])) by {
        assert(one(es[i]).len() > 0 <==> unfed_prod_like(snap, es[i]));
    }
}

// ── MissingEnvironment@v1 ───────────────────────────────────────────────────

/// The targets of a change request that have no test environment, in
/// target order (none without targets).
pub open spec fn uncovered(snap: GraphSnapshot, cr: ChangeRequest) -> Seq<Seq<char>> {
    match cr.target_deployables {
        Some(t) => missing_upto(snap.test_environments@, comma_items(t@), comma_items(t@).len() as int),
        None => Seq::empty(),
    }
}

proof fn lemma_missing_env_collect(snap: GraphSnapshot, k: int)
    ensures
        missing_env_upto(snap, k) == collect(snap.change_requests@, |c: ChangeRequest| missing_env_one(snap, c), k),
    decreases k,
{
    if k > 0 {
        lemma_missing_env_collect(snap, k - 1);
    }
}

/// MissingEnvironment@v1 raises, in the change requests' order, exactly one
/// Warn advisory per change request with a target that has no test
/// environment: on the change request (named by its summary, else its id),
/// caused by exactly those targets in target order.
pub proof fn lemma_missing_environment_one_per_change(snap: GraphSnapshot)
    ensures
        ({
            let cs = snap.change_requests@;
            let out = missing_env_upto(snap, cs.len() as int);
            let p = picked(cs, |c: ChangeRequest| missing_env_one(snap, c), cs.len() as int);
            &&& out.len() == p.len()
            &&& forall|t: int, u: int| 0 <= t < u < p.len() ==> #[trigger] p[t] < #[trigger] p[u]
            &&& forall|i: int| 0 <= i < cs.len() ==> (p.contains(i) <==> uncovered(snap, #[trigger] cs[i]).len() > 0)
            &&& forall|t: int| 0 <= t < p.len() ==> {
                let c = cs[#[trigger] p[t]];
                &&& 0 <= p[t] < cs.len()
                &&& out[t].kind == "MissingEnvironment"@
                &&& out[t].subject_id == c.id@
                &&& out[t].subject_name == cr_summary(c)
                &&& out[t].caused_by == uncovered(snap, c)
                &&& out[t].severity == Severity::Warn
            }
        }),
{
    let cs = snap.change_requests@;
    let one = |c: ChangeRequest| missing_env_one(snap, c);
    lemma_missing_env_collect(snap, cs.len() as int);
    lemma_collect(cs, one, cs.len() as int);
    let p = picked(cs, one, cs.len() as int);
    assert forall|i: int| 0 <= i < cs.len() implies (p.contains(i) <==> uncovered(snap, #[trigger] cs[i]).len() > 0) by {
        assert(one(cs[i]).len() > 0 <==> uncovered(snap, cs[i]).len() > 0);
    }
}

/// The items among the first `k` that no environment registers.
proof fn lemma_missing_upto_members(envs: Seq<TestEnvironment>, items: Seq<Seq<char>>, k: int)
    requires
        0 <= k <= items.len(),
    ensures
        forall|x: Seq<char>| #[trigger] missing_upto(envs, items, k).contains(x) <==> (items.take(k).contains(x)
            && !has_env(envs, x)),
    decreases k,
{
    if k > 0 {
        lemma_missing_upto_members(envs, items, k - 1);
        let before = missing_upto(envs, items, k - 1);
        let cur = missing_upto(envs, items, k);
        let last = items[k - 1];
        assert(items.take(k) =~= items.take(k - 1).push(last));
        assert forall|x: Seq<char>| items.take(k).contains(x) <==> (items.take(k - 1).contains(x) || x == last) by {
            if x == last {
                assert(items.take(k)[k - 1] == x);
            }
            if items.take(k - 1).contains(x) {
                let q = choose|q: int| #![trigger items.take(k - 1)[q]] 0 <= q < k - 1 && items.take(k - 1)[q] == x;
                assert(items.take(k)[q] == x);
            }
            if items.take(k).contains(x) && x != last {
                let q = choose|q: int| #![trigger items.take(k)[q]] 0 <= q < k && items.take(k)[q] == x;
                assert(items.take(k - 1)[q] == x);
            }
        }
        assert forall|x: Seq<char>| #[trigger] cur.contains(x) <==> (items.take(k).contains(x) && !has_env(envs, x)) by {
            if !has_env(envs, last) {
                assert(cur == before.push(last));
                if cur.contains(x) && x != last {
                    let q = choose|q: int| 0 <= q < cur.len() && cur[q] == x;
                    assert(before[q] == x);
                }
                if before.contains(x) {
                    let q = choose|q: int| 0 <= q < before.len() && before[q] == x;
                    assert(cur[q] == x);
                }
                if x == last {
                    assert(cur[before.len() as int] == x);
                }
            } else {
                assert(cur == before);
            }
        }
    }
}

proof fn lemma_missing_upto_filter(envs: Seq<TestEnvironment>, items: Seq<Seq<char>>, k: int)
    requires
        0 <= k <= items.len(),
    ensures
        missing_upto(envs, items, k) == items.take(k).filter(|x: Seq<char>| !has_env(envs, x)),
    decreases k,
{
    reveal(Seq::filter);
    if k > 0 {
        lemma_missing_upto_filter(envs, items, k - 1);
        assert(items.take(k).drop_last() =~= items.take(k - 1));
        assert(items.take(k).last() == items[k - 1]);
    } else {
        assert(items.take(k) =~= Seq::<Seq<char>>::empty());
    }
}

/// The targets a MissingEnvironment@v1 advisory names for a change request
/// are its targets, in their order and as often as listed, less those some
/// test environment registers by a non-empty deployable id.
pub proof fn lemma_uncovered_targets_in_order(snap: GraphSnapshot, cr: ChangeRequest)
    ensures
        cr.target_deployables is Some ==> uncovered(snap, cr) == comma_items(cr.target_deployables.unwrap()@).filter(
            |x: Seq<char>| !(exists|j: int| 0 <= j < snap.test_environments@.len()
                && (#[trigger] snap.test_environments@[j].deployable_id matches Some(y) && y@.len() > 0 && y@ == x)),
        ),
        cr.target_deployables is None ==> uncovered(snap, cr).len() == 0,
{
    if let Some(tg) = cr.target_deployables {
        let items = comma_items(tg@);
        let envs = snap.test_environments@;
        lemma_missing_upto_filter(envs, items, items.len() as int);
        assert(items.take(items.len() as int) =~= items);
        let p1 = |x: Seq<char>| !has_env(envs, x);
        let p2 = |x: Seq<char>| !(exists|j: int| 0 <= j < envs.len()
            && (#[trigger] envs[j].deployable_id matches Some(y) && y@.len() > 0 && y@ == x));
        assert(p1 =~= p2);
    }
}

/// MissingEnvironment@v1 reports a target exactly when no test environment
/// anywhere in the list registers it: a target some environment names (by a
/// non-empty deployable id) is never among an advisory's causes, and every
/// target of a change request that none names is among the causes of that
/// change request's advisory.
pub proof fn lemma_missing_environment_names_exactly_the_unregistered(snap: GraphSnapshot)
    ensures
        forall|t: int, x: Seq<char>|
            0 <= t < missing_env_upto(snap, snap.change_requests@.len() as int).len()
                && #[trigger] missing_env_upto(snap, snap.change_requests@.len() as int)[t].caused_by.contains(x)
                ==> !(exists|j: int| 0 <= j < snap.test_environments@.len()
                    && (#[trigger] snap.test_environments@[j].deployable_id matches Some(y) && y@.len() > 0 && y@ == x)),
        forall|i: int, x: Seq<char>|
            0 <= i < snap.change_requests@.len() && snap.change_requests@[i].target_deployables is Some
                && #[trigger] comma_items(snap.change_requests@[i].target_deployables.unwrap()@).contains(x)
                && !(exists|j: int| 0 <= j < snap.test_environments@.len()
                    && (#[trigger] snap.test_environments@[j].deployable_id matches Some(y) && y@.len() > 0 && y@ == x))
                ==> exists|t: int| 0 <= t < missing_env_upto(snap, snap.change_requests@.len() as int).len()
                    && #[trigger] missing_env_upto(snap, snap.change_requests@.len() as int)[t].subject_id
                        == snap.change_requests@[i].id@
                    && missing_env_upto(snap, snap.change_requests@.len() as int)[t].caused_by.contains(x),
{
    let cs = snap.change_requests@;
    let envs = snap.test_environments@;
    let out = missing_env_upto(snap, cs.len() as int);
    lemma_missing_environment_one_per_change(snap);
    let p = picked(cs, |c: ChangeRequest| missing_env_one(snap, c), cs.len() as int);
    assert forall|t: int, x: Seq<char>|
        0 <= t < out.len() && #[trigger] out[t].caused_by.contains(x) implies !(exists|j: int| 0 <= j < envs.len()
            && (#[trigger] envs[j].deployable_id matches Some(y) && y@.len() > 0 && y@ == x)) by {
        let c = cs[p[t]];
        assert(out[t].caused_by == uncovered(snap, c));
        let items = comma_items(c.target_deployables.unwrap()@);
        lemma_missing_upto_members(envs, items, items.len() as int);
    }
    assert forall|i: int, x: Seq<char>|
        0 <= i < cs.len() && cs[i].target_deployables is Some
            && #[trigger] comma_items(cs[i].target_deployables.unwrap()@).contains(x)
            && !(exists|j: int| 0 <= j < envs.len()
                && (#[trigger] envs[j].deployable_id matches Some(y) && y@.len() > 0 && y@ == x))
        implies exists|t: int| 0 <= t < out.len() && #[trigger] out[t].subject_id == cs[i].id@
            && out[t].caused_by.contains(x) by {
        let items = comma_items(cs[i].target_deployables.unwrap()@);
        lemma_missing_upto_members(envs, items, items.len() as int);
        assert(items.take(items.len() as int) =~= items);
        assert(uncovered(snap, cs[i]).contains(x));
        assert(uncovered(snap, cs[i]).len() > 0);
        assert(p.contains(i));
        let t = choose|t: int| 0 <= t < p.len() && p[t] == i;
        assert(out[t].caused_by == uncovered(snap, cs[i]));
        assert(out[t].subject_id == cs[i].id@);
    }
}

// ── CircularDependency@v1 ───────────────────────────────────────────────────

/// What CircularDependency@v1 raises for one component.
pub open spec fn cycle_one(snap: GraphSnapshot, c: Seq<usize>) -> Seq<AdvisoryView> {
    if c.len() >= 2 { seq![cycle_advisory(snap, c)] } else { Seq::empty() }
}

proof fn lemma_cycles_collect(snap: GraphSnapshot, cs: Seq<Seq<usize>>, k: int)
    ensures
        cycles_upto(snap, cs, k) == collect(cs, |c: Seq<usize>| cycle_one(snap, c), k),
    decreases k,
{
    if k > 0 {
        lemma_cycles_collect(snap, cs, k - 1);
        let prev = collect(cs, |c: Seq<usize>| cycle_one(snap, c), k - 1);
        if cs[k - 1].len() >= 2 {
            assert(cycles_upto(snap, cs, k) =~= prev + seq![cycle_advisory(snap, cs[k - 1])]);
        } else {
            assert(cycles_upto(snap, cs, k) =~= prev + Seq::<AdvisoryView>::empty());
        }
    }
}

/// `a` is the advisory CircularDependency@v1 raises for the component `c`:
/// a Warn caused by the component's ids ordered by deployable name (a
/// rearrangement of its members), with the first of them as subject.
pub open spec fn raised_for_cycle(snap: GraphSnapshot, c: Seq<usize>, a: AdvisoryView) -> bool {
    let m = cycle_members(snap, c);
    &&& a.kind == "CircularDependency"@
    &&& a.severity == Severity::Warn
    &&& a.caused_by == m.map_values(|e: (Seq<char>, Seq<char>)| e.0)
    &&& m.to_multiset() == member_entries(snap, c).to_multiset()
    &&& by_name_sorted(m)
    &&& a.subject_id == a.caused_by[0]
}

proof fn lemma_raised_for_cycle(snap: GraphSnapshot, c: Seq<usize>)
    requires
        c.len() >= 2,
    ensures
        raised_for_cycle(snap, c, cycle_advisory(snap, c)),
{
    lemma_cycle_subject_first_by_name(snap, c);
    let m = cycle_members(snap, c);
    let a = cycle_advisory(snap, c);
    assert(a.caused_by =~= m.map_values(|e: (Seq<char>, Seq<char>)| e.0));
}

/// CircularDependency@v1 raises, in the order of the strongly connected
/// components of the dependency graph, exactly one advisory per component
/// of two or more deployables, the one `raised_for_cycle` describes.
#[verifier::spinoff_prover]
pub proof fn lemma_circular_one_per_cycle(snap: GraphSnapshot)
    ensures
        ({
            let cs = components(dependency_graph(snap));
            let out = circular_dependency(snap);
            let p = picked(cs, |c: Seq<usize>| cycle_one(snap, c), cs.len() as int);
            &&& out.len() == p.len()
            &&& forall|t: int, u: int| 0 <= t < u < p.len() ==> #[trigger] p[t] < #[trigger] p[u]
            &&& forall|i: int| 0 <= i < cs.len() ==> (p.contains(i) <==> (#[trigger] cs[i]).len() >= 2)
            &&& forall|t: int| 0 <= t < p.len() ==>
                0 <= #[trigger] p[t] < cs.len() && raised_for_cycle(snap, cs[p[t]], out[t])
        }),
{
    let cs = components(dependency_graph(snap));
    lemma_cycles_collect(snap, cs, cs.len() as int);
    lemma_collect(cs, |c: Seq<usize>| cycle_one(snap, c), cs.len() as int);
    let p = picked(cs, |c: Seq<usize>| cycle_one(snap, c), cs.len() as int);
    let out = circular_dependency(snap);
    assert forall|i: int| 0 <= i < cs.len() implies (p.contains(i) <==> (#[trigger] cs[i]).len() >= 2) by {
        let one = |c: Seq<usize>| cycle_one(snap, c);
        assert(one(cs[i]).len() > 0 <==> cs[i].len() >= 2);
    }
    assert forall|t: int| 0 <= t < p.len() implies
        0 <= #[trigger] p[t] < cs.len() && raised_for_cycle(snap, cs[p[t]], out[t]) by {
        let c = cs[p[t]];
        let one = |c: Seq<usize>| cycle_one(snap, c);
        assert(one(c).len() > 0);
        assert(out[t] == cycle_advisory(snap, c));
        lemma_raised_for_cycle(snap, c);
    }
}

// ── BlockedUpstream@v1 ──────────────────────────────────────────────────────

/// `key` is a key of `m`.
pub open spec fn has_key(m: Seq<(Seq<char>, Seq<char>)>, key: Seq<char>) -> bool {
    exists|i: int| 0 <= i < m.len() && m[i].0 == key
}

/// No key of `m` occurs twice.
pub open spec fn keys_distinct(m: Seq<(Seq<char>, Seq<char>)>) -> bool {
    forall|i: int, j: int| 0 <= i < j < m.len() ==> (#[trigger] m[i]).0 != (#[trigger] m[j]).0
}

/// Change request `cr` is blocked and targets `b`.
pub open spec fn cr_blocks(cr: ChangeRequest, b: Seq<char>) -> bool {
    opt_is(cr.status, "blocked"@) && (cr.target_deployables matches Some(t) && comma_items(t@).contains(b))
}

/// Work order `wo` is blocked and on deployable `b`.
pub open spec fn wo_blocks(wo: WorkOrder, b: Seq<char>) -> bool {
    opt_is(wo.status, "blocked"@) && (wo.deployable_id matches Some(d) && d@.len() > 0 && d@ == b)
}

/// `b` is declared blocked: a target of a blocked change request, or the
/// deployable of a blocked work order.
pub open spec fn declared_blocked(snap: GraphSnapshot, b: Seq<char>) -> bool {
    ||| exists|i: int| 0 <= i < snap.change_requests@.len() && #[trigger] cr_blocks(snap.change_requests@[i], b)
    ||| exists|i: int| 0 <= i < snap.work_orders@.len() && #[trigger] wo_blocks(snap.work_orders@[i], b)
}

/// Dependency `e` of another known deployable leads to blocked `b`: `b`
/// exposes the service it consumes.
pub open spec fn blocked_edge(snap: GraphSnapshot, b: Seq<char>, e: Dependency) -> bool {
    exposed_by(snap.exposes@, e.service_id@, b) && is_deployable_id(snap.deployables@, e.deployable_id@)
        && e.deployable_id@ != b
}

proof fn lemma_insert_first(m: Seq<(Seq<char>, Seq<char>)>, k: Seq<char>, v: Seq<char>)
    requires
        keys_distinct(m),
    ensures
        keys_distinct(insert_first(m, k, v)),
        forall|x: Seq<char>| has_key(insert_first(m, k, v), x) <==> (has_key(m, x) || x == k),
{
    let n = insert_first(m, k, v);
    if !(exists|i: int| 0 <= i < m.len() && m[i].0 == k) {
        assert(n == m.push((k, v)));
        assert forall|x: Seq<char>| has_key(n, x) <==> (has_key(m, x) || x == k) by {
            if has_key(m, x) {
                let i = choose|i: int| 0 <= i < m.len() && m[i].0 == x;
                assert(n[i] == m[i]);
            }
            if x == k {
                assert(n[m.len() as int].0 == k);
            }
            if has_key(n, x) {
                let i = choose|i: int| 0 <= i < n.len() && n[i].0 == x;
                if i < m.len() {
                    assert(n[i] == m[i]);
                }
            }
        }
        assert forall|i: int, j: int| 0 <= i < j < n.len() implies (#[trigger] n[i]).0 != (#[trigger] n[j]).0 by {
            assert(n[i] == m[i]);
            if j < m.len() {
                assert(n[j] == m[j]);
            }
        }
    }
}

proof fn lemma_insert_items(m: Seq<(Seq<char>, Seq<char>)>, items: Seq<Seq<char>>, msg: Seq<char>, k: int)
    requires
        keys_distinct(m),
        0 <= k <= items.len(),
    ensures
        keys_distinct(insert_items(m, items, msg, k)),
        forall|x: Seq<char>| has_key(insert_items(m, items, msg, k), x) <==>
            (has_key(m, x) || exists|j: int| 0 <= j < k && items[j] == x),
    decreases k,
{
    if k > 0 {
        lemma_insert_items(m, items, msg, k - 1);
        lemma_insert_first(insert_items(m, items, msg, k - 1), items[k - 1], msg);
        assert forall|x: Seq<char>| has_key(insert_items(m, items, msg, k), x) <==>
            (has_key(m, x) || exists|j: int| 0 <= j < k && items[j] == x) by {
            if exists|j: int| 0 <= j < k && items[j] == x {
                let j = choose|j: int| 0 <= j < k && items[j] == x;
                if j < k - 1 {
                    assert(exists|j2: int| 0 <= j2 < k - 1 && items[j2] == x);
                } else {
                    assert(x == items[k - 1]);
                }
            }
            if has_key(insert_items(m, items, msg, k - 1), x) && !has_key(m, x) {
                let j = choose|j: int| 0 <= j < k - 1 && items[j] == x;
                assert(0 <= j < k && items[j] == x);
            }
            if x == items[k - 1] {
                assert(0 <= k - 1 < k && items[k - 1] == x);
            }
        }
    }
}

proof fn lemma_blocked_by_crs(crs: Seq<ChangeRequest>, k: int)
    requires
        0 <= k <= crs.len(),
    ensures
        keys_distinct(blocked_by_crs(crs, k)),
        forall|x: Seq<char>| #![trigger has_key(blocked_by_crs(crs, k), x)] has_key(blocked_by_crs(crs, k), x) <==>
            exists|i: int| 0 <= i < k && #[trigger] cr_blocks(crs[i], x),
    decreases k,
{
    if k > 0 {
        lemma_blocked_by_crs(crs, k - 1);
        let prev = blocked_by_crs(crs, k - 1);
        let cr = crs[k - 1];
        let on = opt_is(cr.status, "blocked"@) && cr.target_deployables is Some;
        if on {
            let items = comma_items(cr.target_deployables->0@);
            let msg = "blocked CR: "@ + crate::lobby::rules::cr_summary(cr);
            lemma_insert_items(prev, items, msg, items.len() as int);
            assert(blocked_by_crs(crs, k) == insert_items(prev, items, msg, items.len() as int));
        } else {
            assert(blocked_by_crs(crs, k) == prev);
        }
        assert forall|x: Seq<char>| #![trigger has_key(blocked_by_crs(crs, k), x)] has_key(blocked_by_crs(crs, k), x) <==>
            exists|i: int| 0 <= i < k && #[trigger] cr_blocks(crs[i], x) by {
            let here = cr_blocks(cr, x);
            assert(has_key(prev, x) <==> exists|i: int| 0 <= i < k - 1 && #[trigger] cr_blocks(crs[i], x));
            if on {
                let items = comma_items(cr.target_deployables->0@);
                assert(here <==> items.contains(x));
                if items.contains(x) {
                    let j = choose|j: int| 0 <= j < items.len() && items[j] == x;
                    assert(exists|j2: int| 0 <= j2 < items.len() && items[j2] == x);
                }
                if exists|j: int| 0 <= j < items.len() && items[j] == x {
                    let j = choose|j: int| 0 <= j < items.len() && items[j] == x;
                    assert(items.contains(x));
                }
            } else {
                assert(!here);
            }
            if exists|i: int| 0 <= i < k && #[trigger] cr_blocks(crs[i], x) {
                let i = choose|i: int| 0 <= i < k && #[trigger] cr_blocks(crs[i], x);
                if i < k - 1 {
                    assert(exists|i2: int| 0 <= i2 < k - 1 && #[trigger] cr_blocks(crs[i2], x));
                } else {
                    assert(here);
                }
            }
            if exists|i: int| 0 <= i < k - 1 && #[trigger] cr_blocks(crs[i], x) {
                let i = choose|i: int| 0 <= i < k - 1 && #[trigger] cr_blocks(crs[i], x);
                assert(0 <= i < k && cr_blocks(crs[i], x));
            }
            if here {
                assert(0 <= k - 1 < k && cr_blocks(crs[k - 1], x));
            }
        }
    }
}

proof fn lemma_blocked_by_wos(base: Seq<(Seq<char>, Seq<char>)>, wos: Seq<WorkOrder>, k: int)
    requires
        keys_distinct(base),
        0 <= k <= wos.len(),
    ensures
        keys_distinct(blocked_by_wos(base, wos, k)),
        forall|x: Seq<char>| #![trigger has_key(blocked_by_wos(base, wos, k), x)] has_key(blocked_by_wos(base, wos, k), x) <==>
            (has_key(base, x) || exists|i: int| 0 <= i < k && #[trigger] wo_blocks(wos[i], x)),
    decreases k,
{
    if k > 0 {
        lemma_blocked_by_wos(base, wos, k - 1);
        let prev = blocked_by_wos(base, wos, k - 1);
        let wo = wos[k - 1];
        let on = opt_is(wo.status, "blocked"@) && (wo.deployable_id matches Some(d) && d@.len() > 0);
        if on {
            lemma_insert_first(prev, wo.deployable_id->0@, "blocked work order"@);
            assert(blocked_by_wos(base, wos, k) == insert_first(prev, wo.deployable_id->0@, "blocked work order"@));
        } else {
            assert(blocked_by_wos(base, wos, k) == prev);
        }
        assert forall|x: Seq<char>| #![trigger has_key(blocked_by_wos(base, wos, k), x)] has_key(blocked_by_wos(base, wos, k), x) <==>
            (has_key(base, x) || exists|i: int| 0 <= i < k && #[trigger] wo_blocks(wos[i], x)) by {
            let here = wo_blocks(wo, x);
            assert(has_key(prev, x) <==> (has_key(base, x) || exists|i: int| 0 <= i < k - 1 && #[trigger] wo_blocks(wos[i], x)));
            if on {
                assert(here <==> wo.deployable_id->0@ == x);
            } else {
                assert(!here);
            }
            if exists|i: int| 0 <= i < k && #[trigger] wo_blocks(wos[i], x) {
                let i = choose|i: int| 0 <= i < k && #[trigger] wo_blocks(wos[i], x);
                if i < k - 1 {
                    assert(exists|i2: int| 0 <= i2 < k - 1 && #[trigger] wo_blocks(wos[i2], x));
                } else {
                    assert(here);
                }
            }
            if exists|i: int| 0 <= i < k - 1 && #[trigger] wo_blocks(wos[i], x) {
                let i = choose|i: int| 0 <= i < k - 1 && #[trigger] wo_blocks(wos[i], x);
                assert(0 <= i < k && wo_blocks(wos[i], x));
            }
            if here {
                assert(0 <= k - 1 < k && wo_blocks(wos[k - 1], x));
            }
        }
    }
}

/// What BlockedUpstream@v1 raises for dependency `e` leading to blocked
/// `b`, blocked for reason `msg`.
pub open spec fn blocked_advisory(snap: GraphSnapshot, b: Seq<char>, msg: Seq<char>, e: Dependency) -> AdvisoryView {
    let depender = e.deployable_id@;
    let dname = display_name(snap.deployables@, depender);
    let bname = display_name(snap.deployables@, b);
    AdvisoryView {
        kind: "BlockedUpstream"@,
        subject_type: "deployable"@,
        subject_id: depender,
        subject_name: dname,
        severity: crit_severity(crit_of(e)),
        rule: "blocked-upstream@v1"@,
        explain: dname + " depends on "@ + bname + " ("@ + crit_of(e) + " criticality). "@ + bname + ": "@ + msg,
        caused_by: seq![b, e.id@],
    }
}

proof fn lemma_blocked_edges(snap: GraphSnapshot, b: Seq<char>, msg: Seq<char>, k: int)
    requires
        0 <= k <= snap.dependencies@.len(),
    ensures
        forall|a: AdvisoryView| #[trigger] blocked_edges(snap, b, msg, k).contains(a) <==>
            exists|j: int| 0 <= j < k && blocked_edge(snap, b, snap.dependencies@[j])
                && a == blocked_advisory(snap, b, msg, snap.dependencies@[j]),
    decreases k,
{
    if k > 0 {
        lemma_blocked_edges(snap, b, msg, k - 1);
        let prev = blocked_edges(snap, b, msg, k - 1);
        let now = blocked_edges(snap, b, msg, k);
        let e = snap.dependencies@[k - 1];
        assert forall|a: AdvisoryView| #[trigger] now.contains(a) <==>
            exists|j: int| 0 <= j < k && blocked_edge(snap, b, snap.dependencies@[j])
                && a == blocked_advisory(snap, b, msg, snap.dependencies@[j]) by {
            if blocked_edge(snap, b, e) {
                assert(now == prev.push(blocked_advisory(snap, b, msg, e)));
                if prev.contains(a) {
                    let q = choose|q: int| 0 <= q < prev.len() && prev[q] == a;
                    assert(now[q] == a);
                }
                if now.contains(a) {
                    let q = choose|q: int| 0 <= q < now.len() && now[q] == a;
                    if q < prev.len() {
                        assert(prev[q] == a);
                        assert(prev.contains(a));
                    }
                }
                if a == blocked_advisory(snap, b, msg, e) {
                    assert(now[prev.len() as int] == a);
                }
                if exists|j: int| 0 <= j < k && blocked_edge(snap, b, snap.dependencies@[j])
                    && a == blocked_advisory(snap, b, msg, snap.dependencies@[j]) {
                    let j = choose|j: int| 0 <= j < k && blocked_edge(snap, b, snap.dependencies@[j])
                        && a == blocked_advisory(snap, b, msg, snap.dependencies@[j]);
                    if j < k - 1 {
                        assert(prev.contains(a));
                        let q = choose|q: int| 0 <= q < prev.len() && prev[q] == a;
                        assert(now[q] == a);
                    }
                }
            } else {
                assert(now == prev);
            }
        }
    }
}

proof fn lemma_blocked_upto(snap: GraphSnapshot, bl: Seq<(Seq<char>, Seq<char>)>, k: int)
    requires
        0 <= k <= bl.len(),
    ensures
        forall|a: AdvisoryView| #[trigger] blocked_upto(snap, bl, k).contains(a) <==>
            exists|i: int, j: int| 0 <= i < k && 0 <= j < snap.dependencies@.len()
                && is_deployable_id(snap.deployables@, bl[i].0)
                && blocked_edge(snap, bl[i].0, snap.dependencies@[j])
                && a == blocked_advisory(snap, bl[i].0, bl[i].1, snap.dependencies@[j]),
    decreases k,
{
    if k > 0 {
        lemma_blocked_upto(snap, bl, k - 1);
        let prev = blocked_upto(snap, bl, k - 1);
        let (b, msg) = bl[k - 1];
        let n = snap.dependencies@.len() as int;
        lemma_blocked_edges(snap, b, msg, n);
        let tail = if is_deployable_id(snap.deployables@, b) { blocked_edges(snap, b, msg, n) } else { Seq::empty() };
        let now = blocked_upto(snap, bl, k);
        assert(now == prev + tail);
        assert forall|a: AdvisoryView| #[trigger] now.contains(a) <==>
            exists|i: int, j: int| 0 <= i < k && 0 <= j < n
                && is_deployable_id(snap.deployables@, bl[i].0)
                && blocked_edge(snap, bl[i].0, snap.dependencies@[j])
                && a == blocked_advisory(snap, bl[i].0, bl[i].1, snap.dependencies@[j]) by {
            if now.contains(a) {
                let q = choose|q: int| 0 <= q < now.len() && now[q] == a;
                if q < prev.len() {
                    assert(prev[q] == a);
                    assert(prev.contains(a));
                    let (i, j) = choose|i: int, j: int| 0 <= i < k - 1 && 0 <= j < n
                        && is_deployable_id(snap.deployables@, bl[i].0)
                        && blocked_edge(snap, bl[i].0, snap.dependencies@[j])
                        && a == blocked_advisory(snap, bl[i].0, bl[i].1, snap.dependencies@[j]);
                } else {
                    assert(tail[q - prev.len()] == a);
                    assert(tail.contains(a));
                    assert(is_deployable_id(snap.deployables@, b));
                    assert(blocked_edges(snap, b, msg, n).contains(a));
                    let j = choose|j: int| 0 <= j < n && blocked_edge(snap, b, snap.dependencies@[j])
                        && a == blocked_advisory(snap, b, msg, snap.dependencies@[j]);
                    assert(bl[k - 1].0 == b && bl[k - 1].1 == msg);
                }
            }
            if exists|i: int, j: int| 0 <= i < k && 0 <= j < n
                && is_deployable_id(snap.deployables@, bl[i].0)
                && blocked_edge(snap, bl[i].0, snap.dependencies@[j])
                && a == blocked_advisory(snap, bl[i].0, bl[i].1, snap.dependencies@[j]) {
                let (i, j) = choose|i: int, j: int| 0 <= i < k && 0 <= j < n
                    && is_deployable_id(snap.deployables@, bl[i].0)
                    && blocked_edge(snap, bl[i].0, snap.dependencies@[j])
                    && a == blocked_advisory(snap, bl[i].0, bl[i].1, snap.dependencies@[j]);
                if i < k - 1 {
                    assert(prev.contains(a));
                    let q = choose|q: int| 0 <= q < prev.len() && prev[q] == a;
                    assert(now[q] == a);
                } else {
                    assert(bl[i].0 == b && bl[i].1 == msg);
                    assert(blocked_edges(snap, b, msg, n).contains(a));
                    let q = choose|q: int| 0 <= q < tail.len() && tail[q] == a;
                    assert(now[prev.len() + q] == a);
                }
            }
        }
    }
}

/// BlockedUpstream@v1 as a whole: the blocked deployables are those
/// declared blocked by a blocked change request's targets or a blocked
/// work order, each listed once with the reason first declared; and an
/// advisory is raised exactly for each blocked known deployable `b` and
/// each dependency of another known deployable on a service `b` exposes:
/// on the depending deployable, caused by `b` and the dependency, with the
/// severity of its criticality (high/critical Critical, medium Warn, else
/// Info).
pub proof fn lemma_blocked_upstream_law(snap: GraphSnapshot)
    ensures
        keys_distinct(blockers(snap)),
        forall|b: Seq<char>| has_key(blockers(snap), b) <==> declared_blocked(snap, b),
        forall|a: AdvisoryView| #[trigger] blocked_upto(snap, blockers(snap), blockers(snap).len() as int).contains(a) <==>
            exists|i: int, j: int| 0 <= i < blockers(snap).len() && 0 <= j < snap.dependencies@.len()
                && is_deployable_id(snap.deployables@, blockers(snap)[i].0)
                && blocked_edge(snap, blockers(snap)[i].0, snap.dependencies@[j])
                && a == blocked_advisory(snap, blockers(snap)[i].0, blockers(snap)[i].1, snap.dependencies@[j]),
        forall|b: Seq<char>, msg: Seq<char>, e: Dependency| #![trigger blocked_advisory(snap, b, msg, e)] {
            let a = blocked_advisory(snap, b, msg, e);
            &&& a.subject_id == e.deployable_id@
            &&& a.caused_by == seq![b, e.id@]
            &&& a.severity == crit_severity(crit_of(e))
        },
{
    let crs = snap.change_requests@;
    lemma_blocked_by_crs(crs, crs.len() as int);
    lemma_blocked_by_wos(blocked_by_crs(crs, crs.len() as int), snap.work_orders@, snap.work_orders@.len() as int);
    lemma_blocked_upto(snap, blockers(snap), blockers(snap).len() as int);
    let c = blocked_by_crs(crs, crs.len() as int);
    let wos = snap.work_orders@;
    assert(blockers(snap) == blocked_by_wos(c, wos, wos.len() as int));
    assert forall|b: Seq<char>| has_key(blockers(snap), b) <==> declared_blocked(snap, b) by {
        assert(has_key(blocked_by_wos(c, wos, wos.len() as int), b) <==>
            (has_key(c, b) || exists|i: int| 0 <= i < wos.len() && #[trigger] wo_blocks(wos[i], b)));
        assert(has_key(c, b) <==> exists|i: int| 0 <= i < crs.len() && #[trigger] cr_blocks(crs[i], b));
    }
}

} // verus!
