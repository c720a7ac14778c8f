//! Reconciliation: what the engine does with each derivation pass.
//!
//! A pass produces the advisories the rules want raised, each identified by
//! its `(rule, subject_id)`. They are matched against the advisories on
//! record:
//!
//! - **In both**: a dismissed or resolved advisory is re-raised; any other
//!   has its explanation refreshed.
//! - **Wanted, not on record**: a new advisory is raised.
//! - **On record, no longer wanted**: a raised or acknowledged advisory is
//!   resolved once its quiet window has passed since its last action.
//!
//! The engine performs the writes; this module decides them.

use vstd::prelude::*;
use crate::text::{uppercase, to_upper, eq_str, split_on, last_piece, opt_view, chars_of, push_char, owned, append, decimal, push_decimal};
use crate::lobby::rules::DerivedAdvisory;
use crate::adapters::github::{parse_int, parse_i64_text, parse_i64};

verus! {

/// What reconciliation reads of an advisory on record: whether it is
/// deleted, its rule and subject (empty when absent) and its state (none
/// when absent, which counts as `raised`).
#[derive(Debug, Clone)]
pub struct ExistingAdvisory {
    pub deleted: bool,
    pub rule: String,
    pub subject_id: String,
    pub state: Option<String>,
}

/// One write a pass decides on. `existing` indexes the advisories on
/// record, `advisory` the derived ones.
#[derive(Debug, Clone, Copy, PartialEq, Eq, Structural)]
pub enum ReconcileAction {
    /// Wanted again after it was dismissed or resolved: raise it again.
    ReRaise { existing: usize, advisory: usize },
    /// Still wanted: refresh its explanation.
    Refresh { existing: usize, advisory: usize },
    /// No longer wanted while open: resolve it if its quiet window passed.
    CheckResolve { existing: usize },
    /// Wanted and not on record: raise it.
    Raise { advisory: usize },
}

/// The state of an advisory on record.
pub open spec fn state_text(e: ExistingAdvisory) -> Seq<char> {
    match e.state {
        Some(s) => s@,
        None => "raised"@,
    }
}

/// The identity of a derived advisory.
pub open spec fn want_key(d: DerivedAdvisory) -> (Seq<char>, Seq<char>) {
    (d.rule@, d.subject_id@)
}

/// The identity of an advisory on record.
pub open spec fn record_key(e: ExistingAdvisory) -> (Seq<char>, Seq<char>) {
    (e.rule@, e.subject_id@)
}

/// Index of the last of the first `k` derived advisories with `key` (a
/// later one replaces an earlier one), or -1.
pub open spec fn last_want(ds: Seq<DerivedAdvisory>, key: (Seq<char>, Seq<char>), k: int) -> int
    decreases k,
{
    if k <= 0 {
        -1
    } else if want_key(ds[k - 1]) == key {
        k - 1
    } else {
        last_want(ds, key, k - 1)
    }
}

/// An advisory on record before position `i`, not deleted, has `key`: it
/// took the wanted advisory with that key.
pub open spec fn claimed_before(es: Seq<ExistingAdvisory>, key: (Seq<char>, Seq<char>), i: int) -> bool {
    exists|j: int| 0 <= j < i && !es[j].deleted && #[trigger] record_key(es[j]) == key
}

/// What the pass does with advisory `i` on record, if anything.
pub open spec fn record_action(ds: Seq<DerivedAdvisory>, es: Seq<ExistingAdvisory>, i: int) -> Option<ReconcileAction> {
    let e = es[i];
    let key = record_key(e);
    let w = last_want(ds, key, ds.len() as int);
    let st = state_text(e);
    if e.deleted {
        None
    } else if w >= 0 && !claimed_before(es, key, i) {
        if st == "dismissed"@ || st == "resolved"@ {
            Some(ReconcileAction::ReRaise { existing: i as usize, advisory: w as usize })
        } else {
            Some(ReconcileAction::Refresh { existing: i as usize, advisory: w as usize })
        }
    } else if st == "raised"@ || st == "acknowledged"@ {
        Some(ReconcileAction::CheckResolve { existing: i as usize })
    } else {
        None
    }
}

/// The actions on the first `k` advisories on record, in order.
pub open spec fn record_actions(ds: Seq<DerivedAdvisory>, es: Seq<ExistingAdvisory>, k: int) -> Seq<ReconcileAction>
    decreases k,
{
    if k <= 0 {
        Seq::empty()
    } else {
        let before = record_actions(ds, es, k - 1);
        match record_action(ds, es, k - 1) {
            Some(a) => before.push(a),
            None => before,
        }
    }
}

/// Derived advisory `k` is the first with its key.
pub open spec fn first_of_key(ds: Seq<DerivedAdvisory>, k: int) -> bool {
    forall|j: int| 0 <= j < k ==> #[trigger] want_key(ds[j]) != want_key(ds[k])
}

/// The raise for the key of derived advisory `j`: it raises the last
/// derived advisory with that key.
pub open spec fn raise_for(ds: Seq<DerivedAdvisory>, j: int) -> ReconcileAction {
    ReconcileAction::Raise { advisory: last_want(ds, want_key(ds[j]), ds.len() as int) as usize }
}

/// The raises among the first `k` derived advisories: one per key that no
/// advisory on record took, at the key's first appearance, raising the
/// key's last derived advisory.
pub open spec fn raise_actions(ds: Seq<DerivedAdvisory>, es: Seq<ExistingAdvisory>, k: int) -> Seq<ReconcileAction>
    decreases k,
{
    if k <= 0 {
        Seq::empty()
    } else {
        let before = raise_actions(ds, es, k - 1);
        let key = want_key(ds[k - 1]);
        if first_of_key(ds, k - 1) && !claimed_before(es, key, es.len() as int) {
            before.push(raise_for(ds, k - 1))
        } else {
            before
        }
    }
}

/// The whole pass: the actions on the advisories on record, then the new
/// raises.
pub open spec fn reconcile_actions(ds: Seq<DerivedAdvisory>, es: Seq<ExistingAdvisory>) -> Seq<ReconcileAction> {
    record_actions(ds, es, es.len() as int) + raise_actions(ds, es, ds.len() as int)
}

proof fn lemma_last_want(ds: Seq<DerivedAdvisory>, key: (Seq<char>, Seq<char>), k: int)
    requires
        0 <= k,
    ensures
        -1 <= last_want(ds, key, k) < k,
        last_want(ds, key, k) >= 0 ==> want_key(ds[last_want(ds, key, k)]) == key,
        last_want(ds, key, k) < 0 ==> forall|j: int| 0 <= j < k ==> #[trigger] want_key(ds[j]) != key,
    decreases k,
{
    if k > 0 {
        lemma_last_want(ds, key, k - 1);
    }
}

fn same_key(rule_a: &str, subject_a: &str, rule_b: &str, subject_b: &str) -> (r: bool)
    ensures
        r == ((rule_a@, subject_a@) == (rule_b@, subject_b@)),
{
    eq_str(rule_a, rule_b) && eq_str(subject_a, subject_b)
}

/// Index of the last derived advisory with the key, or none.
fn find_last_want(ds: &Vec<DerivedAdvisory>, rule: &str, subject: &str) -> (r: Option<usize>)
    ensures
        match r {
            Some(w) => w as int == last_want(ds@, (rule@, subject@), ds@.len() as int),
            None => last_want(ds@, (rule@, subject@), ds@.len() as int) == -1,
        },
{
    let mut k: usize = ds.len();
    while k > 0
        invariant
            k <= ds@.len(),
            last_want(ds@, (rule@, subject@), ds@.len() as int) == last_want(ds@, (rule@, subject@), k as int),
        decreases k,
    {
        if same_key(ds[k - 1].rule, ds[k - 1].subject_id.as_str(), rule, subject) {
            return Some(k - 1);
        }
        k = k - 1;
    }
    None
}

/// Whether an advisory on record before `i`, not deleted, has the key.
fn claimed(es: &Vec<ExistingAdvisory>, rule: &str, subject: &str, i: usize) -> (r: bool)
    requires
        i <= es@.len(),
    ensures
        r == claimed_before(es@, (rule@, subject@), i as int),
{
    let mut j: usize = 0;
    while j < i
        invariant
            i <= es@.len(),
            j <= i,
            forall|q: int| 0 <= q < j ==> !(!es@[q].deleted && #[trigger] record_key(es@[q]) == (rule@, subject@)),
        decreases i - j,
    {
        if !es[j].deleted && same_key(es[j].rule.as_str(), es[j].subject_id.as_str(), rule, subject) {
            assert(record_key(es@[j as int]) == (rule@, subject@));
            return true;
        }
        j = j + 1;
    }
    false
}

/// Decide a derivation pass: for each advisory on record, in order,
/// whether it is re-raised, refreshed or checked for resolution; then the
/// wanted advisories nobody had on record, each raised once.
pub fn reconcile_plan(derived: &Vec<DerivedAdvisory>, existing: &Vec<ExistingAdvisory>) -> (plan: Vec<ReconcileAction>)
    ensures
        plan@ == reconcile_actions(derived@, existing@),
{
    let mut plan: Vec<ReconcileAction> = Vec::new();
    let mut i: usize = 0;
    while i < existing.len()
        invariant
            i <= existing@.len(),
            plan@ == record_actions(derived@, existing@, i as int),
        decreases existing@.len() - i,
    {
        let e = &existing[i];
        if !e.deleted {
            let st_dismissed_or_resolved = match &e.state {
                Some(s) => eq_str(s.as_str(), "dismissed") || eq_str(s.as_str(), "resolved"),
                None => false,
            };
            let st_open = match &e.state {
                Some(s) => eq_str(s.as_str(), "raised") || eq_str(s.as_str(), "acknowledged"),
                None => true,
            };
            proof {
                reveal_strlit("raised");
                reveal_strlit("dismissed");
                reveal_strlit("resolved");
            }
            let w = find_last_want(derived, e.rule.as_str(), e.subject_id.as_str());
            let taken = claimed(existing, e.rule.as_str(), e.subject_id.as_str(), i);
            let ghost st = state_text(*e);
            proof {
                if e.state is None {
                    assert(st == "raised"@);
                    assert("raised"@.len() == 6);
                    assert(st != "dismissed"@);
                    assert(st != "resolved"@);
                }
            }
            assert(st_dismissed_or_resolved == (st == "dismissed"@ || st == "resolved"@));
            assert(st_open == (st == "raised"@ || st == "acknowledged"@));
            let ghost before = plan@;
            assert(record_key(*e) == (e.rule@, e.subject_id@));
            match w {
                Some(w) => {
                    if !taken {
                        if st_dismissed_or_resolved {
                            plan.push(ReconcileAction::ReRaise { existing: i, advisory: w });
                        } else {
                            plan.push(ReconcileAction::Refresh { existing: i, advisory: w });
                        }
                    } else if st_open {
                        plan.push(ReconcileAction::CheckResolve { existing: i });
                    }
                },
                None => {
                    if st_open {
                        plan.push(ReconcileAction::CheckResolve { existing: i });
                    }
                },
            }
            assert(plan@ == match record_action(derived@, existing@, i as int) {
                Some(a) => before.push(a),
                None => before,
            });
        }
        i = i + 1;
    }
    let ghost head = plan@;
    let mut k: usize = 0;
    while k < derived.len()
        invariant
            k <= derived@.len(),
            head == record_actions(derived@, existing@, existing@.len() as int),
            plan@ == head + raise_actions(derived@, existing@, k as int),
        decreases derived@.len() - k,
    {
        let d = &derived[k];
        let mut first = true;
        let mut j: usize = 0;
        while j < k
            invariant
                j <= k < derived@.len(),
                *d == derived@[k as int],
                first <==> forall|q: int| 0 <= q < j ==> #[trigger] want_key(derived@[q]) != want_key(derived@[k as int]),
            decreases k - j,
        {
            let same = same_key(derived[j].rule, derived[j].subject_id.as_str(), d.rule, d.subject_id.as_str());
            assert(same == (want_key(derived@[j as int]) == want_key(derived@[k as int])));
            if same {
                first = false;
            }
            j = j + 1;
        }
        if first && !claimed(existing, d.rule, d.subject_id.as_str(), existing.len()) {
            let w = find_last_want(derived, d.rule, d.subject_id.as_str());
            proof { lemma_last_want(derived@, want_key(derived@[k as int]), derived@.len() as int); }
            let w = match w {
                Some(w) => w,
                None => k,
            };
            let ghost before = plan@;
            plan.push(ReconcileAction::Raise { advisory: w });
            assert(plan@ =~= head + raise_actions(derived@, existing@, k + 1));
        } else {
            assert(plan@ =~= head + raise_actions(derived@, existing@, k + 1));
        }
        k = k + 1;
    }
    plan
}

// ── what every pass keeps ───────────────────────────────────────────────────

proof fn lemma_raise_for(ds: Seq<DerivedAdvisory>, j: int)
    requires
        0 <= j < ds.len() <= usize::MAX,
    ensures
        raise_for(ds, j) is Raise,
        0 <= last_want(ds, want_key(ds[j]), ds.len() as int) < ds.len(),
        raise_for(ds, j)->Raise_advisory as int == last_want(ds, want_key(ds[j]), ds.len() as int),
        want_key(ds[raise_for(ds, j)->Raise_advisory as int]) == want_key(ds[j]),
{
    lemma_last_want(ds, want_key(ds[j]), ds.len() as int);
}

proof fn lemma_first_of_key_exists(ds: Seq<DerivedAdvisory>, k: int)
    requires
        0 <= k < ds.len(),
    ensures
        exists|f: int| 0 <= f <= k && first_of_key(ds, f) && #[trigger] want_key(ds[f]) == want_key(ds[k]),
    decreases k,
{
    if !first_of_key(ds, k) {
        let j = choose|j: int| 0 <= j < k && #[trigger] want_key(ds[j]) == want_key(ds[k]);
        lemma_first_of_key_exists(ds, j);
        let f = choose|f: int| 0 <= f <= j && first_of_key(ds, f) && #[trigger] want_key(ds[f]) == want_key(ds[j]);
        assert(0 <= f <= k && first_of_key(ds, f) && want_key(ds[f]) == want_key(ds[k]));
    } else {
        assert(0 <= k <= k && first_of_key(ds, k) && want_key(ds[k]) == want_key(ds[k]));
    }
}

proof fn lemma_first_claim(es: Seq<ExistingAdvisory>, key: (Seq<char>, Seq<char>), m: int)
    requires
        0 <= m <= es.len(),
        claimed_before(es, key, m),
    ensures
        exists|i: int| 0 <= i < m && !es[i].deleted && #[trigger] record_key(es[i]) == key && !claimed_before(es, key, i),
    decreases m,
{
    if claimed_before(es, key, m - 1) {
        lemma_first_claim(es, key, m - 1);
    } else {
        assert(!es[m - 1].deleted && record_key(es[m - 1]) == key);
    }
}

proof fn lemma_record_actions_members(ds: Seq<DerivedAdvisory>, es: Seq<ExistingAdvisory>, m: int)
    requires
        0 <= m <= es.len(),
    ensures
        forall|idx: int| #![trigger record_actions(ds, es, m)[idx]] 0 <= idx < record_actions(ds, es, m).len() ==>
            exists|i: int| 0 <= i < m && #[trigger] record_action(ds, es, i) == Some(record_actions(ds, es, m)[idx]),
        forall|i: int| 0 <= i < m && (#[trigger] record_action(ds, es, i)) is Some ==>
            record_actions(ds, es, m).contains(record_action(ds, es, i)->0),
    decreases m,
{
    if m > 0 {
        lemma_record_actions_members(ds, es, m - 1);
        let before = record_actions(ds, es, m - 1);
        let now = record_actions(ds, es, m);
        match record_action(ds, es, m - 1) {
            Some(a) => {
                assert(now == before.push(a));
                assert forall|idx: int| #![trigger now[idx]] 0 <= idx < now.len() implies
                    exists|i: int| 0 <= i < m && #[trigger] record_action(ds, es, i) == Some(now[idx]) by {
                    if idx < before.len() {
                        assert(now[idx] == before[idx]);
                        let i = choose|i: int| 0 <= i < m - 1 && #[trigger] record_action(ds, es, i) == Some(before[idx]);
                        assert(record_action(ds, es, i) == Some(now[idx]));
                    } else {
                        assert(record_action(ds, es, m - 1) == Some(now[idx]));
                    }
                }
                assert forall|i: int| 0 <= i < m && (#[trigger] record_action(ds, es, i)) is Some implies
                    now.contains(record_action(ds, es, i)->0) by {
                    if i < m - 1 {
                        let x = record_action(ds, es, i)->0;
                        let idx = choose|idx: int| 0 <= idx < before.len() && before[idx] == x;
                        assert(now[idx] == x);
                    } else {
                        assert(now[before.len() as int] == a);
                    }
                }
            },
            None => {},
        }
    }
}

proof fn lemma_raise_actions_members(ds: Seq<DerivedAdvisory>, es: Seq<ExistingAdvisory>, m: int)
    requires
        0 <= m <= ds.len() <= usize::MAX,
    ensures
        forall|idx: int| #![trigger raise_actions(ds, es, m)[idx]] 0 <= idx < raise_actions(ds, es, m).len() ==>
            exists|j: int| 0 <= j < m && !claimed_before(es, want_key(ds[j]), es.len() as int)
                && #[trigger] raise_for(ds, j) == raise_actions(ds, es, m)[idx],
        forall|j: int| 0 <= j < m && first_of_key(ds, j) && !claimed_before(es, want_key(ds[j]), es.len() as int)
            ==> raise_actions(ds, es, m).contains(#[trigger] raise_for(ds, j)),
        forall|p: int, q: int| 0 <= p < q < raise_actions(ds, es, m).len() ==>
            want_key(ds[(#[trigger] raise_actions(ds, es, m)[p])->Raise_advisory as int])
                != want_key(ds[(#[trigger] raise_actions(ds, es, m)[q])->Raise_advisory as int]),
    decreases m,
{
    if m > 0 {
        lemma_raise_actions_members(ds, es, m - 1);
        let before = raise_actions(ds, es, m - 1);
        let now = raise_actions(ds, es, m);
        let key = want_key(ds[m - 1]);
        if first_of_key(ds, m - 1) && !claimed_before(es, key, es.len() as int) {
            let r = raise_for(ds, m - 1);
            assert(now == before.push(r));
            lemma_raise_for(ds, m - 1);
            assert forall|idx: int| #![trigger now[idx]] 0 <= idx < now.len() implies
                exists|j: int| 0 <= j < m && !claimed_before(es, want_key(ds[j]), es.len() as int)
                    && #[trigger] raise_for(ds, j) == now[idx] by {
                if idx < before.len() {
                    assert(now[idx] == before[idx]);
                    let j = choose|j: int| 0 <= j < m - 1 && !claimed_before(es, want_key(ds[j]), es.len() as int)
                        && #[trigger] raise_for(ds, j) == before[idx];
                    assert(raise_for(ds, j) == now[idx]);
                } else {
                    assert(raise_for(ds, m - 1) == now[idx]);
                }
            }
            assert forall|j: int| 0 <= j < m && first_of_key(ds, j) && !claimed_before(es, want_key(ds[j]), es.len() as int)
                implies now.contains(#[trigger] raise_for(ds, j)) by {
                if j < m - 1 {
                    let idx = choose|idx: int| 0 <= idx < before.len() && before[idx] == raise_for(ds, j);
                    assert(now[idx] == raise_for(ds, j));
                } else {
                    assert(now[before.len() as int] == r);
                }
            }
            assert forall|p: int, q: int| 0 <= p < q < now.len() implies
                want_key(ds[(#[trigger] now[p])->Raise_advisory as int])
                    != want_key(ds[(#[trigger] now[q])->Raise_advisory as int]) by {
                assert(now[p] == before[p]);
                if q < before.len() {
                    assert(now[q] == before[q]);
                } else {
                    let j = choose|j: int| 0 <= j < m - 1 && !claimed_before(es, want_key(ds[j]), es.len() as int)
                        && #[trigger] raise_for(ds, j) == before[p];
                    lemma_raise_for(ds, j);
                    assert(want_key(ds[j]) != want_key(ds[m - 1]));
                }
            }
        } else {
            assert(now == before);
        }
    }
}

/// Every derived advisory's key is acted on in a pass. Where an advisory on
/// record, not deleted, has the key, the first such is refreshed or
/// re-raised with the key's last derived advisory, and the key is not
/// raised anew; where none has it, the key's last derived advisory is
/// raised, and no advisory on record is refreshed or re-raised with it.
pub proof fn lemma_reconcile_acts_on_each_wanted_key(ds: Seq<DerivedAdvisory>, es: Seq<ExistingAdvisory>, k: int)
    requires
        0 <= k < ds.len() <= usize::MAX,
    ensures
        ({
            let key = want_key(ds[k]);
            let w = last_want(ds, key, ds.len() as int) as usize;
            let plan = reconcile_actions(ds, es);
            &&& claimed_before(es, key, es.len() as int) ==> {
                &&& exists|i: int| 0 <= i < es.len() && record_key(#[trigger] es[i]) == key && (
                    plan.contains(ReconcileAction::ReRaise { existing: i as usize, advisory: w })
                    || plan.contains(ReconcileAction::Refresh { existing: i as usize, advisory: w }))
                &&& !plan.contains(ReconcileAction::Raise { advisory: w })
            }
            &&& !claimed_before(es, key, es.len() as int) ==> {
                &&& plan.contains(ReconcileAction::Raise { advisory: w })
                &&& forall|i: usize| !plan.contains(ReconcileAction::ReRaise { existing: i, advisory: w })
                    && !plan.contains(ReconcileAction::Refresh { existing: i, advisory: w })
            }
        }),
{
    let key = want_key(ds[k]);
    let n = ds.len() as int;
    let lw = last_want(ds, key, n);
    let w = lw as usize;
    let head = record_actions(ds, es, es.len() as int);
    let tail = raise_actions(ds, es, n);
    let plan = reconcile_actions(ds, es);
    assert(plan == head + tail);
    lemma_last_want(ds, key, n);
    assert(want_key(ds[k]) == key);
    assert(0 <= lw < n);
    lemma_record_actions_members(ds, es, es.len() as int);
    lemma_raise_actions_members(ds, es, n);
    // Whatever is in the plan is an action on a record or a raise.
    assert forall|x: ReconcileAction| #[trigger] plan.contains(x) implies
        (exists|i: int| 0 <= i < es.len() && #[trigger] record_action(ds, es, i) == Some(x))
        || (exists|j: int| 0 <= j < n && !claimed_before(es, want_key(ds[j]), es.len() as int)
            && #[trigger] raise_for(ds, j) == x) by {
        let idx = choose|idx: int| 0 <= idx < plan.len() && plan[idx] == x;
        if idx < head.len() {
            assert(head[idx] == x);
        } else {
            assert(tail[idx - head.len()] == x);
        }
    }
    if claimed_before(es, key, es.len() as int) {
        lemma_first_claim(es, key, es.len() as int);
        let i = choose|i: int| 0 <= i < es.len() && !es[i].deleted && #[trigger] record_key(es[i]) == key
            && !claimed_before(es, key, i);
        let a = record_action(ds, es, i)->0;
        assert(record_action(ds, es, i) is Some);
        let hidx = choose|hidx: int| 0 <= hidx < head.len() && head[hidx] == a;
        assert(plan[hidx] == a);
        assert(plan.contains(a));
        assert(record_key(es[i]) == key);
        if plan.contains(ReconcileAction::Raise { advisory: w }) {
            let x = ReconcileAction::Raise { advisory: w };
            if exists|j: int| 0 <= j < n && !claimed_before(es, want_key(ds[j]), es.len() as int)
                && #[trigger] raise_for(ds, j) == x {
                let j = choose|j: int| 0 <= j < n && !claimed_before(es, want_key(ds[j]), es.len() as int)
                    && #[trigger] raise_for(ds, j) == x;
                lemma_raise_for(ds, j);
                assert(want_key(ds[j]) == key);
            } else {
                let i2 = choose|i2: int| 0 <= i2 < es.len() && #[trigger] record_action(ds, es, i2) == Some(x);
                assert(false);
            }
        }
    } else {
        let f = choose|f: int| 0 <= f <= k && first_of_key(ds, f) && #[trigger] want_key(ds[f]) == want_key(ds[k]);
        lemma_first_of_key_exists(ds, k);
        let f = choose|f: int| 0 <= f <= k && first_of_key(ds, f) && #[trigger] want_key(ds[f]) == want_key(ds[k]);
        assert(tail.contains(raise_for(ds, f)));
        let tidx = choose|tidx: int| 0 <= tidx < tail.len() && tail[tidx] == raise_for(ds, f);
        assert(plan[head.len() + tidx] == raise_for(ds, f));
        assert(raise_for(ds, f) == ReconcileAction::Raise { advisory: w });
        assert forall|i: usize| !plan.contains(ReconcileAction::ReRaise { existing: i, advisory: w })
            && !plan.contains(ReconcileAction::Refresh { existing: i, advisory: w }) by {
            let r1 = ReconcileAction::ReRaise { existing: i, advisory: w };
            let r2 = ReconcileAction::Refresh { existing: i, advisory: w };
            if plan.contains(r1) || plan.contains(r2) {
                let x = if plan.contains(r1) { r1 } else { r2 };
                assert(plan.contains(x));
                if exists|j: int| 0 <= j < n && !claimed_before(es, want_key(ds[j]), es.len() as int)
                    && #[trigger] raise_for(ds, j) == x {
                    let j = choose|j: int| 0 <= j < n && !claimed_before(es, want_key(ds[j]), es.len() as int)
                        && #[trigger] raise_for(ds, j) == x;
                    assert(raise_for(ds, j) is Raise);
                } else {
                    let i2 = choose|i2: int| 0 <= i2 < es.len() && #[trigger] record_action(ds, es, i2) == Some(x);
                    let e = es[i2];
                    let lw2 = last_want(ds, record_key(e), n);
                    lemma_last_want(ds, record_key(e), n);
                    assert(lw2 >= 0 && lw2 as usize == w);
                    assert(lw2 == lw);
                    assert(record_key(e) == key);
                    assert(claimed_before(es, key, es.len() as int));
                }
            }
        }
    }
}

/// A pass raises each key at most once: two raises in a plan raise
/// advisories with different keys.
pub proof fn lemma_reconcile_raises_distinct_keys(ds: Seq<DerivedAdvisory>, es: Seq<ExistingAdvisory>, p: int, q: int)
    requires
        ds.len() <= usize::MAX,
        0 <= p < q < reconcile_actions(ds, es).len(),
        reconcile_actions(ds, es)[p] is Raise,
        reconcile_actions(ds, es)[q] is Raise,
    ensures
        want_key(ds[reconcile_actions(ds, es)[p]->Raise_advisory as int])
            != want_key(ds[reconcile_actions(ds, es)[q]->Raise_advisory as int]),
{
    let n = ds.len() as int;
    let head = record_actions(ds, es, es.len() as int);
    let tail = raise_actions(ds, es, n);
    let plan = reconcile_actions(ds, es);
    assert(plan == head + tail);
    lemma_record_actions_members(ds, es, es.len() as int);
    lemma_raise_actions_members(ds, es, n);
    if p < head.len() {
        assert(plan[p] == head[p]);
        let i = choose|i: int| 0 <= i < es.len() && #[trigger] record_action(ds, es, i) == Some(head[p]);
        assert(false);
    }
    assert(plan[p] == tail[p - head.len()]);
    assert(plan[q] == tail[q - head.len()]);
}

/// An advisory on record that a pass refreshes or re-raises is not deleted,
/// and no two advisories so kept share a key.
pub proof fn lemma_reconcile_keeps_one_record_per_key(ds: Seq<DerivedAdvisory>, es: Seq<ExistingAdvisory>, i1: int, i2: int)
    requires
        0 <= i1 < i2 < es.len(),
        record_action(ds, es, i1) matches Some(a) && (a is ReRaise || a is Refresh),
        record_action(ds, es, i2) matches Some(b) && (b is ReRaise || b is Refresh),
    ensures
        !es[i1].deleted,
        !es[i2].deleted,
        record_key(es[i1]) != record_key(es[i2]),
{
    if record_key(es[i1]) == record_key(es[i2]) {
        assert(claimed_before(es, record_key(es[i2]), i2));
    }
}

/// The keys of the first `k` derived advisories that no advisory on
/// record (not deleted) holds.
pub open spec fn new_keys(ds: Seq<DerivedAdvisory>, es: Seq<ExistingAdvisory>, k: int) -> Set<(Seq<char>, Seq<char>)>
    decreases k,
{
    if k <= 0 {
        Set::empty()
    } else {
        let prev = new_keys(ds, es, k - 1);
        let key = want_key(ds[k - 1]);
        if claimed_before(es, key, es.len() as int) { prev } else { prev.insert(key) }
    }
}

/// How many raises a plan holds.
pub open spec fn raise_count(plan: Seq<ReconcileAction>) -> nat
    decreases plan.len(),
{
    if plan.len() == 0 {
        0
    } else {
        raise_count(plan.drop_last()) + if plan.last() is Raise { 1nat } else { 0nat }
    }
}

proof fn lemma_raise_count_concat(a: Seq<ReconcileAction>, b: Seq<ReconcileAction>)
    ensures
        raise_count(a + b) == raise_count(a) + raise_count(b),
    decreases b.len(),
{
    if b.len() > 0 {
        assert((a + b).drop_last() =~= a + b.drop_last());
        lemma_raise_count_concat(a, b.drop_last());
    } else {
        assert(a + b =~= a);
    }
}

proof fn lemma_record_actions_raise_nothing(ds: Seq<DerivedAdvisory>, es: Seq<ExistingAdvisory>, m: int)
    ensures
        raise_count(record_actions(ds, es, m)) == 0,
    decreases m,
{
    if m > 0 {
        lemma_record_actions_raise_nothing(ds, es, m - 1);
        let before = record_actions(ds, es, m - 1);
        match record_action(ds, es, m - 1) {
            Some(a) => {
                assert(record_actions(ds, es, m).drop_last() =~= before);
            },
            None => {},
        }
    }
}

proof fn lemma_raise_actions_count(ds: Seq<DerivedAdvisory>, es: Seq<ExistingAdvisory>, m: int)
    requires
        0 <= m <= ds.len(),
    ensures
        raise_count(raise_actions(ds, es, m)) == new_keys(ds, es, m).len(),
        new_keys(ds, es, m).finite(),
        forall|key: (Seq<char>, Seq<char>)| #[trigger] new_keys(ds, es, m).contains(key) <==>
            (exists|j: int| 0 <= j < m && want_key(ds[j]) == key) && !claimed_before(es, key, es.len() as int),
    decreases m,
{
    if m > 0 {
        lemma_raise_actions_count(ds, es, m - 1);
        let prev = new_keys(ds, es, m - 1);
        let key = want_key(ds[m - 1]);
        let before = raise_actions(ds, es, m - 1);
        let c = claimed_before(es, key, es.len() as int);
        if first_of_key(ds, m - 1) && !c {
            assert(raise_actions(ds, es, m).drop_last() =~= before);
            assert(!prev.contains(key)) by {
                if prev.contains(key) {
                    let j = choose|j: int| 0 <= j < m - 1 && want_key(ds[j]) == key;
                    assert(want_key(ds[j]) != want_key(ds[m - 1]));
                }
            }
        } else if !c {
            let j = choose|j: int| 0 <= j < m - 1 && #[trigger] want_key(ds[j]) == want_key(ds[m - 1]);
            assert(prev.contains(key));
            assert(prev.insert(key) =~= prev);
        }
        assert forall|k2: (Seq<char>, Seq<char>)| #[trigger] new_keys(ds, es, m).contains(k2) <==>
            (exists|j: int| 0 <= j < m && want_key(ds[j]) == k2) && !claimed_before(es, k2, es.len() as int) by {
            if (exists|j: int| 0 <= j < m && want_key(ds[j]) == k2) && !claimed_before(es, k2, es.len() as int) {
                let j = choose|j: int| 0 <= j < m && want_key(ds[j]) == k2;
                if j < m - 1 {
                    assert(prev.contains(k2));
                }
            }
        }
    }
}

/// A pass raises one advisory per wanted key that no advisory on record
/// holds, and no other: the engine's `raised` count is the number of such
/// keys.
pub proof fn lemma_reconcile_raises_each_new_key(ds: Seq<DerivedAdvisory>, es: Seq<ExistingAdvisory>)
    ensures
        raise_count(reconcile_actions(ds, es)) == new_keys(ds, es, ds.len() as int).len(),
        forall|key: (Seq<char>, Seq<char>)| #[trigger] new_keys(ds, es, ds.len() as int).contains(key) <==>
            (exists|j: int| 0 <= j < ds.len() && want_key(ds[j]) == key) && !claimed_before(es, key, es.len() as int),
{
    lemma_raise_count_concat(record_actions(ds, es, es.len() as int), raise_actions(ds, es, ds.len() as int));
    lemma_record_actions_raise_nothing(ds, es, es.len() as int);
    lemma_raise_actions_count(ds, es, ds.len() as int);
}

/// Advisory `i` on record is the first (not deleted) with its key, the key
/// is wanted, and it was dismissed or resolved.
pub open spec fn first_closed_record(ds: Seq<DerivedAdvisory>, es: Seq<ExistingAdvisory>, i: int) -> bool {
    let key = record_key(es[i]);
    &&& !es[i].deleted
    &&& !claimed_before(es, key, i)
    &&& last_want(ds, key, ds.len() as int) >= 0
    &&& (state_text(es[i]) == "dismissed"@ || state_text(es[i]) == "resolved"@)
}

/// The keys of the first `m` advisories on record that are the first of a
/// wanted key and were dismissed or resolved.
pub open spec fn closed_wanted_keys(ds: Seq<DerivedAdvisory>, es: Seq<ExistingAdvisory>, m: int) -> Set<(Seq<char>, Seq<char>)>
    decreases m,
{
    if m <= 0 {
        Set::empty()
    } else {
        let prev = closed_wanted_keys(ds, es, m - 1);
        if first_closed_record(ds, es, m - 1) { prev.insert(record_key(es[m - 1])) } else { prev }
    }
}

/// How many re-raises a plan holds.
pub open spec fn re_raise_count(plan: Seq<ReconcileAction>) -> nat
    decreases plan.len(),
{
    if plan.len() == 0 {
        0
    } else {
        re_raise_count(plan.drop_last()) + if plan.last() is ReRaise { 1nat } else { 0nat }
    }
}

proof fn lemma_re_raise_count_concat(a: Seq<ReconcileAction>, b: Seq<ReconcileAction>)
    ensures
        re_raise_count(a + b) == re_raise_count(a) + re_raise_count(b),
    decreases b.len(),
{
    if b.len() > 0 {
        assert((a + b).drop_last() =~= a + b.drop_last());
        lemma_re_raise_count_concat(a, b.drop_last());
    } else {
        assert(a + b =~= a);
    }
}

proof fn lemma_raise_actions_re_raise_nothing(ds: Seq<DerivedAdvisory>, es: Seq<ExistingAdvisory>, m: int)
    ensures
        re_raise_count(raise_actions(ds, es, m)) == 0,
    decreases m,
{
    if m > 0 {
        lemma_raise_actions_re_raise_nothing(ds, es, m - 1);
        let before = raise_actions(ds, es, m - 1);
        if first_of_key(ds, m - 1) && !claimed_before(es, want_key(ds[m - 1]), es.len() as int) {
            assert(raise_actions(ds, es, m).drop_last() =~= before);
        }
    }
}

proof fn lemma_record_actions_re_raise_count(ds: Seq<DerivedAdvisory>, es: Seq<ExistingAdvisory>, m: int)
    requires
        0 <= m <= es.len(),
    ensures
        re_raise_count(record_actions(ds, es, m)) == closed_wanted_keys(ds, es, m).len(),
        closed_wanted_keys(ds, es, m).finite(),
        forall|key: (Seq<char>, Seq<char>)| #[trigger] closed_wanted_keys(ds, es, m).contains(key) <==>
            exists|i: int| 0 <= i < m && first_closed_record(ds, es, i) && record_key(es[i]) == key,
    decreases m,
{
    if m > 0 {
        lemma_record_actions_re_raise_count(ds, es, m - 1);
        let prev = closed_wanted_keys(ds, es, m - 1);
        let before = record_actions(ds, es, m - 1);
        let key = record_key(es[m - 1]);
        match record_action(ds, es, m - 1) {
            Some(a) => {
                assert(record_actions(ds, es, m).drop_last() =~= before);
            },
            None => {},
        }
        if first_closed_record(ds, es, m - 1) {
            assert(!prev.contains(key)) by {
                if prev.contains(key) {
                    let i = choose|i: int| 0 <= i < m - 1 && first_closed_record(ds, es, i) && record_key(es[i]) == key;
                    assert(claimed_before(es, key, m - 1));
                }
            }
        }
        assert forall|k2: (Seq<char>, Seq<char>)| #[trigger] closed_wanted_keys(ds, es, m).contains(k2) <==>
            exists|i: int| 0 <= i < m && first_closed_record(ds, es, i) && record_key(es[i]) == k2 by {
            if exists|i: int| 0 <= i < m && first_closed_record(ds, es, i) && record_key(es[i]) == k2 {
                let i = choose|i: int| 0 <= i < m && first_closed_record(ds, es, i) && record_key(es[i]) == k2;
                if i < m - 1 {
                    assert(prev.contains(k2));
                }
            }
        }
    }
}

/// A pass re-raises one advisory per wanted key whose first advisory on
/// record was dismissed or resolved, and no other: the engine's
/// `re_raised` count is the number of such keys.
pub proof fn lemma_reconcile_re_raises_each_closed_key(ds: Seq<DerivedAdvisory>, es: Seq<ExistingAdvisory>)
    ensures
        re_raise_count(reconcile_actions(ds, es)) == closed_wanted_keys(ds, es, es.len() as int).len(),
        forall|key: (Seq<char>, Seq<char>)| #[trigger] closed_wanted_keys(ds, es, es.len() as int).contains(key) <==>
            exists|i: int| 0 <= i < es.len() && first_closed_record(ds, es, i) && record_key(es[i]) == key,
{
    lemma_re_raise_count_concat(record_actions(ds, es, es.len() as int), raise_actions(ds, es, ds.len() as int));
    lemma_raise_actions_re_raise_nothing(ds, es, ds.len() as int);
    lemma_record_actions_re_raise_count(ds, es, es.len() as int);
}

/// The keys of the derived advisories.
pub open spec fn wanted_keys(ds: Seq<DerivedAdvisory>) -> Set<(Seq<char>, Seq<char>)> {
    Set::new(|key: (Seq<char>, Seq<char>)| exists|j: int| 0 <= j < ds.len() && want_key(ds[j]) == key)
}

/// The keys of the advisories on record that are not deleted.
pub open spec fn held_keys(es: Seq<ExistingAdvisory>) -> Set<(Seq<char>, Seq<char>)> {
    Set::new(|key: (Seq<char>, Seq<char>)| claimed_before(es, key, es.len() as int))
}

/// A pass creates one advisory per wanted key that is not held: the
/// number of raises is the size of the wanted keys minus the held ones.
pub proof fn lemma_reconcile_creates_wanted_minus_held(ds: Seq<DerivedAdvisory>, es: Seq<ExistingAdvisory>)
    ensures
        raise_count(reconcile_actions(ds, es)) == wanted_keys(ds).difference(held_keys(es)).len(),
        wanted_keys(ds).difference(held_keys(es)).finite(),
{
    lemma_reconcile_raises_each_new_key(ds, es);
    lemma_raise_actions_count(ds, es, ds.len() as int);
    assert(new_keys(ds, es, ds.len() as int) =~= wanted_keys(ds).difference(held_keys(es)));
}

/// What a pass did.
#[derive(Debug, Clone, Copy, PartialEq, Eq, Structural)]
pub struct TickReport {
    pub raised: usize,
    pub resolved: usize,
    pub re_raised: usize,
}

impl Default for TickReport {
    /// Nothing done.
    fn default() -> (r: TickReport)
        ensures
            r == (TickReport { raised: 0, resolved: 0, re_raised: 0 }),
    {
        TickReport { raised: 0, resolved: 0, re_raised: 0 }
    }
}

// ── auto-resolution ─────────────────────────────────────────────────────────

/// The quiet window, in minutes, when none is configured for a rule.
pub const DEFAULT_QUIET_WINDOW_MIN: i64 = 60;

/// The instant an RFC 3339 timestamp names, as whole seconds since the
/// epoch and nanoseconds past them (`chrono::DateTime::parse_from_rfc3339`);
/// none when it does not parse.
pub uninterp spec fn rfc3339_instant(s: Seq<char>) -> Option<(i64, u32)>;

/// Parse an RFC 3339 timestamp.
#[verifier::external_body]
fn parse_rfc3339(s: &str) -> (r: Option<(i64, u32)>)
    ensures
        r == rfc3339_instant(s@),
{
    match chrono::DateTime::parse_from_rfc3339(s) {
        Ok(t) => Some((t.timestamp(), t.timestamp_subsec_nanos())),
        Err(_) => None,
    }
}

/// An instant in nanoseconds since the epoch.
pub open spec fn total_nanos(t: (i64, u32)) -> int {
    t.0 * 1_000_000_000 + t.1
}

/// Quiet windows a duration can hold: `quiet_min` minutes within
/// `chrono::TimeDelta`'s range (whole seconds up to `i64::MAX / 1000`).
pub open spec fn quiet_window_ok(quiet_min: i64) -> bool {
    -9_223_372_036_854_775 <= quiet_min * 60 <= 9_223_372_036_854_775
}

/// Whether the quiet window has passed: always when there is no reference
/// time, else when at least `quiet_min` minutes separate it from `now`.
pub open spec fn quiet_passed(reference: Option<(i64, u32)>, quiet_min: int, now: (i64, u32)) -> bool {
    match reference {
        None => true,
        Some(t) => total_nanos(now) - total_nanos(t) >= quiet_min * 60_000_000_000,
    }
}

/// The reference time of an advisory: the timestamp after the last `@` of
/// its last action, else its raise time, when either parses.
pub open spec fn reference_time(last_action: Option<Seq<char>>, raised_at: Option<Seq<char>>) -> Option<(i64, u32)> {
    let from_action = match last_action {
        Some(s) => rfc3339_instant(split_on(s, '@').last()),
        None => None,
    };
    match from_action {
        Some(t) => Some(t),
        None => match raised_at {
            Some(r) => rfc3339_instant(r),
            None => None,
        },
    }
}

/// The quiet window runs from the advisory's last action: when the time
/// after the last `@` of the last action reads as an instant, the window is
/// measured from it, whatever the raise time holds; the raise time counts
/// only when there is no readable last action, and with neither the window
/// counts as passed.
pub proof fn lemma_quiet_window_runs_from_last_action(
    last_action: Option<Seq<char>>,
    raised_at: Option<Seq<char>>,
    quiet_min: int,
    now: (i64, u32),
)
    ensures
        (match last_action {
            Some(s) => rfc3339_instant(split_on(s, '@').last()),
            None => None,
        }) matches Some(t) ==> (quiet_passed(reference_time(last_action, raised_at), quiet_min, now)
            <==> now.0 * 1_000_000_000 + now.1 - (t.0 * 1_000_000_000 + t.1) >= quiet_min * 60_000_000_000),
        (match last_action {
            Some(s) => rfc3339_instant(split_on(s, '@').last()),
            None => None,
        }) is None ==> ((match raised_at {
            Some(x) => rfc3339_instant(x),
            None => None,
        }) matches Some(t) ==> (quiet_passed(reference_time(last_action, raised_at), quiet_min, now)
            <==> now.0 * 1_000_000_000 + now.1 - (t.0 * 1_000_000_000 + t.1) >= quiet_min * 60_000_000_000)),
        (match last_action {
            Some(s) => rfc3339_instant(split_on(s, '@').last()),
            None => None,
        }) is None && (match raised_at {
            Some(x) => rfc3339_instant(x),
            None => None,
        }) is None ==> quiet_passed(reference_time(last_action, raised_at), quiet_min, now),
{
}

/// Whether `quiet_min` minutes make a duration (see [`quiet_window_ok`]).
pub fn quiet_window_fits(quiet_min: i64) -> (r: bool)
    ensures
        r == quiet_window_ok(quiet_min),
{
    let x: i128 = quiet_min as i128 * 60;
    -9_223_372_036_854_775 <= x && x <= 9_223_372_036_854_775
}

/// Whether the quiet window has passed between `reference` and `now`.
pub fn resolve_due(reference: Option<(i64, u32)>, quiet_min: i64, now: (i64, u32)) -> (r: bool)
    requires
        quiet_window_ok(quiet_min),
    ensures
        r == quiet_passed(reference, quiet_min as int, now),
{
    match reference {
        None => true,
        Some(t) => {
            let a: i128 = now.0 as i128 * 1_000_000_000 + now.1 as i128;
            let b: i128 = t.0 as i128 * 1_000_000_000 + t.1 as i128;
            let q: i128 = quiet_min as i128 * 60_000_000_000;
            a - b >= q
        },
    }
}

/// Whether an open advisory that no rule wants any more is resolved now:
/// when its quiet window has passed since its last action (or its raise),
/// or when neither time can be read.
pub fn should_auto_resolve(
    last_action: &Option<String>,
    raised_at: &Option<String>,
    quiet_min: i64,
    now: (i64, u32),
) -> (r: bool)
    requires
        quiet_window_ok(quiet_min),
    ensures
        r == quiet_passed(reference_time(opt_view(*last_action), opt_view(*raised_at)), quiet_min as int, now),
        (match *last_action {
            Some(s) => rfc3339_instant(split_on(s@, '@').last()),
            None => None,
        }) matches Some(t) ==> (r <==> now.0 * 1_000_000_000 + now.1 - (t.0 * 1_000_000_000 + t.1)
            >= quiet_min * 60_000_000_000),
        (match *last_action {
            Some(s) => rfc3339_instant(split_on(s@, '@').last()),
            None => None,
        }) is None ==> ((match *raised_at {
            Some(x) => rfc3339_instant(x@),
            None => None,
        }) matches Some(t) ==> (r <==> now.0 * 1_000_000_000 + now.1 - (t.0 * 1_000_000_000 + t.1)
            >= quiet_min * 60_000_000_000)),
        (match *last_action {
            Some(s) => rfc3339_instant(split_on(s@, '@').last()),
            None => None,
        }) is None && (match *raised_at {
            Some(x) => rfc3339_instant(x@),
            None => None,
        }) is None ==> r,
{
    let from_action = match last_action {
        Some(s) => {
            let tail = last_piece(s.as_str(), '@');
            parse_rfc3339(tail.as_str())
        },
        None => None,
    };
    let reference = match from_action {
        Some(t) => Some(t),
        None => match raised_at {
            Some(r) => parse_rfc3339(r.as_str()),
            None => None,
        },
    };
    resolve_due(reference, quiet_min, now)
}

/// `s` with `@` and `-` written as `_`.
pub open spec fn underscored(s: Seq<char>) -> Seq<char> {
    s.map_values(|c: char| if c == '@' || c == '-' { '_' } else { c })
}

/// The name of the setting that overrides a rule's quiet window.
pub open spec fn quiet_window_key_text(rule: Seq<char>) -> Seq<char> {
    "LOBBY_QUIET_WINDOW_MINUTES_"@ + uppercase(underscored(rule))
}

/// The name of the setting that overrides `rule`'s quiet window, such as
/// `LOBBY_QUIET_WINDOW_MINUTES_BLOCKED_UPSTREAM_V1`.
pub fn quiet_window_key(rule: &str) -> (k: String)
    ensures
        k@ == quiet_window_key_text(rule@),
{
    let v = chars_of(rule);
    let mut u = String::new();
    let mut i: usize = 0;
    while i < v.len()
        invariant
            i <= v@.len(),
            v@ == rule@,
            u@ == underscored(rule@).take(i as int),
        decreases v@.len() - i,
    {
        let c = v[i];
        if c == '@' || c == '-' {
            push_char(&mut u, '_');
        } else {
            push_char(&mut u, c);
        }
        assert(u@ =~= underscored(rule@).take(i + 1));
        i = i + 1;
    }
    assert(underscored(rule@).take(v@.len() as int) =~= underscored(rule@));
    let up = to_upper(u.as_str());
    let mut k = owned("LOBBY_QUIET_WINDOW_MINUTES_");
    append(&mut k, up.as_str());
    k
}

/// A rule's quiet window: the setting when it reads as an integer, else
/// the default hour.
pub fn quiet_window_minutes(setting: &Option<String>) -> (m: i64)
    ensures
        m == match opt_view(*setting) {
            Some(s) => match parse_i64_text(s) {
                Some(n) => n,
                None => DEFAULT_QUIET_WINDOW_MIN,
            },
            None => DEFAULT_QUIET_WINDOW_MIN,
        },
{
    match setting {
        Some(s) => match parse_i64(s.as_str()) {
            Some(n) => n,
            None => DEFAULT_QUIET_WINDOW_MIN,
        },
        None => DEFAULT_QUIET_WINDOW_MIN,
    }
}

// ── re-raise count ──────────────────────────────────────────────────────────

/// `s` read as a `u32`, as `u32::from_str` reads it: an optional `+`, then
/// ASCII digits, within range.
pub open spec fn parse_u32_text(s: Seq<char>) -> Option<u32> {
    if s.len() > 0 && s[0] == '-' {
        None
    } else {
        match parse_int(s) {
            Some(v) => if 0 <= v <= u32::MAX { Some(v as u32) } else { None },
            None => None,
        }
    }
}

/// The stored count before a re-raise: the text read as a `u32`, else 0.
pub open spec fn prior_count(stored: Option<Seq<char>>) -> nat {
    match stored {
        Some(s) => match parse_u32_text(s) {
            Some(n) => n as nat,
            None => 0,
        },
        None => 0,
    }
}

/// The stored re-raise count: the text read as a `u32`, else 0.
pub fn stored_re_raise_count(stored: &Option<String>) -> (c: u32)
    ensures
        c as nat == prior_count(opt_view(*stored)),
{
    match stored {
        Some(s) => {
            let v = chars_of(s.as_str());
            if v.len() > 0 && v[0] == '-' {
                0
            } else {
                match parse_i64(s.as_str()) {
                    Some(n) => if 0 <= n && n <= 0xffff_ffff {
                        n as u32
                    } else {
                        0
                    },
                    None => 0,
                }
            }
        },
        None => 0,
    }
}

/// The re-raise count after one more re-raise, as text.
pub fn next_re_raise_count(stored: &Option<String>) -> (c: String)
    requires
        prior_count(opt_view(*stored)) < u32::MAX,
    ensures
        c@ == decimal(prior_count(opt_view(*stored)) + 1),
{
    let prev = stored_re_raise_count(stored);
    let mut c = String::new();
    push_decimal(&mut c, (prev + 1) as u64);
    assert(c@ =~= decimal((prev + 1) as nat));
    c
}

} // verus!
