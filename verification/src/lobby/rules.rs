//! Advisory derivation rules.
//!
//! Each rule is a pure function over a [`GraphSnapshot`] returning the
//! advisories it would raise if it were the only rule running. The engine
//! reconciles the output against the advisories already on record. Rules
//! are versioned through their `rule` tag (e.g. `"blocked-upstream@v1"`).
//!
//! Every rule's contract gives its exact output as a spec function over the
//! snapshot: which advisories, in which order, with which fields.

use vstd::prelude::*;
use crate::text::{
    views, decimal, opt_is, opt_eq, append, push_decimal, comma_items, comma_list, join,
    join_with, eq_str, seq_lt, str_lt, lemma_lt_total, lemma_lt_transitive,
    lemma_lt_asymmetric, lemma_lt_irreflexive,
};
use crate::lobby::scc::{
    strongly_connected_components, components, adj_view, comps_view, well_formed,
    lemma_components_in_range,
};
use crate::lobby::snapshot::{
    GraphSnapshot, Deployable, Dependency, Contract, Service, DataSync, TestEnvironment,
    ChangeRequest, WorkOrder, Exposes, DeploymentPlan, PlanStepLite,
};

verus! {

/// How loudly an advisory should be surfaced.
#[derive(Debug, Clone, Copy, PartialEq, Eq, Structural)]
pub enum Severity {
    Info,
    Warn,
    Critical,
}

/// The lower-case name of a severity.
pub open spec fn severity_name(s: Severity) -> Seq<char> {
    match s {
        Severity::Info => "info"@,
        Severity::Warn => "warn"@,
        Severity::Critical => "critical"@,
    }
}

impl Severity {
    /// The lower-case name of this severity.
    pub fn as_str(self) -> (r: &'static str)
        ensures
            r@ == severity_name(self),
    {
        match self {
            Severity::Info => "info",
            Severity::Warn => "warn",
            Severity::Critical => "critical",
        }
    }
}

/// One advisory as a rule wants to surface it, before reconciliation with
/// existing state.
#[derive(Debug, Clone)]
pub struct DerivedAdvisory {
    pub kind: &'static str,
    pub subject_type: &'static str,
    pub subject_id: String,
    pub subject_name: String,
    pub severity: Severity,
    pub rule: &'static str,
    pub explain: String,
    /// Ids of the entities that caused the advisory.
    pub caused_by: Vec<String>,
}

/// The content of an advisory, as character sequences.
pub struct AdvisoryView {
    pub kind: Seq<char>,
    pub subject_type: Seq<char>,
    pub subject_id: Seq<char>,
    pub subject_name: Seq<char>,
    pub severity: Severity,
    pub rule: Seq<char>,
    pub explain: Seq<char>,
    pub caused_by: Seq<Seq<char>>,
}

impl View for DerivedAdvisory {
    type V = AdvisoryView;

    open spec fn view(&self) -> AdvisoryView {
        AdvisoryView {
            kind: self.kind@,
            subject_type: self.subject_type@,
            subject_id: self.subject_id@,
            subject_name: self.subject_name@,
            severity: self.severity,
            rule: self.rule@,
            explain: self.explain@,
            caused_by: views(self.caused_by@),
        }
    }
}

/// The views of a sequence of advisories.
pub open spec fn advs(s: Seq<DerivedAdvisory>) -> Seq<AdvisoryView> {
    s.map_values(|a: DerivedAdvisory| a@)
}

proof fn lemma_advs_push(s: Seq<DerivedAdvisory>, a: DerivedAdvisory)
    ensures
        advs(s.push(a)) == advs(s).push(a@),
{
    assert(advs(s.push(a)) =~= advs(s).push(a@));
}

proof fn lemma_advs_append(s: Seq<DerivedAdvisory>, t: Seq<DerivedAdvisory>)
    ensures
        advs(s + t) == advs(s) + advs(t),
{
    assert(advs(s + t) =~= advs(s) + advs(t));
}


// ── shared lookups ──────────────────────────────────────────────────────────

/// The name of the last of the first `k` deployables whose id is `id`, or
/// `id` itself when there is none (a map built by inserting in order).
pub open spec fn name_last(ds: Seq<Deployable>, id: Seq<char>, k: int) -> Seq<char>
    decreases k,
{
    if k <= 0 {
        id
    } else if ds[k - 1].id@ == id {
        ds[k - 1].name@
    } else {
        name_last(ds, id, k - 1)
    }
}

/// The display name of deployable `id`: the name of the last deployable
/// with that id, else the id.
pub open spec fn display_name(ds: Seq<Deployable>, id: Seq<char>) -> Seq<char> {
    name_last(ds, id, ds.len() as int)
}

fn name_of_last(ds: &Vec<Deployable>, id: &String) -> (name: String)
    ensures
        name@ == display_name(ds@, id@),
{
    let mut k = ds.len();
    while k > 0
        invariant
            k <= ds@.len(),
            display_name(ds@, id@) == name_last(ds@, id@, k as int),
        decreases k,
    {
        if ds[k - 1].id == *id {
            return ds[k - 1].name.clone();
        }
        k = k - 1;
    }
    id.clone()
}

/// Whether some deployable has id `id`.
pub open spec fn is_deployable_id(ds: Seq<Deployable>, id: Seq<char>) -> bool {
    exists|i: int| 0 <= i < ds.len() && ds[i].id@ == id
}

fn has_deployable(ds: &Vec<Deployable>, id: &String) -> (b: bool)
    ensures
        b == is_deployable_id(ds@, id@),
{
    let mut j: usize = 0;
    while j < ds.len()
        invariant
            j <= ds@.len(),
            forall|k: int| 0 <= k < j ==> ds@[k].id@ != id@,
        decreases ds@.len() - j,
    {
        if ds[j].id == *id {
            return true;
        }
        j = j + 1;
    }
    false
}

/// Whether deployable `did` exposes service `sid`.
pub open spec fn exposed_by(ex: Seq<Exposes>, sid: Seq<char>, did: Seq<char>) -> bool {
    exists|i: int| 0 <= i < ex.len() && ex[i].service_id@ == sid && ex[i].deployable_id@ == did
}

/// The deployables exposing service `sid`, in the order of the first `k`
/// exposes edges (the index from service to exposers).
pub open spec fn exposers_upto(ex: Seq<Exposes>, sid: Seq<char>, k: int) -> Seq<Seq<char>>
    decreases k,
{
    if k <= 0 {
        Seq::empty()
    } else if ex[k - 1].service_id@ == sid {
        exposers_upto(ex, sid, k - 1).push(ex[k - 1].deployable_id@)
    } else {
        exposers_upto(ex, sid, k - 1)
    }
}

/// The deployables exposing service `sid`, in edge order.
pub fn exposers_index(ex: &Vec<Exposes>, sid: &String) -> (out: Vec<String>)
    ensures
        views(out@) == exposers_upto(ex@, sid@, ex@.len() as int),
        forall|d: Seq<char>| exposed_by(ex@, sid@, d) <==> views(out@).contains(d),
{
    let mut out: Vec<String> = Vec::new();
    let mut j: usize = 0;
    while j < ex.len()
        invariant
            j <= ex@.len(),
            views(out@) == exposers_upto(ex@, sid@, j as int),
            forall|d: Seq<char>|
                (exists|i: int| 0 <= i < j && ex@[i].service_id@ == sid@ && ex@[i].deployable_id@ == d)
                    <==> views(out@).contains(d),
        decreases ex@.len() - j,
    {
        if ex[j].service_id == *sid {
            let ghost before = views(out@);
            out.push(ex[j].deployable_id.clone());
            assert(views(out@) =~= before.push(ex@[j as int].deployable_id@));
            assert forall|d: Seq<char>|
                (exists|i: int| 0 <= i < j + 1 && ex@[i].service_id@ == sid@ && ex@[i].deployable_id@ == d)
                    <==> views(out@).contains(d) by {
                if views(out@).contains(d) {
                    let w = choose|w: int| 0 <= w < views(out@).len() && views(out@)[w] == d;
                    if w == before.len() {
                        assert(ex@[j as int].deployable_id@ == d);
                    } else {
                        assert(before.contains(d));
                    }
                }
                if exists|i: int| 0 <= i < j + 1 && ex@[i].service_id@ == sid@ && ex@[i].deployable_id@ == d {
                    let i = choose|i: int| 0 <= i < j + 1 && ex@[i].service_id@ == sid@ && ex@[i].deployable_id@ == d;
                    if i == j {
                        assert(views(out@)[before.len() as int] == d);
                    } else {
                        assert(before.contains(d));
                        let w = choose|w: int| 0 <= w < before.len() && before[w] == d;
                        assert(views(out@)[w] == d);
                    }
                }
            }
        }
        j = j + 1;
    }
    out
}

fn exposes_contains(ex: &Vec<Exposes>, sid: &String, did: &String) -> (b: bool)
    ensures
        b == exposed_by(ex@, sid@, did@),
{
    let mut j: usize = 0;
    while j < ex.len()
        invariant
            j <= ex@.len(),
            forall|k: int| 0 <= k < j ==> !(ex@[k].service_id@ == sid@ && ex@[k].deployable_id@ == did@),
        decreases ex@.len() - j,
    {
        if ex[j].service_id == *sid && ex[j].deployable_id == *did {
            return true;
        }
        j = j + 1;
    }
    false
}

// ── MissingEnvironment@v1 ───────────────────────────────────────────────────

/// Whether some test environment is registered for deployable `d`.
pub open spec fn has_env(envs: Seq<TestEnvironment>, d: Seq<char>) -> bool {
    exists|i: int|
        0 <= i < envs.len() && (#[trigger] envs[i].deployable_id matches Some(x) && x@.len() > 0
            && x@ == d)
}

/// The first `k` of `items` that have no test environment.
pub open spec fn missing_upto(envs: Seq<TestEnvironment>, items: Seq<Seq<char>>, k: int) -> Seq<Seq<char>>
    decreases k,
{
    if k <= 0 {
        Seq::empty()
    } else if has_env(envs, items[k - 1]) {
        missing_upto(envs, items, k - 1)
    } else {
        missing_upto(envs, items, k - 1).push(items[k - 1])
    }
}

/// The summary of a change request, or its id when it has none.
pub open spec fn cr_summary(cr: ChangeRequest) -> Seq<char> {
    match cr.summary {
        Some(s) => s@,
        None => cr.id@,
    }
}

/// What MissingEnvironment@v1 raises for one change request.
pub open spec fn missing_env_one(snap: GraphSnapshot, cr: ChangeRequest) -> Seq<AdvisoryView> {
    match cr.target_deployables {
        None => Seq::empty(),
        Some(t) => {
            let items = comma_items(t@);
            let m = missing_upto(snap.test_environments@, items, items.len() as int);
            if m.len() == 0 {
                Seq::empty()
            } else {
                let names = m.map_values(|id: Seq<char>| display_name(snap.deployables@, id));
                seq![AdvisoryView {
                    kind: "MissingEnvironment"@,
                    subject_type: "change_request"@,
                    subject_id: cr.id@,
                    subject_name: cr_summary(cr),
                    severity: Severity::Warn,
                    rule: "missing-environment@v1"@,
                    explain: cr_summary(cr) + ": no test environment registered for: "@ + join(
                        names,
                        ", "@,
                    ),
                    caused_by: m,
                }]
            }
        },
    }
}

/// MissingEnvironment@v1 over the first `k` change requests.
pub open spec fn missing_env_upto(snap: GraphSnapshot, k: int) -> Seq<AdvisoryView>
    decreases k,
{
    if k <= 0 {
        Seq::empty()
    } else {
        missing_env_upto(snap, k - 1) + missing_env_one(snap, snap.change_requests@[k - 1])
    }
}

fn env_registered(envs: &Vec<TestEnvironment>, d: &String) -> (b: bool)
    ensures
        b == has_env(envs@, d@),
{
    let mut j: usize = 0;
    while j < envs.len()
        invariant
            j <= envs@.len(),
            forall|k: int|
                0 <= k < j ==> !(#[trigger] envs@[k].deployable_id matches Some(x) && x@.len() > 0
                    && x@ == d@),
        decreases envs@.len() - j,
    {
        match &envs[j].deployable_id {
            Some(x) => {
                if !x.as_str().is_empty() && *x == *d {
                    return true;
                }
            },
            None => {},
        }
        j = j + 1;
    }
    false
}

fn cr_summary_of(cr: &ChangeRequest) -> (s: String)
    ensures
        s@ == cr_summary(*cr),
{
    match &cr.summary {
        Some(s) => s.clone(),
        None => cr.id.clone(),
    }
}

/// For each change request, the target deployables that have no test
/// environment registered; one advisory per change request with any.
pub fn missing_environment_v1(snap: &GraphSnapshot) -> (out: Vec<DerivedAdvisory>)
    ensures
        advs(out@) == missing_env_upto(*snap, snap.change_requests@.len() as int),
{
    let mut out: Vec<DerivedAdvisory> = Vec::new();
    let mut i: usize = 0;
    while i < snap.change_requests.len()
        invariant
            i <= snap.change_requests@.len(),
            advs(out@) == missing_env_upto(*snap, i as int),
        decreases snap.change_requests@.len() - i,
    {
        let cr = &snap.change_requests[i];
        match &cr.target_deployables {
            None => {
                assert(advs(out@) =~= missing_env_upto(*snap, i + 1));
            },
            Some(t) => {
                let items = comma_list(t.as_str());
                let mut missing: Vec<String> = Vec::new();
                let mut names: Vec<String> = Vec::new();
                let mut j: usize = 0;
                while j < items.len()
                    invariant
                        j <= items@.len(),
                        views(missing@) == missing_upto(snap.test_environments@, views(items@), j as int),
                        views(names@) == views(missing@).map_values(
                            |id: Seq<char>| display_name(snap.deployables@, id),
                        ),
                    decreases items@.len() - j,
                {
                    if !env_registered(&snap.test_environments, &items[j]) {
                        let ghost m0 = views(missing@);
                        let ghost n0 = views(names@);
                        let nm = name_of_last(&snap.deployables, &items[j]);
                        missing.push(items[j].clone());
                        names.push(nm);
                        assert(views(missing@) =~= m0.push(views(items@)[j as int]));
                        assert(views(names@) =~= n0.push(nm@));
                        assert(nm@ == display_name(snap.deployables@, views(missing@)[m0.len() as int]));
                        assert(views(names@) =~= views(missing@).map_values(
                            |id: Seq<char>| display_name(snap.deployables@, id),
                        ));
                    }
                    j = j + 1;
                }
                if missing.len() == 0 {
                    assert(advs(out@) =~= missing_env_upto(*snap, i + 1));
                } else {
                    let summary = cr_summary_of(cr);
                    let mut explain = summary.clone();
                    append(&mut explain, ": no test environment registered for: ");
                    let joined = join_with(&names, ", ");
                    append(&mut explain, joined.as_str());
                    let a = DerivedAdvisory {
                        kind: "MissingEnvironment",
                        subject_type: "change_request",
                        subject_id: cr.id.clone(),
                        subject_name: summary,
                        severity: Severity::Warn,
                        rule: "missing-environment@v1",
                        explain,
                        caused_by: missing,
                    };
                    proof { lemma_advs_push(out@, a); }
                    out.push(a);
                    assert(advs(out@) =~= missing_env_upto(*snap, i + 1));
                }
            },
        }
        i = i + 1;
    }
    out
}

// ── BlockedUpstream@v1 ──────────────────────────────────────────────────────

/// The views of a sequence of string pairs.
pub open spec fn pair_views(v: Seq<(String, String)>) -> Seq<(Seq<char>, Seq<char>)> {
    v.map_values(|p: (String, String)| (p.0@, p.1@))
}

/// Insert `(k, v)` unless `k` is already a key: the first message wins.
pub open spec fn insert_first(
    m: Seq<(Seq<char>, Seq<char>)>,
    k: Seq<char>,
    v: Seq<char>,
) -> Seq<(Seq<char>, Seq<char>)> {
    if exists|i: int| 0 <= i < m.len() && m[i].0 == k {
        m
    } else {
        m.push((k, v))
    }
}

/// Insert each of the first `k` items with message `msg`.
pub open spec fn insert_items(
    m: Seq<(Seq<char>, Seq<char>)>,
    items: Seq<Seq<char>>,
    msg: Seq<char>,
    k: int,
) -> Seq<(Seq<char>, Seq<char>)>
    decreases k,
{
    if k <= 0 {
        m
    } else {
        insert_first(insert_items(m, items, msg, k - 1), items[k - 1], msg)
    }
}

/// Blocked deployables declared by the first `k` change requests.
pub open spec fn blocked_by_crs(crs: Seq<ChangeRequest>, k: int) -> Seq<(Seq<char>, Seq<char>)>
    decreases k,
{
    if k <= 0 {
        Seq::empty()
    } else {
        let prev = blocked_by_crs(crs, k - 1);
        let cr = crs[k - 1];
        if opt_is(cr.status, "blocked"@) && cr.target_deployables is Some {
            let items = comma_items(cr.target_deployables->0@);
            insert_items(prev, items, "blocked CR: "@ + cr_summary(cr), items.len() as int)
        } else {
            prev
        }
    }
}

/// Blocked deployables added by the first `k` work orders to `base`.
pub open spec fn blocked_by_wos(
    base: Seq<(Seq<char>, Seq<char>)>,
    wos: Seq<WorkOrder>,
    k: int,
) -> Seq<(Seq<char>, Seq<char>)>
    decreases k,
{
    if k <= 0 {
        base
    } else {
        let prev = blocked_by_wos(base, wos, k - 1);
        let wo = wos[k - 1];
        if opt_is(wo.status, "blocked"@) && (wo.deployable_id matches Some(d) && d@.len() > 0) {
            insert_first(prev, wo.deployable_id->0@, "blocked work order"@)
        } else {
            prev
        }
    }
}

/// Every blocked deployable with the message of what blocks it, in the
/// order they are first declared: change requests first, then work orders.
pub open spec fn blockers(snap: GraphSnapshot) -> Seq<(Seq<char>, Seq<char>)> {
    blocked_by_wos(
        blocked_by_crs(snap.change_requests@, snap.change_requests@.len() as int),
        snap.work_orders@,
        snap.work_orders@.len() as int,
    )
}

/// The criticality of an edge, `normal` when unset.
pub open spec fn crit_of(e: Dependency) -> Seq<char> {
    match e.criticality {
        Some(c) => c@,
        None => "normal"@,
    }
}

/// Severity for a criticality: high/critical → Critical, medium → Warn, else Info.
pub open spec fn crit_severity(c: Seq<char>) -> Severity {
    if c == "high"@ || c == "critical"@ {
        Severity::Critical
    } else if c == "medium"@ {
        Severity::Warn
    } else {
        Severity::Info
    }
}

/// BlockedUpstream@v1 advisories for blocked deployable `b` over the first
/// `k` dependency edges.
pub open spec fn blocked_edges(
    snap: GraphSnapshot,
    b: Seq<char>,
    msg: Seq<char>,
    k: int,
) -> Seq<AdvisoryView>
    decreases k,
{
    if k <= 0 {
        Seq::empty()
    } else {
        let prev = blocked_edges(snap, b, msg, k - 1);
        let e = snap.dependencies@[k - 1];
        let depender = e.deployable_id@;
        if exposed_by(snap.exposes@, e.service_id@, b) && is_deployable_id(snap.deployables@, depender)
            && depender != b {
            let dname = display_name(snap.deployables@, depender);
            let bname = display_name(snap.deployables@, b);
            prev.push(AdvisoryView {
                kind: "BlockedUpstream"@,
                subject_type: "deployable"@,
                subject_id: depender,
                subject_name: dname,
                severity: crit_severity(crit_of(e)),
                rule: "blocked-upstream@v1"@,
                explain: dname + " depends on "@ + bname + " ("@ + crit_of(e) + " criticality). "@
                    + bname + ": "@ + msg,
                caused_by: seq![b, e.id@],
            })
        } else {
            prev
        }
    }
}

/// BlockedUpstream@v1 over the first `k` blockers.
pub open spec fn blocked_upto(snap: GraphSnapshot, bl: Seq<(Seq<char>, Seq<char>)>, k: int) -> Seq<
    AdvisoryView,
>
    decreases k,
{
    if k <= 0 {
        Seq::empty()
    } else {
        let (b, msg) = bl[k - 1];
        blocked_upto(snap, bl, k - 1) + if is_deployable_id(snap.deployables@, b) {
            blocked_edges(snap, b, msg, snap.dependencies@.len() as int)
        } else {
            Seq::empty()
        }
    }
}

fn insert_first_exec(m: &mut Vec<(String, String)>, k: String, v: String)
    ensures
        pair_views(final(m)@) == insert_first(pair_views(old(m)@), k@, v@),
{
    let mut j: usize = 0;
    while j < m.len()
        invariant
            j <= m@.len(),
            forall|i: int| 0 <= i < j ==> m@[i].0@ != k@,
        decreases m@.len() - j,
    {
        if m[j].0 == k {
            assert(pair_views(m@)[j as int].0 == k@);
            return;
        }
        j = j + 1;
    }
    let ghost before = pair_views(m@);
    assert(!(exists|i: int| 0 <= i < before.len() && before[i].0 == k@));
    m.push((k, v));
    assert(pair_views(m@) =~= before.push((k@, v@)));
}

fn collect_blockers(snap: &GraphSnapshot) -> (m: Vec<(String, String)>)
    ensures
        pair_views(m@) == blockers(*snap),
{
    let mut m: Vec<(String, String)> = Vec::new();
    let mut i: usize = 0;
    assert(pair_views(m@) =~= blocked_by_crs(snap.change_requests@, 0));
    while i < snap.change_requests.len()
        invariant
            i <= snap.change_requests@.len(),
            pair_views(m@) == blocked_by_crs(snap.change_requests@, i as int),
        decreases snap.change_requests@.len() - i,
    {
        let cr = &snap.change_requests[i];
        if opt_eq(&cr.status, "blocked") {
            match &cr.target_deployables {
                Some(t) => {
                    let items = comma_list(t.as_str());
                    let mut msg = String::new();
                    append(&mut msg, "blocked CR: ");
                    let summary = cr_summary_of(cr);
                    append(&mut msg, summary.as_str());
                    let ghost m0 = pair_views(m@);
                    let mut j: usize = 0;
                    while j < items.len()
                        invariant
                            j <= items@.len(),
                            pair_views(m@) == insert_items(m0, views(items@), msg@, j as int),
                        decreases items@.len() - j,
                    {
                        insert_first_exec(&mut m, items[j].clone(), msg.clone());
                        j = j + 1;
                    }
                },
                None => {},
            }
        }
        i = i + 1;
    }
    let ghost base = pair_views(m@);
    let mut i: usize = 0;
    while i < snap.work_orders.len()
        invariant
            i <= snap.work_orders@.len(),
            pair_views(m@) == blocked_by_wos(base, snap.work_orders@, i as int),
        decreases snap.work_orders@.len() - i,
    {
        let wo = &snap.work_orders[i];
        if opt_eq(&wo.status, "blocked") {
            match &wo.deployable_id {
                Some(d) => {
                    if !d.as_str().is_empty() {
                        let mut msg = String::new();
                        append(&mut msg, "blocked work order");
                        insert_first_exec(&mut m, d.clone(), msg);
                    }
                },
                None => {},
            }
        }
        i = i + 1;
    }
    m
}

fn severity_for(c: &str) -> (s: Severity)
    ensures
        s == crit_severity(c@),
{
    if eq_str(c, "high") || eq_str(c, "critical") {
        Severity::Critical
    } else if eq_str(c, "medium") {
        Severity::Warn
    } else {
        Severity::Info
    }
}

/// For each blocked deployable B (a blocked change request's targets, or a
/// blocked work order's deployable), every other known deployable with a
/// dependency edge onto a service that B exposes gets an advisory, its
/// severity set by the edge's criticality.
pub fn blocked_upstream_v1(snap: &GraphSnapshot) -> (out: Vec<DerivedAdvisory>)
    ensures
        advs(out@) == blocked_upto(*snap, blockers(*snap), blockers(*snap).len() as int),
{
    let bl = collect_blockers(snap);
    let ghost blv = blockers(*snap);
    let mut out: Vec<DerivedAdvisory> = Vec::new();
    let mut i: usize = 0;
    while i < bl.len()
        invariant
            i <= bl@.len(),
            pair_views(bl@) == blv,
            blv == blockers(*snap),
            advs(out@) == blocked_upto(*snap, blv, i as int),
        decreases bl@.len() - i,
    {
        let b = &bl[i].0;
        let msg = &bl[i].1;
        assert(blv[i as int] == (b@, msg@));
        if has_deployable(&snap.deployables, b) {
            let bname = name_of_last(&snap.deployables, b);
            let ghost base = advs(out@);
            let mut j: usize = 0;
            while j < snap.dependencies.len()
                invariant
                    j <= snap.dependencies@.len(),
                    is_deployable_id(snap.deployables@, b@),
                    bname@ == display_name(snap.deployables@, b@),
                    base == blocked_upto(*snap, blv, i as int),
                    blv[i as int] == (b@, msg@),
                    advs(out@) == base + blocked_edges(*snap, b@, msg@, j as int),
                decreases snap.dependencies@.len() - j,
            {
                let e = &snap.dependencies[j];
                let depender = &e.deployable_id;
                if exposes_contains(&snap.exposes, &e.service_id, b) && has_deployable(
                    &snap.deployables,
                    depender,
                ) && !(*depender == *b) {
                    let dname = name_of_last(&snap.deployables, depender);
                    let crit: String = match &e.criticality {
                        Some(c) => c.clone(),
                        None => {
                            let mut c = String::new();
                            append(&mut c, "normal");
                            c
                        },
                    };
                    let severity = severity_for(crit.as_str());
                    let mut explain = dname.clone();
                    append(&mut explain, " depends on ");
                    append(&mut explain, bname.as_str());
                    append(&mut explain, " (");
                    append(&mut explain, crit.as_str());
                    append(&mut explain, " criticality). ");
                    append(&mut explain, bname.as_str());
                    append(&mut explain, ": ");
                    append(&mut explain, msg.as_str());
                    let caused_by = vec![b.clone(), e.id.clone()];
                    assert(views(caused_by@) =~= seq![b@, e.id@]);
                    let a = DerivedAdvisory {
                        kind: "BlockedUpstream",
                        subject_type: "deployable",
                        subject_id: depender.clone(),
                        subject_name: dname,
                        severity,
                        rule: "blocked-upstream@v1",
                        explain,
                        caused_by,
                    };
                    proof { lemma_advs_push(out@, a); }
                    out.push(a);
                }
                assert(advs(out@) =~= base + blocked_edges(*snap, b@, msg@, j + 1));
                j = j + 1;
            }
            assert(advs(out@) =~= blocked_upto(*snap, blv, i + 1));
        } else {
            assert(advs(out@) =~= blocked_upto(*snap, blv, i + 1));
        }
        i = i + 1;
    }
    out
}



// ── CircularDependency@v1 ───────────────────────────────────────────────────

/// Index of the last of the first `k` deployables with id `id`, or -1.
pub open spec fn index_last(ds: Seq<Deployable>, id: Seq<char>, k: int) -> int
    decreases k,
{
    if k <= 0 {
        -1
    } else if ds[k - 1].id@ == id {
        k - 1
    } else {
        index_last(ds, id, k - 1)
    }
}

proof fn lemma_index_last_bound(ds: Seq<Deployable>, id: Seq<char>, k: int)
    requires
        0 <= k,
    ensures
        -1 <= index_last(ds, id, k) < k,
        index_last(ds, id, k) >= 0 ==> ds[index_last(ds, id, k)].id@ == id,
    decreases k,
{
    if k > 0 {
        lemma_index_last_bound(ds, id, k - 1);
    }
}

/// Index of the first of the first `k` deployables with id `id`, or -1.
pub open spec fn index_first(ds: Seq<Deployable>, id: Seq<char>, k: int) -> int
    decreases k,
{
    if k <= 0 {
        -1
    } else {
        let f = index_first(ds, id, k - 1);
        if f >= 0 {
            f
        } else if ds[k - 1].id@ == id {
            k - 1
        } else {
            -1
        }
    }
}

/// The name of the first deployable with id `id`, or `id`.
pub open spec fn first_name(ds: Seq<Deployable>, id: Seq<char>) -> Seq<char> {
    let f = index_first(ds, id, ds.len() as int);
    if f >= 0 {
        ds[f].name@
    } else {
        id
    }
}

/// Graph vertices reached by exposers `ts[..k]` from vertex `si` (the last
/// deployable with each exposer's id, self-loops dropped).
pub open spec fn target_indices(ds: Seq<Deployable>, ts: Seq<Seq<char>>, si: int, k: int) -> Seq<usize>
    decreases k,
{
    if k <= 0 {
        Seq::empty()
    } else {
        let prev = target_indices(ds, ts, si, k - 1);
        let ti = index_last(ds, ts[k - 1], ds.len() as int);
        if ti >= 0 && ti != si {
            prev.push(ti as usize)
        } else {
            prev
        }
    }
}

/// The vertex a dependency edge leaves from: the last deployable with its id.
pub open spec fn edge_source(snap: GraphSnapshot, d: Dependency) -> int {
    index_last(snap.deployables@, d.deployable_id@, snap.deployables@.len() as int)
}

/// The vertices a dependency edge leads to: deployables exposing its service.
pub open spec fn edge_targets(snap: GraphSnapshot, d: Dependency) -> Seq<usize> {
    let ts = exposers_upto(snap.exposes@, d.service_id@, snap.exposes@.len() as int);
    target_indices(snap.deployables@, ts, edge_source(snap, d), ts.len() as int)
}

/// Successors of vertex `si` from the first `k` dependency edges.
pub open spec fn graph_row(snap: GraphSnapshot, si: int, k: int) -> Seq<usize>
    decreases k,
{
    if k <= 0 {
        Seq::empty()
    } else {
        let d = snap.dependencies@[k - 1];
        graph_row(snap, si, k - 1) + if edge_source(snap, d) == si {
            edge_targets(snap, d)
        } else {
            Seq::empty()
        }
    }
}

/// The deployable dependency graph: vertex `i` is deployable `i`; an edge
/// `A → B` for each dependency of A on a service that B exposes.
pub open spec fn dependency_graph(snap: GraphSnapshot) -> Seq<Seq<usize>> {
    Seq::new(
        snap.deployables@.len(),
        |si: int| graph_row(snap, si, snap.dependencies@.len() as int),
    )
}

/// Stable insertion of `x` into `s` by name (the second component).
pub open spec fn insert_by_name(s: Seq<(Seq<char>, Seq<char>)>, x: (Seq<char>, Seq<char>)) -> Seq<
    (Seq<char>, Seq<char>),
>
    decreases s.len(),
{
    if s.len() == 0 {
        seq![x]
    } else if seq_lt(x.1, s.last().1) {
        insert_by_name(s.drop_last(), x).push(s.last())
    } else {
        s.push(x)
    }
}

/// The first `k` entries stably sorted by name.
pub open spec fn sort_by_name(s: Seq<(Seq<char>, Seq<char>)>, k: int) -> Seq<(Seq<char>, Seq<char>)>
    decreases k,
{
    if k <= 0 {
        Seq::empty()
    } else {
        insert_by_name(sort_by_name(s, k - 1), s[k - 1])
    }
}

/// The (id, name) entries of a component's members, in the component's order.
pub open spec fn member_entries(snap: GraphSnapshot, c: Seq<usize>) -> Seq<(Seq<char>, Seq<char>)> {
    let ds = snap.deployables@;
    c.map_values(|i: usize| (ds[i as int].id@, first_name(ds, ds[i as int].id@)))
}

/// The (id, name) entries of a component's members, sorted by name.
pub open spec fn cycle_members(snap: GraphSnapshot, c: Seq<usize>) -> Seq<(Seq<char>, Seq<char>)> {
    let entries = member_entries(snap, c);
    sort_by_name(entries, entries.len() as int)
}

/// The advisory for one component of two or more deployables.
pub open spec fn cycle_advisory(snap: GraphSnapshot, c: Seq<usize>) -> AdvisoryView {
    let m = cycle_members(snap, c);
    let names = m.map_values(|e: (Seq<char>, Seq<char>)| e.1);
    AdvisoryView {
        kind: "CircularDependency"@,
        subject_type: "deployable"@,
        subject_id: m[0].0,
        subject_name: m[0].1,
        severity: Severity::Warn,
        rule: "circular-dependency@v1"@,
        explain: "Dependency cycle involving "@ + decimal(m.len()) + " deployables: "@ + join(
            names,
            " \u{2192} "@,
        ) + " \u{2192} ("@ + m[0].1 + " cycles back to start)"@,
        caused_by: m.map_values(|e: (Seq<char>, Seq<char>)| e.0),
    }
}

/// CircularDependency@v1 over the first `k` components.
pub open spec fn cycles_upto(snap: GraphSnapshot, cs: Seq<Seq<usize>>, k: int) -> Seq<AdvisoryView>
    decreases k,
{
    if k <= 0 {
        Seq::empty()
    } else if cs[k - 1].len() >= 2 {
        cycles_upto(snap, cs, k - 1).push(cycle_advisory(snap, cs[k - 1]))
    } else {
        cycles_upto(snap, cs, k - 1)
    }
}

/// CircularDependency@v1's advisories for the snapshot.
pub open spec fn circular_dependency(snap: GraphSnapshot) -> Seq<AdvisoryView> {
    let cs = components(dependency_graph(snap));
    cycles_upto(snap, cs, cs.len() as int)
}

fn index_of_last(ds: &Vec<Deployable>, id: &String) -> (r: Option<usize>)
    ensures
        match r {
            Some(i) => i as int == index_last(ds@, id@, ds@.len() as int) && i < ds@.len(),
            None => index_last(ds@, id@, ds@.len() as int) == -1,
        },
{
    let mut k = ds.len();
    while k > 0
        invariant
            k <= ds@.len(),
            index_last(ds@, id@, ds@.len() as int) == index_last(ds@, id@, k as int),
        decreases k,
    {
        if ds[k - 1].id == *id {
            return Some(k - 1);
        }
        k = k - 1;
    }
    None
}

fn name_of_first(ds: &Vec<Deployable>, id: &String) -> (name: String)
    ensures
        name@ == first_name(ds@, id@),
{
    let mut k: usize = 0;
    while k < ds.len()
        invariant
            k <= ds@.len(),
            index_first(ds@, id@, k as int) == -1,
        decreases ds@.len() - k,
    {
        if ds[k].id == *id {
            proof { lemma_index_first_stable(ds@, id@, k as int + 1, ds@.len() as int); }
            return ds[k].name.clone();
        }
        k = k + 1;
    }
    id.clone()
}

proof fn lemma_index_first_stable(ds: Seq<Deployable>, id: Seq<char>, k: int, m: int)
    requires
        0 < k <= m,
        index_first(ds, id, k) >= 0,
    ensures
        index_first(ds, id, m) == index_first(ds, id, k),
    decreases m - k,
{
    if m > k {
        lemma_index_first_stable(ds, id, k, m - 1);
    }
}

proof fn lemma_insert_at(s: Seq<(Seq<char>, Seq<char>)>, x: (Seq<char>, Seq<char>), p: int)
    requires
        0 <= p <= s.len(),
        forall|k: int| p <= k < s.len() ==> seq_lt(x.1, #[trigger] s[k].1),
        p == 0 || !seq_lt(x.1, s[p - 1].1),
    ensures
        insert_by_name(s, x) == s.insert(p, x),
    decreases s.len(),
{
    if s.len() == 0 {
        assert(s.insert(p, x) =~= seq![x]);
    } else if seq_lt(x.1, s.last().1) {
        let t = s.drop_last();
        assert(p < s.len());
        lemma_insert_at(t, x, p);
        assert(t.insert(p, x).push(s.last()) =~= s.insert(p, x));
    } else {
        assert(p == s.len());
        assert(s.insert(p, x) =~= s.push(x));
    }
}

fn sorted_members(snap: &GraphSnapshot, c: &Vec<usize>) -> (out: Vec<(String, String)>)
    requires
        forall|i: int| 0 <= i < c@.len() ==> (#[trigger] c@[i] as int) < snap.deployables@.len(),
    ensures
        pair_views(out@) == cycle_members(*snap, c@),
{
    let ghost ds = snap.deployables@;
    let ghost entries = c@.map_values(|i: usize| (ds[i as int].id@, first_name(ds, ds[i as int].id@)));
    let mut out: Vec<(String, String)> = Vec::new();
    let mut k: usize = 0;
    while k < c.len()
        invariant
            k <= c@.len(),
            ds == snap.deployables@,
            forall|i: int| 0 <= i < c@.len() ==> (#[trigger] c@[i] as int) < ds.len(),
            entries == c@.map_values(|i: usize| (ds[i as int].id@, first_name(ds, ds[i as int].id@))),
            pair_views(out@) == sort_by_name(entries, k as int),
        decreases c@.len() - k,
    {
        let d = &snap.deployables[c[k]];
        let name = name_of_first(&snap.deployables, &d.id);
        let id = d.id.clone();
        assert(entries[k as int] == (id@, name@));
        let mut p = out.len();
        while p > 0 && str_lt(name.as_str(), out[p - 1].1.as_str())
            invariant
                p <= out@.len(),
                forall|q: int| p <= q < out@.len() ==> seq_lt(name@, #[trigger] pair_views(out@)[q].1),
            decreases p,
        {
            p = p - 1;
        }
        proof {
            let s = pair_views(out@);
            assert forall|q: int| p <= q < s.len() implies seq_lt(name@, #[trigger] s[q].1) by {}
            if p > 0 {
                assert(s[p - 1].1 == out@[p - 1].1@);
            }
            lemma_insert_at(s, (id@, name@), p as int);
        }
        let ghost s0 = pair_views(out@);
        out.insert(p, (id, name));
        assert(pair_views(out@) =~= s0.insert(p as int, entries[k as int]));
        k = k + 1;
    }
    out
}

/// Edges of the dependency graph, checked and built per dependency.
fn dependency_edges(snap: &GraphSnapshot) -> (adj: Vec<Vec<usize>>)
    ensures
        adj_view(adj@) == dependency_graph(*snap),
        well_formed(adj_view(adj@)),
{
    let ds = &snap.deployables;
    let n = ds.len();
    let deps = &snap.dependencies;
    let mut srcs: Vec<Option<usize>> = Vec::new();
    let mut tgts: Vec<Vec<usize>> = Vec::new();
    let mut k: usize = 0;
    while k < deps.len()
        invariant
            k <= deps@.len(),
            n == ds@.len(),
            *ds == snap.deployables,
            *deps == snap.dependencies,
            srcs@.len() == k,
            tgts@.len() == k,
            forall|q: int| 0 <= q < k ==> match #[trigger] srcs@[q] {
                Some(i) => i as int == edge_source(*snap, deps@[q]) && i < n,
                None => edge_source(*snap, deps@[q]) == -1,
            },
            forall|q: int| 0 <= q < k ==> #[trigger] tgts@[q]@ == edge_targets(*snap, deps@[q]),
            forall|q: int, t: int| 0 <= q < k && 0 <= t < tgts@[q]@.len() ==> (#[trigger] tgts@[q]@[t] as int) < n,
        decreases deps@.len() - k,
    {
        let d = &deps[k];
        let si = index_of_last(ds, &d.deployable_id);
        let ts = exposers_index(&snap.exposes, &d.service_id);
        let ghost sii: int = match si { Some(i) => i as int, None => -1 };
        assert(sii == edge_source(*snap, *d));
        let mut row: Vec<usize> = Vec::new();
        let mut t: usize = 0;
        while t < ts.len()
            invariant
                t <= ts@.len(),
                n == ds@.len(),
                *ds == snap.deployables,
                *deps == snap.dependencies,
            *ds == snap.deployables,
            *deps == snap.dependencies,
                sii == edge_source(*snap, *d),
                match si { Some(i) => i as int == sii, None => sii == -1 },
                row@ == target_indices(ds@, views(ts@), sii, t as int),
                forall|q: int| 0 <= q < row@.len() ==> (#[trigger] row@[q] as int) < n,
            decreases ts@.len() - t,
        {
            let ti = index_of_last(ds, &ts[t]);
            assert(views(ts@)[t as int] == ts@[t as int]@);
            match ti {
                Some(x) => {
                    let keep = match si { Some(i) => x != i, None => true };
                    if keep {
                        row.push(x);
                    }
                },
                None => {},
            }
            t = t + 1;
        }
        assert(views(ts@) == exposers_upto(snap.exposes@, d.service_id@, snap.exposes@.len() as int));
        assert(row@ == edge_targets(*snap, *d));
        let ghost t0 = tgts@;
        let ghost s0 = srcs@;
        srcs.push(si);
        tgts.push(row);
        assert forall|q: int| 0 <= q < k + 1 implies #[trigger] tgts@[q]@ == edge_targets(*snap, deps@[q]) by {
            if q < k {
                assert(tgts@[q] == t0[q]);
            }
        }
        assert forall|q: int| 0 <= q < k + 1 implies match #[trigger] srcs@[q] {
            Some(i) => i as int == edge_source(*snap, deps@[q]) && i < n,
            None => edge_source(*snap, deps@[q]) == -1,
        } by {
            if q < k {
                assert(srcs@[q] == s0[q]);
            }
        }
        k = k + 1;
    }
    let mut adj: Vec<Vec<usize>> = Vec::new();
    let mut si: usize = 0;
    while si < n
        invariant
            si <= n,
            n == ds@.len(),
            *ds == snap.deployables,
            *deps == snap.dependencies,
            srcs@.len() == deps@.len(),
            tgts@.len() == deps@.len(),
            forall|q: int| 0 <= q < deps@.len() ==> match #[trigger] srcs@[q] {
                Some(i) => i as int == edge_source(*snap, deps@[q]) && i < n,
                None => edge_source(*snap, deps@[q]) == -1,
            },
            forall|q: int| 0 <= q < deps@.len() ==> #[trigger] tgts@[q]@ == edge_targets(*snap, deps@[q]),
            forall|q: int, t: int| 0 <= q < deps@.len() && 0 <= t < tgts@[q]@.len() ==> (#[trigger] tgts@[q]@[t] as int) < n,
            adj@.len() == si,
            forall|v: int| 0 <= v < si ==> #[trigger] adj@[v]@ == graph_row(*snap, v, deps@.len() as int),
            forall|v: int, j: int| 0 <= v < si && 0 <= j < adj@[v]@.len() ==> (#[trigger] adj@[v]@[j] as int) < n,
        decreases n - si,
    {
        let mut row: Vec<usize> = Vec::new();
        let mut k: usize = 0;
        while k < deps.len()
            invariant
                k <= deps@.len(),
                si < n,
                *ds == snap.deployables,
                *deps == snap.dependencies,
                srcs@.len() == deps@.len(),
                tgts@.len() == deps@.len(),
                forall|q: int| 0 <= q < deps@.len() ==> match #[trigger] srcs@[q] {
                    Some(i) => i as int == edge_source(*snap, deps@[q]) && i < n,
                    None => edge_source(*snap, deps@[q]) == -1,
                },
                forall|q: int| 0 <= q < deps@.len() ==> #[trigger] tgts@[q]@ == edge_targets(*snap, deps@[q]),
                forall|q: int, t: int| 0 <= q < deps@.len() && 0 <= t < tgts@[q]@.len() ==> (#[trigger] tgts@[q]@[t] as int) < n,
                row@ == graph_row(*snap, si as int, k as int),
                forall|j: int| 0 <= j < row@.len() ==> (#[trigger] row@[j] as int) < n,
            decreases deps@.len() - k,
        {
            let from_here = match srcs[k] { Some(i) => i == si, None => false };
            let ghost sk = srcs@[k as int];
            assert(from_here == (edge_source(*snap, deps@[k as int]) == si as int));
            if from_here {
                let tk = &tgts[k];
                let ghost r0 = row@;
                let mut t: usize = 0;
                while t < tk.len()
                    invariant
                        t <= tk@.len(),
                        forall|q: int| 0 <= q < tk@.len() ==> (#[trigger] tk@[q] as int) < n,
                        row@ == r0 + tk@.subrange(0, t as int),
                        forall|j: int| 0 <= j < row@.len() ==> (#[trigger] row@[j] as int) < n,
                    decreases tk@.len() - t,
                {
                    row.push(tk[t]);
                    assert(tk@.subrange(0, t + 1) =~= tk@.subrange(0, t as int).push(tk@[t as int]));
                    t = t + 1;
                }
                assert(tk@.subrange(0, tk@.len() as int) =~= tk@);
                assert(tgts@[k as int]@ == edge_targets(*snap, deps@[k as int]));
            } else {
                assert(row@ =~= graph_row(*snap, si as int, k + 1));
            }
            k = k + 1;
        }
        adj.push(row);
        si = si + 1;
    }
    assert(adj_view(adj@) =~= dependency_graph(*snap));
    adj
}

/// Strongly connected components of the deployable dependency graph; every
/// component of two or more deployables raises one advisory, whose members
/// are listed by name and whose subject is the first of them.
pub fn circular_dependency_v1(snap: &GraphSnapshot) -> (out: Vec<DerivedAdvisory>)
    ensures
        advs(out@) == circular_dependency(*snap),
{
    let adj = dependency_edges(snap);
    let comps = strongly_connected_components(&adj);
    let ghost cs = comps_view(comps@);
    let n = adj.len();
    let mut out: Vec<DerivedAdvisory> = Vec::new();
    let mut k: usize = 0;
    while k < comps.len()
        invariant
            k <= comps@.len(),
            cs == comps_view(comps@),
            cs == components(dependency_graph(*snap)),
            dependency_graph(*snap).len() == n,
            well_formed(dependency_graph(*snap)),
            advs(out@) == cycles_upto(*snap, cs, k as int),
        decreases comps@.len() - k,
    {
        let c = &comps[k];
        assert(cs[k as int] == c@);
        if c.len() >= 2 {
            proof { lemma_components_in_range(dependency_graph(*snap), k as int); }
            let m = sorted_members(snap, c);
            let ghost mv = pair_views(m@);
            let mut names: Vec<String> = Vec::new();
            let mut ids: Vec<String> = Vec::new();
            let mut q: usize = 0;
            while q < m.len()
                invariant
                    q <= m@.len(),
                    mv == pair_views(m@),
                    views(names@) == mv.take(q as int).map_values(|e: (Seq<char>, Seq<char>)| e.1),
                    views(ids@) == mv.take(q as int).map_values(|e: (Seq<char>, Seq<char>)| e.0),
                decreases m@.len() - q,
            {
                let ghost n0 = views(names@);
                let ghost i0 = views(ids@);
                names.push(m[q].1.clone());
                ids.push(m[q].0.clone());
                assert(mv[q as int] == (m@[q as int].0@, m@[q as int].1@));
                assert(views(names@) =~= n0.push(m@[q as int].1@));
                assert(views(ids@) =~= i0.push(m@[q as int].0@));
                assert(views(names@) =~= mv.take(q + 1).map_values(|e: (Seq<char>, Seq<char>)| e.1));
                assert(views(ids@) =~= mv.take(q + 1).map_values(|e: (Seq<char>, Seq<char>)| e.0));
                q = q + 1;
            }
            assert(mv.take(m@.len() as int) =~= mv);
            assert(m@.len() == c@.len()) by {
                lemma_sort_len(c@.map_values(|i: usize| (snap.deployables@[i as int].id@, first_name(snap.deployables@, snap.deployables@[i as int].id@))), c@.len() as int);
            }
            let mut explain = String::new();
            append(&mut explain, "Dependency cycle involving ");
            push_decimal(&mut explain, m.len() as u64);
            append(&mut explain, " deployables: ");
            let cycle_text = join_with(&names, " \u{2192} ");
            append(&mut explain, cycle_text.as_str());
            append(&mut explain, " \u{2192} (");
            append(&mut explain, m[0].1.as_str());
            append(&mut explain, " cycles back to start)");
            let a = DerivedAdvisory {
                kind: "CircularDependency",
                subject_type: "deployable",
                subject_id: m[0].0.clone(),
                subject_name: m[0].1.clone(),
                severity: Severity::Warn,
                rule: "circular-dependency@v1",
                explain,
                caused_by: ids,
            };
            proof { lemma_advs_push(out@, a); }
            out.push(a);
            assert(advs(out@) =~= cycles_upto(*snap, cs, k + 1));
        } else {
            assert(advs(out@) =~= cycles_upto(*snap, cs, k + 1));
        }
        k = k + 1;
    }
    out
}

proof fn lemma_sort_len(s: Seq<(Seq<char>, Seq<char>)>, k: int)
    requires
        0 <= k <= s.len(),
    ensures
        sort_by_name(s, k).len() == k,
    decreases k,
{
    if k > 0 {
        lemma_sort_len(s, k - 1);
        lemma_insert_len(sort_by_name(s, k - 1), s[k - 1]);
    }
}

proof fn lemma_insert_len(s: Seq<(Seq<char>, Seq<char>)>, x: (Seq<char>, Seq<char>))
    ensures
        insert_by_name(s, x).len() == s.len() + 1,
    decreases s.len(),
{
    if s.len() > 0 && seq_lt(x.1, s.last().1) {
        lemma_insert_len(s.drop_last(), x);
    }
}

/// No entry comes before an earlier one by name.
pub open spec fn by_name_sorted(s: Seq<(Seq<char>, Seq<char>)>) -> bool {
    forall|p: int, q: int| 0 <= p < q < s.len() ==> !seq_lt((#[trigger] s[q]).1, (#[trigger] s[p]).1)
}

proof fn lemma_insert_by_name(s: Seq<(Seq<char>, Seq<char>)>, x: (Seq<char>, Seq<char>))
    requires
        by_name_sorted(s),
    ensures
        by_name_sorted(insert_by_name(s, x)),
        insert_by_name(s, x).to_multiset() =~= s.to_multiset().insert(x),
    decreases s.len(),
{
    broadcast use vstd::seq_lib::group_to_multiset_ensures;
    let r = insert_by_name(s, x);
    if s.len() == 0 {
        assert(r =~= Seq::<(Seq<char>, Seq<char>)>::empty().push(x));
    } else if seq_lt(x.1, s.last().1) {
        let s2 = s.drop_last();
        let last = s.last();
        assert(s =~= s2.push(last));
        assert forall|p: int, q: int| 0 <= p < q < s2.len() implies !seq_lt((#[trigger] s2[q]).1, (#[trigger] s2[p]).1) by {
            assert(s2[p] == s[p] && s2[q] == s[q]);
        }
        lemma_insert_by_name(s2, x);
        let r1 = insert_by_name(s2, x);
        assert(r == r1.push(last));
        assert forall|p: int, q: int| 0 <= p < q < r.len() implies !seq_lt((#[trigger] r[q]).1, (#[trigger] r[p]).1) by {
            assert(r[p] == r1[p]);
            if q < r1.len() {
                assert(r[q] == r1[q]);
            } else {
                assert(r[q] == last);
                let y = r1[p];
                assert(r1.contains(y));
                assert(r1.to_multiset().count(y) > 0);
                if y == x {
                    lemma_lt_asymmetric(x.1, last.1);
                } else {
                    assert(s2.to_multiset().count(y) > 0);
                    assert(s2.contains(y));
                    let i = choose|i: int| 0 <= i < s2.len() && s2[i] == y;
                    assert(s[i] == y);
                    assert(s[s.len() - 1] == last);
                }
            }
        }
        assert(r.to_multiset() =~= s2.to_multiset().insert(x).insert(last));
        assert(s.to_multiset() =~= s2.to_multiset().insert(last));
    } else {
        let last = s.last();
        assert(r == s.push(x));
        assert forall|p: int, q: int| 0 <= p < q < r.len() implies !seq_lt((#[trigger] r[q]).1, (#[trigger] r[p]).1) by {
            assert(r[p] == s[p]);
            if q < s.len() {
                assert(r[q] == s[q]);
            } else {
                assert(r[q] == x);
                if seq_lt(x.1, s[p].1) {
                    if p < s.len() - 1 {
                        assert(!seq_lt(s[s.len() - 1].1, s[p].1));
                        if s[p].1 != last.1 {
                            lemma_lt_total(s[p].1, last.1);
                            lemma_lt_transitive(x.1, s[p].1, last.1);
                        }
                    }
                }
            }
        }
    }
}

proof fn lemma_sort_by_name(s: Seq<(Seq<char>, Seq<char>)>, k: int)
    requires
        0 <= k <= s.len(),
    ensures
        by_name_sorted(sort_by_name(s, k)),
        sort_by_name(s, k).to_multiset() =~= s.take(k).to_multiset(),
    decreases k,
{
    broadcast use vstd::seq_lib::group_to_multiset_ensures;
    if k == 0 {
        assert(s.take(0) =~= Seq::<(Seq<char>, Seq<char>)>::empty());
    } else {
        lemma_sort_by_name(s, k - 1);
        lemma_insert_by_name(sort_by_name(s, k - 1), s[k - 1]);
        assert(s.take(k) =~= s.take(k - 1).push(s[k - 1]));
    }
}

/// CircularDependency@v1 gives a cycle a stable identity: its members are
/// listed by name (each member of the component once), and its subject is
/// the member whose name comes first.
pub proof fn lemma_cycle_subject_first_by_name(snap: GraphSnapshot, c: Seq<usize>)
    requires
        c.len() >= 2,
    ensures
        cycle_members(snap, c).to_multiset() =~= member_entries(snap, c).to_multiset(),
        by_name_sorted(cycle_members(snap, c)),
        cycle_advisory(snap, c).subject_id == cycle_members(snap, c)[0].0,
        forall|k: int| 0 <= k < cycle_members(snap, c).len() ==>
            !seq_lt((#[trigger] cycle_members(snap, c)[k]).1, cycle_advisory(snap, c).subject_name),
{
    let e = member_entries(snap, c);
    let m = cycle_members(snap, c);
    lemma_sort_by_name(e, e.len() as int);
    assert(e.take(e.len() as int) =~= e);
    lemma_sort_len(e, e.len() as int);
    assert forall|k: int| 0 <= k < m.len() implies !seq_lt((#[trigger] m[k]).1, cycle_advisory(snap, c).subject_name) by {
        if k == 0 {
            lemma_lt_irreflexive(m[0].1);
        } else {
            assert(!seq_lt(m[k].1, m[0].1));
        }
    }
}

// ── ScheduleContention@v1 ───────────────────────────────────────────────────

/// A plan step's claim on a deployable during a time window.
pub struct Window {
    pub cr_id: String,
    pub deployable_id: String,
    pub deployable_name: String,
    pub start: String,
    pub end: String,
}

/// A window's content as character sequences.
pub struct WindowView {
    pub cr_id: Seq<char>,
    pub deployable_id: Seq<char>,
    pub deployable_name: Seq<char>,
    pub start: Seq<char>,
    pub end: Seq<char>,
}

impl View for Window {
    type V = WindowView;

    open spec fn view(&self) -> WindowView {
        WindowView {
            cr_id: self.cr_id@,
            deployable_id: self.deployable_id@,
            deployable_name: self.deployable_name@,
            start: self.start@,
            end: self.end@,
        }
    }
}

/// The views of a sequence of windows.
pub open spec fn window_views(s: Seq<Window>) -> Seq<WindowView> {
    s.map_values(|w: Window| w@)
}

/// Change-request ids of the first `k` plans, each once, in order of first appearance.
pub open spec fn plan_crs(plans: Seq<DeploymentPlan>, k: int) -> Seq<Seq<char>>
    decreases k,
{
    if k <= 0 {
        Seq::empty()
    } else {
        let prev = plan_crs(plans, k - 1);
        let c = plans[k - 1].change_request_id@;
        if prev.contains(c) {
            prev
        } else {
            prev.push(c)
        }
    }
}

/// Index of the last of the first `k` plans for change request `c`, or -1.
pub open spec fn last_plan(plans: Seq<DeploymentPlan>, c: Seq<char>, k: int) -> int
    decreases k,
{
    if k <= 0 {
        -1
    } else if plans[k - 1].change_request_id@ == c {
        k - 1
    } else {
        last_plan(plans, c, k - 1)
    }
}

/// Windows of the first `k` steps that have both a start and an end.
pub open spec fn step_windows(c: Seq<char>, steps: Seq<PlanStepLite>, k: int) -> Seq<WindowView>
    decreases k,
{
    if k <= 0 {
        Seq::empty()
    } else {
        let prev = step_windows(c, steps, k - 1);
        let st = steps[k - 1];
        if st.window_start is Some && st.window_end is Some {
            prev.push(WindowView {
                cr_id: c,
                deployable_id: st.deployable_id@,
                deployable_name: st.deployable_name@,
                start: st.window_start->0@,
                end: st.window_end->0@,
            })
        } else {
            prev
        }
    }
}

/// Windows of the plans of the first `k` change requests in `crs`; each
/// change request counts with the last plan recorded for it.
pub open spec fn windows_upto(plans: Seq<DeploymentPlan>, crs: Seq<Seq<char>>, k: int) -> Seq<
    WindowView,
>
    decreases k,
{
    if k <= 0 {
        Seq::empty()
    } else {
        let c = crs[k - 1];
        let p = last_plan(plans, c, plans.len() as int);
        windows_upto(plans, crs, k - 1) + if p < 0 {
            Seq::empty()
        } else {
            step_windows(c, plans[p].steps@, plans[p].steps@.len() as int)
        }
    }
}

/// All windows of the snapshot's plans.
pub open spec fn all_windows(snap: GraphSnapshot) -> Seq<WindowView> {
    let plans = snap.deployment_plans@;
    let crs = plan_crs(plans, plans.len() as int);
    windows_upto(plans, crs, crs.len() as int)
}

/// The summary of the last of the first `k` change requests with id `id`,
/// or `id` when there is none.
pub open spec fn summary_last(crs: Seq<ChangeRequest>, id: Seq<char>, k: int) -> Seq<char>
    decreases k,
{
    if k <= 0 {
        id
    } else if crs[k - 1].id@ == id {
        cr_summary(crs[k - 1])
    } else {
        summary_last(crs, id, k - 1)
    }
}

/// A contention keyed by its (smaller, larger) change-request pair.
pub type ContentionEntry = ((Seq<char>, Seq<char>), AdvisoryView);

/// The contention between windows `i` and `j`, if they overlap on the same
/// deployable for two different change requests.
pub open spec fn contention(snap: GraphSnapshot, ws: Seq<WindowView>, i: int, j: int) -> Option<
    ContentionEntry,
> {
    let a = ws[i];
    let b = ws[j];
    if a.cr_id != b.cr_id && a.deployable_id == b.deployable_id && seq_lt(a.start, b.end)
        && seq_lt(b.start, a.end) {
        let lo = if seq_lt(a.cr_id, b.cr_id) { a.cr_id } else { b.cr_id };
        let hi = if seq_lt(a.cr_id, b.cr_id) { b.cr_id } else { a.cr_id };
        let crs = snap.change_requests@;
        let lo_s = summary_last(crs, lo, crs.len() as int);
        let hi_s = summary_last(crs, hi, crs.len() as int);
        Some(((lo, hi), AdvisoryView {
            kind: "ScheduleContention"@,
            subject_type: "change_request"@,
            subject_id: lo,
            subject_name: lo_s,
            severity: Severity::Warn,
            rule: "schedule-contention@v1"@,
            explain: lo_s + " and "@ + hi_s + " both claim "@ + a.deployable_name
                + " during overlapping windows."@,
            caused_by: seq![lo, hi, a.deployable_id],
        }))
    } else {
        None
    }
}

/// Add a contention unless its pair was already reported.
pub open spec fn emit(s: Seq<ContentionEntry>, c: Option<ContentionEntry>) -> Seq<ContentionEntry> {
    match c {
        None => s,
        Some(e) => if exists|k: int| 0 <= k < s.len() && s[k].0 == e.0 {
            s
        } else {
            s.push(e)
        },
    }
}

/// Contentions after all pairs of rows before `i`, and pairs `(i, j')` with `j' < j`.
pub open spec fn contention_row(snap: GraphSnapshot, ws: Seq<WindowView>, i: nat, j: nat) -> Seq<
    ContentionEntry,
>
    decreases i, j, 1nat,
{
    if j <= i + 1 {
        contention_rows(snap, ws, i)
    } else {
        emit(
            contention_row(snap, ws, i, (j - 1) as nat),
            contention(snap, ws, i as int, j - 1),
        )
    }
}

/// Contentions after all pairs `(i', j)` with `i' < i < j`.
pub open spec fn contention_rows(snap: GraphSnapshot, ws: Seq<WindowView>, i: nat) -> Seq<
    ContentionEntry,
>
    decreases i, 0nat, 0nat,
{
    if i == 0 {
        Seq::empty()
    } else {
        contention_row(snap, ws, (i - 1) as nat, ws.len())
    }
}

/// ScheduleContention@v1's advisories for the snapshot.
pub open spec fn schedule_contention(snap: GraphSnapshot) -> Seq<AdvisoryView> {
    let ws = all_windows(snap);
    contention_rows(snap, ws, ws.len()).map_values(|e: ContentionEntry| e.1)
}

fn collect_windows(snap: &GraphSnapshot) -> (ws: Vec<Window>)
    ensures
        window_views(ws@) == all_windows(*snap),
{
    let plans = &snap.deployment_plans;
    let mut crs: Vec<String> = Vec::new();
    let mut k: usize = 0;
    while k < plans.len()
        invariant
            k <= plans@.len(),
            views(crs@) == plan_crs(plans@, k as int),
        decreases plans@.len() - k,
    {
        let c = &plans[k].change_request_id;
        let mut found = false;
        let mut t: usize = 0;
        while t < crs.len()
            invariant
                t <= crs@.len(),
                found == (exists|q: int| 0 <= q < t && views(crs@)[q] == c@),
            decreases crs@.len() - t,
        {
            assert(views(crs@)[t as int] == crs@[t as int]@);
            if crs[t] == *c {
                found = true;
            }
            t = t + 1;
        }
        if !found {
            let ghost before = views(crs@);
            crs.push(c.clone());
            assert(views(crs@) =~= before.push(c@));
        }
        k = k + 1;
    }
    let mut ws: Vec<Window> = Vec::new();
    let mut i: usize = 0;
    while i < crs.len()
        invariant
            i <= crs@.len(),
            views(crs@) == plan_crs(plans@, plans@.len() as int),
            window_views(ws@) == windows_upto(plans@, views(crs@), i as int),
        decreases crs@.len() - i,
    {
        let c = &crs[i];
        let mut p = plans.len();
        let mut idx: Option<usize> = None;
        while p > 0
            invariant
                p <= plans@.len(),
                idx is None ==> last_plan(plans@, c@, plans@.len() as int) == last_plan(
                    plans@,
                    c@,
                    p as int,
                ),
                idx matches Some(q) ==> q < plans@.len() && last_plan(
                    plans@,
                    c@,
                    plans@.len() as int,
                ) == q,
            decreases p,
        {
            if idx.is_none() && plans[p - 1].change_request_id == *c {
                idx = Some(p - 1);
            }
            p = p - 1;
        }
        let ghost before = window_views(ws@);
        match idx {
            None => {
                assert(window_views(ws@) =~= windows_upto(plans@, views(crs@), i + 1));
            },
            Some(q) => {
                let steps = &plans[q].steps;
                let mut t: usize = 0;
                while t < steps.len()
                    invariant
                        t <= steps@.len(),
                        window_views(ws@) == before + step_windows(c@, steps@, t as int),
                    decreases steps@.len() - t,
                {
                    let st = &steps[t];
                    match (&st.window_start, &st.window_end) {
                        (Some(a), Some(b)) => {
                            let w = Window {
                                cr_id: c.clone(),
                                deployable_id: st.deployable_id.clone(),
                                deployable_name: st.deployable_name.clone(),
                                start: a.clone(),
                                end: b.clone(),
                            };
                            let ghost w0 = window_views(ws@);
                            ws.push(w);
                            assert(window_views(ws@) =~= w0.push(w@));
                        },
                        _ => {},
                    }
                    assert(window_views(ws@) =~= before + step_windows(c@, steps@, t + 1));
                    t = t + 1;
                }
                assert(window_views(ws@) =~= windows_upto(plans@, views(crs@), i + 1));
            },
        }
        i = i + 1;
    }
    ws
}

fn summary_of_last(crs: &Vec<ChangeRequest>, id: &String) -> (s: String)
    ensures
        s@ == summary_last(crs@, id@, crs@.len() as int),
{
    let mut k = crs.len();
    while k > 0
        invariant
            k <= crs@.len(),
            summary_last(crs@, id@, crs@.len() as int) == summary_last(crs@, id@, k as int),
        decreases k,
    {
        if crs[k - 1].id == *id {
            return cr_summary_of(&crs[k - 1]);
        }
        k = k - 1;
    }
    id.clone()
}

/// The contention entries as (pair, advisory), zipped from the two vectors.
pub open spec fn zipped(seen: Seq<(String, String)>, out: Seq<DerivedAdvisory>) -> Seq<ContentionEntry> {
    Seq::new(out.len(), |k: int| (pair_views(seen)[k], out[k]@))
}

/// Every pair of plan-step windows on the same deployable that overlap in
/// time (lexicographic ISO-8601 order) and belong to different change
/// requests surfaces one contention, on the smaller change-request id;
/// each pair of change requests is reported once.
pub fn schedule_contention_v1(snap: &GraphSnapshot) -> (out: Vec<DerivedAdvisory>)
    ensures
        advs(out@) == schedule_contention(*snap),
{
    let ws = collect_windows(snap);
    let ghost wv = window_views(ws@);
    let n = ws.len();
    let mut out: Vec<DerivedAdvisory> = Vec::new();
    let mut seen: Vec<(String, String)> = Vec::new();
    let mut i: usize = 0;
    assert(zipped(seen@, out@) =~= contention_rows(*snap, wv, 0));
    while i < n
        invariant
            n == ws@.len(),
            wv == window_views(ws@),
            wv == all_windows(*snap),
            i <= n,
            seen@.len() == out@.len(),
            zipped(seen@, out@) == contention_rows(*snap, wv, i as nat),
        decreases n - i,
    {
        let mut j: usize = i + 1;
        while j < n
            invariant
                n == ws@.len(),
                wv == window_views(ws@),
                i < n,
                i + 1 <= j <= n,
                seen@.len() == out@.len(),
                zipped(seen@, out@) == contention_row(*snap, wv, i as nat, j as nat),
            decreases n - j,
        {
            let a = &ws[i];
            let b = &ws[j];
            assert(wv[i as int] == a@ && wv[j as int] == b@);
            let ghost before = zipped(seen@, out@);
            if !(a.cr_id == b.cr_id) && a.deployable_id == b.deployable_id && str_lt(
                a.start.as_str(),
                b.end.as_str(),
            ) && str_lt(b.start.as_str(), a.end.as_str()) {
                let a_first = str_lt(a.cr_id.as_str(), b.cr_id.as_str());
                let lo = if a_first { a.cr_id.clone() } else { b.cr_id.clone() };
                let hi = if a_first { b.cr_id.clone() } else { a.cr_id.clone() };
                let mut dup = false;
                let mut t: usize = 0;
                while t < seen.len()
                    invariant
                        t <= seen@.len(),
                        dup == (exists|q: int| 0 <= q < t && pair_views(seen@)[q] == (lo@, hi@)),
                    decreases seen@.len() - t,
                {
                    assert(pair_views(seen@)[t as int] == (seen@[t as int].0@, seen@[t as int].1@));
                    if seen[t].0 == lo && seen[t].1 == hi {
                        dup = true;
                    }
                    t = t + 1;
                }
                let ghost c = contention(*snap, wv, i as int, j as int);
                assert(c is Some && c.unwrap().0 == (lo@, hi@));
                if dup {
                    let ghost q = choose|q: int| 0 <= q < seen@.len() && pair_views(seen@)[q] == (lo@, hi@);
                    assert(before[q].0 == (lo@, hi@));
                    assert(zipped(seen@, out@) =~= emit(before, c));
                } else {
                    let lo_s = summary_of_last(&snap.change_requests, &lo);
                    let hi_s = summary_of_last(&snap.change_requests, &hi);
                    let mut explain = lo_s.clone();
                    append(&mut explain, " and ");
                    append(&mut explain, hi_s.as_str());
                    append(&mut explain, " both claim ");
                    append(&mut explain, a.deployable_name.as_str());
                    append(&mut explain, " during overlapping windows.");
                    let caused_by = vec![lo.clone(), hi.clone(), a.deployable_id.clone()];
                    assert(views(caused_by@) =~= seq![lo@, hi@, a.deployable_id@]);
                    let adv = DerivedAdvisory {
                        kind: "ScheduleContention",
                        subject_type: "change_request",
                        subject_id: lo.clone(),
                        subject_name: lo_s,
                        severity: Severity::Warn,
                        rule: "schedule-contention@v1",
                        explain,
                        caused_by,
                    };
                    assert(adv@ == c.unwrap().1);
                    out.push(adv);
                    seen.push((lo, hi));
                    assert(zipped(seen@, out@) =~= emit(before, c));
                }
            } else {
                assert(contention(*snap, wv, i as int, j as int) is None);
            }
            assert(zipped(seen@, out@) == contention_row(*snap, wv, i as nat, (j + 1) as nat));
            j = j + 1;
        }
        assert(contention_row(*snap, wv, i as nat, n as nat) == contention_rows(
            *snap,
            wv,
            (i + 1) as nat,
        ));
        i = i + 1;
    }
    assert(advs(out@) =~= zipped(seen@, out@).map_values(|e: ContentionEntry| e.1));
    out
}

/// Each contention is on the smaller change request of its pair, names the
/// pair in order, and no pair comes twice.
pub open spec fn entries_ok(s: Seq<ContentionEntry>) -> bool {
    &&& forall|k: int| 0 <= k < s.len() ==> {
        let e = #[trigger] s[k];
        &&& seq_lt(e.0.0, e.0.1)
        &&& e.1.subject_id == e.0.0
        &&& e.1.caused_by.len() == 3
        &&& e.1.caused_by[0] == e.0.0
        &&& e.1.caused_by[1] == e.0.1
        &&& e.1.rule == "schedule-contention@v1"@
        &&& e.1.kind == "ScheduleContention"@
    }
    &&& forall|p: int, q: int| 0 <= p < q < s.len() ==> (#[trigger] s[p]).0 != (#[trigger] s[q]).0
}

proof fn lemma_emit_ok(snap: GraphSnapshot, ws: Seq<WindowView>, s: Seq<ContentionEntry>, i: int, j: int)
    requires
        entries_ok(s),
    ensures
        entries_ok(emit(s, contention(snap, ws, i, j))),
{
    let c = contention(snap, ws, i, j);
    if let Some(e) = c {
        let a = ws[i];
        let b = ws[j];
        if !seq_lt(a.cr_id, b.cr_id) {
            lemma_lt_total(a.cr_id, b.cr_id);
        }
        assert(seq_lt(e.0.0, e.0.1));
        if !(exists|k: int| 0 <= k < s.len() && s[k].0 == e.0) {
            let t = s.push(e);
            assert forall|p: int, q: int| 0 <= p < q < t.len() implies (#[trigger] t[p]).0 != (#[trigger] t[q]).0 by {
                assert(t[p] == s[p]);
                if q < s.len() {
                    assert(t[q] == s[q]);
                }
            }
            assert forall|k: int| 0 <= k < t.len() implies ({
                let e = #[trigger] t[k];
                &&& seq_lt(e.0.0, e.0.1)
                &&& e.1.subject_id == e.0.0
                &&& e.1.caused_by.len() == 3
                &&& e.1.caused_by[0] == e.0.0
                &&& e.1.caused_by[1] == e.0.1
                &&& e.1.rule == "schedule-contention@v1"@
                &&& e.1.kind == "ScheduleContention"@
            }) by {
                if k < s.len() {
                    assert(t[k] == s[k]);
                }
            }
        }
    }
}

pub(crate) proof fn lemma_contention_row_ok(snap: GraphSnapshot, ws: Seq<WindowView>, i: nat, j: nat)
    ensures
        entries_ok(contention_row(snap, ws, i, j)),
    decreases i, j, 1nat,
{
    if j <= i + 1 {
        lemma_contention_rows_ok(snap, ws, i);
    } else {
        lemma_contention_row_ok(snap, ws, i, (j - 1) as nat);
        lemma_emit_ok(snap, ws, contention_row(snap, ws, i, (j - 1) as nat), i as int, j - 1);
    }
}

pub(crate) proof fn lemma_contention_rows_ok(snap: GraphSnapshot, ws: Seq<WindowView>, i: nat)
    ensures
        entries_ok(contention_rows(snap, ws, i)),
    decreases i, 0nat, 0nat,
{
    if i > 0 {
        lemma_contention_row_ok(snap, ws, (i - 1) as nat, ws.len());
    }
}

/// ScheduleContention@v1 gives each contention a stable identity: its
/// subject is the smaller (in lexicographic order) of the two change
/// requests, which it names first and the larger second, and no pair of
/// change requests is reported twice.
pub proof fn lemma_schedule_contention_stable_subject(snap: GraphSnapshot)
    ensures
        forall|k: int| 0 <= k < schedule_contention(snap).len() ==> {
            let a = #[trigger] schedule_contention(snap)[k];
            &&& a.caused_by.len() == 3
            &&& a.subject_id == a.caused_by[0]
            &&& seq_lt(a.caused_by[0], a.caused_by[1])
        },
        forall|p: int, q: int| 0 <= p < q < schedule_contention(snap).len() ==>
            ((#[trigger] schedule_contention(snap)[p]).caused_by[0], schedule_contention(snap)[p].caused_by[1])
                != ((#[trigger] schedule_contention(snap)[q]).caused_by[0], schedule_contention(snap)[q].caused_by[1]),
{
    let ws = all_windows(snap);
    let rows = contention_rows(snap, ws, ws.len());
    lemma_contention_rows_ok(snap, ws, ws.len());
    let out = schedule_contention(snap);
    assert(out == rows.map_values(|e: ContentionEntry| e.1));
    assert forall|k: int| 0 <= k < out.len() implies ({
        let a = #[trigger] out[k];
        &&& a.caused_by.len() == 3
        &&& a.subject_id == a.caused_by[0]
        &&& seq_lt(a.caused_by[0], a.caused_by[1])
    }) by {
        assert(out[k] == rows[k].1);
    }
    assert forall|p: int, q: int| 0 <= p < q < out.len() implies
        ((#[trigger] out[p]).caused_by[0], out[p].caused_by[1]) != ((#[trigger] out[q]).caused_by[0], out[q].caused_by[1]) by {
        assert(out[p] == rows[p].1);
        assert(out[q] == rows[q].1);
        assert(rows[p].0 != rows[q].0);
    }
}

// ── UndocumentedInterface@v1 ────────────────────────────────────────────────

/// Number of dependency edges among the first `k` that target service `sid`.
pub open spec fn dependent_count(deps: Seq<Dependency>, sid: Seq<char>, k: int) -> nat
    decreases k,
{
    if k <= 0 {
        0
    } else {
        dependent_count(deps, sid, k - 1) + if deps[k - 1].service_id@ == sid {
            1nat
        } else {
            0nat
        }
    }
}

/// Whether some contract is published for service `sid`.
pub open spec fn documented(cs: Seq<Contract>, sid: Seq<char>) -> bool {
    exists|i: int| 0 <= i < cs.len() && cs[i].service_id@ == sid
}

/// What UndocumentedInterface@v1 raises for one service.
pub open spec fn undocumented_one(snap: GraphSnapshot, s: Service) -> Seq<AdvisoryView> {
    let n = dependent_count(snap.dependencies@, s.id@, snap.dependencies@.len() as int);
    if n == 0 || documented(snap.contracts@, s.id@) {
        Seq::empty()
    } else {
        seq![AdvisoryView {
            kind: "UndocumentedInterface"@,
            subject_type: "service"@,
            subject_id: s.id@,
            subject_name: s.name@,
            severity: if n >= 3 { Severity::Warn } else { Severity::Info },
            rule: "undocumented-interface@v1"@,
            explain: s.name@ + " is depended on by "@ + decimal(n)
                + " deployable(s) but publishes no contract."@,
            caused_by: seq![s.id@],
        }]
    }
}

/// UndocumentedInterface@v1 over the first `k` services.
pub open spec fn undocumented_upto(snap: GraphSnapshot, k: int) -> Seq<AdvisoryView>
    decreases k,
{
    if k <= 0 {
        Seq::empty()
    } else {
        undocumented_upto(snap, k - 1) + undocumented_one(snap, snap.services@[k - 1])
    }
}

fn count_dependents(deps: &Vec<Dependency>, sid: &String) -> (n: usize)
    ensures
        n == dependent_count(deps@, sid@, deps@.len() as int),
{
    let mut n: usize = 0;
    let mut j: usize = 0;
    while j < deps.len()
        invariant
            j <= deps@.len(),
            n == dependent_count(deps@, sid@, j as int),
            n <= j,
        decreases deps@.len() - j,
    {
        if deps[j].service_id == *sid {
            n = n + 1;
        }
        j = j + 1;
    }
    n
}

fn has_contract(cs: &Vec<Contract>, sid: &String) -> (b: bool)
    ensures
        b == documented(cs@, sid@),
{
    let mut j: usize = 0;
    while j < cs.len()
        invariant
            j <= cs@.len(),
            forall|k: int| 0 <= k < j ==> cs@[k].service_id@ != sid@,
        decreases cs@.len() - j,
    {
        if cs[j].service_id == *sid {
            return true;
        }
        j = j + 1;
    }
    false
}

/// For every service that is depended on but publishes no contract, an
/// advisory on the service; Warn from three dependents up, else Info.
pub fn undocumented_interface_v1(snap: &GraphSnapshot) -> (out: Vec<DerivedAdvisory>)
    ensures
        advs(out@) == undocumented_upto(*snap, snap.services@.len() as int),
{
    let mut out: Vec<DerivedAdvisory> = Vec::new();
    let mut i: usize = 0;
    while i < snap.services.len()
        invariant
            i <= snap.services@.len(),
            advs(out@) == undocumented_upto(*snap, i as int),
        decreases snap.services@.len() - i,
    {
        let s = &snap.services[i];
        let n = count_dependents(&snap.dependencies, &s.id);
        if n == 0 || has_contract(&snap.contracts, &s.id) {
            assert(undocumented_one(*snap, *s) =~= Seq::<AdvisoryView>::empty());
            assert(advs(out@) =~= undocumented_upto(*snap, i + 1));
        } else {
            let severity = if n >= 3 { Severity::Warn } else { Severity::Info };
            let mut explain = s.name.clone();
            append(&mut explain, " is depended on by ");
            push_decimal(&mut explain, n as u64);
            append(&mut explain, " deployable(s) but publishes no contract.");
            let caused_by = vec![s.id.clone()];
            let a = DerivedAdvisory {
                kind: "UndocumentedInterface",
                subject_type: "service",
                subject_id: s.id.clone(),
                subject_name: s.name.clone(),
                severity,
                rule: "undocumented-interface@v1",
                explain,
                caused_by,
            };
            assert(views(caused_by@) =~= seq![s.id@]);
            proof { lemma_advs_push(out@, a); }
            out.push(a);
            assert(advs(out@) =~= undocumented_upto(*snap, i + 1));
        }
        i = i + 1;
    }
    out
}

// ── WatershedMismatch@v1 ────────────────────────────────────────────────────

/// Whether some data sync feeds environment `env_id`.
pub open spec fn synced(ds: Seq<DataSync>, env_id: Seq<char>) -> bool {
    exists|i: int| 0 <= i < ds.len() && opt_is(ds[i].target_env_id, env_id)
}

/// What WatershedMismatch@v1 raises for one test environment.
pub open spec fn watershed_one(snap: GraphSnapshot, env: TestEnvironment) -> Seq<AdvisoryView> {
    if opt_is(env.watershed, "prod-like"@) && !synced(snap.data_syncs@, env.id@) {
        seq![AdvisoryView {
            kind: "WatershedMismatch"@,
            subject_type: "test_environment"@,
            subject_id: env.id@,
            subject_name: env.name@,
            severity: Severity::Warn,
            rule: "watershed-mismatch@v1"@,
            explain: env.name@
                + " claims watershed=prod-like but has no DataSync feeding it (no path for prod-like fidelity)."@,
            caused_by: seq![env.id@],
        }]
    } else {
        Seq::empty()
    }
}

/// WatershedMismatch@v1 over the first `k` test environments.
pub open spec fn watershed_upto(snap: GraphSnapshot, k: int) -> Seq<AdvisoryView>
    decreases k,
{
    if k <= 0 {
        Seq::empty()
    } else {
        watershed_upto(snap, k - 1) + watershed_one(snap, snap.test_environments@[k - 1])
    }
}

fn is_synced(ds: &Vec<DataSync>, env_id: &String) -> (b: bool)
    ensures
        b == synced(ds@, env_id@),
{
    let mut j: usize = 0;
    while j < ds.len()
        invariant
            j <= ds@.len(),
            forall|k: int| 0 <= k < j ==> !opt_is(#[trigger] ds@[k].target_env_id, env_id@),
        decreases ds@.len() - j,
    {
        if opt_eq(&ds[j].target_env_id, env_id.as_str()) {
            return true;
        }
        j = j + 1;
    }
    false
}

/// A test environment that claims a `prod-like` watershed must have a data
/// sync feeding it; each one that does not gets an advisory.
pub fn watershed_mismatch_v1(snap: &GraphSnapshot) -> (out: Vec<DerivedAdvisory>)
    ensures
        advs(out@) == watershed_upto(*snap, snap.test_environments@.len() as int),
{
    let mut out: Vec<DerivedAdvisory> = Vec::new();
    let mut i: usize = 0;
    while i < snap.test_environments.len()
        invariant
            i <= snap.test_environments@.len(),
            advs(out@) == watershed_upto(*snap, i as int),
        decreases snap.test_environments@.len() - i,
    {
        let env = &snap.test_environments[i];
        if opt_eq(&env.watershed, "prod-like") && !is_synced(&snap.data_syncs, &env.id) {
            let mut explain = env.name.clone();
            append(
                &mut explain,
                " claims watershed=prod-like but has no DataSync feeding it (no path for prod-like fidelity).",
            );
            let caused_by = vec![env.id.clone()];
            let a = DerivedAdvisory {
                kind: "WatershedMismatch",
                subject_type: "test_environment",
                subject_id: env.id.clone(),
                subject_name: env.name.clone(),
                severity: Severity::Warn,
                rule: "watershed-mismatch@v1",
                explain,
                caused_by,
            };
            assert(views(caused_by@) =~= seq![env.id@]);
            proof { lemma_advs_push(out@, a); }
            out.push(a);
            assert(advs(out@) =~= watershed_upto(*snap, i + 1));
        } else {
            assert(advs(out@) =~= watershed_upto(*snap, i + 1));
        }
        i = i + 1;
    }
    out
}


// ── the rule set ────────────────────────────────────────────────────────────

/// The derivation rules, in the order they run.
#[derive(Debug, Clone, Copy, PartialEq, Eq, Structural)]
pub enum Rule {
    BlockedUpstream,
    CircularDependency,
    UndocumentedInterface,
    WatershedMismatch,
    MissingEnvironment,
    ScheduleContention,
}

/// What a rule raises for a snapshot.
pub open spec fn rule_output(r: Rule, snap: GraphSnapshot) -> Seq<AdvisoryView> {
    match r {
        Rule::BlockedUpstream => blocked_upto(snap, blockers(snap), blockers(snap).len() as int),
        Rule::CircularDependency => circular_dependency(snap),
        Rule::UndocumentedInterface => undocumented_upto(snap, snap.services@.len() as int),
        Rule::WatershedMismatch => watershed_upto(snap, snap.test_environments@.len() as int),
        Rule::MissingEnvironment => missing_env_upto(snap, snap.change_requests@.len() as int),
        Rule::ScheduleContention => schedule_contention(snap),
    }
}

/// The rules that run, in order.
pub open spec fn rule_set() -> Seq<Rule> {
    seq![
        Rule::BlockedUpstream,
        Rule::CircularDependency,
        Rule::UndocumentedInterface,
        Rule::WatershedMismatch,
        Rule::MissingEnvironment,
        Rule::ScheduleContention,
    ]
}

/// The outputs of the first `k` rules, concatenated in order.
pub open spec fn rules_output(rules: Seq<Rule>, snap: GraphSnapshot, k: int) -> Seq<AdvisoryView>
    decreases k,
{
    if k <= 0 {
        Seq::empty()
    } else {
        rules_output(rules, snap, k - 1) + rule_output(rules[k - 1], snap)
    }
}

// ── every advisory names its rule ───────────────────────────────────────────

/// A rule's versioned id.
pub open spec fn rule_id(r: Rule) -> Seq<char> {
    match r {
        Rule::BlockedUpstream => "blocked-upstream@v1"@,
        Rule::CircularDependency => "circular-dependency@v1"@,
        Rule::UndocumentedInterface => "undocumented-interface@v1"@,
        Rule::WatershedMismatch => "watershed-mismatch@v1"@,
        Rule::MissingEnvironment => "missing-environment@v1"@,
        Rule::ScheduleContention => "schedule-contention@v1"@,
    }
}

/// The kind of advisory a rule raises.
pub open spec fn rule_kind(r: Rule) -> Seq<char> {
    match r {
        Rule::BlockedUpstream => "BlockedUpstream"@,
        Rule::CircularDependency => "CircularDependency"@,
        Rule::UndocumentedInterface => "UndocumentedInterface"@,
        Rule::WatershedMismatch => "WatershedMismatch"@,
        Rule::MissingEnvironment => "MissingEnvironment"@,
        Rule::ScheduleContention => "ScheduleContention"@,
    }
}

/// Every advisory of `s` has rule id `id` and kind `kind`.
pub open spec fn tagged(s: Seq<AdvisoryView>, id: Seq<char>, kind: Seq<char>) -> bool {
    forall|k: int| 0 <= k < s.len() ==> (#[trigger] s[k]).rule == id && s[k].kind == kind
}

proof fn lemma_tagged_concat(a: Seq<AdvisoryView>, b: Seq<AdvisoryView>, id: Seq<char>, kind: Seq<char>)
    requires
        tagged(a, id, kind),
        tagged(b, id, kind),
    ensures
        tagged(a + b, id, kind),
{
    assert forall|k: int| 0 <= k < (a + b).len() implies (#[trigger] (a + b)[k]).rule == id && (a + b)[k].kind == kind by {
        if k < a.len() {
            assert((a + b)[k] == a[k]);
        } else {
            assert((a + b)[k] == b[k - a.len()]);
        }
    }
}

proof fn lemma_blocked_edges_tagged(snap: GraphSnapshot, b: Seq<char>, msg: Seq<char>, k: int)
    ensures
        tagged(blocked_edges(snap, b, msg, k), "blocked-upstream@v1"@, "BlockedUpstream"@),
    decreases k,
{
    if k > 0 {
        lemma_blocked_edges_tagged(snap, b, msg, k - 1);
        let prev = blocked_edges(snap, b, msg, k - 1);
        let now = blocked_edges(snap, b, msg, k);
        assert forall|j: int| 0 <= j < now.len() implies (#[trigger] now[j]).rule == "blocked-upstream@v1"@
            && now[j].kind == "BlockedUpstream"@ by {
            if j < prev.len() {
                assert(now[j] == prev[j]);
            }
        }
    }
}

proof fn lemma_blocked_upto_tagged(snap: GraphSnapshot, bl: Seq<(Seq<char>, Seq<char>)>, k: int)
    ensures
        tagged(blocked_upto(snap, bl, k), "blocked-upstream@v1"@, "BlockedUpstream"@),
    decreases k,
{
    if k > 0 {
        lemma_blocked_upto_tagged(snap, bl, k - 1);
        let (b, msg) = bl[k - 1];
        lemma_blocked_edges_tagged(snap, b, msg, snap.dependencies@.len() as int);
        lemma_tagged_concat(
            blocked_upto(snap, bl, k - 1),
            if is_deployable_id(snap.deployables@, b) {
                blocked_edges(snap, b, msg, snap.dependencies@.len() as int)
            } else {
                Seq::empty()
            },
            "blocked-upstream@v1"@,
            "BlockedUpstream"@,
        );
    }
}

proof fn lemma_cycles_tagged(snap: GraphSnapshot, cs: Seq<Seq<usize>>, k: int)
    ensures
        tagged(cycles_upto(snap, cs, k), "circular-dependency@v1"@, "CircularDependency"@),
    decreases k,
{
    if k > 0 {
        lemma_cycles_tagged(snap, cs, k - 1);
        let prev = cycles_upto(snap, cs, k - 1);
        let now = cycles_upto(snap, cs, k);
        assert forall|j: int| 0 <= j < now.len() implies (#[trigger] now[j]).rule == "circular-dependency@v1"@
            && now[j].kind == "CircularDependency"@ by {
            if j < prev.len() {
                assert(now[j] == prev[j]);
            }
        }
    }
}

proof fn lemma_undocumented_tagged(snap: GraphSnapshot, k: int)
    ensures
        tagged(undocumented_upto(snap, k), "undocumented-interface@v1"@, "UndocumentedInterface"@),
    decreases k,
{
    if k > 0 {
        lemma_undocumented_tagged(snap, k - 1);
        lemma_tagged_concat(
            undocumented_upto(snap, k - 1),
            undocumented_one(snap, snap.services@[k - 1]),
            "undocumented-interface@v1"@,
            "UndocumentedInterface"@,
        );
    }
}

proof fn lemma_watershed_tagged(snap: GraphSnapshot, k: int)
    ensures
        tagged(watershed_upto(snap, k), "watershed-mismatch@v1"@, "WatershedMismatch"@),
    decreases k,
{
    if k > 0 {
        lemma_watershed_tagged(snap, k - 1);
        lemma_tagged_concat(
            watershed_upto(snap, k - 1),
            watershed_one(snap, snap.test_environments@[k - 1]),
            "watershed-mismatch@v1"@,
            "WatershedMismatch"@,
        );
    }
}

proof fn lemma_missing_env_tagged(snap: GraphSnapshot, k: int)
    ensures
        tagged(missing_env_upto(snap, k), "missing-environment@v1"@, "MissingEnvironment"@),
    decreases k,
{
    if k > 0 {
        lemma_missing_env_tagged(snap, k - 1);
        lemma_tagged_concat(
            missing_env_upto(snap, k - 1),
            missing_env_one(snap, snap.change_requests@[k - 1]),
            "missing-environment@v1"@,
            "MissingEnvironment"@,
        );
    }
}

/// Every advisory a rule raises carries that rule's versioned id and its
/// kind, so a rule's advisories are told apart from another version's.
pub proof fn lemma_rule_advisories_carry_rule_id(r: Rule, snap: GraphSnapshot)
    ensures
        tagged(rule_output(r, snap), rule_id(r), rule_kind(r)),
{
    match r {
        Rule::BlockedUpstream => lemma_blocked_upto_tagged(snap, blockers(snap), blockers(snap).len() as int),
        Rule::CircularDependency => {
            let cs = components(dependency_graph(snap));
            lemma_cycles_tagged(snap, cs, cs.len() as int);
        },
        Rule::UndocumentedInterface => lemma_undocumented_tagged(snap, snap.services@.len() as int),
        Rule::WatershedMismatch => lemma_watershed_tagged(snap, snap.test_environments@.len() as int),
        Rule::MissingEnvironment => lemma_missing_env_tagged(snap, snap.change_requests@.len() as int),
        Rule::ScheduleContention => {
            let ws = all_windows(snap);
            let rows = contention_rows(snap, ws, ws.len());
            lemma_contention_rows_ok(snap, ws, ws.len());
            let out = schedule_contention(snap);
            assert forall|k: int| 0 <= k < out.len() implies (#[trigger] out[k]).rule == rule_id(r)
                && out[k].kind == rule_kind(r) by {
                assert(out[k] == rows[k].1);
            }
        },
    }
}

impl Rule {
    /// Run this rule over a snapshot.
    pub fn run(self, snap: &GraphSnapshot) -> (out: Vec<DerivedAdvisory>)
        ensures
            advs(out@) == rule_output(self, *snap),
    {
        match self {
            Rule::BlockedUpstream => blocked_upstream_v1(snap),
            Rule::CircularDependency => circular_dependency_v1(snap),
            Rule::UndocumentedInterface => undocumented_interface_v1(snap),
            Rule::WatershedMismatch => watershed_mismatch_v1(snap),
            Rule::MissingEnvironment => missing_environment_v1(snap),
            Rule::ScheduleContention => schedule_contention_v1(snap),
        }
    }
}

/// The set of all rules to run.
pub fn all_rules() -> (v: Vec<Rule>)
    ensures
        v@ == rule_set(),
{
    let v = vec![
        Rule::BlockedUpstream,
        Rule::CircularDependency,
        Rule::UndocumentedInterface,
        Rule::WatershedMismatch,
        Rule::MissingEnvironment,
        Rule::ScheduleContention,
    ];
    assert(v@ =~= rule_set());
    v
}

/// Every rule's advisories, rule after rule.
pub fn run_all_rules(snap: &GraphSnapshot) -> (out: Vec<DerivedAdvisory>)
    ensures
        advs(out@) == rules_output(rule_set(), *snap, 6),
{
    let rules = all_rules();
    let mut out: Vec<DerivedAdvisory> = Vec::new();
    let mut i: usize = 0;
    while i < rules.len()
        invariant
            i <= rules@.len(),
            rules@ == rule_set(),
            advs(out@) == rules_output(rule_set(), *snap, i as int),
        decreases rules@.len() - i,
    {
        let mut more = rules[i].run(snap);
        proof { lemma_advs_append(out@, more@); }
        out.append(&mut more);
        i = i + 1;
    }
    out
}

} // verus!
