//! A snapshot of the Groundwork catalogue and the graph queries over it:
//! `blast_radius`, `dependencies_of` and `deployment_plan`.
//!
//! A deployable *consumes* a service through a dependency edge and
//! *exposes* (publishes) a service through an exposes edge. Lookups by id
//! take the last entry with that id, as a map filled in order would.

use vstd::prelude::*;
use vstd::seq_lib::lemma_seq_contains_after_push;
use crate::text::{views, eq_str, seq_lt, str_lt, lemma_lt_irreflexive, lemma_lt_transitive, lemma_lt_total,
    lemma_lt_asymmetric};

verus! {

/// The deepest a graph walk goes.
pub const DEPTH_HARD_CAP: usize = 10;

#[derive(Debug, Clone)]
pub struct Deployable {
    pub id: String,
    pub name: String,
}

#[derive(Debug, Clone)]
pub struct Service {
    pub id: String,
    pub name: String,
}

#[derive(Debug, Clone)]
pub struct Exposes {
    pub deployable_id: String,
    pub service_id: String,
}

#[derive(Debug, Clone)]
pub struct Dependency {
    pub deployable_id: String,
    pub service_id: String,
}

/// The catalogue: deployables, services, and the exposes and dependency
/// edges between them, each in the order they were read.
#[derive(Debug, Clone)]
pub struct Snapshot {
    pub deployables: Vec<Deployable>,
    pub services: Vec<Service>,
    pub exposes: Vec<Exposes>,
    pub dependencies: Vec<Dependency>,
}

// ── lookups ─────────────────────────────────────────────────────────────────

/// Index of the last of the first `k` deployables with id `id`, or -1.
pub open spec fn last_deployable(ds: Seq<Deployable>, id: Seq<char>, k: int) -> int
    decreases k,
{
    if k <= 0 {
        -1
    } else if ds[k - 1].id@ == id {
        k - 1
    } else {
        last_deployable(ds, id, k - 1)
    }
}

/// Index of the last of the first `k` services with id `id`, or -1.
pub open spec fn last_service(ss: Seq<Service>, id: Seq<char>, k: int) -> int
    decreases k,
{
    if k <= 0 {
        -1
    } else if ss[k - 1].id@ == id {
        k - 1
    } else {
        last_service(ss, id, k - 1)
    }
}

/// The name of deployable `id`, or empty when the catalogue lacks it.
pub open spec fn deployable_name_of(snap: Snapshot, id: Seq<char>) -> Seq<char> {
    let ds = snap.deployables@;
    let i = last_deployable(ds, id, ds.len() as int);
    if i >= 0 { ds[i].name@ } else { Seq::empty() }
}

/// The name of service `id`, or empty when the catalogue lacks it.
pub open spec fn service_name_of(snap: Snapshot, id: Seq<char>) -> Seq<char> {
    let ss = snap.services@;
    let i = last_service(ss, id, ss.len() as int);
    if i >= 0 { ss[i].name@ } else { Seq::empty() }
}

/// The services that deployable `id` exposes among the first `k` exposes
/// edges, in edge order.
pub open spec fn exposed_by(es: Seq<Exposes>, id: Seq<char>, k: int) -> Seq<Seq<char>>
    decreases k,
{
    if k <= 0 {
        Seq::empty()
    } else if es[k - 1].deployable_id@ == id {
        exposed_by(es, id, k - 1).push(es[k - 1].service_id@)
    } else {
        exposed_by(es, id, k - 1)
    }
}

proof fn lemma_last_deployable(ds: Seq<Deployable>, id: Seq<char>, k: int)
    requires
        0 <= k,
    ensures
        -1 <= last_deployable(ds, id, k) < k,
        last_deployable(ds, id, k) >= 0 ==> ds[last_deployable(ds, id, k)].id@ == id,
    decreases k,
{
    if k > 0 {
        lemma_last_deployable(ds, id, k - 1);
    }
}

impl Snapshot {
    /// Build a snapshot from its four lists.
    pub fn synthetic(
        deployables: Vec<Deployable>,
        services: Vec<Service>,
        exposes: Vec<Exposes>,
        dependencies: Vec<Dependency>,
    ) -> (snap: Snapshot)
        ensures
            snap.deployables == deployables,
            snap.services == services,
            snap.exposes == exposes,
            snap.dependencies == dependencies,
    {
        Snapshot { deployables, services, exposes, dependencies }
    }

    /// The name of deployable `id`, or empty.
    pub fn deployable_name(&self, id: &str) -> (r: String)
        ensures
            r@ == deployable_name_of(*self, id@),
    {
        let mut k: usize = self.deployables.len();
        while k > 0
            invariant
                k <= self.deployables@.len(),
                last_deployable(self.deployables@, id@, self.deployables@.len() as int)
                    == last_deployable(self.deployables@, id@, k as int),
            decreases k,
        {
            if eq_str(self.deployables[k - 1].id.as_str(), id) {
                return self.deployables[k - 1].name.clone();
            }
            k = k - 1;
        }
        String::new()
    }

    /// The name of service `service_id`, or empty.
    pub fn service_name(&self, service_id: &str) -> (r: String)
        ensures
            r@ == service_name_of(*self, service_id@),
    {
        let mut k: usize = self.services.len();
        while k > 0
            invariant
                k <= self.services@.len(),
                last_service(self.services@, service_id@, self.services@.len() as int)
                    == last_service(self.services@, service_id@, k as int),
            decreases k,
        {
            if eq_str(self.services[k - 1].id.as_str(), service_id) {
                return self.services[k - 1].name.clone();
            }
            k = k - 1;
        }
        String::new()
    }

    /// The services deployable `deployable_id` exposes, in edge order.
    pub fn deployable_exposes(&self, deployable_id: &str) -> (r: Vec<String>)
        ensures
            views(r@) == exposed_by(self.exposes@, deployable_id@, self.exposes@.len() as int),
    {
        let mut r: Vec<String> = Vec::new();
        let mut k: usize = 0;
        while k < self.exposes.len()
            invariant
                k <= self.exposes@.len(),
                views(r@) == exposed_by(self.exposes@, deployable_id@, k as int),
            decreases self.exposes@.len() - k,
        {
            if eq_str(self.exposes[k].deployable_id.as_str(), deployable_id) {
                let ghost before = views(r@);
                r.push(self.exposes[k].service_id.clone());
                assert(views(r@) =~= before.push(self.exposes@[k as int].service_id@));
            }
            k = k + 1;
        }
        r
    }
}

// ── sorted id sets ──────────────────────────────────────────────────────────

/// The ids in strictly increasing order (the order of a sorted set).
pub open spec fn sorted_set(s: Seq<Seq<char>>) -> bool {
    forall|i: int, j: int| 0 <= i < j < s.len() ==> seq_lt(#[trigger] s[i], #[trigger] s[j])
}

/// `x` added to a sorted set: kept in place when present, else inserted in
/// order.
pub open spec fn set_insert(s: Seq<Seq<char>>, x: Seq<char>) -> Seq<Seq<char>>
    decreases s.len(),
{
    if s.len() == 0 {
        seq![x]
    } else if s.last() == x {
        s
    } else if seq_lt(x, s.last()) {
        set_insert(s.drop_last(), x).push(s.last())
    } else {
        s.push(x)
    }
}

proof fn lemma_set_insert(s: Seq<Seq<char>>, x: Seq<char>)
    ensures
        forall|y: Seq<char>| #[trigger] set_insert(s, x).contains(y) <==> (s.contains(y) || y == x),
        sorted_set(s) ==> sorted_set(set_insert(s, x)),
        s.contains(x) && sorted_set(s) ==> set_insert(s, x) == s,
        !s.contains(x) ==> set_insert(s, x).len() == s.len() + 1,
    decreases s.len(),
{
    if s.len() == 0 {
        assert(set_insert(s, x) =~= seq![x]);
        assert forall|y: Seq<char>| #[trigger] set_insert(s, x).contains(y) <==> (s.contains(y) || y == x) by {
            lemma_seq_contains_after_push(s, x, y);
            assert(s.push(x) =~= seq![x]);
        }
    } else if s.last() == x {
        assert forall|y: Seq<char>| #[trigger] set_insert(s, x).contains(y) <==> (s.contains(y) || y == x) by {
            if y == x {
                assert(s[s.len() - 1] == y);
            }
        }
    } else if seq_lt(x, s.last()) {
        let p = s.drop_last();
        lemma_set_insert(p, x);
        let q = set_insert(p, x);
        assert(s =~= p.push(s.last()));
        assert forall|y: Seq<char>| #[trigger] set_insert(s, x).contains(y) <==> (s.contains(y) || y == x) by {
            lemma_seq_contains_after_push(q, s.last(), y);
            lemma_seq_contains_after_push(p, s.last(), y);
            assert(q.contains(y) <==> (p.contains(y) || y == x));
        }
        if sorted_set(s) {
            assert(sorted_set(p));
            assert forall|i: int, j: int| 0 <= i < j < q.push(s.last()).len() implies seq_lt(
                #[trigger] q.push(s.last())[i],
                #[trigger] q.push(s.last())[j],
            ) by {
                if j == q.len() {
                    let y = q[i];
                    assert(q.contains(y));
                    if y != x {
                        assert(p.contains(y));
                        let k = choose|k: int| 0 <= k < p.len() && p[k] == y;
                        assert(seq_lt(s[k], s[s.len() - 1]));
                    }
                } else {
                    assert(q.push(s.last())[i] == q[i]);
                    assert(q.push(s.last())[j] == q[j]);
                }
            }
            if s.contains(x) {
                let k = choose|k: int| 0 <= k < s.len() && s[k] == x;
                assert(k != s.len() - 1);
                assert(p[k] == x);
                assert(p.contains(x));
                assert(q == p);
            }
        }
    } else {
        assert forall|y: Seq<char>| #[trigger] set_insert(s, x).contains(y) <==> (s.contains(y) || y == x) by {
            lemma_seq_contains_after_push(s, x, y);
        }
        lemma_lt_total(x, s.last());
        if sorted_set(s) {
            assert forall|i: int, j: int| 0 <= i < j < s.push(x).len() implies seq_lt(
                #[trigger] s.push(x)[i],
                #[trigger] s.push(x)[j],
            ) by {
                if j == s.len() {
                    if i < s.len() - 1 {
                        assert(seq_lt(s[i], s[s.len() - 1]));
                        lemma_lt_transitive(s[i], s.last(), x);
                    }
                } else {
                    assert(s.push(x)[i] == s[i]);
                    assert(s.push(x)[j] == s[j]);
                }
            }
            if s.contains(x) {
                let k = choose|k: int| 0 <= k < s.len() && s[k] == x;
                assert(seq_lt(s[k], s[s.len() - 1]));
                lemma_lt_asymmetric(x, s.last());
            }
        }
    }
}

/// Two sorted sets with the same members are equal.
proof fn lemma_sorted_unique(a: Seq<Seq<char>>, b: Seq<Seq<char>>)
    requires
        sorted_set(a),
        sorted_set(b),
        forall|y: Seq<char>| a.contains(y) <==> b.contains(y),
    ensures
        a == b,
    decreases a.len(),
{
    if a.len() == 0 {
        if b.len() > 0 {
            assert(b.contains(b[0]));
        }
        assert(a =~= b);
    } else {
        assert(a.contains(a.last()));
        assert(b.len() > 0);
        assert(b.contains(b.last()));
        let ia = choose|i: int| 0 <= i < a.len() && a[i] == b.last();
        let ib = choose|i: int| 0 <= i < b.len() && b[i] == a.last();
        if a.last() != b.last() {
            if ia < a.len() - 1 {
                assert(seq_lt(a[ia], a[a.len() - 1]));
            }
            if ib < b.len() - 1 {
                assert(seq_lt(b[ib], b[b.len() - 1]));
            }
            lemma_lt_asymmetric(b.last(), a.last());
        }
        let pa = a.drop_last();
        let pb = b.drop_last();
        assert(sorted_set(pa));
        assert(sorted_set(pb));
        assert forall|y: Seq<char>| pa.contains(y) <==> pb.contains(y) by {
            if pa.contains(y) {
                let i = choose|i: int| 0 <= i < pa.len() && pa[i] == y;
                assert(a[i] == y);
                assert(seq_lt(a[i], a[a.len() - 1]));
                lemma_lt_irreflexive(y);
                assert(b.contains(y));
                let k = choose|k: int| 0 <= k < b.len() && b[k] == y;
                assert(k != b.len() - 1);
                assert(pb[k] == y);
            }
            if pb.contains(y) {
                let i = choose|i: int| 0 <= i < pb.len() && pb[i] == y;
                assert(b[i] == y);
                assert(seq_lt(b[i], b[b.len() - 1]));
                lemma_lt_irreflexive(y);
                assert(a.contains(y));
                let k = choose|k: int| 0 <= k < a.len() && a[k] == y;
                assert(k != a.len() - 1);
                assert(pa[k] == y);
            }
        }
        lemma_sorted_unique(pa, pb);
        assert(a =~= pa.push(a.last()));
        assert(b =~= pb.push(b.last()));
    }
}

/// Whether `x` is one of the ids in `v`.
fn contains_id(v: &Vec<String>, x: &str) -> (b: bool)
    ensures
        b == views(v@).contains(x@),
{
    let mut k: usize = 0;
    while k < v.len()
        invariant
            k <= v@.len(),
            forall|q: int| 0 <= q < k ==> views(v@)[q] != x@,
        decreases v@.len() - k,
    {
        assert(views(v@)[k as int] == v@[k as int]@);
        if eq_str(v[k].as_str(), x) {
            return true;
        }
        k = k + 1;
    }
    false
}

/// Add `x` to the sorted set `s`; says whether it was new.
#[verifier::spinoff_prover]
fn set_insert_id(s: &mut Vec<String>, x: &str) -> (inserted: bool)
    requires
        sorted_set(views(old(s)@)),
    ensures
        views(final(s)@) == set_insert(views(old(s)@), x@),
        sorted_set(views(final(s)@)),
        inserted == !views(old(s)@).contains(x@),
{
    let ghost s0 = views(s@);
    proof { lemma_set_insert(s0, x@); }
    if contains_id(s, x) {
        return false;
    }
    let mut i: usize = s.len();
    assert(s0.take(s0.len() as int) =~= s0);
    assert(s0.skip(s0.len() as int) =~= Seq::<Seq<char>>::empty());
    loop
        invariant
            i <= s@.len(),
            views(s@) == s0,
            !s0.contains(x@),
            set_insert(s0, x@) == set_insert(s0.take(i as int), x@) + s0.skip(i as int),
        ensures
            i <= s@.len(),
            views(s@) == s0,
            set_insert(s0, x@) == set_insert(s0.take(i as int), x@) + s0.skip(i as int),
            i == 0 || (s0[i - 1] != x@ && !seq_lt(x@, s0[i - 1])),
        decreases i,
    {
        if i == 0 {
            break;
        }
        assert(views(s@)[i - 1] == s@[i - 1]@);
        if !str_lt(x, s[i - 1].as_str()) {
            break;
        }
        let ghost t = s0.take(i as int);
        assert(t.drop_last() =~= s0.take(i - 1));
        assert(t.last() == s0[i - 1]);
        assert(s0.skip(i - 1) =~= seq![t.last()] + s0.skip(i as int));
        assert(set_insert(t, x@) == set_insert(s0.take(i - 1), x@).push(t.last()));
        assert(set_insert(t, x@) + s0.skip(i as int) =~= set_insert(s0.take(i - 1), x@) + s0.skip(i - 1));
        i = i - 1;
    }
    let ghost t = s0.take(i as int);
    if i == 0 {
        assert(set_insert(t, x@) =~= seq![x@]);
    } else {
        assert(t.last() == s0[i - 1]);
        assert(set_insert(t, x@) == t.push(x@));
    }
    s.insert(i, x.to_owned());
    assert(views(s@) =~= t.push(x@) + s0.skip(i as int));
    assert(views(s@) == set_insert(s0, x@));
    assert(sorted_set(set_insert(s0, x@)));
    true
}

// ── what a deployable requires ──────────────────────────────────────────────

/// Dependency edge `i` of `a` is on a service that exposes edge `j` says
/// `b` publishes.
pub open spec fn consumes_via(snap: Snapshot, a: Seq<char>, b: Seq<char>, i: int, j: int) -> bool {
    &&& 0 <= i < snap.dependencies@.len()
    &&& 0 <= j < snap.exposes@.len()
    &&& snap.dependencies@[i].deployable_id@ == a
    &&& snap.exposes@[j].deployable_id@ == b
    &&& snap.exposes@[j].service_id@ == snap.dependencies@[i].service_id@
}

/// `a` consumes a service that `b` publishes.
pub open spec fn consumes(snap: Snapshot, a: Seq<char>, b: Seq<char>) -> bool {
    exists|i: int, j: int| #[trigger] consumes_via(snap, a, b, i, j)
}

/// Step `k` of `p` goes from a consumer to a publisher it consumes.
pub open spec fn chain_step(snap: Snapshot, p: Seq<Seq<char>>, k: int) -> bool {
    consumes(snap, p[k], p[k + 1])
}

/// `p` is a chain of consumers and the publishers they consume.
pub open spec fn is_chain(snap: Snapshot, p: Seq<Seq<char>>) -> bool {
    &&& p.len() >= 1
    &&& forall|k: int| 0 <= k < p.len() - 1 ==> #[trigger] chain_step(snap, p, k)
}

/// Deploying `d0` requires `x`: a chain leads from `d0` to `x` (`d0`
/// requires itself).
pub open spec fn needs(snap: Snapshot, d0: Seq<char>, x: Seq<char>) -> bool {
    exists|p: Seq<Seq<char>>| #[trigger] is_chain(snap, p) && p[0] == d0 && p.last() == x
}

/// Some exposes edge publishes service `s`.
pub open spec fn has_publisher(snap: Snapshot, s: Seq<char>) -> bool {
    exists|j: int| 0 <= j < snap.exposes@.len() && #[trigger] snap.exposes@[j].service_id@ == s
}

/// Service `s` is consumed by something `d0` requires and nothing publishes
/// it.
pub open spec fn is_external(snap: Snapshot, d0: Seq<char>, s: Seq<char>) -> bool {
    &&& !has_publisher(snap, s)
    &&& exists|i: int|
        0 <= i < snap.dependencies@.len() && #[trigger] snap.dependencies@[i].service_id@ == s
            && needs(snap, d0, snap.dependencies@[i].deployable_id@)
}

/// The deployables `d0` requires, in id order.
pub open spec fn required_ids(snap: Snapshot, d0: Seq<char>) -> Seq<Seq<char>> {
    choose|r: Seq<Seq<char>>| sorted_set(r) && forall|x: Seq<char>| #[trigger] r.contains(x) <==> needs(snap, d0, x)
}

/// The external services of `d0`'s requirements, in id order.
pub open spec fn external_ids(snap: Snapshot, d0: Seq<char>) -> Seq<Seq<char>> {
    choose|r: Seq<Seq<char>>| sorted_set(r) && forall|s: Seq<char>| #[trigger] r.contains(s) <==> is_external(snap, d0, s)
}

/// Every publisher that `x` consumes is in `v`.
pub open spec fn closed(snap: Snapshot, v: Seq<Seq<char>>, x: Seq<char>) -> bool {
    forall|b: Seq<char>| #[trigger] consumes(snap, x, b) ==> v.contains(b)
}

/// The ids a walk from `d0` can meet: `d0` and the publishers.
pub open spec fn candidate(snap: Snapshot, d0: Seq<char>, x: Seq<char>) -> bool {
    x == d0 || exists|j: int| 0 <= j < snap.exposes@.len() && #[trigger] snap.exposes@[j].deployable_id@ == x
}

/// `s` is an external service consumed by one of `done`.
pub open spec fn external_of(snap: Snapshot, done: Seq<Seq<char>>, s: Seq<char>) -> bool {
    &&& !has_publisher(snap, s)
    &&& exists|i: int|
        0 <= i < snap.dependencies@.len() && #[trigger] snap.dependencies@[i].service_id@ == s
            && done.contains(snap.dependencies@[i].deployable_id@)
}

proof fn lemma_needs_start(snap: Snapshot, d0: Seq<char>)
    ensures
        needs(snap, d0, d0),
{
    let p = seq![d0];
    assert(is_chain(snap, p));
}

proof fn lemma_needs_step(snap: Snapshot, d0: Seq<char>, a: Seq<char>, b: Seq<char>, i: int, j: int)
    requires
        needs(snap, d0, a),
        consumes_via(snap, a, b, i, j),
    ensures
        needs(snap, d0, b),
{
    let p = choose|p: Seq<Seq<char>>| #[trigger] is_chain(snap, p) && p[0] == d0 && p.last() == a;
    let q = p.push(b);
    assert forall|k: int| 0 <= k < q.len() - 1 implies #[trigger] chain_step(snap, q, k) by {
        if k < p.len() - 1 {
            assert(chain_step(snap, p, k));
            assert(q[k] == p[k] && q[k + 1] == p[k + 1]);
        } else {
            assert(q[k] == a && q[k + 1] == b);
            assert(consumes_via(snap, q[k], q[k + 1], i, j));
        }
    }
    assert(is_chain(snap, q));
}

/// A set holding `d0` and closed under consumption holds all `d0` requires.
proof fn lemma_closed_complete(snap: Snapshot, d0: Seq<char>, v: Seq<Seq<char>>, x: Seq<char>)
    requires
        v.contains(d0),
        forall|y: Seq<char>| v.contains(y) ==> closed(snap, v, y),
        needs(snap, d0, x),
    ensures
        v.contains(x),
{
    let p = choose|p: Seq<Seq<char>>| #[trigger] is_chain(snap, p) && p[0] == d0 && p.last() == x;
    lemma_chain_in(snap, v, p, p.len() - 1);
}

proof fn lemma_chain_in(snap: Snapshot, v: Seq<Seq<char>>, p: Seq<Seq<char>>, k: int)
    requires
        0 <= k < p.len(),
        is_chain(snap, p),
        v.contains(p[0]),
        forall|y: Seq<char>| v.contains(y) ==> closed(snap, v, y),
    ensures
        v.contains(p[k]),
    decreases k,
{
    if k > 0 {
        lemma_chain_in(snap, v, p, k - 1);
        assert(chain_step(snap, p, k - 1));
        assert(closed(snap, v, p[k - 1]));
        assert(consumes(snap, p[k - 1], p[k]));
    }
}

/// A sorted set of candidates is no longer than the candidates.
proof fn lemma_candidates_bound(snap: Snapshot, d0: Seq<char>, v: Seq<Seq<char>>)
    requires
        sorted_set(v),
        forall|x: Seq<char>| v.contains(x) ==> candidate(snap, d0, x),
    ensures
        v.len() <= snap.exposes@.len() + 1,
{
    let u = seq![d0] + snap.exposes@.map_values(|e: Exposes| e.deployable_id@);
    assert(v.no_duplicates()) by {
        assert forall|i: int, j: int| 0 <= i < v.len() && 0 <= j < v.len() && i != j implies v[i] != v[j] by {
            if i < j {
                assert(seq_lt(v[i], v[j]));
            } else {
                assert(seq_lt(v[j], v[i]));
            }
            lemma_lt_irreflexive(v[i]);
        }
    }
    v.unique_seq_to_set();
    u.lemma_cardinality_of_set();
    assert(v.to_set().subset_of(u.to_set())) by {
        assert forall|x: Seq<char>| v.to_set().contains(x) implies u.to_set().contains(x) by {
            assert(v.contains(x));
            assert(candidate(snap, d0, x));
            if x == d0 {
                assert(u[0] == x);
            } else {
                let j = choose|j: int| 0 <= j < snap.exposes@.len() && #[trigger] snap.exposes@[j].deployable_id@ == x;
                assert(u[j + 1] == x);
            }
        }
    }
    vstd::set_lib::lemma_len_subset(v.to_set(), u.to_set());
}

/// The state of the walk from `d0`: `req` is a sorted set of required
/// candidates, and `queue` lists the same ids, each once.
pub open spec fn walk_inv(snap: Snapshot, d0: Seq<char>, req: Seq<Seq<char>>, queue: Seq<Seq<char>>) -> bool {
    &&& sorted_set(req)
    &&& queue.len() == req.len()
    &&& forall|x: Seq<char>| #[trigger] req.contains(x) <==> queue.contains(x)
    &&& forall|x: Seq<char>| #[trigger] req.contains(x) ==> needs(snap, d0, x) && candidate(snap, d0, x)
}

impl Snapshot {
    /// Add every publisher of service `s` to the walk.
    fn visit_publishers(
        &self,
        s: &String,
        req: &mut Vec<String>,
        queue: &mut Vec<String>,
        Ghost(d0): Ghost<Seq<char>>,
        Ghost(d): Ghost<Seq<char>>,
        Ghost(i): Ghost<int>,
    ) -> (found: bool)
        requires
            walk_inv(*self, d0, views(old(req)@), views(old(queue)@)),
            needs(*self, d0, d),
            0 <= i < self.dependencies@.len(),
            self.dependencies@[i].deployable_id@ == d,
            self.dependencies@[i].service_id@ == s@,
        ensures
            walk_inv(*self, d0, views(final(req)@), views(final(queue)@)),
            forall|x: Seq<char>| views(old(req)@).contains(x) ==> #[trigger] views(final(req)@).contains(x),
            final(queue)@.len() >= old(queue)@.len(),
            final(queue)@.subrange(0, old(queue)@.len() as int) == old(queue)@,
            forall|j: int| 0 <= j < self.exposes@.len() && #[trigger] self.exposes@[j].service_id@ == s@
                ==> views(final(req)@).contains(self.exposes@[j].deployable_id@),
            found == has_publisher(*self, s@),
    {
        let ghost q0 = queue@;
        let ghost r0 = views(req@);
        let mut found = false;
        let mut j: usize = 0;
        while j < self.exposes.len()
            invariant
                j <= self.exposes@.len(),
                walk_inv(*self, d0, views(req@), views(queue@)),
                needs(*self, d0, d),
                0 <= i < self.dependencies@.len(),
                self.dependencies@[i].deployable_id@ == d,
                self.dependencies@[i].service_id@ == s@,
                forall|x: Seq<char>| r0.contains(x) ==> #[trigger] views(req@).contains(x),
                queue@.len() >= q0.len(),
                queue@.subrange(0, q0.len() as int) == q0,
                forall|k: int| 0 <= k < j && #[trigger] self.exposes@[k].service_id@ == s@
                    ==> views(req@).contains(self.exposes@[k].deployable_id@),
                found <==> exists|k: int| 0 <= k < j && #[trigger] self.exposes@[k].service_id@ == s@,
            decreases self.exposes@.len() - j,
        {
            if eq_str(self.exposes[j].service_id.as_str(), s.as_str()) {
                found = true;
                let p = &self.exposes[j].deployable_id;
                let ghost rb = views(req@);
                let ghost qb = views(queue@);
                proof {
                    lemma_set_insert(rb, p@);
                    assert(consumes_via(*self, d, p@, i, j as int));
                    lemma_needs_step(*self, d0, d, p@, i, j as int);
                    assert(candidate(*self, d0, p@));
                }
                if set_insert_id(req, p.as_str()) {
                    let ghost qv = queue@;
                    queue.push(p.clone());
                    proof {
                        assert(views(queue@) =~= qb.push(p@));
                        assert forall|x: Seq<char>| #[trigger] views(req@).contains(x) <==> views(queue@).contains(x) by {
                            lemma_seq_contains_after_push(qb, p@, x);
                        }
                        assert(queue@.subrange(0, q0.len() as int) =~= qv.subrange(0, q0.len() as int));
                    }
                } else {
                    assert(set_insert(rb, p@) == rb);
                }
                assert(views(req@).contains(p@));
            }
            j = j + 1;
        }
        found
    }

    /// Visit deployable `d`: add the publishers of every service it
    /// consumes, and note the services nobody publishes.
    fn expand_node(
        &self,
        d: &String,
        req: &mut Vec<String>,
        queue: &mut Vec<String>,
        ext: &mut Vec<String>,
        Ghost(d0): Ghost<Seq<char>>,
        Ghost(done): Ghost<Seq<Seq<char>>>,
    )
        requires
            walk_inv(*self, d0, views(old(req)@), views(old(queue)@)),
            needs(*self, d0, d@),
            sorted_set(views(old(ext)@)),
            forall|s: Seq<char>| #[trigger] views(old(ext)@).contains(s) <==> external_of(*self, done, s),
        ensures
            walk_inv(*self, d0, views(final(req)@), views(final(queue)@)),
            forall|x: Seq<char>| views(old(req)@).contains(x) ==> #[trigger] views(final(req)@).contains(x),
            final(queue)@.len() >= old(queue)@.len(),
            final(queue)@.subrange(0, old(queue)@.len() as int) == old(queue)@,
            closed(*self, views(final(req)@), d@),
            sorted_set(views(final(ext)@)),
            forall|s: Seq<char>| #[trigger] views(final(ext)@).contains(s) <==> external_of(*self, done.push(d@), s),
    {
        let ghost q0 = queue@;
        let ghost r0 = views(req@);
        let mut i: usize = 0;
        while i < self.dependencies.len()
            invariant
                i <= self.dependencies@.len(),
                walk_inv(*self, d0, views(req@), views(queue@)),
                needs(*self, d0, d@),
                forall|x: Seq<char>| r0.contains(x) ==> #[trigger] views(req@).contains(x),
                queue@.len() >= q0.len(),
                queue@.subrange(0, q0.len() as int) == q0,
                forall|k: int, j: int|
                    0 <= k < i && 0 <= j < self.exposes@.len() && #[trigger] consumes_via(*self, d@, self.exposes@[j].deployable_id@, k, j)
                        ==> views(req@).contains(self.exposes@[j].deployable_id@),
                sorted_set(views(ext@)),
                forall|s: Seq<char>| #[trigger] views(ext@).contains(s) <==> (external_of(*self, done, s) || exists|k: int|
                    0 <= k < i && #[trigger] self.dependencies@[k].deployable_id@ == d@ && self.dependencies@[k].service_id@ == s
                        && !has_publisher(*self, s)),
            decreases self.dependencies@.len() - i,
        {
            if eq_str(self.dependencies[i].deployable_id.as_str(), d.as_str()) {
                let s = &self.dependencies[i].service_id;
                let ghost rb = views(req@);
                let ghost qb = queue@;
                let found = self.visit_publishers(s, req, queue, Ghost(d0), Ghost(d@), Ghost(i as int));
                proof {
                    assert(queue@.subrange(0, q0.len() as int) =~= qb.subrange(0, q0.len() as int));
                }
                if !found {
                    let ghost eb = views(ext@);
                    proof { lemma_set_insert(eb, s@); }
                    set_insert_id(ext, s.as_str());
                    assert forall|x: Seq<char>| #[trigger] views(ext@).contains(x) <==> (external_of(*self, done, x) || exists|k: int|
                        0 <= k < i + 1 && #[trigger] self.dependencies@[k].deployable_id@ == d@ && self.dependencies@[k].service_id@ == x
                            && !has_publisher(*self, x)) by {
                        if x == s@ {
                            assert(self.dependencies@[i as int].deployable_id@ == d@);
                        }
                    }
                }
            }
            i = i + 1;
        }
        assert forall|b: Seq<char>| #[trigger] consumes(*self, d@, b) implies views(req@).contains(b) by {
            let (k, j) = choose|k: int, j: int| #[trigger] consumes_via(*self, d@, b, k, j);
            assert(consumes_via(*self, d@, self.exposes@[j].deployable_id@, k, j));
        }
        assert forall|s: Seq<char>| #[trigger] views(ext@).contains(s) <==> external_of(*self, done.push(d@), s) by {
            if external_of(*self, done.push(d@), s) {
                let k = choose|k: int| 0 <= k < self.dependencies@.len() && #[trigger] self.dependencies@[k].service_id@ == s
                    && done.push(d@).contains(self.dependencies@[k].deployable_id@);
                lemma_seq_contains_after_push(done, d@, self.dependencies@[k].deployable_id@);
            }
            if external_of(*self, done, s) {
                let k = choose|k: int| 0 <= k < self.dependencies@.len() && #[trigger] self.dependencies@[k].service_id@ == s
                    && done.contains(self.dependencies@[k].deployable_id@);
                lemma_seq_contains_after_push(done, d@, self.dependencies@[k].deployable_id@);
            }
            if exists|k: int| 0 <= k < self.dependencies@.len() && #[trigger] self.dependencies@[k].deployable_id@ == d@
                && self.dependencies@[k].service_id@ == s && !has_publisher(*self, s) {
                let k = choose|k: int| 0 <= k < self.dependencies@.len() && #[trigger] self.dependencies@[k].deployable_id@ == d@
                    && self.dependencies@[k].service_id@ == s && !has_publisher(*self, s);
                lemma_seq_contains_after_push(done, d@, d@);
                assert(self.dependencies@[k].service_id@ == s);
            }
        }
    }

    /// The deployables `d0` requires and its external services, each as a
    /// sorted set.
    fn required_walk(&self, d0: &str) -> (r: (Vec<String>, Vec<String>))
        ensures
            views(r.0@) == required_ids(*self, d0@),
            views(r.1@) == external_ids(*self, d0@),
    {
        let mut req: Vec<String> = Vec::new();
        let mut queue: Vec<String> = Vec::new();
        let mut ext: Vec<String> = Vec::new();
        proof {
            lemma_set_insert(views(req@), d0@);
            lemma_needs_start(*self, d0@);
        }
        set_insert_id(&mut req, d0);
        queue.push(d0.to_owned());
        proof {
            assert(views(req@) =~= seq![d0@]);
            assert(views(queue@) =~= seq![d0@]);
            assert(views(queue@).take(0) =~= Seq::<Seq<char>>::empty());
        }
        let mut head: usize = 0;
        while head < queue.len()
            invariant
                walk_inv(*self, d0@, views(req@), views(queue@)),
                views(req@).contains(d0@),
                head <= queue@.len(),
                req@.len() <= self.exposes@.len() + 1,
                forall|k: int| 0 <= k < head ==> closed(*self, views(req@), #[trigger] views(queue@)[k]),
                sorted_set(views(ext@)),
                forall|s: Seq<char>| #[trigger] views(ext@).contains(s) <==> external_of(*self, views(queue@).take(head as int), s),
            decreases self.exposes@.len() + 1 - head,
        {
            let d = queue[head].clone();
            let ghost done = views(queue@).take(head as int);
            let ghost r0 = views(req@);
            let ghost q0 = queue@;
            proof {
                assert(views(queue@)[head as int] == d@);
                assert(views(req@).contains(d@));
            }
            self.expand_node(&d, &mut req, &mut queue, &mut ext, Ghost(d0@), Ghost(done));
            proof {
                assert forall|k: int| 0 <= k < head + 1 implies closed(*self, views(req@), #[trigger] views(queue@)[k]) by {
                    assert(views(queue@)[k] == q0[k]@) by {
                        assert(queue@.subrange(0, q0.len() as int)[k] == queue@[k]);
                    }
                    if k < head {
                        assert(views(q0)[k] == q0[k]@);
                        assert(closed(*self, r0, views(q0)[k]));
                        assert forall|b: Seq<char>| #[trigger] consumes(*self, views(queue@)[k], b) implies views(req@).contains(b) by {
                            assert(r0.contains(b));
                        }
                    }
                }
                assert(views(queue@).take(head + 1) =~= done.push(d@)) by {
                    assert forall|k: int| 0 <= k < head + 1 implies views(queue@).take(head + 1)[k] == done.push(d@)[k] by {
                        assert(queue@.subrange(0, q0.len() as int)[k] == queue@[k]);
                    }
                }
                lemma_candidates_bound(*self, d0@, views(req@));
            }
            head = head + 1;
        }
        proof {
            let v = views(req@);
            assert forall|x: Seq<char>| #[trigger] v.contains(x) <==> needs(*self, d0@, x) by {
                if needs(*self, d0@, x) {
                    assert forall|y: Seq<char>| v.contains(y) implies closed(*self, v, y) by {
                        assert(views(queue@).contains(y));
                        let k = choose|k: int| 0 <= k < views(queue@).len() && views(queue@)[k] == y;
                        assert(closed(*self, v, views(queue@)[k]));
                    }
                    lemma_closed_complete(*self, d0@, v, x);
                }
            }
            let r = required_ids(*self, d0@);
            assert(sorted_set(r) && forall|x: Seq<char>| #[trigger] r.contains(x) <==> needs(*self, d0@, x));
            lemma_sorted_unique(v, r);
            assert(views(queue@).take(head as int) =~= views(queue@));
            let e = views(ext@);
            assert forall|s: Seq<char>| #[trigger] e.contains(s) <==> is_external(*self, d0@, s) by {
                if is_external(*self, d0@, s) {
                    let k = choose|k: int| 0 <= k < self.dependencies@.len() && #[trigger] self.dependencies@[k].service_id@ == s
                        && needs(*self, d0@, self.dependencies@[k].deployable_id@);
                    assert(v.contains(self.dependencies@[k].deployable_id@));
                }
                if external_of(*self, views(queue@), s) {
                    let k = choose|k: int| 0 <= k < self.dependencies@.len() && #[trigger] self.dependencies@[k].service_id@ == s
                        && views(queue@).contains(self.dependencies@[k].deployable_id@);
                    assert(v.contains(self.dependencies@[k].deployable_id@));
                }
            }
            let x = external_ids(*self, d0@);
            assert(sorted_set(x) && forall|s: Seq<char>| #[trigger] x.contains(s) <==> is_external(*self, d0@, s));
            lemma_sorted_unique(e, x);
        }
        (req, ext)
    }
}

// ── deployment order ────────────────────────────────────────────────────────

/// Every required publisher of `x`, other than `x` itself, is placed.
pub open spec fn producers_placed(snap: Snapshot, r: Seq<Seq<char>>, placed: Seq<Seq<char>>, x: Seq<char>) -> bool {
    forall|b: Seq<char>| #[trigger] consumes(snap, x, b) && r.contains(b) && b != x ==> placed.contains(b)
}

/// Entry `i` of `r` is not placed yet and all it consumes is.
pub open spec fn plan_ready(snap: Snapshot, r: Seq<Seq<char>>, placed: Seq<Seq<char>>, i: int) -> bool {
    !placed.contains(r[i]) && producers_placed(snap, r, placed, r[i])
}

/// The first ready entry of `r` at `k` or later, or -1.
pub open spec fn first_plan_ready(snap: Snapshot, r: Seq<Seq<char>>, placed: Seq<Seq<char>>, k: int) -> int
    decreases r.len() - k,
{
    if k < 0 || k >= r.len() {
        -1
    } else if plan_ready(snap, r, placed, k) {
        k
    } else {
        first_plan_ready(snap, r, placed, k + 1)
    }
}

/// Kahn's order from `placed`: repeatedly place the smallest ready id.
pub open spec fn plan_order_from(snap: Snapshot, r: Seq<Seq<char>>, placed: Seq<Seq<char>>) -> Seq<Seq<char>>
    decreases r.len() - placed.len(),
{
    if placed.len() >= r.len() {
        placed
    } else {
        let i = first_plan_ready(snap, r, placed, 0);
        if i < 0 {
            placed
        } else {
            plan_order_from(snap, r, placed.push(r[i]))
        }
    }
}

/// The deployment order of what `d0` requires, dependencies first.
pub open spec fn plan_order(snap: Snapshot, d0: Seq<char>) -> Seq<Seq<char>> {
    plan_order_from(snap, required_ids(snap, d0), Seq::empty())
}

/// The first `k` entries of `r` that are not in `o`, in order.
pub open spec fn unplaced(r: Seq<Seq<char>>, o: Seq<Seq<char>>, k: int) -> Seq<Seq<char>>
    decreases k,
{
    if k <= 0 {
        Seq::empty()
    } else if o.contains(r[k - 1]) {
        unplaced(r, o, k - 1)
    } else {
        unplaced(r, o, k - 1).push(r[k - 1])
    }
}

/// One step of a deployment order.
#[derive(Debug, Clone)]
pub struct OrderedDeployment {
    pub order: usize,
    pub deployable_id: String,
    pub deployable_name: String,
}

/// A service by id and name.
#[derive(Debug, Clone)]
pub struct ServiceRef {
    pub service_id: String,
    pub service_name: String,
}

/// The answer to a deployment-plan query.
#[derive(Debug, Clone)]
pub enum DeploymentPlanResult {
    /// Everything required, dependencies first, and the external services
    /// it consumes.
    Ordered {
        deployable_id: String,
        deployable_name: String,
        external_prerequisites: Vec<ServiceRef>,
        ordered_deployments: Vec<OrderedDeployment>,
    },
    /// The requirements hold a cycle; `cycle_members` are those that could
    /// not be ordered.
    Cycle { deployable_id: String, deployable_name: String, cycle_members: Vec<String> },
}

impl Snapshot {
    /// Whether entry `i` of `r` is ready once `placed` is deployed.
    fn is_plan_ready(&self, r: &Vec<String>, placed: &Vec<String>, i: usize) -> (b: bool)
        requires
            i < r@.len(),
        ensures
            b == plan_ready(*self, views(r@), views(placed@), i as int),
    {
        let x = &r[i];
        assert(views(r@)[i as int] == x@);
        if contains_id(placed, x.as_str()) {
            return false;
        }
        let mut k: usize = 0;
        while k < self.dependencies.len()
            invariant
                k <= self.dependencies@.len(),
                i < r@.len(),
                x@ == views(r@)[i as int],
                forall|kk: int, j: int, b: Seq<char>|
                    0 <= kk < k && #[trigger] consumes_via(*self, x@, b, kk, j) && views(r@).contains(b) && b != x@
                        ==> views(placed@).contains(b),
            decreases self.dependencies@.len() - k,
        {
            if eq_str(self.dependencies[k].deployable_id.as_str(), x.as_str()) {
                let mut j: usize = 0;
                while j < self.exposes.len()
                    invariant
                        k < self.dependencies@.len(),
                        j <= self.exposes@.len(),
                        i < r@.len(),
                        x@ == views(r@)[i as int],
                        self.dependencies@[k as int].deployable_id@ == x@,
                        forall|kk: int, jj: int, b: Seq<char>|
                            0 <= kk < k && #[trigger] consumes_via(*self, x@, b, kk, jj) && views(r@).contains(b) && b != x@
                                ==> views(placed@).contains(b),
                        forall|jj: int, b: Seq<char>|
                            0 <= jj < j && #[trigger] consumes_via(*self, x@, b, k as int, jj) && views(r@).contains(b) && b != x@
                                ==> views(placed@).contains(b),
                    decreases self.exposes@.len() - j,
                {
                    if eq_str(self.exposes[j].service_id.as_str(), self.dependencies[k].service_id.as_str()) {
                        let b = &self.exposes[j].deployable_id;
                        if !eq_str(b.as_str(), x.as_str()) && contains_id(r, b.as_str()) && !contains_id(placed, b.as_str()) {
                            assert(consumes_via(*self, x@, b@, k as int, j as int));
                            assert(consumes(*self, x@, b@));
                            assert(!producers_placed(*self, views(r@), views(placed@), x@));
                            return false;
                        }
                    }
                    j = j + 1;
                }
            }
            k = k + 1;
        }
        assert forall|b: Seq<char>| #[trigger] consumes(*self, x@, b) && views(r@).contains(b) && b != x@
            implies views(placed@).contains(b) by {
            let (kk, jj) = choose|kk: int, jj: int| #[trigger] consumes_via(*self, x@, b, kk, jj);
        }
        true
    }

    /// Kahn's order of the sorted set `r`.
    fn order_required(&self, r: &Vec<String>) -> (placed: Vec<String>)
        ensures
            views(placed@) == plan_order_from(*self, views(r@), Seq::empty()),
    {
        let ghost rv = views(r@);
        let n = r.len();
        let mut placed: Vec<String> = Vec::new();
        assert(views(placed@) =~= Seq::<Seq<char>>::empty());
        loop
            invariant
                n == rv.len(),
                rv == views(r@),
                views(placed@).len() <= n,
                plan_order_from(*self, rv, Seq::empty()) == plan_order_from(*self, rv, views(placed@)),
            ensures
                plan_order_from(*self, rv, Seq::empty()) == views(placed@),
            decreases n - placed@.len(),
        {
            if placed.len() >= n {
                break;
            }
            let mut i: usize = 0;
            let mut found = false;
            while i < n && !found
                invariant
                    i <= n,
                    n == rv.len(),
                    rv == views(r@),
                    found ==> i < n && plan_ready(*self, rv, views(placed@), i as int)
                        && first_plan_ready(*self, rv, views(placed@), 0) == i,
                    !found ==> first_plan_ready(*self, rv, views(placed@), 0) == first_plan_ready(
                        *self,
                        rv,
                        views(placed@),
                        i as int,
                    ),
                decreases n - i + (if found { 0int } else { 1int }),
            {
                if self.is_plan_ready(r, &placed, i) {
                    found = true;
                } else {
                    i = i + 1;
                }
            }
            if !found {
                break;
            }
            let ghost p0 = views(placed@);
            placed.push(r[i].clone());
            assert(views(placed@) =~= p0.push(rv[i as int]));
        }
        placed
    }

    /// Topological sort of what `deployable_id` requires: every deployable
    /// transitively required, ordered dependencies-first (the smallest id
    /// first among those ready), with the services no deployable publishes
    /// as external prerequisites. A cycle yields the members that could not
    /// be ordered instead.
    pub fn deployment_plan(&self, deployable_id: &str) -> (res: DeploymentPlanResult)
        ensures
            ({
                let r = required_ids(*self, deployable_id@);
                let o = plan_order(*self, deployable_id@);
                let e = external_ids(*self, deployable_id@);
                match res {
                    DeploymentPlanResult::Cycle { deployable_id: id, deployable_name, cycle_members } => {
                        &&& o.len() < r.len()
                        &&& id@ == deployable_id@
                        &&& deployable_name@ == deployable_name_of(*self, deployable_id@)
                        &&& views(cycle_members@) == unplaced(r, o, r.len() as int)
                    },
                    DeploymentPlanResult::Ordered {
                        deployable_id: id,
                        deployable_name,
                        external_prerequisites,
                        ordered_deployments,
                    } => {
                        &&& o.len() >= r.len()
                        &&& id@ == deployable_id@
                        &&& deployable_name@ == deployable_name_of(*self, deployable_id@)
                        &&& ordered_deployments@.len() == o.len()
                        &&& forall|i: int| 0 <= i < o.len() ==> {
                            let s = #[trigger] ordered_deployments@[i];
                            &&& s.order == i
                            &&& s.deployable_id@ == o[i]
                            &&& s.deployable_name@ == deployable_name_of(*self, o[i])
                        }
                        &&& external_prerequisites@.len() == e.len()
                        &&& forall|i: int| 0 <= i < e.len() ==> {
                            let x = #[trigger] external_prerequisites@[i];
                            &&& x.service_id@ == e[i]
                            &&& x.service_name@ == service_name_of(*self, e[i])
                        }
                    },
                }
            }),
    {
        let name = self.deployable_name(deployable_id);
        let (req, ext) = self.required_walk(deployable_id);
        let order = self.order_required(&req);
        let ghost r = views(req@);
        let ghost o = views(order@);
        if order.len() < req.len() {
            let mut left: Vec<String> = Vec::new();
            let mut k: usize = 0;
            while k < req.len()
                invariant
                    k <= req@.len(),
                    r == views(req@),
                    o == views(order@),
                    views(left@) == unplaced(r, o, k as int),
                decreases req@.len() - k,
            {
                assert(r[k as int] == req@[k as int]@);
                if !contains_id(&order, req[k].as_str()) {
                    let ghost l0 = views(left@);
                    left.push(req[k].clone());
                    assert(views(left@) =~= l0.push(r[k as int]));
                }
                k = k + 1;
            }
            return DeploymentPlanResult::Cycle {
                deployable_id: deployable_id.to_owned(),
                deployable_name: name,
                cycle_members: left,
            };
        }
        let mut steps: Vec<OrderedDeployment> = Vec::new();
        let mut i: usize = 0;
        while i < order.len()
            invariant
                i <= order@.len(),
                o == views(order@),
                steps@.len() == i,
                forall|q: int| 0 <= q < i ==> {
                    let s = #[trigger] steps@[q];
                    &&& s.order == q
                    &&& s.deployable_id@ == o[q]
                    &&& s.deployable_name@ == deployable_name_of(*self, o[q])
                },
            decreases order@.len() - i,
        {
            assert(o[i as int] == order@[i as int]@);
            let nm = self.deployable_name(order[i].as_str());
            steps.push(OrderedDeployment { order: i, deployable_id: order[i].clone(), deployable_name: nm });
            i = i + 1;
        }
        let ghost e = views(ext@);
        let mut externals: Vec<ServiceRef> = Vec::new();
        let mut k: usize = 0;
        while k < ext.len()
            invariant
                k <= ext@.len(),
                e == views(ext@),
                externals@.len() == k,
                forall|q: int| 0 <= q < k ==> {
                    let x = #[trigger] externals@[q];
                    &&& x.service_id@ == e[q]
                    &&& x.service_name@ == service_name_of(*self, e[q])
                },
            decreases ext@.len() - k,
        {
            assert(e[k as int] == ext@[k as int]@);
            let nm = self.service_name(ext[k].as_str());
            externals.push(ServiceRef { service_id: ext[k].clone(), service_name: nm });
            k = k + 1;
        }
        DeploymentPlanResult::Ordered {
            deployable_id: deployable_id.to_owned(),
            deployable_name: name,
            external_prerequisites: externals,
            ordered_deployments: steps,
        }
    }
}

/// Each id of `s` comes after every required publisher it consumes.
pub open spec fn deps_first(snap: Snapshot, r: Seq<Seq<char>>, s: Seq<Seq<char>>) -> bool {
    forall|i: int, b: Seq<char>|
        0 <= i < s.len() && #[trigger] consumes(snap, s[i], b) && r.contains(b) && b != s[i]
            ==> s.take(i).contains(b)
}

proof fn lemma_order_from(snap: Snapshot, r: Seq<Seq<char>>, placed: Seq<Seq<char>>)
    requires
        deps_first(snap, r, placed),
        placed.no_duplicates(),
        forall|i: int| 0 <= i < placed.len() ==> r.contains(#[trigger] placed[i]),
    ensures
        deps_first(snap, r, plan_order_from(snap, r, placed)),
        plan_order_from(snap, r, placed).no_duplicates(),
        forall|i: int| 0 <= i < plan_order_from(snap, r, placed).len()
            ==> r.contains(#[trigger] plan_order_from(snap, r, placed)[i]),
    decreases r.len() - placed.len(),
{
    if placed.len() < r.len() {
        let k = first_plan_ready(snap, r, placed, 0);
        if k >= 0 {
            lemma_first_plan_ready(snap, r, placed, 0);
            let np = placed.push(r[k]);
            assert(deps_first(snap, r, np)) by {
                assert forall|i: int, b: Seq<char>|
                    0 <= i < np.len() && #[trigger] consumes(snap, np[i], b) && r.contains(b) && b != np[i]
                        implies np.take(i).contains(b) by {
                    if i < placed.len() {
                        assert(np[i] == placed[i]);
                        assert(np.take(i) =~= placed.take(i));
                    } else {
                        assert(np[i] == r[k]);
                        assert(np.take(i) =~= placed);
                    }
                }
            }
            assert(np.no_duplicates()) by {
                assert forall|a: int, c: int| 0 <= a < np.len() && 0 <= c < np.len() && a != c
                    implies np[a] != np[c] by {
                    if a == placed.len() {
                        assert(placed[c] == np[c]);
                    } else if c == placed.len() {
                        assert(placed[a] == np[a]);
                    }
                }
            }
            assert forall|i: int| 0 <= i < np.len() implies r.contains(#[trigger] np[i]) by {
                if i == placed.len() {
                    assert(r[k] == np[i]);
                } else {
                    assert(np[i] == placed[i]);
                }
            }
            lemma_order_from(snap, r, np);
        }
    }
}

proof fn lemma_first_plan_ready(snap: Snapshot, r: Seq<Seq<char>>, placed: Seq<Seq<char>>, k: int)
    requires
        0 <= k,
    ensures
        first_plan_ready(snap, r, placed, k) == -1 || (k <= first_plan_ready(snap, r, placed, k) < r.len()
            && plan_ready(snap, r, placed, first_plan_ready(snap, r, placed, k))),
    decreases r.len() - k,
{
    if k < r.len() && !plan_ready(snap, r, placed, k) {
        lemma_first_plan_ready(snap, r, placed, k + 1);
    }
}

/// The deployment order puts dependencies first: every deployable in it
/// comes after each required deployable publishing a service it consumes.
/// The order holds each required deployable at most once and nothing else.
pub proof fn lemma_deployment_order_deps_first(snap: Snapshot, d0: Seq<char>)
    ensures
        deps_first(snap, required_ids(snap, d0), plan_order(snap, d0)),
        plan_order(snap, d0).no_duplicates(),
        forall|i: int| 0 <= i < plan_order(snap, d0).len()
            ==> required_ids(snap, d0).contains(#[trigger] plan_order(snap, d0)[i]),
{
    let r = required_ids(snap, d0);
    lemma_order_from(snap, r, Seq::empty());
}

/// The ids among `d0` and the publishers of the first `k` exposes records
/// that `d0` requires, as a sorted set.
pub open spec fn needed_upto(snap: Snapshot, d0: Seq<char>, k: int) -> Seq<Seq<char>>
    decreases k,
{
    if k <= 0 {
        seq![d0]
    } else {
        let prev = needed_upto(snap, d0, k - 1);
        let y = snap.exposes@[k - 1].deployable_id@;
        if needs(snap, d0, y) { set_insert(prev, y) } else { prev }
    }
}

proof fn lemma_needed_upto(snap: Snapshot, d0: Seq<char>, k: int)
    requires
        0 <= k <= snap.exposes@.len(),
    ensures
        sorted_set(needed_upto(snap, d0, k)),
        forall|y: Seq<char>| #[trigger] needed_upto(snap, d0, k).contains(y) <==>
            (y == d0 || exists|j: int| 0 <= j < k && snap.exposes@[j].deployable_id@ == y && needs(snap, d0, y)),
    decreases k,
{
    if k == 0 {
        assert forall|y: Seq<char>| #[trigger] needed_upto(snap, d0, k).contains(y) <==> y == d0 by {
            if y == d0 {
                assert(needed_upto(snap, d0, k)[0] == d0);
            }
        }
    } else {
        lemma_needed_upto(snap, d0, k - 1);
        let prev = needed_upto(snap, d0, k - 1);
        let y0 = snap.exposes@[k - 1].deployable_id@;
        if needs(snap, d0, y0) {
            lemma_set_insert(prev, y0);
        }
        assert forall|y: Seq<char>| #[trigger] needed_upto(snap, d0, k).contains(y) <==>
            (y == d0 || exists|j: int| 0 <= j < k && snap.exposes@[j].deployable_id@ == y && needs(snap, d0, y)) by {
            if exists|j: int| 0 <= j < k && snap.exposes@[j].deployable_id@ == y && needs(snap, d0, y) {
                let j = choose|j: int| 0 <= j < k && snap.exposes@[j].deployable_id@ == y && needs(snap, d0, y);
                if j < k - 1 {
                    assert(prev.contains(y));
                }
            }
        }
    }
}

/// The deployables `d0` requires form a sorted set of distinct ids.
proof fn lemma_required_sorted(snap: Snapshot, d0: Seq<char>)
    ensures
        sorted_set(required_ids(snap, d0)),
        forall|x: Seq<char>| #[trigger] required_ids(snap, d0).contains(x) <==> needs(snap, d0, x),
        required_ids(snap, d0).no_duplicates(),
{
    let n = snap.exposes@.len() as int;
    lemma_needed_upto(snap, d0, n);
    let w = needed_upto(snap, d0, n);
    assert forall|x: Seq<char>| #[trigger] w.contains(x) <==> needs(snap, d0, x) by {
        if needs(snap, d0, x) && x != d0 {
            let p = choose|p: Seq<Seq<char>>| #[trigger] is_chain(snap, p) && p[0] == d0 && p.last() == x;
            assert(p.len() >= 2);
            assert(chain_step(snap, p, p.len() - 2));
            let (i, j) = choose|i: int, j: int| #[trigger] consumes_via(snap, p[p.len() - 2], p[p.len() - 1], i, j);
            assert(snap.exposes@[j].deployable_id@ == x);
        }
        if x == d0 {
            lemma_needs_start(snap, d0);
        }
    }
    assert(sorted_set(w) && forall|x: Seq<char>| #[trigger] w.contains(x) <==> needs(snap, d0, x));
    let r = required_ids(snap, d0);
    assert forall|a: int, b: int| 0 <= a < r.len() && 0 <= b < r.len() && a != b implies r[a] != r[b] by {
        if a < b {
            assert(seq_lt(r[a], r[b]));
            if r[a] == r[b] {
                lemma_lt_irreflexive(r[a]);
            }
        } else {
            assert(seq_lt(r[b], r[a]));
            if r[a] == r[b] {
                lemma_lt_irreflexive(r[a]);
            }
        }
    }
}

proof fn lemma_plan_stops(snap: Snapshot, r: Seq<Seq<char>>, placed: Seq<Seq<char>>)
    ensures
        plan_order_from(snap, r, placed).len() >= r.len()
            || first_plan_ready(snap, r, plan_order_from(snap, r, placed), 0) < 0,
    decreases r.len() - placed.len(),
{
    if placed.len() < r.len() {
        let i = first_plan_ready(snap, r, placed, 0);
        if i >= 0 {
            lemma_first_plan_ready(snap, r, placed, 0);
            lemma_plan_stops(snap, r, placed.push(r[i]));
        }
    }
}

proof fn lemma_ready_found(snap: Snapshot, r: Seq<Seq<char>>, placed: Seq<Seq<char>>, k: int, i: int)
    requires
        0 <= k <= i < r.len(),
        plan_ready(snap, r, placed, i),
    ensures
        first_plan_ready(snap, r, placed, k) >= 0,
    decreases i - k,
{
    if k < i && !plan_ready(snap, r, placed, k) {
        lemma_ready_found(snap, r, placed, k + 1, i);
    }
}

/// Under a ranking in which each required publisher ranks below its
/// consumers, an unplaced required id leads to a ready one.
proof fn lemma_ranked_plan_ready(snap: Snapshot, r: Seq<Seq<char>>, rank: spec_fn(Seq<char>) -> nat, placed: Seq<Seq<char>>, i: int) -> (q: int)
    requires
        0 <= i < r.len(),
        !placed.contains(r[i]),
        forall|x: Seq<char>, b: Seq<char>| r.contains(x) && r.contains(b) && b != x && #[trigger] consumes(snap, x, b)
            ==> rank(b) < rank(x),
    ensures
        0 <= q < r.len(),
        plan_ready(snap, r, placed, q),
    decreases rank(r[i]),
{
    if plan_ready(snap, r, placed, i) {
        i
    } else {
        let b = choose|b: Seq<char>| #[trigger] consumes(snap, r[i], b) && r.contains(b) && b != r[i] && !placed.contains(b);
        assert(r.contains(r[i]));
        let m = choose|m: int| 0 <= m < r.len() && r[m] == b;
        lemma_ranked_plan_ready(snap, r, rank, placed, m)
    }
}

/// Without a cycle among what `d0` requires, the plan is an order: when a
/// ranking puts every required publisher below each required deployable
/// consuming it, `deployment_plan` orders every required deployable (its
/// answer is `Ordered`, never a cycle).
pub proof fn lemma_acyclic_requirements_are_ordered(snap: Snapshot, d0: Seq<char>, rank: spec_fn(Seq<char>) -> nat)
    requires
        forall|x: Seq<char>, b: Seq<char>|
            needs(snap, d0, x) && needs(snap, d0, b) && b != x && #[trigger] consumes(snap, x, b)
                ==> rank(b) < rank(x),
    ensures
        plan_order(snap, d0).len() == required_ids(snap, d0).len(),
{
    let r = required_ids(snap, d0);
    let o = plan_order(snap, d0);
    lemma_required_sorted(snap, d0);
    lemma_order_from(snap, r, Seq::empty());
    lemma_plan_stops(snap, r, Seq::empty());
    o.unique_seq_to_set();
    r.unique_seq_to_set();
    vstd::seq_lib::seq_to_set_is_finite(o);
    vstd::seq_lib::seq_to_set_is_finite(r);
    assert(o.to_set().subset_of(r.to_set())) by {
        assert forall|x: Seq<char>| o.to_set().contains(x) implies r.to_set().contains(x) by {
            let a = choose|a: int| 0 <= a < o.len() && o[a] == x;
            assert(r.contains(o[a]));
        }
    }
    vstd::set_lib::lemma_len_subset(o.to_set(), r.to_set());
    if o.len() < r.len() {
        if forall|j: int| 0 <= j < r.len() ==> o.contains(#[trigger] r[j]) {
            assert(r.to_set().subset_of(o.to_set())) by {
                assert forall|x: Seq<char>| r.to_set().contains(x) implies o.to_set().contains(x) by {
                    let a = choose|a: int| 0 <= a < r.len() && r[a] == x;
                    assert(o.contains(r[a]));
                }
            }
            vstd::set_lib::lemma_len_subset(r.to_set(), o.to_set());
            assert(false);
        }
        let j = choose|j: int| 0 <= j < r.len() && !o.contains(#[trigger] r[j]);
        let q = lemma_ranked_plan_ready(snap, r, rank, o, j);
        lemma_ready_found(snap, r, o, 0, q);
        assert(false);
    }
}

/// Conversely, an ordered plan shows there is no cycle: when the plan orders
/// every required deployable, each required publisher stands before each
/// required deployable consuming it (so the positions are such a ranking).
pub proof fn lemma_ordered_plan_has_no_cycle(snap: Snapshot, d0: Seq<char>, x: Seq<char>, b: Seq<char>)
    requires
        plan_order(snap, d0).len() >= required_ids(snap, d0).len(),
        needs(snap, d0, x),
        needs(snap, d0, b),
        b != x,
        consumes(snap, x, b),
    ensures
        exists|i: int, k: int| 0 <= k < i < plan_order(snap, d0).len()
            && #[trigger] plan_order(snap, d0)[i] == x && #[trigger] plan_order(snap, d0)[k] == b,
{
    let r = required_ids(snap, d0);
    let o = plan_order(snap, d0);
    lemma_required_sorted(snap, d0);
    lemma_order_from(snap, r, Seq::empty());
    o.unique_seq_to_set();
    r.unique_seq_to_set();
    vstd::seq_lib::seq_to_set_is_finite(o);
    vstd::seq_lib::seq_to_set_is_finite(r);
    assert(r.contains(x));
    if !o.contains(x) {
        assert(o.to_set().subset_of(r.to_set().remove(x))) by {
            assert forall|y: Seq<char>| o.to_set().contains(y) implies r.to_set().remove(x).contains(y) by {
                let a = choose|a: int| 0 <= a < o.len() && o[a] == y;
                assert(r.contains(o[a]));
            }
        }
        vstd::set_lib::lemma_len_subset(o.to_set(), r.to_set().remove(x));
        assert(r.to_set().contains(x));
        assert(false);
    }
    let i = choose|i: int| 0 <= i < o.len() && o[i] == x;
    assert(consumes(snap, o[i], b) && r.contains(b) && b != o[i]);
    assert(o.take(i).contains(b));
    let k = choose|k: int| 0 <= k < o.take(i).len() && o.take(i)[k] == b;
    assert(o[k] == b);
}

/// The outside services among those the first `k` dependency records
/// name, as a sorted set.
pub open spec fn external_upto(snap: Snapshot, d0: Seq<char>, k: int) -> Seq<Seq<char>>
    decreases k,
{
    if k <= 0 {
        Seq::empty()
    } else {
        let prev = external_upto(snap, d0, k - 1);
        let s = snap.dependencies@[k - 1].service_id@;
        if is_external(snap, d0, s) { set_insert(prev, s) } else { prev }
    }
}

proof fn lemma_external_upto(snap: Snapshot, d0: Seq<char>, k: int)
    requires
        0 <= k <= snap.dependencies@.len(),
    ensures
        sorted_set(external_upto(snap, d0, k)),
        forall|s: Seq<char>| #[trigger] external_upto(snap, d0, k).contains(s) <==>
            (exists|j: int| 0 <= j < k && snap.dependencies@[j].service_id@ == s) && is_external(snap, d0, s),
    decreases k,
{
    if k > 0 {
        lemma_external_upto(snap, d0, k - 1);
        let prev = external_upto(snap, d0, k - 1);
        let s0 = snap.dependencies@[k - 1].service_id@;
        if is_external(snap, d0, s0) {
            lemma_set_insert(prev, s0);
        }
        assert forall|s: Seq<char>| #[trigger] external_upto(snap, d0, k).contains(s) <==>
            (exists|j: int| 0 <= j < k && snap.dependencies@[j].service_id@ == s) && is_external(snap, d0, s) by {
            if (exists|j: int| 0 <= j < k && snap.dependencies@[j].service_id@ == s) && is_external(snap, d0, s) {
                let j = choose|j: int| 0 <= j < k && snap.dependencies@[j].service_id@ == s;
                if j < k - 1 {
                    assert(prev.contains(s));
                }
            }
        }
    }
}

/// The outside services form a sorted set.
proof fn lemma_external_sorted(snap: Snapshot, d0: Seq<char>)
    ensures
        sorted_set(external_ids(snap, d0)),
        forall|s: Seq<char>| #[trigger] external_ids(snap, d0).contains(s) <==> is_external(snap, d0, s),
{
    let n = snap.dependencies@.len() as int;
    lemma_external_upto(snap, d0, n);
    let w = external_upto(snap, d0, n);
    assert forall|s: Seq<char>| #[trigger] w.contains(s) <==> is_external(snap, d0, s) by {
        if is_external(snap, d0, s) {
            let i = choose|i: int|
                0 <= i < snap.dependencies@.len() && #[trigger] snap.dependencies@[i].service_id@ == s
                    && needs(snap, d0, snap.dependencies@[i].deployable_id@);
        }
    }
    assert(sorted_set(w) && forall|s: Seq<char>| #[trigger] w.contains(s) <==> is_external(snap, d0, s));
}

proof fn lemma_plan_picks(snap: Snapshot, r: Seq<Seq<char>>, placed: Seq<Seq<char>>)
    ensures
        plan_order_from(snap, r, placed).len() >= placed.len(),
        plan_order_from(snap, r, placed).take(placed.len() as int) == placed,
        forall|p: int| placed.len() <= p < plan_order_from(snap, r, placed).len() ==>
            0 <= #[trigger] first_plan_ready(snap, r, plan_order_from(snap, r, placed).take(p), 0) < r.len()
                && plan_order_from(snap, r, placed)[p] == r[first_plan_ready(snap, r, plan_order_from(snap, r, placed).take(p), 0)],
    decreases r.len() - placed.len(),
{
    let res = plan_order_from(snap, r, placed);
    if placed.len() < r.len() {
        let i = first_plan_ready(snap, r, placed, 0);
        if i >= 0 {
            lemma_first_plan_ready(snap, r, placed, 0);
            let np = placed.push(r[i]);
            lemma_plan_picks(snap, r, np);
            assert(res == plan_order_from(snap, r, np));
            assert(res.take(placed.len() as int) =~= res.take(np.len() as int).take(placed.len() as int));
            assert(np.take(placed.len() as int) =~= placed);
            assert forall|p: int| placed.len() <= p < res.len() implies
                0 <= #[trigger] first_plan_ready(snap, r, res.take(p), 0) < r.len()
                    && res[p] == r[first_plan_ready(snap, r, res.take(p), 0)] by {
                if p == placed.len() {
                    assert(res.take(p) =~= placed);
                    assert(res[p] == res.take(np.len() as int)[p]);
                }
            }
        } else {
            assert(res.take(placed.len() as int) =~= placed);
        }
    } else {
        assert(res.take(placed.len() as int) =~= placed);
    }
}

proof fn lemma_unplaced_sorted(r: Seq<Seq<char>>, o: Seq<Seq<char>>, k: int)
    requires
        sorted_set(r),
        0 <= k <= r.len(),
    ensures
        sorted_set(unplaced(r, o, k)),
        forall|a: int| 0 <= a < unplaced(r, o, k).len() ==>
            exists|i: int| 0 <= i < k && r[i] == #[trigger] unplaced(r, o, k)[a],
    decreases k,
{
    if k > 0 {
        lemma_unplaced_sorted(r, o, k - 1);
        let prev = unplaced(r, o, k - 1);
        let now = unplaced(r, o, k);
        if !o.contains(r[k - 1]) {
            assert(now == prev.push(r[k - 1]));
            assert forall|a: int, b: int| 0 <= a < b < now.len() implies seq_lt(#[trigger] now[a], #[trigger] now[b]) by {
                assert(now[a] == prev[a]);
                if b < prev.len() {
                    assert(now[b] == prev[b]);
                } else {
                    let i = choose|i: int| 0 <= i < k - 1 && r[i] == prev[a];
                    assert(seq_lt(r[i], r[k - 1]));
                }
            }
            assert forall|a: int| 0 <= a < now.len() implies exists|i: int| 0 <= i < k && r[i] == #[trigger] now[a] by {
                if a < prev.len() {
                    assert(now[a] == prev[a]);
                    let i = choose|i: int| 0 <= i < k - 1 && r[i] == prev[a];
                } else {
                    assert(r[k - 1] == now[a]);
                }
            }
        } else {
            assert forall|a: int| 0 <= a < now.len() implies exists|i: int| 0 <= i < k && r[i] == #[trigger] now[a] by {
                let i = choose|i: int| 0 <= i < k - 1 && r[i] == prev[a];
            }
        }
    }
}

/// Whether a ranking puts each required publisher below each required
/// deployable consuming it (no cycle among what `d0` requires).
pub open spec fn ranked_requirements(snap: Snapshot, d0: Seq<char>, rank: spec_fn(Seq<char>) -> nat) -> bool {
    forall|x: Seq<char>, b: Seq<char>|
        needs(snap, d0, x) && needs(snap, d0, b) && b != x && #[trigger] consumes(snap, x, b)
            ==> rank(b) < rank(x)
}

/// `deployment_plan` as a whole. What `d0` requires is `d0` and every
/// deployable publishing, transitively, a service something required
/// consumes, in id order. The order lists required deployables, each
/// once, publishers first, each step taking the smallest-id ready one.
/// Under a ranking (no cycle) it orders them all; when it orders them
/// all, every required publisher stands before each required consumer of
/// it; when it does not, the ids left over (the cycle members) come in
/// increasing order. The outside prerequisites are the services consumed
/// by something required that nothing publishes, in id order.
pub proof fn lemma_deployment_plan_law(snap: Snapshot, d0: Seq<char>)
    ensures
        sorted_set(required_ids(snap, d0)),
        forall|x: Seq<char>| #[trigger] required_ids(snap, d0).contains(x) <==> needs(snap, d0, x),
        sorted_set(external_ids(snap, d0)),
        forall|s: Seq<char>| #[trigger] external_ids(snap, d0).contains(s) <==> is_external(snap, d0, s),
        deps_first(snap, required_ids(snap, d0), plan_order(snap, d0)),
        plan_order(snap, d0).no_duplicates(),
        forall|i: int| 0 <= i < plan_order(snap, d0).len()
            ==> required_ids(snap, d0).contains(#[trigger] plan_order(snap, d0)[i]),
        forall|p: int| 0 <= p < plan_order(snap, d0).len() ==>
            #[trigger] plan_order(snap, d0)[p]
                == required_ids(snap, d0)[first_plan_ready(snap, required_ids(snap, d0), plan_order(snap, d0).take(p), 0)],
        forall|rank: spec_fn(Seq<char>) -> nat| #[trigger] ranked_requirements(snap, d0, rank)
            ==> plan_order(snap, d0).len() == required_ids(snap, d0).len(),
        plan_order(snap, d0).len() >= required_ids(snap, d0).len() ==>
            forall|x: Seq<char>, b: Seq<char>|
                needs(snap, d0, x) && needs(snap, d0, b) && b != x && #[trigger] consumes(snap, x, b)
                    ==> exists|i: int, k: int| 0 <= k < i < plan_order(snap, d0).len()
                        && plan_order(snap, d0)[i] == x && plan_order(snap, d0)[k] == b,
        sorted_set(unplaced(required_ids(snap, d0), plan_order(snap, d0), required_ids(snap, d0).len() as int)),
{
    let r = required_ids(snap, d0);
    let o = plan_order(snap, d0);
    lemma_required_sorted(snap, d0);
    lemma_external_sorted(snap, d0);
    lemma_deployment_order_deps_first(snap, d0);
    lemma_plan_picks(snap, r, Seq::empty());
    lemma_unplaced_sorted(r, o, r.len() as int);
    assert forall|rank: spec_fn(Seq<char>) -> nat| #[trigger] ranked_requirements(snap, d0, rank)
        implies o.len() == r.len() by {
        lemma_acyclic_requirements_are_ordered(snap, d0, rank);
    }
    if o.len() >= r.len() {
        assert forall|x: Seq<char>, b: Seq<char>|
            needs(snap, d0, x) && needs(snap, d0, b) && b != x && #[trigger] consumes(snap, x, b)
                implies exists|i: int, k: int| 0 <= k < i < o.len() && o[i] == x && o[k] == b by {
            lemma_ordered_plan_has_no_cycle(snap, d0, x, b);
        }
    }
}

// ── what a deployable consumes ─────────────────────────────────────────────

/// A walk depth clamped to `1..=DEPTH_HARD_CAP`.
pub open spec fn clamp_depth(depth: usize) -> usize {
    if depth < 1 { 1 } else if depth > DEPTH_HARD_CAP { DEPTH_HARD_CAP } else { depth }
}

/// The services deployable `id` consumes among the first `k` dependency
/// edges, in edge order.
pub open spec fn consumed_by(ds: Seq<Dependency>, id: Seq<char>, k: int) -> Seq<Seq<char>>
    decreases k,
{
    if k <= 0 {
        Seq::empty()
    } else if ds[k - 1].deployable_id@ == id {
        consumed_by(ds, id, k - 1).push(ds[k - 1].service_id@)
    } else {
        consumed_by(ds, id, k - 1)
    }
}

/// The deployables publishing service `s` among the first `k` exposes
/// edges, in edge order.
pub open spec fn publishers_of(es: Seq<Exposes>, s: Seq<char>, k: int) -> Seq<Seq<char>>
    decreases k,
{
    if k <= 0 {
        Seq::empty()
    } else if es[k - 1].service_id@ == s {
        publishers_of(es, s, k - 1).push(es[k - 1].deployable_id@)
    } else {
        publishers_of(es, s, k - 1)
    }
}

/// One line of a dependency listing, as character sequences.
pub struct DepEntryView {
    pub level: nat,
    pub service_id: Seq<char>,
    pub service_name: Seq<char>,
    /// The publishing deployable's id and name; none for an external service.
    pub publisher: Option<(Seq<char>, Seq<char>)>,
}

/// One line of a dependency listing: a service consumed at `level` (0 for
/// the queried deployable's own), and the deployable publishing it, or none
/// when the service is external. The lines that follow a published line at
/// a deeper level list what that publisher consumes.
#[derive(Debug, Clone)]
pub struct DependencyEntry {
    pub level: usize,
    pub service_id: String,
    pub service_name: String,
    pub publisher: Option<Deployable>,
}

/// A dependency line's content.
pub open spec fn entry_view(e: DependencyEntry) -> DepEntryView {
    DepEntryView {
        level: e.level as nat,
        service_id: e.service_id@,
        service_name: e.service_name@,
        publisher: match e.publisher {
            Some(d) => Some((d.id@, d.name@)),
            None => None,
        },
    }
}

/// The contents of dependency lines.
pub open spec fn entry_views(s: Seq<DependencyEntry>) -> Seq<DepEntryView> {
    s.map_values(|e: DependencyEntry| entry_view(e))
}

/// The listing of what `id` consumes, `rem` levels deep, given the
/// deployables already `visited`; with the visited list after it.
pub open spec fn deps_listing(snap: Snapshot, id: Seq<char>, rem: nat, level: nat, visited: Seq<Seq<char>>) -> (
    Seq<DepEntryView>,
    Seq<Seq<char>>,
)
    decreases rem, 2nat, 0int,
{
    if rem == 0 {
        (Seq::empty(), visited)
    } else {
        let svcs = consumed_by(snap.dependencies@, id, snap.dependencies@.len() as int);
        services_listing(snap, svcs, svcs.len() as int, rem, level, visited)
    }
}

/// The listing of the first `k` services of `svcs`.
pub open spec fn services_listing(
    snap: Snapshot,
    svcs: Seq<Seq<char>>,
    k: int,
    rem: nat,
    level: nat,
    visited: Seq<Seq<char>>,
) -> (Seq<DepEntryView>, Seq<Seq<char>>)
    decreases rem, 1nat, k,
{
    if k <= 0 {
        (Seq::empty(), visited)
    } else {
        let before = services_listing(snap, svcs, k - 1, rem, level, visited);
        let s = svcs[k - 1];
        let pubs = publishers_of(snap.exposes@, s, snap.exposes@.len() as int);
        if pubs.len() == 0 {
            (
                before.0.push(
                    DepEntryView { level, service_id: s, service_name: service_name_of(snap, s), publisher: None },
                ),
                before.1,
            )
        } else {
            let rest = publishers_listing(snap, s, pubs, pubs.len() as int, rem, level, before.1);
            (before.0 + rest.0, rest.1)
        }
    }
}

/// The listing of the first `j` publishers `pubs` of service `s`, each
/// followed by what it consumes when it was not visited before.
pub open spec fn publishers_listing(
    snap: Snapshot,
    s: Seq<char>,
    pubs: Seq<Seq<char>>,
    j: int,
    rem: nat,
    level: nat,
    visited: Seq<Seq<char>>,
) -> (Seq<DepEntryView>, Seq<Seq<char>>)
    decreases rem, 0nat, j,
{
    if j <= 0 {
        (Seq::empty(), visited)
    } else {
        let before = publishers_listing(snap, s, pubs, j - 1, rem, level, visited);
        let p = pubs[j - 1];
        let line = DepEntryView {
            level,
            service_id: s,
            service_name: service_name_of(snap, s),
            publisher: Some((p, deployable_name_of(snap, p))),
        };
        if before.1.contains(p) || rem == 0 {
            (before.0.push(line), before.1)
        } else {
            let sub = deps_listing(snap, p, (rem - 1) as nat, level + 1, before.1.push(p));
            (before.0.push(line) + sub.0, sub.1)
        }
    }
}

// ── what a listing shows at its own level ─────────────────────────────────

/// Whether a line is at level `l`.
pub open spec fn level_is(l: nat) -> spec_fn(DepEntryView) -> bool {
    |e: DepEntryView| e.level == l
}

/// One line at `level` for each of the first `j` publishers of service `s`.
pub open spec fn publisher_lines(snap: Snapshot, s: Seq<char>, pubs: Seq<Seq<char>>, j: int, level: nat) -> Seq<
    DepEntryView,
>
    decreases j,
{
    if j <= 0 {
        Seq::empty()
    } else {
        publisher_lines(snap, s, pubs, j - 1, level).push(
            DepEntryView {
                level,
                service_id: s,
                service_name: service_name_of(snap, s),
                publisher: Some((pubs[j - 1], deployable_name_of(snap, pubs[j - 1]))),
            },
        )
    }
}

/// For each of the first `k` services: one external line when nothing
/// publishes it, else one line per publisher, all at `level`.
pub open spec fn service_lines(snap: Snapshot, svcs: Seq<Seq<char>>, k: int, level: nat) -> Seq<DepEntryView>
    decreases k,
{
    if k <= 0 {
        Seq::empty()
    } else {
        let s = svcs[k - 1];
        let pubs = publishers_of(snap.exposes@, s, snap.exposes@.len() as int);
        service_lines(snap, svcs, k - 1, level) + if pubs.len() == 0 {
            seq![DepEntryView { level, service_id: s, service_name: service_name_of(snap, s), publisher: None }]
        } else {
            publisher_lines(snap, s, pubs, pubs.len() as int, level)
        }
    }
}

proof fn lemma_deps_levels(snap: Snapshot, id: Seq<char>, rem: nat, level: nat, visited: Seq<Seq<char>>)
    ensures
        forall|i: int| 0 <= i < deps_listing(snap, id, rem, level, visited).0.len()
            ==> (#[trigger] deps_listing(snap, id, rem, level, visited).0[i]).level >= level,
    decreases rem, 2nat, 0int,
{
    if rem > 0 {
        let svcs = consumed_by(snap.dependencies@, id, snap.dependencies@.len() as int);
        lemma_services_levels(snap, svcs, svcs.len() as int, rem, level, visited);
    }
}

proof fn lemma_services_levels(
    snap: Snapshot,
    svcs: Seq<Seq<char>>,
    k: int,
    rem: nat,
    level: nat,
    visited: Seq<Seq<char>>,
)
    ensures
        forall|i: int| 0 <= i < services_listing(snap, svcs, k, rem, level, visited).0.len()
            ==> (#[trigger] services_listing(snap, svcs, k, rem, level, visited).0[i]).level >= level,
    decreases rem, 1nat, k,
{
    if k > 0 {
        lemma_services_levels(snap, svcs, k - 1, rem, level, visited);
        let before = services_listing(snap, svcs, k - 1, rem, level, visited);
        let s = svcs[k - 1];
        let pubs = publishers_of(snap.exposes@, s, snap.exposes@.len() as int);
        let cur = services_listing(snap, svcs, k, rem, level, visited);
        if pubs.len() != 0 {
            lemma_publishers_levels(snap, s, pubs, pubs.len() as int, rem, level, before.1);
            let rest = publishers_listing(snap, s, pubs, pubs.len() as int, rem, level, before.1);
            assert forall|i: int| 0 <= i < cur.0.len() implies (#[trigger] cur.0[i]).level >= level by {
                if i < before.0.len() {
                    assert(cur.0[i] == before.0[i]);
                } else {
                    assert(cur.0[i] == rest.0[i - before.0.len()]);
                }
            }
        } else {
            assert forall|i: int| 0 <= i < cur.0.len() implies (#[trigger] cur.0[i]).level >= level by {
                if i < before.0.len() {
                    assert(cur.0[i] == before.0[i]);
                }
            }
        }
    }
}

proof fn lemma_publishers_levels(
    snap: Snapshot,
    s: Seq<char>,
    pubs: Seq<Seq<char>>,
    j: int,
    rem: nat,
    level: nat,
    visited: Seq<Seq<char>>,
)
    ensures
        forall|i: int| 0 <= i < publishers_listing(snap, s, pubs, j, rem, level, visited).0.len()
            ==> (#[trigger] publishers_listing(snap, s, pubs, j, rem, level, visited).0[i]).level >= level,
    decreases rem, 0nat, j,
{
    if j > 0 {
        lemma_publishers_levels(snap, s, pubs, j - 1, rem, level, visited);
        let before = publishers_listing(snap, s, pubs, j - 1, rem, level, visited);
        let p = pubs[j - 1];
        let cur = publishers_listing(snap, s, pubs, j, rem, level, visited);
        if before.1.contains(p) || rem == 0 {
            assert forall|i: int| 0 <= i < cur.0.len() implies (#[trigger] cur.0[i]).level >= level by {
                if i < before.0.len() {
                    assert(cur.0[i] == before.0[i]);
                }
            }
        } else {
            lemma_deps_levels(snap, p, (rem - 1) as nat, level + 1, before.1.push(p));
            let sub = deps_listing(snap, p, (rem - 1) as nat, level + 1, before.1.push(p));
            assert forall|i: int| 0 <= i < cur.0.len() implies (#[trigger] cur.0[i]).level >= level by {
                if i < before.0.len() {
                    assert(cur.0[i] == before.0[i]);
                } else if i > before.0.len() {
                    assert(cur.0[i] == sub.0[i - before.0.len() - 1]);
                }
            }
        }
    }
}

proof fn lemma_filter_push_level(a: Seq<DepEntryView>, x: DepEntryView, l: nat)
    ensures
        a.push(x).filter(level_is(l)) == if x.level == l {
            a.filter(level_is(l)).push(x)
        } else {
            a.filter(level_is(l))
        },
{
    reveal(Seq::filter);
    assert(a.push(x).drop_last() =~= a);
}

proof fn lemma_filter_deeper(a: Seq<DepEntryView>, l: nat)
    requires
        forall|i: int| 0 <= i < a.len() ==> (#[trigger] a[i]).level > l,
    ensures
        a.filter(level_is(l)) == Seq::<DepEntryView>::empty(),
{
    let pred = level_is(l);
    assert(a.all(|x: DepEntryView| !pred(x)));
    a.lemma_all_neg_filter_empty(pred);
    assert(a.filter(pred) =~= Seq::<DepEntryView>::empty());
}

proof fn lemma_publishers_top(
    snap: Snapshot,
    s: Seq<char>,
    pubs: Seq<Seq<char>>,
    j: int,
    rem: nat,
    level: nat,
    visited: Seq<Seq<char>>,
)
    ensures
        publishers_listing(snap, s, pubs, j, rem, level, visited).0.filter(level_is(level))
            == publisher_lines(snap, s, pubs, j, level),
    decreases j,
{
    reveal(Seq::filter);
    if j > 0 {
        lemma_publishers_top(snap, s, pubs, j - 1, rem, level, visited);
        let before = publishers_listing(snap, s, pubs, j - 1, rem, level, visited);
        let p = pubs[j - 1];
        let line = DepEntryView {
            level,
            service_id: s,
            service_name: service_name_of(snap, s),
            publisher: Some((p, deployable_name_of(snap, p))),
        };
        lemma_filter_push_level(before.0, line, level);
        if !(before.1.contains(p) || rem == 0) {
            let sub = deps_listing(snap, p, (rem - 1) as nat, level + 1, before.1.push(p));
            lemma_deps_levels(snap, p, (rem - 1) as nat, level + 1, before.1.push(p));
            lemma_filter_deeper(sub.0, level);
            Seq::filter_distributes_over_add(before.0.push(line), sub.0, level_is(level));
            assert(before.0.push(line).filter(level_is(level)) + Seq::<DepEntryView>::empty()
                =~= before.0.push(line).filter(level_is(level)));
        }
    } else {
        assert(publishers_listing(snap, s, pubs, j, rem, level, visited).0 =~= Seq::<DepEntryView>::empty());
    }
}

proof fn lemma_services_top(
    snap: Snapshot,
    svcs: Seq<Seq<char>>,
    k: int,
    rem: nat,
    level: nat,
    visited: Seq<Seq<char>>,
)
    ensures
        services_listing(snap, svcs, k, rem, level, visited).0.filter(level_is(level)) == service_lines(snap, svcs, k, level),
    decreases k,
{
    reveal(Seq::filter);
    if k > 0 {
        lemma_services_top(snap, svcs, k - 1, rem, level, visited);
        let before = services_listing(snap, svcs, k - 1, rem, level, visited);
        let s = svcs[k - 1];
        let pubs = publishers_of(snap.exposes@, s, snap.exposes@.len() as int);
        if pubs.len() == 0 {
            let line = DepEntryView { level, service_id: s, service_name: service_name_of(snap, s), publisher: None };
            lemma_filter_push_level(before.0, line, level);
            assert(service_lines(snap, svcs, k - 1, level).push(line) =~= service_lines(snap, svcs, k - 1, level) + seq![line]);
        } else {
            let rest = publishers_listing(snap, s, pubs, pubs.len() as int, rem, level, before.1);
            lemma_publishers_top(snap, s, pubs, pubs.len() as int, rem, level, before.1);
            Seq::filter_distributes_over_add(before.0, rest.0, level_is(level));
        }
    } else {
        assert(services_listing(snap, svcs, k, rem, level, visited).0 =~= Seq::<DepEntryView>::empty());
    }
}

proof fn lemma_publishers_one_level(
    snap: Snapshot,
    s: Seq<char>,
    pubs: Seq<Seq<char>>,
    j: int,
    level: nat,
    visited: Seq<Seq<char>>,
)
    ensures
        publishers_listing(snap, s, pubs, j, 1, level, visited).0 == publisher_lines(snap, s, pubs, j, level),
    decreases j,
{
    if j > 0 {
        lemma_publishers_one_level(snap, s, pubs, j - 1, level, visited);
        let before = publishers_listing(snap, s, pubs, j - 1, 1, level, visited);
        let p = pubs[j - 1];
        if !before.1.contains(p) {
            let sub = deps_listing(snap, p, 0, level + 1, before.1.push(p));
            assert(sub.0 =~= Seq::<DepEntryView>::empty());
            let line = DepEntryView {
                level,
                service_id: s,
                service_name: service_name_of(snap, s),
                publisher: Some((p, deployable_name_of(snap, p))),
            };
            assert(before.0.push(line) + sub.0 =~= before.0.push(line));
        }
    }
}

proof fn lemma_services_one_level(snap: Snapshot, svcs: Seq<Seq<char>>, k: int, level: nat, visited: Seq<Seq<char>>)
    ensures
        services_listing(snap, svcs, k, 1, level, visited).0 == service_lines(snap, svcs, k, level),
    decreases k,
{
    if k > 0 {
        lemma_services_one_level(snap, svcs, k - 1, level, visited);
        let before = services_listing(snap, svcs, k - 1, 1, level, visited);
        let s = svcs[k - 1];
        let pubs = publishers_of(snap.exposes@, s, snap.exposes@.len() as int);
        if pubs.len() == 0 {
            let line = DepEntryView { level, service_id: s, service_name: service_name_of(snap, s), publisher: None };
            assert(before.0.push(line) =~= before.0 + seq![line]);
        } else {
            lemma_publishers_one_level(snap, s, pubs, pubs.len() as int, level, before.1);
        }
    }
}

/// A listing one level deep is exactly the deployable's own consumption:
/// one external line per unpublished service and one line per publisher of
/// each published one, in order, and nothing beneath them.
pub proof fn lemma_one_level_listing(snap: Snapshot, id: Seq<char>, level: nat, visited: Seq<Seq<char>>)
    ensures
        deps_listing(snap, id, 1, level, visited).0 == service_lines(
            snap,
            consumed_by(snap.dependencies@, id, snap.dependencies@.len() as int),
            consumed_by(snap.dependencies@, id, snap.dependencies@.len() as int).len() as int,
            level,
        ),
{
    let svcs = consumed_by(snap.dependencies@, id, snap.dependencies@.len() as int);
    lemma_services_one_level(snap, svcs, svcs.len() as int, level, visited);
}

proof fn lemma_prefix_extend(a: Seq<DepEntryView>, b: Seq<DepEntryView>, c: Seq<DepEntryView>)
    requires
        a.is_prefix_of(b),
    ensures
        a.is_prefix_of(b + c),
{
    assert((b + c).subrange(0, a.len() as int) =~= b.subrange(0, a.len() as int));
}

proof fn lemma_publishers_prefix(
    snap: Snapshot,
    s: Seq<char>,
    pubs: Seq<Seq<char>>,
    j: int,
    rem: nat,
    level: nat,
    visited: Seq<Seq<char>>,
)
    requires
        1 <= j,
    ensures
        publishers_listing(snap, s, pubs, 1, rem, level, visited).0.is_prefix_of(
            publishers_listing(snap, s, pubs, j, rem, level, visited).0,
        ),
    decreases j,
{
    let first = publishers_listing(snap, s, pubs, 1, rem, level, visited).0;
    if j == 1 {
        assert(first.subrange(0, first.len() as int) =~= first);
    } else {
        lemma_publishers_prefix(snap, s, pubs, j - 1, rem, level, visited);
        let before = publishers_listing(snap, s, pubs, j - 1, rem, level, visited);
        let p = pubs[j - 1];
        let line = DepEntryView {
            level,
            service_id: s,
            service_name: service_name_of(snap, s),
            publisher: Some((p, deployable_name_of(snap, p))),
        };
        lemma_prefix_extend(first, before.0, seq![line]);
        assert(before.0.push(line) =~= before.0 + seq![line]);
        if !(before.1.contains(p) || rem == 0) {
            let sub = deps_listing(snap, p, (rem - 1) as nat, level + 1, before.1.push(p));
            lemma_prefix_extend(first, before.0.push(line), sub.0);
        }
    }
}

proof fn lemma_services_prefix(
    snap: Snapshot,
    svcs: Seq<Seq<char>>,
    k: int,
    rem: nat,
    level: nat,
    visited: Seq<Seq<char>>,
)
    requires
        1 <= k,
    ensures
        services_listing(snap, svcs, 1, rem, level, visited).0.is_prefix_of(
            services_listing(snap, svcs, k, rem, level, visited).0,
        ),
    decreases k,
{
    let first = services_listing(snap, svcs, 1, rem, level, visited).0;
    if k == 1 {
        assert(first.subrange(0, first.len() as int) =~= first);
    } else {
        lemma_services_prefix(snap, svcs, k - 1, rem, level, visited);
        let before = services_listing(snap, svcs, k - 1, rem, level, visited);
        let s = svcs[k - 1];
        let pubs = publishers_of(snap.exposes@, s, snap.exposes@.len() as int);
        if pubs.len() == 0 {
            let line = DepEntryView { level, service_id: s, service_name: service_name_of(snap, s), publisher: None };
            lemma_prefix_extend(first, before.0, seq![line]);
            assert(before.0.push(line) =~= before.0 + seq![line]);
        } else {
            let rest = publishers_listing(snap, s, pubs, pubs.len() as int, rem, level, before.1);
            lemma_prefix_extend(first, before.0, rest.0);
        }
    }
}

/// A publisher met first, and not visited before, is expanded right under
/// its own line: with depth left, the listing opens with the line for the
/// first publisher of the first service consumed, followed by that
/// publisher's own listing one level deeper.
pub proof fn lemma_unvisited_publisher_is_expanded(
    snap: Snapshot,
    id: Seq<char>,
    rem: nat,
    level: nat,
    visited: Seq<Seq<char>>,
)
    requires
        rem >= 1,
        consumed_by(snap.dependencies@, id, snap.dependencies@.len() as int).len() > 0,
        publishers_of(
            snap.exposes@,
            consumed_by(snap.dependencies@, id, snap.dependencies@.len() as int)[0],
            snap.exposes@.len() as int,
        ).len() > 0,
        !visited.contains(
            publishers_of(
                snap.exposes@,
                consumed_by(snap.dependencies@, id, snap.dependencies@.len() as int)[0],
                snap.exposes@.len() as int,
            )[0],
        ),
    ensures
        ({
            let s = consumed_by(snap.dependencies@, id, snap.dependencies@.len() as int)[0];
            let p = publishers_of(snap.exposes@, s, snap.exposes@.len() as int)[0];
            (seq![DepEntryView {
                level,
                service_id: s,
                service_name: service_name_of(snap, s),
                publisher: Some((p, deployable_name_of(snap, p))),
            }] + deps_listing(snap, p, (rem - 1) as nat, level + 1, visited.push(p)).0).is_prefix_of(
                deps_listing(snap, id, rem, level, visited).0,
            )
        }),
{
    let svcs = consumed_by(snap.dependencies@, id, snap.dependencies@.len() as int);
    let s = svcs[0];
    let pubs = publishers_of(snap.exposes@, s, snap.exposes@.len() as int);
    let p = pubs[0];
    let line = DepEntryView {
        level,
        service_id: s,
        service_name: service_name_of(snap, s),
        publisher: Some((p, deployable_name_of(snap, p))),
    };
    let sub = deps_listing(snap, p, (rem - 1) as nat, level + 1, visited.push(p));
    let first_pub = publishers_listing(snap, s, pubs, 1, rem, level, visited);
    let p0 = publishers_listing(snap, s, pubs, 0, rem, level, visited);
    assert(p0.0 =~= Seq::<DepEntryView>::empty() && p0.1 == visited);
    assert(first_pub.0 == p0.0.push(line) + sub.0);
    assert(first_pub.0 =~= seq![line] + sub.0);
    lemma_publishers_prefix(snap, s, pubs, pubs.len() as int, rem, level, visited);
    let s0 = services_listing(snap, svcs, 0, rem, level, visited);
    let first_svc = services_listing(snap, svcs, 1, rem, level, visited);
    let rest = publishers_listing(snap, s, pubs, pubs.len() as int, rem, level, visited);
    assert(first_svc.0 == s0.0 + rest.0);
    assert(first_svc.0 =~= rest.0);
    lemma_services_prefix(snap, svcs, svcs.len() as int, rem, level, visited);
    let all = services_listing(snap, svcs, svcs.len() as int, rem, level, visited).0;
    let pre = seq![line] + sub.0;
    assert(pre.is_prefix_of(rest.0));
    assert(rest.0.is_prefix_of(all));
    assert(all.subrange(0, pre.len() as int) =~= rest.0.subrange(0, pre.len() as int));
}

/// A dependency listing shows, at its own level, every service the
/// deployable consumes: one external line for a service nobody publishes,
/// else one line per publisher, in order; whether a publisher was visited
/// before only decides whether what it consumes is listed beneath it, so
/// the lines at that level are the same whatever was visited.
pub proof fn lemma_listing_names_every_publisher(
    snap: Snapshot,
    id: Seq<char>,
    rem: nat,
    level: nat,
    visited: Seq<Seq<char>>,
    other_visited: Seq<Seq<char>>,
)
    requires
        rem > 0,
    ensures
        deps_listing(snap, id, rem, level, visited).0.filter(level_is(level)) == service_lines(
            snap,
            consumed_by(snap.dependencies@, id, snap.dependencies@.len() as int),
            consumed_by(snap.dependencies@, id, snap.dependencies@.len() as int).len() as int,
            level,
        ),
        deps_listing(snap, id, rem, level, visited).0.filter(level_is(level))
            == deps_listing(snap, id, rem, level, other_visited).0.filter(level_is(level)),
        forall|i: int| 0 <= i < deps_listing(snap, id, rem, level, visited).0.len()
            ==> (#[trigger] deps_listing(snap, id, rem, level, visited).0[i]).level >= level,
{
    let svcs = consumed_by(snap.dependencies@, id, snap.dependencies@.len() as int);
    lemma_services_top(snap, svcs, svcs.len() as int, rem, level, visited);
    lemma_services_top(snap, svcs, svcs.len() as int, rem, level, other_visited);
    lemma_deps_levels(snap, id, rem, level, visited);
}

/// The answer to a dependencies query: what the deployable consumes, as a
/// listing `depth` levels deep.
#[derive(Debug, Clone)]
pub struct DependencyReport {
    pub deployable_id: String,
    pub deployable_name: String,
    pub depth: usize,
    pub depends_on: Vec<DependencyEntry>,
}

impl Snapshot {
    /// The services deployable `id` consumes, in edge order.
    fn consumed_services(&self, id: &str) -> (r: Vec<String>)
        ensures
            views(r@) == consumed_by(self.dependencies@, id@, self.dependencies@.len() as int),
    {
        let mut r: Vec<String> = Vec::new();
        let mut k: usize = 0;
        while k < self.dependencies.len()
            invariant
                k <= self.dependencies@.len(),
                views(r@) == consumed_by(self.dependencies@, id@, k as int),
            decreases self.dependencies@.len() - k,
        {
            if eq_str(self.dependencies[k].deployable_id.as_str(), id) {
                let ghost before = views(r@);
                r.push(self.dependencies[k].service_id.clone());
                assert(views(r@) =~= before.push(self.dependencies@[k as int].service_id@));
            }
            k = k + 1;
        }
        r
    }

    /// The deployables publishing service `s`, in edge order.
    fn publishers(&self, s: &str) -> (r: Vec<String>)
        ensures
            views(r@) == publishers_of(self.exposes@, s@, self.exposes@.len() as int),
    {
        let mut r: Vec<String> = Vec::new();
        let mut k: usize = 0;
        while k < self.exposes.len()
            invariant
                k <= self.exposes@.len(),
                views(r@) == publishers_of(self.exposes@, s@, k as int),
            decreases self.exposes@.len() - k,
        {
            if eq_str(self.exposes[k].service_id.as_str(), s) {
                let ghost before = views(r@);
                r.push(self.exposes[k].deployable_id.clone());
                assert(views(r@) =~= before.push(self.exposes@[k as int].deployable_id@));
            }
            k = k + 1;
        }
        r
    }

    /// Appends the listing of what `id` consumes, `rem` levels deep.
    fn list_dependencies(
        &self,
        id: &str,
        rem: usize,
        level: usize,
        visited: &mut Vec<String>,
        out: &mut Vec<DependencyEntry>,
    )
        requires
            level + rem <= DEPTH_HARD_CAP,
        ensures
            entry_views(final(out)@) == entry_views(old(out)@) + deps_listing(
                *self,
                id@,
                rem as nat,
                level as nat,
                views(old(visited)@),
            ).0,
            views(final(visited)@) == deps_listing(*self, id@, rem as nat, level as nat, views(old(visited)@)).1,
        decreases rem,
    {
        if rem == 0 {
            assert(entry_views(out@) =~= entry_views(out@) + Seq::<DepEntryView>::empty());
            return;
        }
        let ghost o0 = entry_views(out@);
        let ghost v0 = views(visited@);
        let svcs = self.consumed_services(id);
        let ghost sv = views(svcs@);
        let mut i: usize = 0;
        while i < svcs.len()
            invariant
                0 < rem,
                level + rem <= DEPTH_HARD_CAP,
                i <= svcs@.len(),
                sv == views(svcs@),
                sv == consumed_by(self.dependencies@, id@, self.dependencies@.len() as int),
                entry_views(out@) == o0 + services_listing(*self, sv, i as int, rem as nat, level as nat, v0).0,
                views(visited@) == services_listing(*self, sv, i as int, rem as nat, level as nat, v0).1,
            decreases svcs@.len() - i,
        {
            let s = &svcs[i];
            assert(sv[i as int] == s@);
            let pubs = self.publishers(s.as_str());
            let sname = self.service_name(s.as_str());
            let ghost mid = entry_views(out@);
            let ghost vmid = views(visited@);
            if pubs.len() == 0 {
                let e = DependencyEntry { level, service_id: s.clone(), service_name: sname, publisher: None };
                out.push(e);
                assert(entry_views(out@) =~= mid.push(entry_view(e)));
                assert(entry_views(out@) =~= o0 + services_listing(*self, sv, i + 1, rem as nat, level as nat, v0).0);
            } else {
                let ghost pv = views(pubs@);
                let mut j: usize = 0;
                while j < pubs.len()
                    invariant
                        0 < rem,
                        level + rem <= DEPTH_HARD_CAP,
                        j <= pubs@.len(),
                        pv == views(pubs@),
                        sname@ == service_name_of(*self, s@),
                        entry_views(out@) == mid + publishers_listing(*self, s@, pv, j as int, rem as nat, level as nat, vmid).0,
                        views(visited@) == publishers_listing(*self, s@, pv, j as int, rem as nat, level as nat, vmid).1,
                    decreases pubs@.len() - j,
                {
                    let p = &pubs[j];
                    assert(pv[j as int] == p@);
                    let pname = self.deployable_name(p.as_str());
                    let e = DependencyEntry {
                        level,
                        service_id: s.clone(),
                        service_name: sname.clone(),
                        publisher: Some(Deployable { id: p.clone(), name: pname }),
                    };
                    let ghost before = entry_views(out@);
                    let seen = contains_id(visited, p.as_str());
                    out.push(e);
                    assert(entry_views(out@) =~= before.push(entry_view(e)));
                    if !seen {
                        let ghost vb = views(visited@);
                        visited.push(p.clone());
                        assert(views(visited@) =~= vb.push(p@));
                        let ghost ob = entry_views(out@);
                        self.list_dependencies(p.as_str(), rem - 1, level + 1, visited, out);
                        assert(entry_views(out@) =~= mid + publishers_listing(*self, s@, pv, j + 1, rem as nat, level as nat, vmid).0);
                    }
                    j = j + 1;
                }
                assert(entry_views(out@) =~= o0 + services_listing(*self, sv, i + 1, rem as nat, level as nat, v0).0);
            }
            i = i + 1;
        }
    }

    /// "What does this deployable consume?": walks forward through
    /// dependency edges, resolving each consumed service to the deployables
    /// publishing it (or marking it external) and recursing on each
    /// publisher not met before, `depth` levels deep (clamped to 1..=10).
    pub fn dependencies_of(&self, deployable_id: &str, depth: usize) -> (r: DependencyReport)
        ensures
            r.deployable_id@ == deployable_id@,
            r.deployable_name@ == deployable_name_of(*self, deployable_id@),
            r.depth == clamp_depth(depth),
            entry_views(r.depends_on@) == deps_listing(
                *self,
                deployable_id@,
                clamp_depth(depth) as nat,
                0,
                seq![deployable_id@],
            ).0,
    {
        let d: usize = if depth < 1 { 1 } else if depth > DEPTH_HARD_CAP { DEPTH_HARD_CAP } else { depth };
        let name = self.deployable_name(deployable_id);
        let mut visited: Vec<String> = Vec::new();
        visited.push(deployable_id.to_owned());
        assert(views(visited@) =~= seq![deployable_id@]);
        let mut out: Vec<DependencyEntry> = Vec::new();
        self.list_dependencies(deployable_id, d, 0, &mut visited, &mut out);
        assert(entry_views(Seq::<DependencyEntry>::empty()) =~= Seq::<DepEntryView>::empty());
        assert(entry_views(out@) =~= Seq::<DepEntryView>::empty() + deps_listing(
            *self,
            deployable_id@,
            d as nat,
            0,
            seq![deployable_id@],
        ).0);
        DependencyReport { deployable_id: deployable_id.to_owned(), deployable_name: name, depth: d, depends_on: out }
    }
}

// ── what breaks when a service goes down ────────────────────────────────────

/// The deployables consuming service `s` among the first `k` dependency
/// edges, in edge order.
pub open spec fn dependents_of(ds: Seq<Dependency>, s: Seq<char>, k: int) -> Seq<Seq<char>>
    decreases k,
{
    if k <= 0 {
        Seq::empty()
    } else if ds[k - 1].service_id@ == s {
        dependents_of(ds, s, k - 1).push(ds[k - 1].deployable_id@)
    } else {
        dependents_of(ds, s, k - 1)
    }
}

/// One affected deployable, as character sequences.
pub struct BlastEntryView {
    pub deployable_id: Seq<char>,
    pub deployable_name: Seq<char>,
    pub via_service_id: Seq<char>,
    pub via_service_name: Seq<char>,
    pub depth: nat,
    pub exposes: Seq<(Seq<char>, Seq<char>)>,
}

/// The walk's state: services and deployables met, affected deployables
/// found from the root service and beyond it, and the next frontier.
pub struct BlastState {
    pub services: Seq<Seq<char>>,
    pub deployables: Seq<Seq<char>>,
    pub direct: Seq<BlastEntryView>,
    pub transitive: Seq<BlastEntryView>,
    pub next: Seq<Seq<char>>,
}

/// Services with their names.
pub open spec fn service_refs(snap: Snapshot, ids: Seq<Seq<char>>) -> Seq<(Seq<char>, Seq<char>)> {
    ids.map_values(|sid: Seq<char>| (sid, service_name_of(snap, sid)))
}

/// The first `j` services of `ex` added to the met services and the next
/// frontier, unless already met.
pub open spec fn enqueue_exposed(ex: Seq<Seq<char>>, j: int, met: Seq<Seq<char>>, next: Seq<Seq<char>>) -> (
    Seq<Seq<char>>,
    Seq<Seq<char>>,
)
    decreases j,
{
    if j <= 0 {
        (met, next)
    } else {
        let before = enqueue_exposed(ex, j - 1, met, next);
        if before.0.contains(ex[j - 1]) {
            before
        } else {
            (before.0.push(ex[j - 1]), before.1.push(ex[j - 1]))
        }
    }
}

/// The walk after visiting the first `k` dependents `deps` of service `svc`
/// at `level`.
pub open spec fn visit_dependents(
    snap: Snapshot,
    svc: Seq<char>,
    deps: Seq<Seq<char>>,
    k: int,
    level: nat,
    st: BlastState,
) -> BlastState
    decreases k,
{
    if k <= 0 {
        st
    } else {
        let s1 = visit_dependents(snap, svc, deps, k - 1, level, st);
        let d = deps[k - 1];
        if s1.deployables.contains(d) {
            s1
        } else {
            let ex = exposed_by(snap.exposes@, d, snap.exposes@.len() as int);
            let entry = BlastEntryView {
                deployable_id: d,
                deployable_name: deployable_name_of(snap, d),
                via_service_id: svc,
                via_service_name: service_name_of(snap, svc),
                depth: level + 1,
                exposes: service_refs(snap, ex),
            };
            let q = enqueue_exposed(ex, ex.len() as int, s1.services, s1.next);
            BlastState {
                services: q.0,
                deployables: s1.deployables.push(d),
                direct: if level == 0 { s1.direct.push(entry) } else { s1.direct },
                transitive: if level == 0 { s1.transitive } else { s1.transitive.push(entry) },
                next: q.1,
            }
        }
    }
}

/// The walk after visiting the first `i` services of a frontier at `level`.
pub open spec fn visit_frontier(snap: Snapshot, frontier: Seq<Seq<char>>, i: int, level: nat, st: BlastState) -> BlastState
    decreases i,
{
    if i <= 0 {
        st
    } else {
        let s1 = visit_frontier(snap, frontier, i - 1, level, st);
        let svc = frontier[i - 1];
        let deps = dependents_of(snap.dependencies@, svc, snap.dependencies@.len() as int);
        visit_dependents(snap, svc, deps, deps.len() as int, level, s1)
    }
}

/// The walk from `frontier` at `level`, level by level, until `depth`.
pub open spec fn blast_levels(snap: Snapshot, frontier: Seq<Seq<char>>, level: nat, depth: nat, st: BlastState) -> BlastState
    decreases depth - level,
{
    if level >= depth {
        st
    } else {
        let s1 = visit_frontier(
            snap,
            frontier,
            frontier.len() as int,
            level,
            BlastState { next: Seq::empty(), ..st },
        );
        blast_levels(snap, s1.next, level + 1, depth, s1)
    }
}

/// The whole walk from service `svc`, `depth` levels deep.
pub open spec fn blast_walk(snap: Snapshot, svc: Seq<char>, depth: nat) -> BlastState {
    blast_levels(
        snap,
        seq![svc],
        0,
        depth,
        BlastState {
            services: seq![svc],
            deployables: Seq::empty(),
            direct: Seq::empty(),
            transitive: Seq::empty(),
            next: Seq::empty(),
        },
    )
}

/// What a walk from service `svc`, `d` levels deep, keeps: every affected
/// deployable is reported once, in the direct or the transitive list; the
/// direct ones consume `svc` itself, one hop away; the transitive ones are
/// between two and `d` hops away.
pub open spec fn blast_ok(st: BlastState, svc: Seq<char>, d: nat) -> bool {
    &&& forall|p: int| 0 <= p < st.direct.len() ==> {
        &&& st.deployables.contains((#[trigger] st.direct[p]).deployable_id)
        &&& st.direct[p].depth == 1
        &&& st.direct[p].via_service_id == svc
    }
    &&& forall|p: int| 0 <= p < st.transitive.len() ==> {
        &&& st.deployables.contains((#[trigger] st.transitive[p]).deployable_id)
        &&& 2 <= st.transitive[p].depth <= d
    }
    &&& forall|p: int, q: int| 0 <= p < q < st.direct.len() ==>
        (#[trigger] st.direct[p]).deployable_id != (#[trigger] st.direct[q]).deployable_id
    &&& forall|p: int, q: int| 0 <= p < q < st.transitive.len() ==>
        (#[trigger] st.transitive[p]).deployable_id != (#[trigger] st.transitive[q]).deployable_id
    &&& forall|p: int, q: int| 0 <= p < st.direct.len() && 0 <= q < st.transitive.len() ==>
        (#[trigger] st.direct[p]).deployable_id != (#[trigger] st.transitive[q]).deployable_id
}

proof fn lemma_visit_dependents_ok(
    snap: Snapshot,
    via: Seq<char>,
    deps: Seq<Seq<char>>,
    k: int,
    level: nat,
    st: BlastState,
    svc: Seq<char>,
    d: nat,
)
    requires
        blast_ok(st, svc, d),
        level + 1 <= d,
        level == 0 ==> via == svc,
    ensures
        blast_ok(visit_dependents(snap, via, deps, k, level, st), svc, d),
    decreases k,
{
    if k > 0 {
        lemma_visit_dependents_ok(snap, via, deps, k - 1, level, st, svc, d);
        let s1 = visit_dependents(snap, via, deps, k - 1, level, st);
        let dd = deps[k - 1];
        if !s1.deployables.contains(dd) {
            let s2 = visit_dependents(snap, via, deps, k, level, st);
            assert(s2.deployables == s1.deployables.push(dd));
            assert forall|x: Seq<char>| s1.deployables.contains(x) implies s2.deployables.contains(x) by {
                let i = choose|i: int| 0 <= i < s1.deployables.len() && s1.deployables[i] == x;
                assert(s2.deployables[i] == x);
            }
            assert(s2.deployables[s1.deployables.len() as int] == dd);
            if level == 0 {
                assert(s2.transitive == s1.transitive);
                let n = s1.direct.len() as int;
                assert forall|p: int| 0 <= p < s2.direct.len() implies {
                    &&& s2.deployables.contains((#[trigger] s2.direct[p]).deployable_id)
                    &&& s2.direct[p].depth == 1
                    &&& s2.direct[p].via_service_id == svc
                } by {
                    if p < n {
                        assert(s2.direct[p] == s1.direct[p]);
                    }
                }
                assert forall|p: int, q: int| 0 <= p < q < s2.direct.len() implies
                    (#[trigger] s2.direct[p]).deployable_id != (#[trigger] s2.direct[q]).deployable_id by {
                    assert(s2.direct[p] == s1.direct[p]);
                    if q < n {
                        assert(s2.direct[q] == s1.direct[q]);
                    }
                }
                assert forall|p: int, q: int| 0 <= p < s2.direct.len() && 0 <= q < s2.transitive.len() implies
                    (#[trigger] s2.direct[p]).deployable_id != (#[trigger] s2.transitive[q]).deployable_id by {
                    assert(s2.transitive[q] == s1.transitive[q]);
                    if p < n {
                        assert(s2.direct[p] == s1.direct[p]);
                    }
                }
            } else {
                assert(s2.direct == s1.direct);
                let n = s1.transitive.len() as int;
                assert forall|p: int| 0 <= p < s2.transitive.len() implies {
                    &&& s2.deployables.contains((#[trigger] s2.transitive[p]).deployable_id)
                    &&& 2 <= s2.transitive[p].depth <= d
                } by {
                    if p < n {
                        assert(s2.transitive[p] == s1.transitive[p]);
                    }
                }
                assert forall|p: int, q: int| 0 <= p < q < s2.transitive.len() implies
                    (#[trigger] s2.transitive[p]).deployable_id != (#[trigger] s2.transitive[q]).deployable_id by {
                    assert(s2.transitive[p] == s1.transitive[p]);
                    if q < n {
                        assert(s2.transitive[q] == s1.transitive[q]);
                    }
                }
                assert forall|p: int, q: int| 0 <= p < s2.direct.len() && 0 <= q < s2.transitive.len() implies
                    (#[trigger] s2.direct[p]).deployable_id != (#[trigger] s2.transitive[q]).deployable_id by {
                    assert(s2.direct[p] == s1.direct[p]);
                    if q < n {
                        assert(s2.transitive[q] == s1.transitive[q]);
                    }
                }
            }
        }
    }
}

proof fn lemma_visit_frontier_ok(
    snap: Snapshot,
    frontier: Seq<Seq<char>>,
    i: int,
    level: nat,
    st: BlastState,
    svc: Seq<char>,
    d: nat,
)
    requires
        blast_ok(st, svc, d),
        level + 1 <= d,
        0 <= i <= frontier.len(),
        level == 0 ==> forall|j: int| 0 <= j < frontier.len() ==> #[trigger] frontier[j] == svc,
    ensures
        blast_ok(visit_frontier(snap, frontier, i, level, st), svc, d),
    decreases i,
{
    if i > 0 {
        lemma_visit_frontier_ok(snap, frontier, i - 1, level, st, svc, d);
        let s1 = visit_frontier(snap, frontier, i - 1, level, st);
        let via = frontier[i - 1];
        let deps = dependents_of(snap.dependencies@, via, snap.dependencies@.len() as int);
        lemma_visit_dependents_ok(snap, via, deps, deps.len() as int, level, s1, svc, d);
    }
}

proof fn lemma_blast_levels_ok(
    snap: Snapshot,
    frontier: Seq<Seq<char>>,
    level: nat,
    d: nat,
    st: BlastState,
    svc: Seq<char>,
)
    requires
        blast_ok(st, svc, d),
        level == 0 ==> frontier == seq![svc],
    ensures
        blast_ok(blast_levels(snap, frontier, level, d, st), svc, d),
    decreases d - level,
{
    if level < d {
        let st0 = BlastState { next: Seq::empty(), ..st };
        assert(blast_ok(st0, svc, d));
        lemma_visit_frontier_ok(snap, frontier, frontier.len() as int, level, st0, svc, d);
        let s1 = visit_frontier(snap, frontier, frontier.len() as int, level, st0);
        lemma_blast_levels_ok(snap, s1.next, level + 1, d, s1, svc);
    }
}

/// A walk from service `svc`, `depth` levels deep, reports each affected
/// deployable once: direct dependents consume `svc` itself, one hop away,
/// and transitive ones are two to `depth` hops away.
pub proof fn lemma_blast_reports_each_deployable_once(snap: Snapshot, svc: Seq<char>, depth: nat)
    ensures
        blast_ok(blast_walk(snap, svc, depth), svc, depth),
{
    let st = BlastState {
        services: seq![svc],
        deployables: Seq::empty(),
        direct: Seq::empty(),
        transitive: Seq::empty(),
        next: Seq::empty(),
    };
    lemma_blast_levels_ok(snap, seq![svc], 0, depth, st, svc);
}

/// One deployable affected when a service goes down: it consumes
/// `via_service_id`, `depth` hops from the failed service, and exposes
/// `exposes`.
#[derive(Debug, Clone)]
pub struct BlastEntry {
    pub deployable_id: String,
    pub deployable_name: String,
    pub via_service_id: String,
    pub via_service_name: String,
    pub depth: usize,
    pub exposes: Vec<ServiceRef>,
}

/// An affected deployable's content.
pub open spec fn blast_entry_view(e: BlastEntry) -> BlastEntryView {
    BlastEntryView {
        deployable_id: e.deployable_id@,
        deployable_name: e.deployable_name@,
        via_service_id: e.via_service_id@,
        via_service_name: e.via_service_name@,
        depth: e.depth as nat,
        exposes: e.exposes@.map_values(|r: ServiceRef| (r.service_id@, r.service_name@)),
    }
}

/// The contents of affected deployables.
pub open spec fn blast_views(s: Seq<BlastEntry>) -> Seq<BlastEntryView> {
    s.map_values(|e: BlastEntry| blast_entry_view(e))
}

/// The answer to a blast-radius query.
#[derive(Debug, Clone)]
pub struct BlastReport {
    pub service_id: String,
    pub service_name: String,
    pub depth: usize,
    pub direct_dependents: Vec<BlastEntry>,
    pub transitive_dependents: Vec<BlastEntry>,
}

/// The walk's state held by its vectors.
pub open spec fn state_of(
    services: Seq<String>,
    deployables: Seq<String>,
    direct: Seq<BlastEntry>,
    transitive: Seq<BlastEntry>,
    next: Seq<String>,
) -> BlastState {
    BlastState {
        services: views(services),
        deployables: views(deployables),
        direct: blast_views(direct),
        transitive: blast_views(transitive),
        next: views(next),
    }
}

impl Snapshot {
    /// The deployables consuming service `s`, in edge order.
    fn dependents(&self, s: &str) -> (r: Vec<String>)
        ensures
            views(r@) == dependents_of(self.dependencies@, s@, self.dependencies@.len() as int),
    {
        let mut r: Vec<String> = Vec::new();
        let mut k: usize = 0;
        while k < self.dependencies.len()
            invariant
                k <= self.dependencies@.len(),
                views(r@) == dependents_of(self.dependencies@, s@, k as int),
            decreases self.dependencies@.len() - k,
        {
            if eq_str(self.dependencies[k].service_id.as_str(), s) {
                let ghost before = views(r@);
                r.push(self.dependencies[k].deployable_id.clone());
                assert(views(r@) =~= before.push(self.dependencies@[k as int].deployable_id@));
            }
            k = k + 1;
        }
        r
    }

    /// The services `ex` with their names.
    fn refs_of(&self, ex: &Vec<String>) -> (r: Vec<ServiceRef>)
        ensures
            r@.map_values(|x: ServiceRef| (x.service_id@, x.service_name@)) == service_refs(*self, views(ex@)),
    {
        let mut r: Vec<ServiceRef> = Vec::new();
        let mut k: usize = 0;
        while k < ex.len()
            invariant
                k <= ex@.len(),
                r@.len() == k,
                forall|q: int| 0 <= q < k ==> (#[trigger] r@[q]).service_id@ == ex@[q]@
                    && r@[q].service_name@ == service_name_of(*self, ex@[q]@),
            decreases ex@.len() - k,
        {
            let nm = self.service_name(ex[k].as_str());
            r.push(ServiceRef { service_id: ex[k].clone(), service_name: nm });
            k = k + 1;
        }
        assert(r@.map_values(|x: ServiceRef| (x.service_id@, x.service_name@)) =~= service_refs(*self, views(ex@)));
        r
    }

    /// Visit the dependents of service `svc` at `level`.
    fn visit_service(
        &self,
        svc: &String,
        level: usize,
        services: &mut Vec<String>,
        deployables: &mut Vec<String>,
        direct: &mut Vec<BlastEntry>,
        transitive: &mut Vec<BlastEntry>,
        next: &mut Vec<String>,
    )
        requires
            level < DEPTH_HARD_CAP,
        ensures
            state_of(final(services)@, final(deployables)@, final(direct)@, final(transitive)@, final(next)@)
                == ({
                let deps = dependents_of(self.dependencies@, svc@, self.dependencies@.len() as int);
                visit_dependents(
                    *self,
                    svc@,
                    deps,
                    deps.len() as int,
                    level as nat,
                    state_of(old(services)@, old(deployables)@, old(direct)@, old(transitive)@, old(next)@),
                )
            }),
    {
        let ghost st0 = state_of(services@, deployables@, direct@, transitive@, next@);
        let deps = self.dependents(svc.as_str());
        let ghost dv = views(deps@);
        let svc_name = self.service_name(svc.as_str());
        let mut k: usize = 0;
        while k < deps.len()
            invariant
                level < DEPTH_HARD_CAP,
                k <= deps@.len(),
                dv == views(deps@),
                dv == dependents_of(self.dependencies@, svc@, self.dependencies@.len() as int),
                svc_name@ == service_name_of(*self, svc@),
                state_of(services@, deployables@, direct@, transitive@, next@) == visit_dependents(
                    *self,
                    svc@,
                    dv,
                    k as int,
                    level as nat,
                    st0,
                ),
            decreases deps@.len() - k,
        {
            let d = &deps[k];
            assert(dv[k as int] == d@);
            if !contains_id(deployables, d.as_str()) {
                let ghost s1 = state_of(services@, deployables@, direct@, transitive@, next@);
                let ghost dvs = views(deployables@);
                deployables.push(d.clone());
                assert(views(deployables@) =~= dvs.push(d@));
                let ex = self.deployable_exposes(d.as_str());
                let ghost exv = views(ex@);
                let refs = self.refs_of(&ex);
                let e = BlastEntry {
                    deployable_id: d.clone(),
                    deployable_name: self.deployable_name(d.as_str()),
                    via_service_id: svc.clone(),
                    via_service_name: svc_name.clone(),
                    depth: level + 1,
                    exposes: refs,
                };
                let ghost ev = blast_entry_view(e);
                if level == 0 {
                    let ghost b = blast_views(direct@);
                    direct.push(e);
                    assert(blast_views(direct@) =~= b.push(ev));
                } else {
                    let ghost b = blast_views(transitive@);
                    transitive.push(e);
                    assert(blast_views(transitive@) =~= b.push(ev));
                }
                let mut j: usize = 0;
                let ghost m0 = views(services@);
                let ghost n0 = views(next@);
                while j < ex.len()
                    invariant
                        j <= ex@.len(),
                        exv == views(ex@),
                        (views(services@), views(next@)) == enqueue_exposed(exv, j as int, m0, n0),
                    decreases ex@.len() - j,
                {
                    assert(exv[j as int] == ex@[j as int]@);
                    if !contains_id(services, ex[j].as_str()) {
                        let ghost ms = views(services@);
                        let ghost ns = views(next@);
                        services.push(ex[j].clone());
                        next.push(ex[j].clone());
                        assert(views(services@) =~= ms.push(exv[j as int]));
                        assert(views(next@) =~= ns.push(exv[j as int]));
                    }
                    j = j + 1;
                }
            }
            k = k + 1;
        }
    }

    /// "If this service goes down, what breaks?": walks reverse dependency
    /// edges from `service_id`, level by level (`depth` clamped to 1..=10):
    /// the deployables consuming a service at one level are affected, and
    /// the services they expose form the next level. Each service and each
    /// deployable is visited once; those found from the root service itself
    /// are the direct dependents, the others transitive.
    pub fn blast_radius(&self, service_id: &str, depth: usize) -> (r: BlastReport)
        ensures
            r.service_id@ == service_id@,
            r.service_name@ == service_name_of(*self, service_id@),
            r.depth == clamp_depth(depth),
            blast_views(r.direct_dependents@) == blast_walk(*self, service_id@, clamp_depth(depth) as nat).direct,
            blast_views(r.transitive_dependents@) == blast_walk(*self, service_id@, clamp_depth(depth) as nat).transitive,
    {
        let d: usize = if depth < 1 { 1 } else if depth > DEPTH_HARD_CAP { DEPTH_HARD_CAP } else { depth };
        let name = self.service_name(service_id);
        let mut services: Vec<String> = Vec::new();
        services.push(service_id.to_owned());
        let mut frontier: Vec<String> = Vec::new();
        frontier.push(service_id.to_owned());
        let mut deployables: Vec<String> = Vec::new();
        let mut direct: Vec<BlastEntry> = Vec::new();
        let mut transitive: Vec<BlastEntry> = Vec::new();
        let ghost start = BlastState {
            services: seq![service_id@],
            deployables: Seq::empty(),
            direct: Seq::empty(),
            transitive: Seq::empty(),
            next: Seq::empty(),
        };
        assert(views(services@) =~= seq![service_id@]);
        assert(views(deployables@) =~= Seq::<Seq<char>>::empty());
        assert(blast_views(direct@) =~= Seq::<BlastEntryView>::empty());
        assert(blast_views(transitive@) =~= Seq::<BlastEntryView>::empty());
        assert(views(frontier@) =~= seq![service_id@]);
        proof {
            lemma_levels_ignore_next(*self, seq![service_id@], 0, d as nat, state_of(services@, deployables@, direct@, transitive@, frontier@));
            assert(BlastState { next: Seq::empty(), ..state_of(services@, deployables@, direct@, transitive@, frontier@) } == start);
        }
        let mut level: usize = 0;
        while level < d
            invariant
                d == clamp_depth(depth),
                level <= d,
                blast_walk(*self, service_id@, d as nat) == blast_levels(
                    *self,
                    views(frontier@),
                    level as nat,
                    d as nat,
                    state_of(services@, deployables@, direct@, transitive@, frontier@),
                ),
            decreases d - level,
        {
            let mut nxt: Vec<String> = Vec::new();
            let ghost st = state_of(services@, deployables@, direct@, transitive@, frontier@);
            let ghost s0 = BlastState { next: Seq::empty(), ..st };
            assert(views(nxt@) =~= Seq::<Seq<char>>::empty());
            assert(state_of(services@, deployables@, direct@, transitive@, nxt@) == s0);
            let ghost fv = views(frontier@);
            let mut i: usize = 0;
            while i < frontier.len()
                invariant
                    level < d,
                    d <= DEPTH_HARD_CAP,
                    i <= frontier@.len(),
                    fv == views(frontier@),
                    state_of(services@, deployables@, direct@, transitive@, nxt@) == visit_frontier(
                        *self,
                        fv,
                        i as int,
                        level as nat,
                        s0,
                    ),
                decreases frontier@.len() - i,
            {
                assert(fv[i as int] == frontier@[i as int]@);
                self.visit_service(&frontier[i], level, &mut services, &mut deployables, &mut direct, &mut transitive, &mut nxt);
                i = i + 1;
            }
            frontier = nxt;
            level = level + 1;
        }
        proof {
            lemma_levels_done(*self, views(frontier@), level as nat, d as nat, state_of(services@, deployables@, direct@, transitive@, frontier@));
        }
        BlastReport {
            service_id: service_id.to_owned(),
            service_name: name,
            depth: d,
            direct_dependents: direct,
            transitive_dependents: transitive,
        }
    }
}

/// The walk does not read the state's pending frontier before a level.
proof fn lemma_levels_ignore_next(snap: Snapshot, frontier: Seq<Seq<char>>, level: nat, depth: nat, st: BlastState)
    requires
        level < depth,
    ensures
        blast_levels(snap, frontier, level, depth, st) == blast_levels(
            snap,
            frontier,
            level,
            depth,
            BlastState { next: Seq::empty(), ..st },
        ),
{
    assert(BlastState { next: Seq::empty(), ..st } == BlastState {
        next: Seq::empty(),
        ..BlastState { next: Seq::empty(), ..st }
    });
}

proof fn lemma_levels_done(snap: Snapshot, frontier: Seq<Seq<char>>, level: nat, depth: nat, st: BlastState)
    requires
        level >= depth,
    ensures
        blast_levels(snap, frontier, level, depth, st) == st,
{
}

// ── building from catalogue rows ────────────────────────────────────────────

/// The first `k` (id, name) rows with a non-empty id.
pub open spec fn kept_rows(rows: Seq<(String, String)>, k: int) -> Seq<(Seq<char>, Seq<char>)>
    decreases k,
{
    if k <= 0 {
        Seq::empty()
    } else if rows[k - 1].0@.len() > 0 {
        kept_rows(rows, k - 1).push((rows[k - 1].0@, rows[k - 1].1@))
    } else {
        kept_rows(rows, k - 1)
    }
}

/// The first `k` (deployable, service) edge rows with both ends non-empty.
pub open spec fn kept_edges(rows: Seq<(String, String)>, k: int) -> Seq<(Seq<char>, Seq<char>)>
    decreases k,
{
    if k <= 0 {
        Seq::empty()
    } else if rows[k - 1].0@.len() > 0 && rows[k - 1].1@.len() > 0 {
        kept_edges(rows, k - 1).push((rows[k - 1].0@, rows[k - 1].1@))
    } else {
        kept_edges(rows, k - 1)
    }
}

fn keep_rows(rows: &Vec<(String, String)>, edges: bool) -> (out: Vec<(String, String)>)
    ensures
        out@.map_values(|r: (String, String)| (r.0@, r.1@)) == if edges {
            kept_edges(rows@, rows@.len() as int)
        } else {
            kept_rows(rows@, rows@.len() as int)
        },
{
    let mut out: Vec<(String, String)> = Vec::new();
    let mut k: usize = 0;
    while k < rows.len()
        invariant
            k <= rows@.len(),
            out@.map_values(|r: (String, String)| (r.0@, r.1@)) == if edges {
                kept_edges(rows@, k as int)
            } else {
                kept_rows(rows@, k as int)
            },
        decreases rows@.len() - k,
    {
        let keep = if edges {
            !rows[k].0.as_str().is_empty() && !rows[k].1.as_str().is_empty()
        } else {
            !rows[k].0.as_str().is_empty()
        };
        if keep {
            let ghost before = out@;
            let row = (rows[k].0.clone(), rows[k].1.clone());
            out.push(row);
            assert(out@.map_values(|r: (String, String)| (r.0@, r.1@)) =~= before.map_values(
                |r: (String, String)| (r.0@, r.1@),
            ).push((rows@[k as int].0@, rows@[k as int].1@)));
        }
        k = k + 1;
    }
    out
}

impl Snapshot {
    /// Build a snapshot from catalogue rows, each field read as text (empty
    /// when absent): (id, name) rows of deployables and services, and
    /// (deployable id, service id) rows of exposes and dependency edges.
    /// Rows without an id, and edges missing an end, are skipped.
    pub fn from_rows(
        deployable_rows: &Vec<(String, String)>,
        service_rows: &Vec<(String, String)>,
        exposes_rows: &Vec<(String, String)>,
        dependency_rows: &Vec<(String, String)>,
    ) -> (snap: Snapshot)
        ensures
            snap.deployables@.map_values(|d: Deployable| (d.id@, d.name@)) == kept_rows(
                deployable_rows@,
                deployable_rows@.len() as int,
            ),
            snap.services@.map_values(|s: Service| (s.id@, s.name@)) == kept_rows(
                service_rows@,
                service_rows@.len() as int,
            ),
            snap.exposes@.map_values(|e: Exposes| (e.deployable_id@, e.service_id@)) == kept_edges(
                exposes_rows@,
                exposes_rows@.len() as int,
            ),
            snap.dependencies@.map_values(|e: Dependency| (e.deployable_id@, e.service_id@)) == kept_edges(
                dependency_rows@,
                dependency_rows@.len() as int,
            ),
    {
        let ds = keep_rows(deployable_rows, false);
        let ss = keep_rows(service_rows, false);
        let es = keep_rows(exposes_rows, true);
        let xs = keep_rows(dependency_rows, true);
        let mut deployables: Vec<Deployable> = Vec::new();
        let mut k: usize = 0;
        while k < ds.len()
            invariant
                k <= ds@.len(),
                deployables@.len() == k,
                forall|q: int| 0 <= q < k ==> (#[trigger] deployables@[q]).id@ == ds@[q].0@ && deployables@[q].name@ == ds@[q].1@,
            decreases ds@.len() - k,
        {
            deployables.push(Deployable { id: ds[k].0.clone(), name: ds[k].1.clone() });
            k = k + 1;
        }
        assert(deployables@.map_values(|x: Deployable| (x.id@, x.name@)) =~= ds@.map_values(|r: (String, String)| (r.0@, r.1@)));
        let mut services: Vec<Service> = Vec::new();
        let mut k: usize = 0;
        while k < ss.len()
            invariant
                k <= ss@.len(),
                services@.len() == k,
                forall|q: int| 0 <= q < k ==> (#[trigger] services@[q]).id@ == ss@[q].0@ && services@[q].name@ == ss@[q].1@,
            decreases ss@.len() - k,
        {
            services.push(Service { id: ss[k].0.clone(), name: ss[k].1.clone() });
            k = k + 1;
        }
        assert(services@.map_values(|x: Service| (x.id@, x.name@)) =~= ss@.map_values(|r: (String, String)| (r.0@, r.1@)));
        let mut exposes: Vec<Exposes> = Vec::new();
        let mut k: usize = 0;
        while k < es.len()
            invariant
                k <= es@.len(),
                exposes@.len() == k,
                forall|q: int| 0 <= q < k ==> (#[trigger] exposes@[q]).deployable_id@ == es@[q].0@ && exposes@[q].service_id@ == es@[q].1@,
            decreases es@.len() - k,
        {
            exposes.push(Exposes { deployable_id: es[k].0.clone(), service_id: es[k].1.clone() });
            k = k + 1;
        }
        assert(exposes@.map_values(|x: Exposes| (x.deployable_id@, x.service_id@)) =~= es@.map_values(|r: (String, String)| (r.0@, r.1@)));
        let mut dependencies: Vec<Dependency> = Vec::new();
        let mut k: usize = 0;
        while k < xs.len()
            invariant
                k <= xs@.len(),
                dependencies@.len() == k,
                forall|q: int| 0 <= q < k ==> (#[trigger] dependencies@[q]).deployable_id@ == xs@[q].0@ && dependencies@[q].service_id@ == xs@[q].1@,
            decreases xs@.len() - k,
        {
            dependencies.push(Dependency { deployable_id: xs[k].0.clone(), service_id: xs[k].1.clone() });
            k = k + 1;
        }
        assert(dependencies@.map_values(|x: Dependency| (x.deployable_id@, x.service_id@)) =~= xs@.map_values(|r: (String, String)| (r.0@, r.1@)));
        Snapshot { deployables, services, exposes, dependencies }
    }
}

} // verus!
