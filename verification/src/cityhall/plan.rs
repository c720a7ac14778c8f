//! ChangeRequest → DeploymentPlan resolver.
//!
//! The planner walks Groundwork dependencies from the change request's
//! targets (a [`PlanWalk`], driven by whoever can reach Groundwork), orders
//! the deployables dependencies-first, reports orphans, unknown deployables
//! and dependency cycles as blockers, and turns each deployable's effective
//! bylaws into gates.

use vstd::prelude::*;
use crate::text::{
    views, join, join_with, append, push_char, push_decimal, chars_of, decimal, seq_lt, str_lt,
    lemma_lt_irreflexive, lemma_lt_transitive, lemma_lt_total,
};
use crate::lobby::scc::{reach, is_path, reachable_from, well_formed, adj_view};
use crate::cityhall::bylaw::EffectiveBylaw;

verus! {

/// What the planner needs to know about a deployable in Groundwork.
#[derive(Debug, Clone)]
pub struct DeployableSummary {
    pub id: String,
    pub name: String,
    /// Resolved Union team id, or `None` if Groundwork has it unset.
    pub team_id: Option<String>,
    /// Other deployables this one depends on (by id).
    pub depends_on: Vec<String>,
}

/// One deployment step of a plan.
#[derive(Debug, Clone)]
pub struct PlanStep {
    pub order: usize,
    pub deployable_id: String,
    pub deployable_name: String,
    /// `"deploy"` for every step the planner emits.
    pub action: String,
    pub predecessor_orders: Vec<usize>,
    pub gates: Vec<PlanGate>,
    pub estimated_minutes: u32,
}

/// A governance gate a step must pass.
#[derive(Debug, Clone)]
pub struct PlanGate {
    pub gate_type: String,
    pub source_org_node: String,
    pub description: Option<String>,
    pub window: Option<String>,
    pub approvers: Option<String>,
    pub quiesce_for: Option<String>,
}

/// A blocker that prevents the plan from running clean. `mermaid`, when
/// present, is a small Mermaid graph of a dependency cycle.
#[derive(Debug, Clone)]
pub struct Blocker {
    pub kind: String,
    pub message: String,
    pub mermaid: Option<String>,
}

/// A computed deployment plan.
#[derive(Debug, Clone)]
pub struct ComputedPlan {
    pub change_request_id: String,
    pub change_request_summary: String,
    pub tier: String,
    pub steps: Vec<PlanStep>,
    pub blockers: Vec<Blocker>,
    pub computed_at: String,
}

/// A blocker's content as character sequences.
pub struct BlockerView {
    pub kind: Seq<char>,
    pub message: Seq<char>,
    pub mermaid: Option<Seq<char>>,
}

impl View for Blocker {
    type V = BlockerView;

    open spec fn view(&self) -> BlockerView {
        BlockerView {
            kind: self.kind@,
            message: self.message@,
            mermaid: match self.mermaid {
                Some(m) => Some(m@),
                None => None,
            },
        }
    }
}

/// The views of a sequence of blockers.
pub open spec fn blocker_views(s: Seq<Blocker>) -> Seq<BlockerView> {
    s.map_values(|b: Blocker| b@)
}

/// Turn an effective bylaw into a plan gate attributed to its org node.
pub fn plan_gate_from_bylaw(b: EffectiveBylaw) -> (g: PlanGate)
    ensures
        g.gate_type == b.gate_type,
        g.source_org_node == b.org_node_name,
        g.description == b.description,
        g.window == b.window,
        g.approvers == b.approvers,
        g.quiesce_for == b.quiesce_for,
{
    PlanGate {
        gate_type: b.gate_type,
        source_org_node: b.org_node_name,
        description: b.description,
        window: b.window,
        approvers: b.approvers,
        quiesce_for: b.quiesce_for,
    }
}

// ── the affected set, keyed by requested id ─────────────────────────────────

/// The keys of the affected set.
pub open spec fn keys(e: Seq<(String, DeployableSummary)>) -> Seq<Seq<char>> {
    e.map_values(|p: (String, DeployableSummary)| p.0@)
}

/// Keys are strictly increasing (the affected set is an ordered map).
pub open spec fn keys_sorted(e: Seq<(String, DeployableSummary)>) -> bool {
    forall|i: int, j: int| 0 <= i < j < e.len() ==> crate::text::seq_lt(e[i].0@, e[j].0@)
}

/// Whether `id` is a key of the affected set.
pub open spec fn is_key(e: Seq<(String, DeployableSummary)>, id: Seq<char>) -> bool {
    exists|i: int| 0 <= i < e.len() && e[i].0@ == id
}

/// The dependencies of entry `i` that are in the affected set, in order.
pub open spec fn deps_in_set(e: Seq<(String, DeployableSummary)>, i: int, k: int) -> Seq<Seq<char>>
    decreases k,
{
    if k <= 0 {
        Seq::empty()
    } else {
        let d = e[i].1.depends_on@[k - 1]@;
        if is_key(e, d) {
            deps_in_set(e, i, k - 1).push(d)
        } else {
            deps_in_set(e, i, k - 1)
        }
    }
}

/// Entry `i`'s in-set dependencies, each dependency edge counted.
pub open spec fn in_set_deps(e: Seq<(String, DeployableSummary)>, i: int) -> Seq<Seq<char>> {
    deps_in_set(e, i, e[i].1.depends_on@.len() as int)
}

/// Entry `i` is ready after the keys in `placed`: not placed, and every
/// in-set dependency placed (a dependency listed twice is one edge).
pub open spec fn ready(e: Seq<(String, DeployableSummary)>, placed: Seq<Seq<char>>, i: int) -> bool {
    &&& !placed.contains(e[i].0@)
    &&& forall|a: int| 0 <= a < in_set_deps(e, i).len() ==> placed.contains(#[trigger] in_set_deps(e, i)[a])
}

/// The first ready entry at index `k` or later, in key order, or -1.
pub open spec fn first_ready(e: Seq<(String, DeployableSummary)>, placed: Seq<Seq<char>>, k: int) -> int
    decreases e.len() - k,
{
    if k < 0 || k >= e.len() {
        -1
    } else if ready(e, placed, k) {
        k
    } else {
        first_ready(e, placed, k + 1)
    }
}

/// Kahn's algorithm from `placed`: repeatedly place the smallest-keyed
/// ready entry until none is ready.
pub open spec fn kahn_from(e: Seq<(String, DeployableSummary)>, placed: Seq<Seq<char>>) -> Seq<Seq<char>>
    decreases e.len() - placed.len(),
{
    if placed.len() >= e.len() {
        placed
    } else {
        let r = first_ready(e, placed, 0);
        if r < 0 {
            placed
        } else {
            kahn_from(e, placed.push(e[r].0@))
        }
    }
}

/// The keys not in `placed`, among the first `k`, in key order.
pub open spec fn leftover_upto(e: Seq<(String, DeployableSummary)>, placed: Seq<Seq<char>>, k: int) -> Seq<Seq<char>>
    decreases k,
{
    if k <= 0 {
        Seq::empty()
    } else if placed.contains(e[k - 1].0@) {
        leftover_upto(e, placed, k - 1)
    } else {
        leftover_upto(e, placed, k - 1).push(e[k - 1].0@)
    }
}

/// The name of the entry with key `id`, or `id`.
pub open spec fn name_for(e: Seq<(String, DeployableSummary)>, id: Seq<char>) -> Seq<char> {
    let i = lookup(e, id, 0);
    if i >= 0 { e[i].1.name@ } else { id }
}

/// Index of the first entry at `k` or later with key `id`, or -1.
pub open spec fn lookup(e: Seq<(String, DeployableSummary)>, id: Seq<char>, k: int) -> int
    decreases e.len() - k,
{
    if k < 0 || k >= e.len() {
        -1
    } else if e[k].0@ == id {
        k
    } else {
        lookup(e, id, k + 1)
    }
}

/// The deployment order: Kahn's order of what can be ordered, then the
/// rest (the cycles and what depends on them) in key order.
pub open spec fn topo_order(e: Seq<(String, DeployableSummary)>) -> Seq<Seq<char>> {
    let k = kahn_from(e, Seq::empty());
    k + leftover_upto(e, k, e.len() as int)
}

/// The cycle blocker topo_sort adds, if any.
pub open spec fn cycle_blockers(e: Seq<(String, DeployableSummary)>) -> Seq<BlockerView> {
    let k = kahn_from(e, Seq::empty());
    let left = leftover_upto(e, k, e.len() as int);
    if left.len() == 0 {
        Seq::empty()
    } else {
        let names = left.map_values(|id: Seq<char>| name_for(e, id));
        seq![BlockerView {
            kind: "dependency_cycle"@,
            message: "dependency cycle involving: "@ + join(names, ", "@),
            mermaid: Some(cycle_mermaid(left, e)),
        }]
    }
}

// ── cycle rendering ─────────────────────────────────────────────────────────

/// The last position `< k` of `id` in `ids`, or -1.
pub open spec fn pos_last(ids: Seq<Seq<char>>, id: Seq<char>, k: int) -> int
    decreases k,
{
    if k <= 0 {
        -1
    } else if ids[k - 1] == id {
        k - 1
    } else {
        pos_last(ids, id, k - 1)
    }
}

/// Successors, among the first `k` dependencies of `deps`, as positions in `ids`.
pub open spec fn succ_upto(ids: Seq<Seq<char>>, deps: Seq<String>, k: int) -> Seq<usize>
    decreases k,
{
    if k <= 0 {
        Seq::empty()
    } else {
        let p = pos_last(ids, deps[k - 1]@, ids.len() as int);
        if p >= 0 {
            succ_upto(ids, deps, k - 1).push(p as usize)
        } else {
            succ_upto(ids, deps, k - 1)
        }
    }
}

/// The dependency list of key `id` (empty when it has no entry).
pub open spec fn deps_of(e: Seq<(String, DeployableSummary)>, id: Seq<char>) -> Seq<String> {
    let i = lookup(e, id, 0);
    if i >= 0 { e[i].1.depends_on@ } else { Seq::empty() }
}

/// The cycle subgraph: position `p` has an edge to the (last) position of
/// each of its dependencies that is in the set.
pub open spec fn cycle_graph(ids: Seq<Seq<char>>, e: Seq<(String, DeployableSummary)>) -> Seq<Seq<usize>> {
    Seq::new(ids.len(), |p: int| {
        let deps = deps_of(e, ids[p]);
        succ_upto(ids, deps, deps.len() as int)
    })
}

/// A path of length at least one from `u` to `v`.
pub open spec fn reach_nontrivial(g: Seq<Seq<usize>>, u: int, v: int) -> bool {
    exists|j: int| 0 <= j < g[u].len() && reach(g, #[trigger] g[u][j], v as usize)
}

/// Position `p` lies on a cycle.
pub open spec fn on_cycle(ids: Seq<Seq<char>>, e: Seq<(String, DeployableSummary)>, p: int) -> bool {
    reach_nontrivial(cycle_graph(ids, e), p, pos_last(ids, ids[p], ids.len() as int))
}

/// `name` with each `"` escaped as `\"`.
pub open spec fn escape_quotes(s: Seq<char>) -> Seq<char>
    decreases s.len(),
{
    if s.len() == 0 {
        Seq::empty()
    } else {
        escape_quotes(s.drop_last()) + if s.last() == '"' {
            seq!['\\', '"']
        } else {
            seq![s.last()]
        }
    }
}

/// The node lines for the first `k` positions.
pub open spec fn node_lines(ids: Seq<Seq<char>>, e: Seq<(String, DeployableSummary)>, k: int) -> Seq<char>
    decreases k,
{
    if k <= 0 {
        Seq::empty()
    } else {
        let p = k - 1;
        node_lines(ids, e, p) + "    n"@ + decimal(p as nat) + "[\""@ + escape_quotes(
            name_for(e, ids[p]),
        ) + "\"]"@ + (if on_cycle(ids, e, p) { ":::cyclic"@ } else { Seq::empty() }) + "\n"@
    }
}

/// One emitted edge: its line, and whether it lies on a cycle.
pub type EdgeLine = (Seq<char>, bool);

/// Edges from position `p` over its first `k` dependencies.
pub open spec fn edges_of(ids: Seq<Seq<char>>, e: Seq<(String, DeployableSummary)>, p: int, k: int) -> Seq<EdgeLine>
    decreases k,
{
    if k <= 0 {
        Seq::empty()
    } else {
        let deps = deps_of(e, ids[p]);
        let from = pos_last(ids, ids[p], ids.len() as int);
        let to = pos_last(ids, deps[k - 1]@, ids.len() as int);
        if to >= 0 {
            edges_of(ids, e, p, k - 1).push((
                "    n"@ + decimal(from as nat) + " --> n"@ + decimal(to as nat) + "\n"@,
                reach_nontrivial(cycle_graph(ids, e), to, from),
            ))
        } else {
            edges_of(ids, e, p, k - 1)
        }
    }
}

/// Edges of the first `k` positions, in emission order.
pub open spec fn edges_upto(ids: Seq<Seq<char>>, e: Seq<(String, DeployableSummary)>, k: int) -> Seq<EdgeLine>
    decreases k,
{
    if k <= 0 {
        Seq::empty()
    } else {
        edges_upto(ids, e, k - 1) + edges_of(ids, e, k - 1, deps_of(e, ids[k - 1]).len() as int)
    }
}

/// The edge lines concatenated.
pub open spec fn edge_text(es: Seq<EdgeLine>) -> Seq<char>
    decreases es.len(),
{
    if es.len() == 0 {
        Seq::empty()
    } else {
        edge_text(es.drop_last()) + es.last().0
    }
}

/// `linkStyle` lines for the cyclic edges among the first `k`.
pub open spec fn link_styles(es: Seq<EdgeLine>, k: int) -> Seq<char>
    decreases k,
{
    if k <= 0 {
        Seq::empty()
    } else {
        link_styles(es, k - 1) + if es[k - 1].1 {
            "    linkStyle "@ + decimal((k - 1) as nat) + " stroke:#dc2626,stroke-width:2.5px\n"@
        } else {
            Seq::empty()
        }
    }
}

/// The cycle subgraph as a Mermaid `graph LR`: one node per id (cycle
/// members classed `cyclic`), the edges inside the set, a `classDef` when
/// some node is on a cycle, and a `linkStyle` per edge on a cycle.
pub open spec fn cycle_mermaid(ids: Seq<Seq<char>>, e: Seq<(String, DeployableSummary)>) -> Seq<char> {
    let es = edges_upto(ids, e, ids.len() as int);
    "graph LR\n"@ + node_lines(ids, e, ids.len() as int) + edge_text(es) + (if exists|p: int|
        0 <= p < ids.len() && on_cycle(ids, e, p) {
        "    classDef cyclic stroke:#dc2626,stroke-width:2px,fill:#fef2f2,color:#7f1d1d\n"@
    } else {
        Seq::empty()
    }) + link_styles(es, es.len() as int)
}


// ── executable ──────────────────────────────────────────────────────────────

proof fn lemma_lookup(e: Seq<(String, DeployableSummary)>, id: Seq<char>, k: int)
    requires
        0 <= k,
    ensures
        lookup(e, id, k) >= 0 <==> exists|i: int| k <= i < e.len() && e[i].0@ == id,
        lookup(e, id, k) >= 0 ==> k <= lookup(e, id, k) < e.len() && e[lookup(e, id, k)].0@ == id,
    decreases e.len() - k,
{
    if k < e.len() && e[k].0@ != id {
        lemma_lookup(e, id, k + 1);
        if exists|i: int| k <= i < e.len() && e[i].0@ == id {
            let i = choose|i: int| k <= i < e.len() && e[i].0@ == id;
            assert(i != k);
        }
    }
}

/// Index of the entry with key `id`.
fn key_index(e: &Vec<(String, DeployableSummary)>, id: &String) -> (r: Option<usize>)
    ensures
        match r {
            Some(i) => i as int == lookup(e@, id@, 0) && i < e@.len(),
            None => lookup(e@, id@, 0) == -1,
        },
        r is Some <==> is_key(e@, id@),
{
    proof { lemma_lookup(e@, id@, 0); }
    let mut k: usize = 0;
    while k < e.len()
        invariant
            k <= e@.len(),
            lookup(e@, id@, 0) == lookup(e@, id@, k as int),
        decreases e@.len() - k,
    {
        if e[k].0 == *id {
            return Some(k);
        }
        k = k + 1;
    }
    None
}

fn seq_contains(v: &Vec<String>, x: &String) -> (b: bool)
    ensures
        b == views(v@).contains(x@),
{
    let mut k: usize = 0;
    while k < v.len()
        invariant
            k <= v@.len(),
            forall|q: int| 0 <= q < k ==> views(v@)[q] != x@,
        decreases v@.len() - k,
    {
        assert(views(v@)[k as int] == v@[k as int]@);
        if v[k] == *x {
            return true;
        }
        k = k + 1;
    }
    false
}

/// Entry `i`'s dependencies that are keys of the affected set.
fn in_set_deps_exec(e: &Vec<(String, DeployableSummary)>, i: usize) -> (d: Vec<String>)
    requires
        i < e@.len(),
    ensures
        views(d@) == in_set_deps(e@, i as int),
{
    let deps = &e[i].1.depends_on;
    let mut d: Vec<String> = Vec::new();
    let mut k: usize = 0;
    while k < deps.len()
        invariant
            k <= deps@.len(),
            *deps == e@[i as int].1.depends_on,
            i < e@.len(),
            views(d@) == deps_in_set(e@, i as int, k as int),
        decreases deps@.len() - k,
    {
        if key_index(e, &deps[k]).is_some() {
            let ghost d0 = views(d@);
            d.push(deps[k].clone());
            assert(views(d@) =~= d0.push(deps@[k as int]@));
        }
        k = k + 1;
    }
    d
}

fn is_ready(e: &Vec<(String, DeployableSummary)>, placed: &Vec<String>, i: usize) -> (b: bool)
    requires
        i < e@.len(),
    ensures
        b == ready(e@, views(placed@), i as int),
{
    if seq_contains(placed, &e[i].0) {
        return false;
    }
    let d = in_set_deps_exec(e, i);
    let ghost dv = views(d@);
    let mut a: usize = 0;
    while a < d.len()
        invariant
            a <= d@.len(),
            dv == views(d@),
            i < e@.len(),
            dv == in_set_deps(e@, i as int),
            forall|x: int| 0 <= x < a ==> views(placed@).contains(#[trigger] dv[x]),
        decreases d@.len() - a,
    {
        assert(dv[a as int] == d@[a as int]@);
        if !seq_contains(placed, &d[a]) {
            assert(!views(placed@).contains(in_set_deps(e@, i as int)[a as int]));
            return false;
        }
        a = a + 1;
    }
    true
}

/// Order the affected set dependencies-first (Kahn's algorithm, smallest
/// key first among the ready ones). What cannot be ordered — cycles and
/// what depends on them — is reported as one `dependency_cycle` blocker,
/// with a Mermaid rendering of the leftover subgraph, and appended in key
/// order.
pub fn topo_sort(summaries: &Vec<(String, DeployableSummary)>, blockers: &mut Vec<Blocker>) -> (out: Vec<String>)
    ensures
        views(out@) == topo_order(summaries@),
        blocker_views(final(blockers)@) == blocker_views(old(blockers)@) + cycle_blockers(summaries@),
{
    let ghost e = summaries@;
    let n = summaries.len();
    let mut placed: Vec<String> = Vec::new();
    assert(views(placed@) =~= Seq::<Seq<char>>::empty());
    loop
        invariant
            n == e.len(),
            e == summaries@,
            views(placed@).len() <= n,
            kahn_from(e, Seq::empty()) == kahn_from(e, views(placed@)),
        ensures
            kahn_from(e, Seq::empty()) == views(placed@),
        decreases n - placed@.len(),
    {
        if placed.len() >= n {
            assert(kahn_from(e, views(placed@)) == views(placed@));
            break;
        }
        let mut r: usize = 0;
        let mut found = false;
        while r < n && !found
            invariant
                r <= n,
                n == e.len(),
                e == summaries@,
                found ==> r < n && ready(e, views(placed@), r as int) && first_ready(e, views(placed@), 0) == r,
                !found ==> first_ready(e, views(placed@), 0) == first_ready(e, views(placed@), r as int),
            decreases n - r + (if found { 0int } else { 1int }),
        {
            if is_ready(summaries, &placed, r) {
                found = true;
            } else {
                r = r + 1;
            }
        }
        if !found {
            assert(first_ready(e, views(placed@), 0) == -1);
            assert(kahn_from(e, views(placed@)) == views(placed@));
            break;
        }
        let ghost p0 = views(placed@);
        placed.push(summaries[r].0.clone());
        assert(views(placed@) =~= p0.push(e[r as int].0@));
    }
    let ghost kahn = views(placed@);
    assert(kahn == kahn_from(e, Seq::empty()));
    let mut left: Vec<String> = Vec::new();
    let mut names: Vec<String> = Vec::new();
    let mut k: usize = 0;
    while k < n
        invariant
            k <= n,
            n == e.len(),
            e == summaries@,
            kahn == views(placed@),
            views(left@) == leftover_upto(e, kahn, k as int),
            views(names@) == views(left@).map_values(|id: Seq<char>| name_for(e, id)),
        decreases n - k,
    {
        if !seq_contains(&placed, &summaries[k].0) {
            let ghost l0 = views(left@);
            let ghost n0 = views(names@);
            let nm = match key_index(summaries, &summaries[k].0) {
                Some(i) => summaries[i].1.name.clone(),
                None => summaries[k].0.clone(),
            };
            left.push(summaries[k].0.clone());
            names.push(nm);
            assert(views(left@) =~= l0.push(e[k as int].0@));
            assert(views(names@) =~= n0.push(nm@));
            assert(views(names@) =~= views(left@).map_values(|id: Seq<char>| name_for(e, id)));
        }
        k = k + 1;
    }
    let mut out = placed;
    if left.len() > 0 {
        let mut message = String::new();
        append(&mut message, "dependency cycle involving: ");
        let joined = join_with(&names, ", ");
        append(&mut message, joined.as_str());
        let mermaid = render_cycle_mermaid(&left, summaries);
        let b = Blocker {
            kind: owned_literal("dependency_cycle"),
            message,
            mermaid: Some(mermaid),
        };
        let ghost b0 = blocker_views(blockers@);
        blockers.push(b);
        assert(blocker_views(blockers@) =~= b0 + cycle_blockers(e));
        let mut k: usize = 0;
        let ghost o0 = views(out@);
        while k < left.len()
            invariant
                k <= left@.len(),
                views(out@) == o0 + views(left@).take(k as int),
            decreases left@.len() - k,
        {
            let ghost ob = views(out@);
            out.push(left[k].clone());
            assert(views(left@)[k as int] == left@[k as int]@);
            assert(views(out@) =~= ob.push(left@[k as int]@));
            assert(views(out@) =~= o0 + views(left@).take(k + 1));
            k = k + 1;
        }
        assert(views(left@).take(left@.len() as int) =~= views(left@));
    } else {
        assert(blocker_views(blockers@) =~= blocker_views(blockers@) + cycle_blockers(e));
        assert(views(out@) =~= topo_order(e));
    }
    out
}

fn owned_literal(s: &str) -> (r: String)
    ensures
        r@ == s@,
{
    s.to_owned()
}

/// `reach_nontrivial` is a walk of at least one edge: `u` reaches `v` in
/// one step or more exactly when some path of two or more vertices leads
/// from `u` to `v` (so `u` reaches itself this way only on a cycle).
pub proof fn lemma_nontrivial_is_a_step_or_more(g: Seq<Seq<usize>>, u: usize, v: usize)
    requires
        (u as int) < g.len(),
        well_formed(g),
    ensures
        reach_nontrivial(g, u as int, v as int) <==> exists|p: Seq<usize>|
            #[trigger] is_path(g, p) && p.len() >= 2 && p[0] == u && p.last() == v,
{
    if reach_nontrivial(g, u as int, v as int) {
        let j = choose|j: int| 0 <= j < g[u as int].len() && reach(g, #[trigger] g[u as int][j], v);
        let w = g[u as int][j];
        let q = choose|q: Seq<usize>| is_path(g, q) && q[0] == w && q.last() == v;
        let p = seq![u] + q;
        assert forall|i: int| 0 <= i < p.len() implies (#[trigger] p[i] as int) < g.len() by {
            if i > 0 {
                assert(p[i] == q[i - 1]);
            }
        }
        assert forall|i: int| 0 <= i < p.len() - 1 implies g[p[i] as int].contains(#[trigger] p[i + 1]) by {
            if i == 0 {
                assert(p[i + 1] == q[0]);
                assert(p[i] == u);
                assert(g[u as int][j] == w);
                assert(g[u as int].contains(w));
            } else {
                let k = i - 1;
                assert(g[q[k] as int].contains(q[k + 1]));
                assert(p[i] == q[k] && p[i + 1] == q[k + 1]);
            }
        }
        assert(is_path(g, p) && p.len() >= 2 && p[0] == u && p.last() == v);
    }
    if exists|p: Seq<usize>| #[trigger] is_path(g, p) && p.len() >= 2 && p[0] == u && p.last() == v {
        let p = choose|p: Seq<usize>| #[trigger] is_path(g, p) && p.len() >= 2 && p[0] == u && p.last() == v;
        let z: int = 0;
        assert(g[p[z] as int].contains(p[z + 1]));
        let j = choose|j: int| 0 <= j < g[u as int].len() && g[u as int][j] == p[1];
        let q = p.drop_first();
        assert forall|i: int| 0 <= i < q.len() implies (#[trigger] q[i] as int) < g.len() by {
            assert(q[i] == p[i + 1]);
        }
        assert forall|i: int| 0 <= i < q.len() - 1 implies g[q[i] as int].contains(#[trigger] q[i + 1]) by {
            assert(q[i] == p[i + 1] && q[i + 1] == p[i + 2]);
        }
        assert(is_path(g, q) && q[0] == g[u as int][j] && q.last() == v);
        assert(reach(g, g[u as int][j], v));
    }
}

/// Whether there is a path of length at least one from `u` to `v`.
pub fn reachable_nontrivial(g: &Vec<Vec<usize>>, u: usize, v: usize) -> (b: bool)
    requires
        well_formed(adj_view(g@)),
        (u as int) < g@.len(),
        (v as int) < g@.len(),
    ensures
        b == reach_nontrivial(adj_view(g@), u as int, v as int),
{
    let succ = &g[u];
    let ghost gv = adj_view(g@);
    assert(succ@ == gv[u as int]);
    let mut j: usize = 0;
    while j < succ.len()
        invariant
            j <= succ@.len(),
            gv == adj_view(g@),
            well_formed(gv),
            succ@ == gv[u as int],
            (v as int) < g@.len(),
            (u as int) < g@.len(),
            forall|q: int| 0 <= q < j ==> !reach(gv, #[trigger] gv[u as int][q], v),
        decreases succ@.len() - j,
    {
        assert(gv.len() == g@.len());
        assert(gv[u as int][j as int] == succ@[j as int]);
        assert((gv[u as int][j as int] as int) < gv.len());
        let vis = reachable_from(g, succ[j]);
        if vis[v] {
            return true;
        }
        j = j + 1;
    }
    false
}

/// Positions of the last occurrence of `id` in `ids`.
fn last_position(ids: &Vec<String>, id: &String) -> (r: Option<usize>)
    ensures
        match r {
            Some(p) => p as int == pos_last(views(ids@), id@, ids@.len() as int) && p < ids@.len(),
            None => pos_last(views(ids@), id@, ids@.len() as int) == -1,
        },
{
    let mut k = ids.len();
    while k > 0
        invariant
            k <= ids@.len(),
            pos_last(views(ids@), id@, ids@.len() as int) == pos_last(views(ids@), id@, k as int),
        decreases k,
    {
        assert(views(ids@)[k - 1] == ids@[k - 1]@);
        if ids[k - 1] == *id {
            return Some(k - 1);
        }
        k = k - 1;
    }
    None
}

proof fn lemma_pos_last_bound(ids: Seq<Seq<char>>, id: Seq<char>, k: int)
    requires
        0 <= k,
    ensures
        -1 <= pos_last(ids, id, k) < k,
    decreases k,
{
    if k > 0 {
        lemma_pos_last_bound(ids, id, k - 1);
    }
}

/// The dependency list of key `id`.
fn deps_for(e: &Vec<(String, DeployableSummary)>, id: &String) -> (d: Vec<String>)
    ensures
        d@ == deps_of(e@, id@),
{
    match key_index(e, id) {
        Some(i) => {
            let deps = &e[i].1.depends_on;
            let mut d: Vec<String> = Vec::new();
            let mut k: usize = 0;
            while k < deps.len()
                invariant
                    k <= deps@.len(),
                    d@ == deps@.take(k as int),
                decreases deps@.len() - k,
            {
                d.push(deps[k].clone());
                assert(d@ =~= deps@.take(k + 1));
                k = k + 1;
            }
            assert(deps@.take(deps@.len() as int) =~= deps@);
            d
        },
        None => Vec::new(),
    }
}

fn cycle_adjacency(ids: &Vec<String>, e: &Vec<(String, DeployableSummary)>) -> (g: Vec<Vec<usize>>)
    ensures
        adj_view(g@) == cycle_graph(views(ids@), e@),
        well_formed(adj_view(g@)),
{
    let m = ids.len();
    let mut g: Vec<Vec<usize>> = Vec::new();
    let mut p: usize = 0;
    while p < m
        invariant
            p <= m,
            m == ids@.len(),
            g@.len() == p,
            forall|q: int| 0 <= q < p ==> #[trigger] adj_view(g@)[q] == cycle_graph(views(ids@), e@)[q],
            forall|q: int, j: int| 0 <= q < p && 0 <= j < g@[q]@.len() ==> (#[trigger] g@[q]@[j] as int) < m,
        decreases m - p,
    {
        let deps = deps_for(e, &ids[p]);
        assert(views(ids@)[p as int] == ids@[p as int]@);
        let mut row: Vec<usize> = Vec::new();
        let mut k: usize = 0;
        while k < deps.len()
            invariant
                k <= deps@.len(),
                m == ids@.len(),
                row@ == succ_upto(views(ids@), deps@, k as int),
                forall|j: int| 0 <= j < row@.len() ==> (#[trigger] row@[j] as int) < m,
            decreases deps@.len() - k,
        {
            match last_position(ids, &deps[k]) {
                Some(q) => {
                    row.push(q);
                },
                None => {},
            }
            k = k + 1;
        }
        let ghost g0 = g@;
        let ghost rv = row@;
        assert(rv == cycle_graph(views(ids@), e@)[p as int]);
        g.push(row);
        assert forall|q: int| 0 <= q < p + 1 implies #[trigger] adj_view(g@)[q] == cycle_graph(views(ids@), e@)[q] by {
            assert(adj_view(g@)[q] == g@[q]@);
            if q < p {
                assert(g@[q] == g0[q]);
                assert(adj_view(g0)[q] == g0[q]@);
            } else {
                assert(g@[q]@ == rv);
            }
        }
        p = p + 1;
    }
    assert(adj_view(g@) =~= cycle_graph(views(ids@), e@));
    g
}

fn push_escaped(out: &mut String, s: &str)
    ensures
        final(out)@ == old(out)@ + escape_quotes(s@),
{
    let v = chars_of(s);
    let ghost o0 = out@;
    let mut k: usize = 0;
    while k < v.len()
        invariant
            k <= v@.len(),
            out@ == o0 + escape_quotes(v@.take(k as int)),
        decreases v@.len() - k,
    {
        assert(v@.take(k + 1).drop_last() =~= v@.take(k as int));
        if v[k] == '"' {
            push_char(out, '\\');
            push_char(out, '"');
            assert(out@ =~= o0 + escape_quotes(v@.take(k + 1)));
        } else {
            push_char(out, v[k]);
            assert(out@ =~= o0 + escape_quotes(v@.take(k + 1)));
        }
        k = k + 1;
    }
    assert(v@.take(v@.len() as int) =~= v@);
}

/// Render the leftover subgraph as a small Mermaid `graph LR`. Nodes and
/// edges that lie on an actual cycle are decorated: nodes get class
/// `cyclic`, edges a red `linkStyle`; dependents merely dragged into the
/// leftover set stay plain.
pub fn render_cycle_mermaid(cycle_ids: &Vec<String>, summaries: &Vec<(String, DeployableSummary)>) -> (out: String)
    ensures
        out@ == cycle_mermaid(views(cycle_ids@), summaries@),
{
    let ghost ids = views(cycle_ids@);
    let ghost e = summaries@;
    let g = cycle_adjacency(cycle_ids, summaries);
    let ghost gv = adj_view(g@);
    let m = cycle_ids.len();
    assert(g@.len() == gv.len());
    let mut out = String::new();
    append(&mut out, "graph LR\n");
    let ghost o0 = out@;
    let mut any_cyclic = false;
    let mut p: usize = 0;
    while p < m
        invariant
            p <= m,
            m == cycle_ids@.len(),
            ids == views(cycle_ids@),
            gv == adj_view(g@),
            gv == cycle_graph(ids, e),
            well_formed(gv),
            g@.len() == m,
            e == summaries@,
            out@ == o0 + node_lines(ids, e, p as int),
            any_cyclic == (exists|q: int| 0 <= q < p && on_cycle(ids, e, q)),
        decreases m - p,
    {
        let id = &cycle_ids[p];
        assert(ids[p as int] == id@);
        let me = last_position(cycle_ids, id);
        let here = match me { Some(x) => x, None => p };
        proof { lemma_pos_last_bound(ids, id@, m as int); }
        assert(here as int == pos_last(ids, ids[p as int], m as int)) by {
            if me is None {
                assert(pos_last(ids, ids[p as int], m as int) >= 0) by {
                    lemma_pos_last_found(ids, p as int, m as int);
                }
            }
        }
        let cyc = reachable_nontrivial(&g, p, here);
        append(&mut out, "    n");
        push_decimal(&mut out, p as u64);
        append(&mut out, "[\"");
        let nm = match key_index(summaries, id) {
            Some(i) => summaries[i].1.name.clone(),
            None => id.clone(),
        };
        push_escaped(&mut out, nm.as_str());
        append(&mut out, "\"]");
        if cyc {
            append(&mut out, ":::cyclic");
        }
        append(&mut out, "\n");
        proof {
            assert(nm@ == name_for(e, ids[p as int]));
            assert(cyc == on_cycle(ids, e, p as int));
            assert(node_lines(ids, e, p + 1) == node_lines(ids, e, p as int) + "    n"@ + decimal(p as nat) + "[\""@
                + escape_quotes(name_for(e, ids[p as int])) + "\"]"@
                + (if on_cycle(ids, e, p as int) { ":::cyclic"@ } else { Seq::empty() }) + "\n"@);
            assert(out@ =~= o0 + node_lines(ids, e, p + 1));
        }
        if cyc {
            any_cyclic = true;
        }
        p = p + 1;
    }
    let ghost o1 = out@;
    let mut flags: Vec<bool> = Vec::new();
    let mut p: usize = 0;
    while p < m
        invariant
            p <= m,
            m == cycle_ids@.len(),
            ids == views(cycle_ids@),
            gv == adj_view(g@),
            gv == cycle_graph(ids, e),
            well_formed(gv),
            g@.len() == m,
            e == summaries@,
            flags@ == edges_upto(ids, e, p as int).map_values(|x: EdgeLine| x.1),
            out@ == o1 + edge_text(edges_upto(ids, e, p as int)),
        decreases m - p,
    {
        let id = &cycle_ids[p];
        assert(ids[p as int] == id@);
        proof { lemma_pos_last_found(ids, p as int, m as int); }
        let from = match last_position(cycle_ids, id) { Some(x) => x, None => p };
        let deps = deps_for(summaries, id);
        let ghost base = edges_upto(ids, e, p as int);
        let mut k: usize = 0;
        while k < deps.len()
            invariant
                k <= deps@.len(),
                deps@ == deps_of(e, ids[p as int]),
                m == cycle_ids@.len(),
                ids == views(cycle_ids@),
                gv == adj_view(g@),
                gv == cycle_graph(ids, e),
                well_formed(gv),
                g@.len() == m,
                e == summaries@,
                p < m,
                from as int == pos_last(ids, ids[p as int], m as int),
                (from as int) < m,
                flags@ == (base + edges_of(ids, e, p as int, k as int)).map_values(|x: EdgeLine| x.1),
                out@ == o1 + edge_text(base + edges_of(ids, e, p as int, k as int)),
            decreases deps@.len() - k,
        {
            let ghost before = base + edges_of(ids, e, p as int, k as int);
            match last_position(cycle_ids, &deps[k]) {
                Some(to) => {
                    append(&mut out, "    n");
                    push_decimal(&mut out, from as u64);
                    append(&mut out, " --> n");
                    push_decimal(&mut out, to as u64);
                    append(&mut out, "\n");
                    let cyc = reachable_nontrivial(&g, to, from);
                    let ghost f0 = flags@;
                    flags.push(cyc);
                    proof {
                        let after = base + edges_of(ids, e, p as int, k + 1);
                        assert(after =~= before.push((
                            "    n"@ + decimal(from as nat) + " --> n"@ + decimal(to as nat) + "\n"@,
                            reach_nontrivial(gv, to as int, from as int),
                        )));
                        assert(after.drop_last() =~= before);
                        assert(out@ =~= o1 + edge_text(after));
                        assert(flags@ =~= after.map_values(|x: EdgeLine| x.1));
                    }
                },
                None => {
                    assert(base + edges_of(ids, e, p as int, k + 1) =~= before);
                },
            }
            k = k + 1;
        }
        assert(edges_upto(ids, e, p + 1) =~= base + edges_of(ids, e, p as int, deps@.len() as int));
        p = p + 1;
    }
    let ghost es = edges_upto(ids, e, m as int);
    let mut styles = String::new();
    let mut q: usize = 0;
    while q < flags.len()
        invariant
            q <= flags@.len(),
            flags@ == es.map_values(|x: EdgeLine| x.1),
            styles@ == link_styles(es, q as int),
        decreases flags@.len() - q,
    {
        if flags[q] {
            append(&mut styles, "    linkStyle ");
            push_decimal(&mut styles, q as u64);
            append(&mut styles, " stroke:#dc2626,stroke-width:2.5px\n");
        }
        q = q + 1;
    }
    if any_cyclic {
        append(&mut out, "    classDef cyclic stroke:#dc2626,stroke-width:2px,fill:#fef2f2,color:#7f1d1d\n");
    }
    append(&mut out, styles.as_str());
    proof {
        let es = edges_upto(ids, e, m as int);
        assert(out@ =~= cycle_mermaid(ids, e));
    }
    out
}

proof fn lemma_pos_last_found(ids: Seq<Seq<char>>, p: int, k: int)
    requires
        0 <= p < k <= ids.len(),
    ensures
        p <= pos_last(ids, ids[p], k) < k,
        ids[pos_last(ids, ids[p], k)] == ids[p],
    decreases k,
{
    if k - 1 != p && ids[k - 1] != ids[p] {
        lemma_pos_last_found(ids, p, k - 1);
    }
}

proof fn lemma_link_styles_prefix(es: Seq<EdgeLine>, k: int)
    requires
        0 <= k < es.len(),
    ensures
        link_styles(es, k) == link_styles(es.drop_last(), k),
    decreases k,
{
    if k > 0 {
        lemma_link_styles_prefix(es, k - 1);
    }
}


// ── the dependency walk ─────────────────────────────────────────────────────

/// The first pending id not yet seen, and what is pending after it.
pub open spec fn next_unseen(q: Seq<Seq<char>>, seen: Seq<Seq<char>>) -> (Option<Seq<char>>, Seq<Seq<char>>)
    decreases q.len(),
{
    if q.len() == 0 {
        (None, q)
    } else if seen.contains(q[0]) {
        next_unseen(q.drop_first(), seen)
    } else {
        (Some(q[0]), q.drop_first())
    }
}

proof fn lemma_next_unseen_none(q: Seq<Seq<char>>, seen: Seq<Seq<char>>)
    requires
        next_unseen(q, seen).0 is None,
    ensures
        forall|x: Seq<char>| q.contains(x) ==> seen.contains(x),
    decreases q.len(),
{
    if q.len() > 0 {
        lemma_next_unseen_none(q.drop_first(), seen);
        assert forall|x: Seq<char>| q.contains(x) implies seen.contains(x) by {
            let a = choose|a: int| 0 <= a < q.len() && q[a] == x;
            if a > 0 {
                assert(q.drop_first()[a - 1] == x);
            }
        }
    }
}

/// Index of the first key at `k` or later that does not sort before `id`.
pub open spec fn insert_pos(e: Seq<(String, DeployableSummary)>, id: Seq<char>, k: int) -> int
    decreases e.len() - k,
{
    if k < 0 || k >= e.len() {
        e.len() as int
    } else if seq_lt(e[k].0@, id) {
        insert_pos(e, id, k + 1)
    } else {
        k
    }
}

proof fn lemma_insert_pos_bound(e: Seq<(String, DeployableSummary)>, id: Seq<char>, k: int)
    requires
        0 <= k,
    ensures
        0 <= insert_pos(e, id, k) <= e.len(),
    decreases e.len() - k,
{
    if k < e.len() && seq_lt(e[k].0@, id) {
        lemma_insert_pos_bound(e, id, k + 1);
    }
}

/// Ordered-map insertion: replace the entry with key `id`, or insert one
/// where the keys stay in order.
pub open spec fn put(e: Seq<(String, DeployableSummary)>, id: String, s: DeployableSummary) -> Seq<
    (String, DeployableSummary),
> {
    let i = lookup(e, id@, 0);
    if i >= 0 {
        e.update(i, (id, s))
    } else {
        e.insert(insert_pos(e, id@, 0), (id, s))
    }
}

/// `x` is a dependency of some deployable of the affected set.
pub open spec fn depended_on(e: Seq<(String, DeployableSummary)>, x: Seq<char>) -> bool {
    exists|i: int, j: int| 0 <= i < e.len() && 0 <= j < e[i].1.depends_on@.len() && #[trigger] e[i].1.depends_on@[j]@ == x
}

/// Putting a deployable under a new key adds that key and that deployable's
/// dependencies, and keeps every other key and dependency.
proof fn lemma_put_new(e: Seq<(String, DeployableSummary)>, id: String, s: DeployableSummary)
    requires
        !is_key(e, id@),
    ensures
        forall|x: Seq<char>| #[trigger] is_key(put(e, id, s), x) <==> (is_key(e, x) || x == id@),
        forall|x: Seq<char>| #[trigger] depended_on(put(e, id, s), x) <==> (depended_on(e, x) || views(s.depends_on@).contains(x)),
{
    lemma_lookup(e, id@, 0);
    let q = insert_pos(e, id@, 0);
    lemma_insert_pos_bound(e, id@, 0);
    let f = put(e, id, s);
    assert(f == e.insert(q, (id, s)));
    assert forall|x: Seq<char>| #[trigger] is_key(f, x) <==> (is_key(e, x) || x == id@) by {
        if is_key(f, x) {
            let i = choose|i: int| 0 <= i < f.len() && f[i].0@ == x;
            if i < q {
                assert(e[i] == f[i]);
            } else if i > q {
                assert(e[i - 1] == f[i]);
            }
        }
        if is_key(e, x) {
            let o = choose|o: int| 0 <= o < e.len() && e[o].0@ == x;
            if o < q {
                assert(f[o] == e[o]);
            } else {
                assert(f[o + 1] == e[o]);
            }
        }
        if x == id@ {
            assert(f[q].0@ == x);
        }
    }
    assert forall|x: Seq<char>| #[trigger] depended_on(f, x) <==> (depended_on(e, x) || views(s.depends_on@).contains(x)) by {
        if depended_on(f, x) {
            let (i, j) = choose|i: int, j: int| 0 <= i < f.len() && 0 <= j < f[i].1.depends_on@.len() && #[trigger] f[i].1.depends_on@[j]@ == x;
            if i < q {
                assert(e[i] == f[i]);
                assert(e[i].1.depends_on@[j]@ == x);
            } else if i > q {
                assert(e[i - 1] == f[i]);
                assert(e[i - 1].1.depends_on@[j]@ == x);
            } else {
                assert(views(s.depends_on@)[j] == x);
            }
        }
        if depended_on(e, x) {
            let (o, j) = choose|o: int, j: int| 0 <= o < e.len() && 0 <= j < e[o].1.depends_on@.len() && #[trigger] e[o].1.depends_on@[j]@ == x;
            if o < q {
                assert(f[o] == e[o]);
                assert(f[o].1.depends_on@[j]@ == x);
            } else {
                assert(f[o + 1] == e[o]);
                assert(f[o + 1].1.depends_on@[j]@ == x);
            }
        }
        if views(s.depends_on@).contains(x) {
            let j = choose|j: int| 0 <= j < views(s.depends_on@).len() && views(s.depends_on@)[j] == x;
            assert(f[q].1.depends_on@[j]@ == x);
        }
    }
}

/// The blocker for a deployable Groundwork does not know.
pub open spec fn unknown_blocker(id: Seq<char>) -> BlockerView {
    BlockerView { kind: "unknown_deployable"@, message: "unknown deployable: "@ + id, mermaid: None }
}

/// The walk over Groundwork dependencies from the change request's targets:
/// ids are requested breadth-first, each at most once; known deployables
/// join the affected set (an ordered map by requested id) and queue their
/// dependencies; unknown ones become blockers. Each answer is received for
/// the id just requested, before the next request.
pub struct PlanWalk {
    queue: Vec<String>,
    head: usize,
    seen: Vec<String>,
    entries: Vec<(String, DeployableSummary)>,
    blockers: Vec<Blocker>,
    targets: Ghost<Seq<Seq<char>>>,
    awaiting: Ghost<Option<Seq<char>>>,
    unknown: Ghost<Seq<Seq<char>>>,
}

impl PlanWalk {
    /// The ids the walk started from.
    pub closed spec fn targets(&self) -> Seq<Seq<char>> {
        self.targets@
    }

    /// `x` was requested or waits to be.
    pub closed spec fn covers(&self, x: Seq<char>) -> bool {
        views(self.seen@).contains(x) || views(self.queue@).skip(self.head as int).contains(x)
    }

    /// Ids waiting to be requested, in order.
    pub closed spec fn pending(&self) -> Seq<Seq<char>> {
        views(self.queue@).skip(self.head as int)
    }

    /// Ids requested so far, in order.
    pub closed spec fn seen_ids(&self) -> Seq<Seq<char>> {
        views(self.seen@)
    }

    /// The affected set so far.
    pub closed spec fn entries(&self) -> Seq<(String, DeployableSummary)> {
        self.entries@
    }

    /// Blockers raised so far.
    pub closed spec fn blocker_list(&self) -> Seq<BlockerView> {
        blocker_views(self.blockers@)
    }

    /// The id requested last, while its answer has not been received.
    pub closed spec fn awaiting(&self) -> Option<Seq<char>> {
        self.awaiting@
    }

    /// The requested ids Groundwork did not know, in the order answered.
    pub closed spec fn unknown_ids(&self) -> Seq<Seq<char>> {
        self.unknown@
    }

    /// The walk's invariant: the affected set is ordered by key, no id was
    /// requested twice, and every target and every dependency of the
    /// affected set was requested or waits to be.
    pub closed spec fn wf(&self) -> bool {
        &&& self.head <= self.queue@.len()
        &&& keys_sorted(self.entries@)
        &&& forall|a: int, b: int| 0 <= a < b < self.seen@.len() ==> views(self.seen@)[a] != views(self.seen@)[b]
        &&& forall|i: int| 0 <= i < self.targets@.len() ==> self.covers(#[trigger] self.targets@[i])
        &&& forall|e: int, j: int| 0 <= e < self.entries@.len() && 0 <= j < self.entries@[e].1.depends_on@.len()
            ==> self.covers(#[trigger] self.entries@[e].1.depends_on@[j]@)
        &&& self.blockers@.len() == self.unknown@.len()
        &&& forall|i: int| 0 <= i < self.unknown@.len() ==> blocker_views(self.blockers@)[i] == unknown_blocker(#[trigger] self.unknown@[i])
        &&& forall|x: Seq<char>|
            #![trigger views(self.seen@).contains(x)]
            #![trigger is_key(self.entries@, x)]
            #![trigger self.unknown@.contains(x)]
            views(self.seen@).contains(x) <==> (is_key(self.entries@, x) || self.unknown@.contains(x) || self.awaiting@ == Some(x))
        &&& forall|x: Seq<char>| #[trigger] is_key(self.entries@, x) ==> !self.unknown@.contains(x)
        &&& self.awaiting@ matches Some(a) ==> !is_key(self.entries@, a) && !self.unknown@.contains(a)
        &&& forall|x: Seq<char>| #[trigger] self.covers(x) ==> self.targets@.contains(x) || depended_on(self.entries@, x)
    }

    /// A walk never requests an id twice: the ids requested so far are
    /// distinct.
    pub proof fn lemma_requests_distinct(&self)
        requires
            self.wf(),
        ensures
            forall|a: int, b: int| 0 <= a < b < self.seen_ids().len() ==> #[trigger] self.seen_ids()[a] != #[trigger] self.seen_ids()[b],
    {
    }

    /// A finished walk (no answer outstanding, nothing left to request)
    /// requested exactly the targets and the dependencies of the deployables
    /// Groundwork knew, each once; those deployables are exactly the
    /// affected set, the others are exactly the unknown ones, and each
    /// unknown one has its `unknown_deployable` blocker, in the order
    /// answered.
    pub proof fn lemma_finished_walk_is_the_known_closure(&self)
        requires
            self.wf(),
            self.awaiting() is None,
            next_unseen(self.pending(), self.seen_ids()).0 is None,
        ensures
            forall|x: Seq<char>| #[trigger] self.seen_ids().contains(x) <==> (self.targets().contains(x)
                || depended_on(self.entries(), x)),
            forall|x: Seq<char>| #[trigger] self.seen_ids().contains(x) <==> (is_key(self.entries(), x)
                || self.unknown_ids().contains(x)),
            forall|x: Seq<char>| #[trigger] is_key(self.entries(), x) ==> !self.unknown_ids().contains(x),
            forall|a: int, b: int| 0 <= a < b < self.seen_ids().len() ==> #[trigger] self.seen_ids()[a] != #[trigger] self.seen_ids()[b],
            self.blocker_list().len() == self.unknown_ids().len(),
            forall|i: int| 0 <= i < self.unknown_ids().len() ==> #[trigger] self.blocker_list()[i] == unknown_blocker(self.unknown_ids()[i]),
    {
        lemma_next_unseen_none(self.pending(), self.seen_ids());
        assert forall|x: Seq<char>| #[trigger] self.seen_ids().contains(x) <==> (self.targets().contains(x)
            || depended_on(self.entries(), x)) by {
            if self.seen_ids().contains(x) {
                assert(self.covers(x));
            }
            if self.targets().contains(x) {
                let i = choose|i: int| 0 <= i < self.targets@.len() && self.targets@[i] == x;
                assert(self.covers(self.targets@[i]));
            }
            if depended_on(self.entries(), x) {
                let (e, j) = choose|e: int, j: int| 0 <= e < self.entries@.len() && 0 <= j < self.entries@[e].1.depends_on@.len()
                    && #[trigger] self.entries@[e].1.depends_on@[j]@ == x;
                assert(self.covers(self.entries@[e].1.depends_on@[j]@));
            }
        }
        assert forall|i: int| 0 <= i < self.unknown_ids().len() implies #[trigger] self.blocker_list()[i] == unknown_blocker(self.unknown_ids()[i]) by {
            assert(blocker_views(self.blockers@)[i] == unknown_blocker(self.unknown@[i]));
        }
    }

    /// Start a walk from the target deployables.
    pub fn new(targets: &Vec<String>) -> (w: PlanWalk)
        ensures
            w.wf(),
            w.targets() == views(targets@),
            w.pending() == views(targets@),
            w.seen_ids() == Seq::<Seq<char>>::empty(),
            w.entries() == Seq::<(String, DeployableSummary)>::empty(),
            w.blocker_list() == Seq::<BlockerView>::empty(),
            w.awaiting() is None,
            w.unknown_ids() == Seq::<Seq<char>>::empty(),
    {
        let mut queue: Vec<String> = Vec::new();
        let mut k: usize = 0;
        while k < targets.len()
            invariant
                k <= targets@.len(),
                views(queue@) == views(targets@).take(k as int),
            decreases targets@.len() - k,
        {
            let ghost q0 = views(queue@);
            queue.push(targets[k].clone());
            assert(views(queue@) =~= q0.push(targets@[k as int]@));
            assert(views(targets@).take(k + 1) =~= views(targets@).take(k as int).push(targets@[k as int]@));
            k = k + 1;
        }
        let w = PlanWalk {
            queue,
            head: 0,
            seen: Vec::new(),
            entries: Vec::new(),
            blockers: Vec::new(),
            targets: Ghost(views(targets@)),
            awaiting: Ghost(None),
            unknown: Ghost(Seq::empty()),
        };
        assert(views(w.queue@).skip(0) =~= views(targets@));
        assert forall|i: int| 0 <= i < w.targets@.len() implies w.covers(#[trigger] w.targets@[i]) by {
            assert(views(w.queue@).skip(w.head as int)[i] == w.targets@[i]);
        }
        assert(views(w.seen@) =~= Seq::<Seq<char>>::empty());
        assert(blocker_views(w.blockers@) =~= Seq::<BlockerView>::empty());
        assert forall|x: Seq<char>| #[trigger] w.covers(x) implies w.targets@.contains(x) || depended_on(w.entries@, x) by {
            assert(!views(w.seen@).contains(x));
        }
        w
    }

    /// The next id to request from Groundwork (the first pending id not yet
    /// requested), or `None` when the walk is complete.
    pub fn next_request(&mut self) -> (r: Option<String>)
        requires
            old(self).wf(),
            old(self).awaiting() is None,
        ensures
            final(self).wf(),
            final(self).awaiting() == match r {
                Some(id) => Some(id@),
                None => None::<Seq<char>>,
            },
            final(self).unknown_ids() == old(self).unknown_ids(),
            match r {
                Some(id) => next_unseen(old(self).pending(), old(self).seen_ids()) == (
                    Some(id@),
                    final(self).pending(),
                ) && final(self).seen_ids() == old(self).seen_ids().push(id@)
                    && !old(self).seen_ids().contains(id@),
                None => next_unseen(old(self).pending(), old(self).seen_ids()).0 is None
                    && final(self).seen_ids() == old(self).seen_ids(),
            },
            final(self).entries() == old(self).entries(),
            final(self).blocker_list() == old(self).blocker_list(),
            final(self).targets() == old(self).targets(),
    {
        let ghost q0 = self.pending();
        let ghost s0 = self.seen_ids();
        assert(q0 == old(self).pending());
        assert(s0 == old(self).seen_ids());
        while self.head < self.queue.len()
            invariant
                self.head <= self.queue@.len(),
                keys_sorted(self.entries@),
                self.entries@ == old(self).entries@,
                self.blockers@ == old(self).blockers@,
                self.seen@ == old(self).seen@,
                s0 == views(self.seen@),
                q0 == old(self).pending(),
                s0 == old(self).seen_ids(),
                forall|a: int, b: int| 0 <= a < b < self.seen@.len() ==> views(self.seen@)[a] != views(self.seen@)[b],
                next_unseen(q0, s0) == next_unseen(views(self.queue@).skip(self.head as int), s0),
                self.targets == old(self).targets,
                self.awaiting == old(self).awaiting,
                self.unknown == old(self).unknown,
                old(self).awaiting() is None,
                self.queue@ == old(self).queue@,
                old(self).wf(),
                forall|x: Seq<char>| #[trigger] q0.contains(x) ==>
                    views(self.queue@).skip(self.head as int).contains(x) || s0.contains(x),
                forall|x: Seq<char>| #[trigger] views(self.queue@).skip(self.head as int).contains(x) ==> q0.contains(x),
            decreases self.queue@.len() - self.head,
        {
            let h = self.head;
            let id = self.queue[h].clone();
            let ghost rest = views(self.queue@).skip(h as int);
            assert(rest[0] == id@);
            assert(rest.drop_first() =~= views(self.queue@).skip(h + 1));
            assert(rest.contains(id@));
            self.head = h + 1;
            assert forall|x: Seq<char>| #[trigger] views(self.queue@).skip(self.head as int).contains(x) implies q0.contains(x) by {
                let t0 = choose|t0: int| 0 <= t0 < rest.drop_first().len() && rest.drop_first()[t0] == x;
                assert(rest[t0 + 1] == x);
                assert(rest.contains(x));
            }
            let fresh = !seq_contains(&self.seen, &id);
            assert forall|x: Seq<char>| #[trigger] q0.contains(x) implies
                views(self.queue@).skip(self.head as int).contains(x) || s0.contains(x) || (fresh && x == id@) by {
                if rest.contains(x) {
                    let t0 = choose|t0: int| 0 <= t0 < rest.len() && rest[t0] == x;
                    if t0 > 0 {
                        assert(rest.drop_first()[t0 - 1] == x);
                    }
                }
            }
            proof {
                if fresh {
                    assert(next_unseen(rest, s0) == (Some(id@), rest.drop_first()));
                } else {
                    assert(next_unseen(rest, s0) == next_unseen(rest.drop_first(), s0));
                }
            }
            if fresh {
                let ghost sn = views(self.seen@);
                self.seen.push(id.clone());
                assert(views(self.seen@) =~= sn.push(id@));
                assert forall|a: int, b: int| 0 <= a < b < self.seen@.len() implies views(self.seen@)[a] != views(self.seen@)[b] by {
                    if b == sn.len() {
                        assert(views(self.seen@)[a] == sn[a]);
                    } else {
                        assert(views(self.seen@)[a] == sn[a] && views(self.seen@)[b] == sn[b]);
                    }
                }
                assert(self.pending() == rest.drop_first());
                assert(self.seen_ids() == s0.push(id@));
                assert(next_unseen(q0, s0) == next_unseen(rest, s0));
                assert(next_unseen(q0, s0) == (Some(id@), self.pending()));
                assert forall|x: Seq<char>| old(self).covers(x) implies self.covers(x) by {
                    if views(old(self).seen@).contains(x) {
                        let a = choose|a: int| 0 <= a < sn.len() && sn[a] == x;
                        assert(views(self.seen@)[a] == x);
                    } else if x == id@ {
                        assert(views(self.seen@)[sn.len() as int] == x);
                    } else {
                        assert(q0.contains(x));
                    }
                }
                assert forall|i: int| 0 <= i < self.targets@.len() implies self.covers(#[trigger] self.targets@[i]) by {
                    assert(old(self).covers(old(self).targets@[i]));
                }
                assert forall|e: int, j: int| 0 <= e < self.entries@.len() && 0 <= j < self.entries@[e].1.depends_on@.len()
                    implies self.covers(#[trigger] self.entries@[e].1.depends_on@[j]@) by {
                    assert(old(self).covers(old(self).entries@[e].1.depends_on@[j]@));
                }
                self.awaiting = Ghost(Some(id@));
                proof {
                    assert(!sn.contains(id@));
                    assert forall|x: Seq<char>|
                        #![trigger views(self.seen@).contains(x)]
                        #![trigger is_key(self.entries@, x)]
                        #![trigger self.unknown@.contains(x)]
                        views(self.seen@).contains(x) <==> (is_key(self.entries@, x) || self.unknown@.contains(x) || self.awaiting@ == Some(x)) by {
                        if views(self.seen@).contains(x) && x != id@ {
                            let a = choose|a: int| 0 <= a < views(self.seen@).len() && views(self.seen@)[a] == x;
                            assert(a < sn.len());
                            assert(sn[a] == x);
                            assert(sn.contains(x));
                        }
                        if is_key(self.entries@, x) || self.unknown@.contains(x) {
                            assert(sn.contains(x));
                            let a = choose|a: int| 0 <= a < sn.len() && sn[a] == x;
                            assert(views(self.seen@)[a] == x);
                        }
                        if x == id@ {
                            assert(views(self.seen@)[sn.len() as int] == x);
                        }
                    }
                    assert forall|x: Seq<char>| #[trigger] self.covers(x) implies self.targets@.contains(x) || depended_on(self.entries@, x) by {
                        if views(self.seen@).contains(x) {
                            if x != id@ {
                                let a = choose|a: int| 0 <= a < views(self.seen@).len() && views(self.seen@)[a] == x;
                                assert(sn[a] == x);
                                assert(sn.contains(x));
                            } else {
                                assert(q0.contains(x));
                            }
                        } else {
                            assert(q0.contains(x));
                        }
                        assert(old(self).covers(x));
                    }
                }
                return Some(id);
            }
        }
        assert(views(self.queue@).skip(self.head as int) =~= Seq::<Seq<char>>::empty());
        assert forall|x: Seq<char>| #[trigger] self.covers(x) implies self.targets@.contains(x) || depended_on(self.entries@, x) by {
            assert(old(self).covers(x));
        }
        assert forall|x: Seq<char>| old(self).covers(x) implies self.covers(x) by {
            if q0.contains(x) {
                assert(!views(self.queue@).skip(self.head as int).contains(x));
            }
        }
        assert forall|i: int| 0 <= i < self.targets@.len() implies self.covers(#[trigger] self.targets@[i]) by {
            assert(old(self).covers(old(self).targets@[i]));
        }
        assert forall|e: int, j: int| 0 <= e < self.entries@.len() && 0 <= j < self.entries@[e].1.depends_on@.len()
            implies self.covers(#[trigger] self.entries@[e].1.depends_on@[j]@) by {
            assert(old(self).covers(old(self).entries@[e].1.depends_on@[j]@));
        }
        None
    }

    /// Record Groundwork's answer for a requested id: a known deployable
    /// joins the affected set and queues its dependencies; an unknown one
    /// becomes an `unknown_deployable` blocker.
    pub fn receive(&mut self, id: String, summary: Option<DeployableSummary>)
        requires
            old(self).wf(),
            old(self).awaiting() == Some(id@),
        ensures
            final(self).wf(),
            final(self).seen_ids() == old(self).seen_ids(),
            final(self).targets() == old(self).targets(),
            final(self).awaiting() is None,
            match summary {
                Some(s) => {
                    &&& final(self).pending() == old(self).pending() + views(s.depends_on@)
                    &&& final(self).entries() == put(old(self).entries(), id, s)
                    &&& final(self).blocker_list() == old(self).blocker_list()
                    &&& final(self).unknown_ids() == old(self).unknown_ids()
                },
                None => {
                    &&& final(self).pending() == old(self).pending()
                    &&& final(self).entries() == old(self).entries()
                    &&& final(self).blocker_list() == old(self).blocker_list().push(unknown_blocker(id@))
                    &&& final(self).unknown_ids() == old(self).unknown_ids().push(id@)
                },
            },
    {
        match summary {
            None => {
                let mut message = String::new();
                append(&mut message, "unknown deployable: ");
                append(&mut message, id.as_str());
                let b = Blocker { kind: owned_literal("unknown_deployable"), message, mermaid: None };
                let ghost b0 = blocker_views(self.blockers@);
                self.blockers.push(b);
                assert(blocker_views(self.blockers@) =~= b0.push(unknown_blocker(id@)));
                let ghost u0 = self.unknown@;
                self.unknown = Ghost(u0.push(id@));
                self.awaiting = Ghost(None);
                proof {
                    assert forall|i: int| 0 <= i < self.unknown@.len() implies blocker_views(self.blockers@)[i] == unknown_blocker(#[trigger] self.unknown@[i]) by {
                        if i < u0.len() {
                            assert(self.unknown@[i] == u0[i]);
                            assert(blocker_views(self.blockers@)[i] == b0[i]);
                        }
                    }
                    assert forall|x: Seq<char>|
                        #![trigger views(self.seen@).contains(x)]
                        #![trigger is_key(self.entries@, x)]
                        #![trigger self.unknown@.contains(x)]
                        views(self.seen@).contains(x) <==> (is_key(self.entries@, x) || self.unknown@.contains(x) || self.awaiting@ == Some(x)) by {
                        if self.unknown@.contains(x) && x != id@ {
                            let a = choose|a: int| 0 <= a < self.unknown@.len() && self.unknown@[a] == x;
                            assert(u0[a] == x);
                            assert(u0.contains(x));
                        }
                        if u0.contains(x) {
                            let a = choose|a: int| 0 <= a < u0.len() && u0[a] == x;
                            assert(self.unknown@[a] == x);
                        }
                        if x == id@ {
                            assert(self.unknown@[u0.len() as int] == x);
                        }
                    }
                    assert forall|x: Seq<char>| #[trigger] is_key(self.entries@, x) implies !self.unknown@.contains(x) by {
                        if self.unknown@.contains(x) {
                            let a = choose|a: int| 0 <= a < self.unknown@.len() && self.unknown@[a] == x;
                            if a < u0.len() {
                                assert(u0[a] == x);
                                assert(u0.contains(x));
                            }
                        }
                    }
                    assert forall|x: Seq<char>| #[trigger] self.covers(x) implies self.targets@.contains(x) || depended_on(self.entries@, x) by {
                        assert(old(self).covers(x));
                    }
                }
                assert forall|i: int| 0 <= i < self.targets@.len() implies self.covers(#[trigger] self.targets@[i]) by {
                    assert(old(self).covers(old(self).targets@[i]));
                }
                assert forall|e: int, j: int| 0 <= e < self.entries@.len() && 0 <= j < self.entries@[e].1.depends_on@.len()
                    implies self.covers(#[trigger] self.entries@[e].1.depends_on@[j]@) by {
                    assert(old(self).covers(old(self).entries@[e].1.depends_on@[j]@));
                }
            },
            Some(s) => {
                let ghost p0 = self.pending();
                let mut k: usize = 0;
                while k < s.depends_on.len()
                    invariant
                        k <= s.depends_on@.len(),
                        self.head <= self.queue@.len(),
                        views(self.queue@).skip(self.head as int) == p0 + views(s.depends_on@).take(k as int),
                        self.entries@ == old(self).entries@,
                        self.blockers@ == old(self).blockers@,
                        self.seen@ == old(self).seen@,
                        self.targets == old(self).targets,
                        self.awaiting == old(self).awaiting,
                        self.unknown == old(self).unknown,
                        self.head == old(self).head,
                        p0 == old(self).pending(),
                    decreases s.depends_on@.len() - k,
                {
                    let ghost qv = views(self.queue@);
                    self.queue.push(s.depends_on[k].clone());
                    assert(views(self.queue@) =~= qv.push(s.depends_on@[k as int]@));
                    assert(views(self.queue@).skip(self.head as int) =~= qv.skip(self.head as int).push(s.depends_on@[k as int]@));
                    assert(views(s.depends_on@).take(k + 1) =~= views(s.depends_on@).take(k as int).push(s.depends_on@[k as int]@));
                    assert(views(self.queue@).skip(self.head as int) =~= p0 + views(s.depends_on@).take(k + 1));
                    k = k + 1;
                }
                assert(views(s.depends_on@).take(s.depends_on@.len() as int) =~= views(s.depends_on@));
                let ghost e0 = self.entries@;
                let ghost sv = s;
                let ghost idv = id;
                self.put_entry(id, s);
                proof {
                    let pend = views(self.queue@).skip(self.head as int);
                    assert(pend == p0 + views(sv.depends_on@));
                    assert forall|x: Seq<char>| old(self).covers(x) implies self.covers(x) by {
                        if p0.contains(x) {
                            let a = choose|a: int| 0 <= a < p0.len() && p0[a] == x;
                            assert(pend[a] == x);
                        }
                    }
                    assert forall|j: int| 0 <= j < sv.depends_on@.len() implies self.covers(#[trigger] sv.depends_on@[j]@) by {
                        assert(pend[p0.len() + j] == views(sv.depends_on@)[j]);
                    }
                    assert forall|i: int| 0 <= i < self.targets@.len() implies self.covers(#[trigger] self.targets@[i]) by {
                        assert(old(self).covers(old(self).targets@[i]));
                    }
                    let f = self.entries@;
                    assert(f == put(e0, idv, sv));
                    assert forall|e: int| 0 <= e < f.len() implies f[e] == (idv, sv) || exists|o: int| 0 <= o < e0.len() && #[trigger] e0[o] == f[e] by {
                        let i = lookup(e0, idv@, 0);
                        lemma_lookup(e0, idv@, 0);
                        if i >= 0 {
                            if e != i {
                                assert(f[e] == e0[e]);
                            } else {
                                assert(f[e] == (idv, sv));
                            }
                        } else {
                            let q = insert_pos(e0, idv@, 0);
                            lemma_insert_pos_bound(e0, idv@, 0);
                            if e < q {
                                assert(f[e] == e0[e]);
                            } else if e > q {
                                assert(f[e] == e0[e - 1]);
                            } else {
                                assert(f[e] == (idv, sv));
                            }
                        }
                    }
                    assert forall|e: int, j: int| 0 <= e < f.len() && 0 <= j < f[e].1.depends_on@.len()
                        implies self.covers(#[trigger] f[e].1.depends_on@[j]@) by {
                        if f[e] != (idv, sv) {
                            let o = choose|o: int| 0 <= o < e0.len() && #[trigger] e0[o] == f[e];
                            assert(old(self).covers(e0[o].1.depends_on@[j]@));
                        } else {
                            assert(self.covers(sv.depends_on@[j]@));
                        }
                    }
                }
                self.awaiting = Ghost(None);
                proof {
                    let f = self.entries@;
                    let pend = views(self.queue@).skip(self.head as int);
                    assert(!is_key(e0, idv@));
                    lemma_put_new(e0, idv, sv);
                    assert forall|x: Seq<char>|
                        #![trigger views(self.seen@).contains(x)]
                        #![trigger is_key(self.entries@, x)]
                        #![trigger self.unknown@.contains(x)]
                        views(self.seen@).contains(x) <==> (is_key(self.entries@, x) || self.unknown@.contains(x) || self.awaiting@ == Some(x)) by {
                        assert(is_key(f, x) <==> (is_key(e0, x) || x == idv@));
                    }
                    assert forall|x: Seq<char>| #[trigger] is_key(self.entries@, x) implies !self.unknown@.contains(x) by {
                        assert(is_key(f, x) <==> (is_key(e0, x) || x == idv@));
                    }
                    assert forall|x: Seq<char>| #[trigger] self.covers(x) implies self.targets@.contains(x) || depended_on(self.entries@, x) by {
                        assert(depended_on(f, x) <==> (depended_on(e0, x) || views(sv.depends_on@).contains(x)));
                        if pend.contains(x) && !views(self.seen@).contains(x) {
                            let a = choose|a: int| 0 <= a < pend.len() && pend[a] == x;
                            if a < p0.len() {
                                assert(p0[a] == x);
                                assert(old(self).covers(x));
                            } else {
                                assert(views(sv.depends_on@)[a - p0.len()] == x);
                            }
                        } else {
                            assert(old(self).covers(x));
                        }
                    }
                }
            },
        }
    }

    fn put_entry(&mut self, id: String, s: DeployableSummary)
        requires
            keys_sorted(old(self).entries@),
        ensures
            keys_sorted(final(self).entries@),
            final(self).entries@ == put(old(self).entries@, id, s),
            final(self).queue == old(self).queue,
            final(self).head == old(self).head,
            final(self).seen == old(self).seen,
            final(self).blockers == old(self).blockers,
            final(self).targets == old(self).targets,
            final(self).awaiting == old(self).awaiting,
            final(self).unknown == old(self).unknown,
    {
        let ghost e = self.entries@;
        let n = self.entries.len();
        let mut p: usize = 0;
        while p < n && str_lt(self.entries[p].0.as_str(), id.as_str())
            invariant
                p <= n,
                n == self.entries@.len(),
                self.entries@ == e,
                forall|q: int| 0 <= q < p ==> seq_lt(#[trigger] e[q].0@, id@),
                insert_pos(e, id@, 0) == insert_pos(e, id@, p as int),
            decreases n - p,
        {
            p = p + 1;
        }
        proof {
            assert forall|q: int| 0 <= q < p implies e[q].0@ != id@ by {
                if e[q].0@ == id@ {
                    lemma_lt_irreflexive(id@);
                }
            }
        }
        if p < n && self.entries[p].0 == id {
            proof { lemma_lookup_at(e, id@, 0, p as int); }
            self.entries.set(p, (id, s));
            proof {
                assert forall|i: int, j: int| 0 <= i < j < self.entries@.len() implies seq_lt(
                    self.entries@[i].0@,
                    self.entries@[j].0@,
                ) by {
                    assert(self.entries@[i].0@ == e[i].0@ && self.entries@[j].0@ == e[j].0@);
                }
            }
        } else {
            proof {
                assert(insert_pos(e, id@, 0) == p);
                assert forall|q: int| p <= q < n implies seq_lt(id@, #[trigger] e[q].0@) by {
                    if p < n {
                        assert(!seq_lt(e[p as int].0@, id@));
                        assert(e[p as int].0@ != id@);
                        lemma_lt_total(e[p as int].0@, id@);
                        if q > p {
                            lemma_lt_transitive(id@, e[p as int].0@, e[q].0@);
                        }
                    }
                }
                assert forall|q: int| 0 <= q < n implies e[q].0@ != id@ by {
                    if q >= p && e[q].0@ == id@ {
                        lemma_lt_irreflexive(id@);
                    }
                }
                lemma_lookup_absent(e, id@, 0);
            }
            self.entries.insert(p, (id, s));
            proof {
                let f = self.entries@;
                assert(f == e.insert(p as int, (id, s)));
                assert forall|i: int, j: int| 0 <= i < j < f.len() implies seq_lt(f[i].0@, f[j].0@) by {
                    if j < p {
                        assert(f[i] == e[i] && f[j] == e[j]);
                    } else if j == p {
                        assert(f[i] == e[i]);
                    } else if i == p {
                        assert(f[j] == e[j - 1]);
                    } else if i < p {
                        assert(f[i] == e[i] && f[j] == e[j - 1]);
                        lemma_lt_transitive(e[i].0@, id@, e[j - 1].0@);
                    } else {
                        assert(f[i] == e[i - 1] && f[j] == e[j - 1]);
                    }
                }
            }
        }
    }

    /// The affected set and blockers gathered by the walk.
    pub fn into_parts(self) -> (r: (Vec<(String, DeployableSummary)>, Vec<Blocker>))
        requires
            self.wf(),
        ensures
            r.0@ == self.entries(),
            keys_sorted(r.0@),
            blocker_views(r.1@) == self.blocker_list(),
    {
        (self.entries, self.blockers)
    }
}

proof fn lemma_lookup_at(e: Seq<(String, DeployableSummary)>, id: Seq<char>, k: int, p: int)
    requires
        0 <= k <= p < e.len(),
        e[p].0@ == id,
        forall|q: int| k <= q < p ==> e[q].0@ != id,
    ensures
        lookup(e, id, k) == p,
    decreases p - k,
{
    if k < p {
        lemma_lookup_at(e, id, k + 1, p);
    }
}

proof fn lemma_lookup_absent(e: Seq<(String, DeployableSummary)>, id: Seq<char>, k: int)
    requires
        0 <= k,
        forall|q: int| k <= q < e.len() ==> e[q].0@ != id,
    ensures
        lookup(e, id, k) == -1,
    decreases e.len() - k,
{
    if k < e.len() {
        lemma_lookup_absent(e, id, k + 1);
    }
}


// ── assembling the plan ─────────────────────────────────────────────────────

/// An orphan blocker for each of the first `k` entries without a team.
pub open spec fn orphan_blockers(e: Seq<(String, DeployableSummary)>, k: int) -> Seq<BlockerView>
    decreases k,
{
    if k <= 0 {
        Seq::empty()
    } else {
        let s = e[k - 1].1;
        let orphan = match s.team_id {
            Some(t) => t@.len() == 0,
            None => true,
        };
        orphan_blockers(e, k - 1) + if orphan {
            seq![BlockerView { kind: "orphan"@, message: "orphan: "@ + s.name@, mermaid: None }]
        } else {
            Seq::empty()
        }
    }
}

/// Positions in `order` of the first `k` dependencies that were ordered.
pub open spec fn preds(order: Seq<Seq<char>>, deps: Seq<String>, k: int) -> Seq<usize>
    decreases k,
{
    if k <= 0 {
        Seq::empty()
    } else {
        let p = pos_last(order, deps[k - 1]@, order.len() as int);
        if p >= 0 {
            preds(order, deps, k - 1).push(p as usize)
        } else {
            preds(order, deps, k - 1)
        }
    }
}

/// Index of the first team entry at `k` or later for team `t`, or -1.
pub open spec fn team_index(tg: Seq<(String, Vec<PlanGate>)>, t: Seq<char>, k: int) -> int
    decreases tg.len() - k,
{
    if k < 0 || k >= tg.len() {
        -1
    } else if tg[k].0@ == t {
        k
    } else {
        team_index(tg, t, k + 1)
    }
}

/// The gates of a deployable's team: those listed for it, none when the
/// deployable has no team.
pub open spec fn gates_for(tg: Seq<(String, Vec<PlanGate>)>, team: Option<String>) -> Seq<PlanGate> {
    match team {
        Some(t) => if t@.len() > 0 {
            let j = team_index(tg, t@, 0);
            if j >= 0 { tg[j].1@ } else { Seq::empty() }
        } else {
            Seq::empty()
        },
        None => Seq::empty(),
    }
}

/// Step `i` deploys the `i`-th ordered deployable, after the steps of its
/// ordered dependencies, behind its team's gates.
pub open spec fn step_ok(
    st: PlanStep,
    i: int,
    e: Seq<(String, DeployableSummary)>,
    order: Seq<Seq<char>>,
    tg: Seq<(String, Vec<PlanGate>)>,
) -> bool {
    let s = e[lookup(e, order[i], 0)].1;
    &&& st.order == i
    &&& st.deployable_id == s.id
    &&& st.deployable_name == s.name
    &&& st.action@ == "deploy"@
    &&& st.predecessor_orders@ == preds(order, s.depends_on@, s.depends_on@.len() as int)
    &&& st.gates@ == gates_for(tg, s.team_id)
    &&& st.estimated_minutes == 10
}

proof fn lemma_kahn_keys(e: Seq<(String, DeployableSummary)>, placed: Seq<Seq<char>>)
    requires
        forall|a: int| 0 <= a < placed.len() ==> is_key(e, #[trigger] placed[a]),
    ensures
        forall|a: int| 0 <= a < kahn_from(e, placed).len() ==> is_key(e, #[trigger] kahn_from(e, placed)[a]),
    decreases e.len() - placed.len(),
{
    if placed.len() < e.len() {
        let r = first_ready(e, placed, 0);
        if r >= 0 {
            lemma_first_ready_range(e, placed, 0);
            let np = placed.push(e[r].0@);
            assert forall|a: int| 0 <= a < np.len() implies is_key(e, #[trigger] np[a]) by {
                if a == placed.len() {
                    assert(np[a] == e[r].0@);
                } else {
                    assert(np[a] == placed[a]);
                }
            }
            lemma_kahn_keys(e, np);
            assert(kahn_from(e, placed) == kahn_from(e, np));
        } else {
            assert(kahn_from(e, placed) == placed);
        }
    } else {
        assert(kahn_from(e, placed) == placed);
    }
}

proof fn lemma_first_ready_range(e: Seq<(String, DeployableSummary)>, placed: Seq<Seq<char>>, k: int)
    requires
        0 <= k,
    ensures
        first_ready(e, placed, k) == -1 || k <= first_ready(e, placed, k) < e.len(),
    decreases e.len() - k,
{
    if k < e.len() && !ready(e, placed, k) {
        lemma_first_ready_range(e, placed, k + 1);
    }
}

proof fn lemma_leftover_keys(e: Seq<(String, DeployableSummary)>, placed: Seq<Seq<char>>, k: int)
    requires
        0 <= k <= e.len(),
    ensures
        forall|a: int| 0 <= a < leftover_upto(e, placed, k).len() ==> is_key(e, #[trigger] leftover_upto(e, placed, k)[a]),
    decreases k,
{
    if k > 0 {
        lemma_leftover_keys(e, placed, k - 1);
        let prev = leftover_upto(e, placed, k - 1);
        assert forall|a: int| 0 <= a < leftover_upto(e, placed, k).len() implies is_key(e, #[trigger] leftover_upto(e, placed, k)[a]) by {
            if a < prev.len() {
                assert(leftover_upto(e, placed, k)[a] == prev[a]);
            }
        }
    }
}

/// Every deployment-ordered id is a key of the affected set.
proof fn lemma_topo_keys(e: Seq<(String, DeployableSummary)>)
    ensures
        forall|a: int| 0 <= a < topo_order(e).len() ==> is_key(e, #[trigger] topo_order(e)[a]),
{
    lemma_kahn_keys(e, Seq::empty());
    let k = kahn_from(e, Seq::empty());
    lemma_leftover_keys(e, k, e.len() as int);
    assert forall|a: int| 0 <= a < topo_order(e).len() implies is_key(e, #[trigger] topo_order(e)[a]) by {
        if a < k.len() {
            assert(topo_order(e)[a] == k[a]);
        } else {
            assert(topo_order(e)[a] == leftover_upto(e, k, e.len() as int)[a - k.len()]);
        }
    }
}

/// `placed` holds distinct keys, each after the in-set dependencies of its
/// entry.
pub open spec fn placed_ok(e: Seq<(String, DeployableSummary)>, placed: Seq<Seq<char>>) -> bool {
    &&& forall|a: int, b: int| 0 <= a < b < placed.len() ==> #[trigger] placed[a] != #[trigger] placed[b]
    &&& forall|a: int| 0 <= a < placed.len() ==> is_key(e, #[trigger] placed[a])
    &&& forall|p: int, i: int| 0 <= p < placed.len() && 0 <= i < e.len() && #[trigger] placed[p] == #[trigger] e[i].0@
        ==> deps_before(e, placed, p, i)
}

/// Every in-set dependency of entry `i` is among the first `p` of `order`.
pub open spec fn deps_before(e: Seq<(String, DeployableSummary)>, order: Seq<Seq<char>>, p: int, i: int) -> bool {
    forall|a: int| 0 <= a < in_set_deps(e, i).len() ==> dep_placed_before(order, p, #[trigger] in_set_deps(e, i)[a])
}

/// `d` is among the first `p` of `order`.
pub open spec fn dep_placed_before(order: Seq<Seq<char>>, p: int, d: Seq<char>) -> bool {
    exists|q: int| 0 <= q < p && #[trigger] order[q] == d
}

proof fn lemma_keys_distinct(e: Seq<(String, DeployableSummary)>, i: int, j: int)
    requires
        keys_sorted(e),
        0 <= i < e.len(),
        0 <= j < e.len(),
        e[i].0@ == e[j].0@,
    ensures
        i == j,
{
    if i < j {
        lemma_lt_irreflexive(e[i].0@);
    } else if j < i {
        lemma_lt_irreflexive(e[j].0@);
    }
}

proof fn lemma_kahn_ok(e: Seq<(String, DeployableSummary)>, placed: Seq<Seq<char>>)
    requires
        keys_sorted(e),
        placed_ok(e, placed),
    ensures
        placed_ok(e, kahn_from(e, placed)),
    decreases e.len() - placed.len(),
{
    if placed.len() < e.len() {
        let r = first_ready(e, placed, 0);
        if r >= 0 {
            lemma_first_ready_range(e, placed, 0);
            lemma_first_ready_is_ready(e, placed, 0);
            let np = placed.push(e[r].0@);
            assert forall|a: int, b: int| 0 <= a < b < np.len() implies #[trigger] np[a] != #[trigger] np[b] by {
                assert(np[a] == placed[a]);
                if b < placed.len() {
                    assert(np[b] == placed[b]);
                } else {
                    assert(placed.contains(np[a]));
                }
            }
            assert forall|a: int| 0 <= a < np.len() implies is_key(e, #[trigger] np[a]) by {
                if a < placed.len() {
                    assert(np[a] == placed[a]);
                } else {
                    assert(np[a] == e[r].0@);
                }
            }
            assert forall|p: int, i: int| 0 <= p < np.len() && 0 <= i < e.len() && #[trigger] np[p] == #[trigger] e[i].0@
                implies deps_before(e, np, p, i) by {
                if p < placed.len() {
                    assert(np[p] == placed[p]);
                    assert(deps_before(e, placed, p, i));
                    assert forall|a: int| 0 <= a < in_set_deps(e, i).len() implies
                        dep_placed_before(np, p, #[trigger] in_set_deps(e, i)[a]) by {
                        let d = in_set_deps(e, i)[a];
                        assert(exists|q: int| 0 <= q < p && #[trigger] placed[q] == d);
                        let q = choose|q: int| 0 <= q < p && #[trigger] placed[q] == d;
                        assert(np[q] == placed[q]);
                    }
                } else {
                    lemma_keys_distinct(e, i, r);
                    assert forall|a: int| 0 <= a < in_set_deps(e, i).len() implies
                        dep_placed_before(np, p, #[trigger] in_set_deps(e, i)[a]) by {
                        assert(placed.contains(in_set_deps(e, i)[a]));
                        let q = choose|q: int| 0 <= q < placed.len() && placed[q] == in_set_deps(e, i)[a];
                        assert(np[q] == placed[q]);
                    }
                }
            }
            lemma_kahn_ok(e, np);
            assert(kahn_from(e, placed) == kahn_from(e, np));
        }
    }
}

proof fn lemma_first_ready_is_ready(e: Seq<(String, DeployableSummary)>, placed: Seq<Seq<char>>, k: int)
    requires
        0 <= k,
    ensures
        first_ready(e, placed, k) >= 0 ==> ready(e, placed, first_ready(e, placed, k)),
        forall|j: int| k <= j < e.len() && ready(e, placed, j) ==> first_ready(e, placed, k) >= 0,
    decreases e.len() - k,
{
    if k < e.len() && !ready(e, placed, k) {
        lemma_first_ready_is_ready(e, placed, k + 1);
    }
}

proof fn lemma_leftover(e: Seq<(String, DeployableSummary)>, placed: Seq<Seq<char>>, k: int)
    requires
        keys_sorted(e),
        0 <= k <= e.len(),
    ensures
        forall|a: int| 0 <= a < leftover_upto(e, placed, k).len() ==>
            !placed.contains(#[trigger] leftover_upto(e, placed, k)[a]),
        forall|a: int, b: int| 0 <= a < b < leftover_upto(e, placed, k).len() ==>
            seq_lt(#[trigger] leftover_upto(e, placed, k)[a], #[trigger] leftover_upto(e, placed, k)[b]),
        forall|j: int| 0 <= j < k && !placed.contains(#[trigger] e[j].0@) ==> leftover_upto(e, placed, k).contains(e[j].0@),
        forall|a: int| #![trigger leftover_upto(e, placed, k)[a]] 0 <= a < leftover_upto(e, placed, k).len() ==>
            exists|j: int| 0 <= j < k && #[trigger] e[j].0@ == leftover_upto(e, placed, k)[a],
    decreases k,
{
    if k > 0 {
        lemma_leftover(e, placed, k - 1);
        let prev = leftover_upto(e, placed, k - 1);
        let now = leftover_upto(e, placed, k);
        if !placed.contains(e[k - 1].0@) {
            assert(now == prev.push(e[k - 1].0@));
            assert forall|a: int, b: int| 0 <= a < b < now.len() implies seq_lt(#[trigger] now[a], #[trigger] now[b]) by {
                assert(now[a] == prev[a]);
                if b < prev.len() {
                    assert(now[b] == prev[b]);
                } else {
                    let j = choose|j: int| 0 <= j < k - 1 && #[trigger] e[j].0@ == prev[a];
                    assert(seq_lt(e[j].0@, e[k - 1].0@));
                }
            }
            assert forall|j: int| 0 <= j < k && !placed.contains(#[trigger] e[j].0@) implies now.contains(e[j].0@) by {
                if j < k - 1 {
                    let a = choose|a: int| 0 <= a < prev.len() && prev[a] == e[j].0@;
                    assert(now[a] == prev[a]);
                } else {
                    assert(now[prev.len() as int] == e[j].0@);
                }
            }
            assert forall|a: int| #![trigger now[a]] 0 <= a < now.len() implies
                exists|j: int| 0 <= j < k && #[trigger] e[j].0@ == now[a] by {
                if a < prev.len() {
                    assert(now[a] == prev[a]);
                    let j = choose|j: int| 0 <= j < k - 1 && #[trigger] e[j].0@ == prev[a];
                } else {
                    assert(e[k - 1].0@ == now[a]);
                }
            }
            assert forall|a: int| 0 <= a < now.len() implies !placed.contains(#[trigger] now[a]) by {
                if a < prev.len() {
                    assert(now[a] == prev[a]);
                }
            }
        } else {
            assert(now == prev);
        }
    }
}

/// The deployment order lists every deployable of the affected set once:
/// each key appears, none twice, and nothing else. Its ordered part (all of
/// it when there is no cycle blocker) puts each deployable after every
/// dependency of it in the affected set; the deployables caught in or behind
/// a cycle follow in key order.
pub proof fn lemma_topo_order_covers_once_deps_first(e: Seq<(String, DeployableSummary)>)
    requires
        keys_sorted(e),
    ensures
        forall|i: int| 0 <= i < e.len() ==> topo_order(e).contains(#[trigger] e[i].0@),
        forall|a: int| 0 <= a < topo_order(e).len() ==> is_key(e, #[trigger] topo_order(e)[a]),
        forall|a: int, b: int| 0 <= a < b < topo_order(e).len() ==> #[trigger] topo_order(e)[a] != #[trigger] topo_order(e)[b],
        forall|p: int, i: int| 0 <= p < kahn_from(e, Seq::empty()).len() && 0 <= i < e.len()
            && #[trigger] topo_order(e)[p] == #[trigger] e[i].0@ ==> deps_before(e, topo_order(e), p, i),
        cycle_blockers(e).len() == 0 ==> kahn_from(e, Seq::empty()) == topo_order(e),
{
    let k = kahn_from(e, Seq::empty());
    let n = e.len() as int;
    let left = leftover_upto(e, k, n);
    let t = topo_order(e);
    assert(t == k + left);
    assert(placed_ok(e, Seq::empty()));
    lemma_kahn_ok(e, Seq::empty());
    lemma_leftover(e, k, n);
    lemma_topo_keys(e);
    assert forall|i: int| 0 <= i < e.len() implies t.contains(#[trigger] e[i].0@) by {
        if k.contains(e[i].0@) {
            let a = choose|a: int| 0 <= a < k.len() && k[a] == e[i].0@;
            assert(t[a] == k[a]);
        } else {
            let a = choose|a: int| 0 <= a < left.len() && left[a] == e[i].0@;
            assert(t[k.len() + a] == left[a]);
        }
    }
    assert forall|a: int, b: int| 0 <= a < b < t.len() implies #[trigger] t[a] != #[trigger] t[b] by {
        if b < k.len() {
            assert(t[a] == k[a] && t[b] == k[b]);
        } else if a < k.len() {
            assert(t[a] == k[a] && t[b] == left[b - k.len()]);
            assert(k.contains(t[a]));
        } else {
            assert(t[a] == left[a - k.len()] && t[b] == left[b - k.len()]);
            lemma_lt_irreflexive(t[a]);
        }
    }
    assert forall|p: int, i: int| 0 <= p < k.len() && 0 <= i < e.len() && #[trigger] t[p] == #[trigger] e[i].0@
        implies deps_before(e, t, p, i) by {
        assert(t[p] == k[p]);
        assert(deps_before(e, k, p, i));
        assert forall|a: int| 0 <= a < in_set_deps(e, i).len() implies
            dep_placed_before(t, p, #[trigger] in_set_deps(e, i)[a]) by {
            let d = in_set_deps(e, i)[a];
            assert(exists|q: int| 0 <= q < p && #[trigger] k[q] == d);
            let q = choose|q: int| 0 <= q < p && #[trigger] k[q] == d;
            assert(t[q] == k[q]);
        }
    }
    if cycle_blockers(e).len() == 0 {
        assert(left.len() == 0);
        assert(t =~= k);
    }
}

proof fn lemma_deps_in_set_keys(e: Seq<(String, DeployableSummary)>, i: int, k: int)
    ensures
        forall|a: int| 0 <= a < deps_in_set(e, i, k).len() ==> is_key(e, #[trigger] deps_in_set(e, i, k)[a]),
    decreases k,
{
    if k > 0 {
        lemma_deps_in_set_keys(e, i, k - 1);
        let prev = deps_in_set(e, i, k - 1);
        assert forall|a: int| 0 <= a < deps_in_set(e, i, k).len() implies is_key(e, #[trigger] deps_in_set(e, i, k)[a]) by {
            if a < prev.len() {
                assert(deps_in_set(e, i, k)[a] == prev[a]);
            }
        }
    }
}

/// Kahn's loop stops with every entry placed or none ready.
proof fn lemma_kahn_stops(e: Seq<(String, DeployableSummary)>, placed: Seq<Seq<char>>)
    ensures
        kahn_from(e, placed).len() >= e.len() || first_ready(e, kahn_from(e, placed), 0) < 0,
    decreases e.len() - placed.len(),
{
    if placed.len() < e.len() {
        let r = first_ready(e, placed, 0);
        if r >= 0 {
            lemma_first_ready_range(e, placed, 0);
            lemma_kahn_stops(e, placed.push(e[r].0@));
        }
    }
}

/// Distinct keys that leave out a key of the set are fewer than the set.
proof fn lemma_placed_fewer(e: Seq<(String, DeployableSummary)>, placed: Seq<Seq<char>>, j: int)
    requires
        forall|a: int, b: int| 0 <= a < b < placed.len() ==> #[trigger] placed[a] != #[trigger] placed[b],
        forall|a: int| 0 <= a < placed.len() ==> is_key(e, #[trigger] placed[a]),
        0 <= j < e.len(),
        !placed.contains(e[j].0@),
    ensures
        placed.len() < e.len(),
{
    let ks = Seq::new(e.len(), |i: int| e[i].0@);
    ks.lemma_cardinality_of_set();
    assert(placed.no_duplicates()) by {
        assert forall|a: int, b: int| 0 <= a < placed.len() && 0 <= b < placed.len() && a != b implies placed[a] != placed[b] by {
            if a < b {
                assert(placed[a] != placed[b]);
            } else {
                assert(placed[b] != placed[a]);
            }
        }
    }
    placed.unique_seq_to_set();
    let others = ks.to_set().remove(e[j].0@);
    assert(ks[j] == e[j].0@);
    assert(ks.to_set().contains(e[j].0@));
    assert(placed.to_set().subset_of(others)) by {
        assert forall|x: Seq<char>| placed.to_set().contains(x) implies others.contains(x) by {
            let a = choose|a: int| 0 <= a < placed.len() && placed[a] == x;
            assert(is_key(e, placed[a]));
            let i = choose|i: int| 0 <= i < e.len() && e[i].0@ == placed[a];
            assert(ks[i] == x);
            assert(ks.to_set().contains(x));
        }
    }
    vstd::seq_lib::seq_to_set_is_finite(ks);
    vstd::set_lib::lemma_len_subset(placed.to_set(), others);
}

/// Under a ranking in which every in-set dependency ranks below its
/// dependent, an entry left unplaced leads to a ready one.
proof fn lemma_ranked_ready(
    e: Seq<(String, DeployableSummary)>,
    rank: spec_fn(Seq<char>) -> nat,
    placed: Seq<Seq<char>>,
    j: int,
) -> (r: int)
    requires
        0 <= j < e.len(),
        !placed.contains(e[j].0@),
        forall|i: int, a: int| 0 <= i < e.len() && 0 <= a < in_set_deps(e, i).len()
            ==> rank(#[trigger] in_set_deps(e, i)[a]) < rank(e[i].0@),
    ensures
        0 <= r < e.len(),
        ready(e, placed, r),
    decreases rank(e[j].0@),
{
    if ready(e, placed, j) {
        j
    } else {
        let d = in_set_deps(e, j);
        let a = choose|a: int| 0 <= a < d.len() && !placed.contains(#[trigger] d[a]);
        lemma_deps_in_set_keys(e, j, e[j].1.depends_on@.len() as int);
        assert(is_key(e, d[a]));
        let m = choose|m: int| 0 <= m < e.len() && e[m].0@ == d[a];
        assert(rank(d[a]) < rank(e[j].0@));
        lemma_ranked_ready(e, rank, placed, m)
    }
}

/// A dependency graph without cycles orders completely: when a ranking puts
/// every in-set dependency below its dependent, `topo_sort` adds no
/// `dependency_cycle` blocker and the deployment order is Kahn's order.
pub proof fn lemma_acyclic_graph_has_no_cycle_blocker(e: Seq<(String, DeployableSummary)>, rank: spec_fn(Seq<char>) -> nat)
    requires
        keys_sorted(e),
        forall|i: int, a: int| 0 <= i < e.len() && 0 <= a < in_set_deps(e, i).len()
            ==> rank(#[trigger] in_set_deps(e, i)[a]) < rank(e[i].0@),
    ensures
        cycle_blockers(e).len() == 0,
        kahn_from(e, Seq::empty()) == topo_order(e),
{
    let k = kahn_from(e, Seq::empty());
    assert(placed_ok(e, Seq::empty()));
    lemma_kahn_ok(e, Seq::empty());
    lemma_kahn_stops(e, Seq::empty());
    lemma_leftover(e, k, e.len() as int);
    let left = leftover_upto(e, k, e.len() as int);
    if left.len() > 0 {
        assert(exists|j: int| 0 <= j < e.len() && #[trigger] e[j].0@ == left[0]);
        let j = choose|j: int| 0 <= j < e.len() && #[trigger] e[j].0@ == left[0];
        assert(!k.contains(left[0]));
        lemma_placed_fewer(e, k, j);
        let r = lemma_ranked_ready(e, rank, k, j);
        lemma_first_ready_is_ready(e, k, 0);
        assert(false);
    }
    lemma_topo_order_covers_once_deps_first(e);
}

/// The teams of the first `k` entries, each named once, in order of first
/// appearance; entries without a team (or with an empty one) add none.
pub open spec fn teams_upto(e: Seq<(String, DeployableSummary)>, k: int) -> Seq<Seq<char>>
    decreases k,
{
    if k <= 0 {
        Seq::empty()
    } else {
        let prev = teams_upto(e, k - 1);
        match e[k - 1].1.team_id {
            Some(t) => if t@.len() > 0 && !prev.contains(t@) { prev.push(t@) } else { prev },
            None => prev,
        }
    }
}

/// The teams whose gates a plan needs: each entry's team, once, in order
/// of first appearance.
pub fn plan_teams(entries: &Vec<(String, DeployableSummary)>) -> (out: Vec<String>)
    ensures
        views(out@) == teams_upto(entries@, entries@.len() as int),
        views(out@).no_duplicates(),
{
    let mut out: Vec<String> = Vec::new();
    let mut k: usize = 0;
    while k < entries.len()
        invariant
            k <= entries@.len(),
            views(out@) == teams_upto(entries@, k as int),
            views(out@).no_duplicates(),
        decreases entries@.len() - k,
    {
        match &entries[k].1.team_id {
            Some(t) => {
                if !t.as_str().is_empty() && !seq_contains(&out, t) {
                    let ghost o0 = views(out@);
                    out.push(t.clone());
                    assert(views(out@) =~= o0.push(t@));
                }
            },
            None => {},
        }
        k = k + 1;
    }
    out
}

/// Each id Kahn's loop places is the first ready entry, in key order, after
/// the ids placed before it.
proof fn lemma_kahn_picks(e: Seq<(String, DeployableSummary)>, placed: Seq<Seq<char>>)
    ensures
        kahn_from(e, placed).len() >= placed.len(),
        kahn_from(e, placed).take(placed.len() as int) == placed,
        forall|p: int| placed.len() <= p < kahn_from(e, placed).len() ==>
            0 <= #[trigger] first_ready(e, kahn_from(e, placed).take(p), 0) < e.len()
                && kahn_from(e, placed)[p] == e[first_ready(e, kahn_from(e, placed).take(p), 0)].0@,
    decreases e.len() - placed.len(),
{
    let res = kahn_from(e, placed);
    if placed.len() < e.len() {
        let r = first_ready(e, placed, 0);
        if r >= 0 {
            lemma_first_ready_range(e, placed, 0);
            let np = placed.push(e[r].0@);
            lemma_kahn_picks(e, np);
            assert(res == kahn_from(e, np));
            assert(res.take(placed.len() as int) =~= res.take(np.len() as int).take(placed.len() as int));
            assert(np.take(placed.len() as int) =~= placed);
            assert forall|p: int| placed.len() <= p < res.len() implies
                0 <= #[trigger] first_ready(e, res.take(p), 0) < e.len()
                    && res[p] == e[first_ready(e, res.take(p), 0)].0@ by {
                if p == placed.len() {
                    assert(res.take(p) =~= placed);
                    assert(res[p] == res.take(np.len() as int)[p]);
                }
            }
        } else {
            assert(res == placed);
            assert(res.take(placed.len() as int) =~= placed);
        }
    } else {
        assert(res.take(placed.len() as int) =~= placed);
    }
}

/// Whether a ranking puts every in-set dependency below its dependent
/// (the dependency graph over the keys has no cycle).
pub open spec fn ranked(e: Seq<(String, DeployableSummary)>, rank: spec_fn(Seq<char>) -> nat) -> bool {
    forall|i: int, a: int| 0 <= i < e.len() && 0 <= a < in_set_deps(e, i).len()
        ==> rank(#[trigger] in_set_deps(e, i)[a]) < rank(e[i].0@)
}

/// `topo_sort` as a whole: the order holds each key once and nothing
/// else; its ordered part puts every in-set dependency first, each step
/// taking the smallest-keyed ready entry; what cannot be ordered follows
/// in key order; at most one blocker is added, a `dependency_cycle` one
/// with a Mermaid diagram, exactly when something could not be ordered;
/// and under any ranking of the graph (no cycle) none is added.
pub proof fn lemma_topo_sort_law(e: Seq<(String, DeployableSummary)>)
    requires
        keys_sorted(e),
    ensures
        forall|i: int| 0 <= i < e.len() ==> topo_order(e).contains(#[trigger] e[i].0@),
        forall|a: int| 0 <= a < topo_order(e).len() ==> is_key(e, #[trigger] topo_order(e)[a]),
        forall|a: int, b: int| 0 <= a < b < topo_order(e).len() ==> #[trigger] topo_order(e)[a] != #[trigger] topo_order(e)[b],
        forall|p: int, i: int| 0 <= p < kahn_from(e, Seq::empty()).len() && 0 <= i < e.len()
            && #[trigger] topo_order(e)[p] == #[trigger] e[i].0@ ==> deps_before(e, topo_order(e), p, i),
        forall|p: int| 0 <= p < kahn_from(e, Seq::empty()).len() ==>
            #[trigger] topo_order(e)[p] == e[first_ready(e, topo_order(e).take(p), 0)].0@,
        forall|a: int, b: int| kahn_from(e, Seq::empty()).len() <= a < b < topo_order(e).len() ==>
            seq_lt(#[trigger] topo_order(e)[a], #[trigger] topo_order(e)[b]),
        cycle_blockers(e).len() <= 1,
        cycle_blockers(e).len() == 1 ==> cycle_blockers(e)[0].kind == "dependency_cycle"@ && cycle_blockers(e)[0].mermaid is Some,
        cycle_blockers(e).len() == 0 <==> kahn_from(e, Seq::empty()).len() == e.len(),
        forall|rank: spec_fn(Seq<char>) -> nat| #[trigger] ranked(e, rank) ==> cycle_blockers(e).len() == 0,
{
    let k = kahn_from(e, Seq::empty());
    let t = topo_order(e);
    let left = leftover_upto(e, k, e.len() as int);
    lemma_topo_order_covers_once_deps_first(e);
    lemma_kahn_picks(e, Seq::empty());
    lemma_leftover(e, k, e.len() as int);
    assert(t == k + left);
    assert forall|p: int| 0 <= p < k.len() implies #[trigger] t[p] == e[first_ready(e, t.take(p), 0)].0@ by {
        assert(t.take(p) =~= k.take(p));
        assert(t[p] == k[p]);
    }
    assert forall|a: int, b: int| k.len() <= a < b < t.len() implies seq_lt(#[trigger] t[a], #[trigger] t[b]) by {
        assert(t[a] == left[a - k.len()] && t[b] == left[b - k.len()]);
    }
    if k.len() == e.len() {
        if left.len() > 0 {
            assert(t.len() > e.len());
            let j = choose|j: int| 0 <= j < e.len() && #[trigger] e[j].0@ == left[0];
            assert(!k.contains(left[0]));
            assert(placed_ok(e, Seq::empty()));
            lemma_kahn_ok(e, Seq::empty());
            lemma_placed_fewer(e, k, j);
            assert(false);
        }
    } else {
        lemma_kahn_ok(e, Seq::empty());
        lemma_kahn_stops(e, Seq::empty());
        if left.len() == 0 {
            assert(t =~= k);
            assert forall|i: int| 0 <= i < e.len() implies k.contains(#[trigger] e[i].0@) by {
                assert(t.contains(e[i].0@));
            }
            let ks = Seq::new(e.len(), |i: int| e[i].0@);
            assert(k.no_duplicates());
            if k.len() < e.len() {
                assert forall|a: int, b: int| 0 <= a < ks.len() && 0 <= b < ks.len() && a != b implies ks[a] != ks[b] by {
                    if ks[a] == ks[b] {
                        lemma_keys_distinct(e, a, b);
                    }
                }
                ks.unique_seq_to_set();
                k.unique_seq_to_set();
                vstd::seq_lib::seq_to_set_is_finite(k);
                assert(ks.to_set().subset_of(k.to_set())) by {
                    assert forall|x: Seq<char>| ks.to_set().contains(x) implies k.to_set().contains(x) by {
                        let a = choose|a: int| 0 <= a < ks.len() && ks[a] == x;
                        assert(k.contains(e[a].0@));
                    }
                }
                vstd::set_lib::lemma_len_subset(ks.to_set(), k.to_set());
            }
            assert(k.len() <= e.len()) by {
                let ks = Seq::new(e.len(), |i: int| e[i].0@);
                k.unique_seq_to_set();
                vstd::seq_lib::seq_to_set_is_finite(ks);
                ks.lemma_cardinality_of_set();
                assert(k.to_set().subset_of(ks.to_set())) by {
                    assert forall|x: Seq<char>| k.to_set().contains(x) implies ks.to_set().contains(x) by {
                        let a = choose|a: int| 0 <= a < k.len() && k[a] == x;
                        assert(is_key(e, k[a]));
                        let i = choose|i: int| 0 <= i < e.len() && e[i].0@ == k[a];
                        assert(ks[i] == x);
                    }
                }
                vstd::set_lib::lemma_len_subset(k.to_set(), ks.to_set());
            }
        }
    }
    assert forall|rank: spec_fn(Seq<char>) -> nat| #[trigger] ranked(e, rank) implies cycle_blockers(e).len() == 0 by {
        lemma_acyclic_graph_has_no_cycle_blocker(e, rank);
    }
}

fn copy_opt(o: &Option<String>) -> (r: Option<String>)
    ensures
        r == *o,
{
    match o {
        Some(s) => Some(s.clone()),
        None => None,
    }
}

fn copy_gate(g: &PlanGate) -> (r: PlanGate)
    ensures
        r == *g,
{
    PlanGate {
        gate_type: g.gate_type.clone(),
        source_org_node: g.source_org_node.clone(),
        description: copy_opt(&g.description),
        window: copy_opt(&g.window),
        approvers: copy_opt(&g.approvers),
        quiesce_for: copy_opt(&g.quiesce_for),
    }
}

fn gates_of_team(tg: &Vec<(String, Vec<PlanGate>)>, team: &Option<String>) -> (r: Vec<PlanGate>)
    ensures
        r@ == gates_for(tg@, *team),
{
    match team {
        Some(t) => {
            if t.as_str().is_empty() {
                return Vec::new();
            }
            let mut j: usize = 0;
            while j < tg.len()
                invariant
                    j <= tg@.len(),
                    t@.len() > 0,
                    team == Some(*t),
                    gates_for(tg@, *team) == {
                        let x = team_index(tg@, t@, 0);
                        if x >= 0 { tg@[x].1@ } else { Seq::empty() }
                    },
                    team_index(tg@, t@, 0) == team_index(tg@, t@, j as int),
                decreases tg@.len() - j,
            {
                if tg[j].0 == *t {
                    assert(team_index(tg@, t@, j as int) == j);
                    let src = &tg[j].1;
                    let mut r: Vec<PlanGate> = Vec::new();
                    let mut q: usize = 0;
                    while q < src.len()
                        invariant
                            q <= src@.len(),
                            r@ == src@.take(q as int),
                        decreases src@.len() - q,
                    {
                        r.push(copy_gate(&src[q]));
                        assert(r@ =~= src@.take(q + 1));
                        q = q + 1;
                    }
                    assert(src@.take(src@.len() as int) =~= src@);
                    return r;
                }
                j = j + 1;
            }
            Vec::new()
        },
        None => Vec::new(),
    }
}

/// One step per ordered deployable.
fn plan_steps(
    e: &Vec<(String, DeployableSummary)>,
    order: &Vec<String>,
    tg: &Vec<(String, Vec<PlanGate>)>,
) -> (steps: Vec<PlanStep>)
    requires
        forall|a: int| 0 <= a < order@.len() ==> is_key(e@, #[trigger] views(order@)[a]),
    ensures
        steps@.len() == order@.len(),
        forall|i: int| 0 <= i < steps@.len() ==> step_ok(#[trigger] steps@[i], i, e@, views(order@), tg@),
{
    let mut steps: Vec<PlanStep> = Vec::new();
    let mut i: usize = 0;
    while i < order.len()
        invariant
            i <= order@.len(),
            forall|a: int| 0 <= a < order@.len() ==> is_key(e@, #[trigger] views(order@)[a]),
            steps@.len() == i,
            forall|q: int| 0 <= q < i ==> step_ok(#[trigger] steps@[q], q, e@, views(order@), tg@),
        decreases order@.len() - i,
    {
        assert(views(order@)[i as int] == order@[i as int]@);
        assert(is_key(e@, views(order@)[i as int]));
        let idx = key_index(e, &order[i]);
        let k = match idx { Some(k) => k, None => { assert(false); 0 } };
        let s = &e[k].1;
        let mut preds_v: Vec<usize> = Vec::new();
        let mut q: usize = 0;
        while q < s.depends_on.len()
            invariant
                q <= s.depends_on@.len(),
                preds_v@ == preds(views(order@), s.depends_on@, q as int),
            decreases s.depends_on@.len() - q,
        {
            match last_position(order, &s.depends_on[q]) {
                Some(p) => {
                    preds_v.push(p);
                },
                None => {},
            }
            q = q + 1;
        }
        let st = PlanStep {
            order: i,
            deployable_id: s.id.clone(),
            deployable_name: s.name.clone(),
            action: owned_literal("deploy"),
            predecessor_orders: preds_v,
            gates: gates_of_team(tg, &s.team_id),
            estimated_minutes: 10,
        };
        let ghost s0 = steps@;
        steps.push(st);
        assert forall|q: int| 0 <= q < i + 1 implies step_ok(#[trigger] steps@[q], q, e@, views(order@), tg@) by {
            if q < i {
                assert(steps@[q] == s0[q]);
            }
        }
        i = i + 1;
    }
    steps
}

/// Orphan blockers for the affected set, in key order.
fn orphans(e: &Vec<(String, DeployableSummary)>, blockers: &mut Vec<Blocker>)
    ensures
        blocker_views(final(blockers)@) == blocker_views(old(blockers)@) + orphan_blockers(e@, e@.len() as int),
{
    let ghost b0 = blocker_views(blockers@);
    let mut k: usize = 0;
    while k < e.len()
        invariant
            k <= e@.len(),
            blocker_views(blockers@) == b0 + orphan_blockers(e@, k as int),
        decreases e@.len() - k,
    {
        let s = &e[k].1;
        let orphan = match &s.team_id {
            Some(t) => t.as_str().is_empty(),
            None => true,
        };
        if orphan {
            let mut message = String::new();
            append(&mut message, "orphan: ");
            append(&mut message, s.name.as_str());
            let ghost bb = blockers@;
            let b = Blocker { kind: owned_literal("orphan"), message, mermaid: None };
            assert(b@ == BlockerView { kind: "orphan"@, message: "orphan: "@ + e@[k as int].1.name@, mermaid: None });
            blockers.push(b);
            assert(orphan_blockers(e@, k + 1) == orphan_blockers(e@, k as int) + seq![b@]);
            assert(blockers@ == bb.push(b));
            assert(blocker_views(blockers@) =~= blocker_views(bb).push(b@));
        } else {
            assert(orphan_blockers(e@, k + 1) =~= orphan_blockers(e@, k as int));
        }
        k = k + 1;
    }
}

/// Turn the walk's result into a plan: the walk's blockers, then orphans,
/// then a dependency-cycle blocker; one step per deployable in deployment
/// order, each behind its team's gates (`team_gates` lists the gates of
/// each team, from the team's effective bylaws).
pub fn assemble_plan(
    change_request_id: String,
    change_request_summary: String,
    tier: String,
    entries: Vec<(String, DeployableSummary)>,
    blockers: Vec<Blocker>,
    team_gates: &Vec<(String, Vec<PlanGate>)>,
    computed_at: String,
) -> (p: ComputedPlan)
    ensures
        p.change_request_id == change_request_id,
        p.change_request_summary == change_request_summary,
        p.tier == tier,
        p.computed_at == computed_at,
        blocker_views(p.blockers@) == blocker_views(blockers@) + orphan_blockers(entries@, entries@.len() as int)
            + cycle_blockers(entries@),
        p.steps@.len() == topo_order(entries@).len(),
        forall|i: int| 0 <= i < p.steps@.len() ==> step_ok(#[trigger] p.steps@[i], i, entries@, topo_order(entries@), team_gates@),
{
    let mut blockers = blockers;
    orphans(&entries, &mut blockers);
    let order = topo_sort(&entries, &mut blockers);
    proof { lemma_topo_keys(entries@); }
    let steps = plan_steps(&entries, &order, team_gates);
    ComputedPlan { change_request_id, change_request_summary, tier, steps, blockers, computed_at }
}

} // verus!
