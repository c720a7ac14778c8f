//! Strongly connected components of a directed graph on vertices `0..n`,
//! given as adjacency lists. A component is a class of mutual
//! reachability; components are listed sinks first (in reverse
//! topological order of the graph of components) and hold their vertices
//! in increasing order.

use vstd::prelude::*;

verus! {

/// The adjacency lists as sequences.
pub open spec fn adj_view(adj: Seq<Vec<usize>>) -> Seq<Seq<usize>> {
    adj.map_values(|v: Vec<usize>| v@)
}

/// `p` is a walk along edges of `adj` (of at least one vertex).
pub open spec fn is_path(adj: Seq<Seq<usize>>, p: Seq<usize>) -> bool {
    &&& p.len() >= 1
    &&& forall|i: int| 0 <= i < p.len() ==> (#[trigger] p[i] as int) < adj.len()
    &&& forall|i: int|
        0 <= i < p.len() - 1 ==> adj[p[i] as int].contains(#[trigger] p[i + 1])
}

/// `v` is reachable from `u` (every vertex reaches itself).
pub open spec fn reach(adj: Seq<Seq<usize>>, u: usize, v: usize) -> bool {
    exists|p: Seq<usize>| is_path(adj, p) && p[0] == u && p.last() == v
}

/// `u` and `v` reach each other.
pub open spec fn mutual(adj: Seq<Seq<usize>>, u: usize, v: usize) -> bool {
    reach(adj, u, v) && reach(adj, v, u)
}

/// The vertices `v < k` that are mutually reachable with `u`, ascending.
pub open spec fn class_upto(adj: Seq<Seq<usize>>, u: usize, k: int) -> Seq<usize>
    decreases k,
{
    if k <= 0 {
        Seq::empty()
    } else if mutual(adj, u, (k - 1) as usize) {
        class_upto(adj, u, k - 1).push((k - 1) as usize)
    } else {
        class_upto(adj, u, k - 1)
    }
}

/// `u` is the smallest vertex of its component.
pub open spec fn is_rep(adj: Seq<Seq<usize>>, u: usize) -> bool {
    forall|w: usize| w < u ==> !mutual(adj, w, u)
}

/// The components whose smallest vertex is below `k`, by smallest vertex.
pub open spec fn comps_upto(adj: Seq<Seq<usize>>, k: int) -> Seq<Seq<usize>>
    decreases k,
{
    if k <= 0 {
        Seq::empty()
    } else if is_rep(adj, (k - 1) as usize) {
        comps_upto(adj, k - 1).push(class_upto(adj, (k - 1) as usize, adj.len() as int))
    } else {
        comps_upto(adj, k - 1)
    }
}

/// The classes of mutual reachability, listed by smallest vertex.
pub open spec fn classes(adj: Seq<Seq<usize>>) -> Seq<Seq<usize>> {
    comps_upto(adj, adj.len() as int)
}

// ── depth-first search ─────────────────────────────────────────────────────

/// The state of a depth-first search: the frames of the path being
/// explored (a vertex and the index of its next successor), which vertices
/// were discovered, each vertex's discovery and finishing numbers, the next
/// of each number, the next vertex to start a search from, and whether the
/// search is over.
#[verifier::ext_equal]
pub struct DfsState {
    pub stack: Seq<(usize, usize)>,
    pub visited: Seq<bool>,
    pub pre: Seq<usize>,
    pub post: Seq<usize>,
    pub next_pre: usize,
    pub next_post: usize,
    pub root: usize,
    pub done: bool,
}

/// Nothing discovered yet; the search starts from vertex 0.
pub open spec fn dfs_start(n: nat) -> DfsState {
    DfsState {
        stack: Seq::empty(),
        visited: Seq::new(n, |i: int| false),
        pre: Seq::new(n, |i: int| 0usize),
        post: Seq::new(n, |i: int| 0usize),
        next_pre: 0,
        next_post: 0,
        root: 0,
        done: false,
    }
}

/// `u` discovered: numbered, and pushed onto `stack`.
pub open spec fn discover(s: DfsState, stack: Seq<(usize, usize)>, u: usize) -> DfsState {
    DfsState {
        stack: stack.push((u, 0usize)),
        visited: s.visited.update(u as int, true),
        pre: s.pre.update(u as int, s.next_pre),
        post: s.post,
        next_pre: (s.next_pre + 1) as usize,
        next_post: s.next_post,
        root: s.root,
        done: false,
    }
}

/// One step of the search: with no path, start from the next undiscovered
/// vertex (in index order); else look at the top vertex's next successor,
/// descending into it when it is undiscovered, or, when none is left,
/// finish the top vertex.
pub open spec fn dfs_step(adj: Seq<Seq<usize>>, s: DfsState) -> DfsState {
    if s.done {
        s
    } else if s.stack.len() == 0 {
        if s.root as int >= adj.len() {
            DfsState {
                stack: s.stack,
                visited: s.visited,
                pre: s.pre,
                post: s.post,
                next_pre: s.next_pre,
                next_post: s.next_post,
                root: s.root,
                done: true,
            }
        } else if s.visited[s.root as int] {
            DfsState {
                stack: s.stack,
                visited: s.visited,
                pre: s.pre,
                post: s.post,
                next_pre: s.next_pre,
                next_post: s.next_post,
                root: (s.root + 1) as usize,
                done: false,
            }
        } else {
            discover(s, s.stack, s.root)
        }
    } else {
        let v = s.stack.last().0;
        let j = s.stack.last().1;
        if (j as int) < adj[v as int].len() {
            let w = adj[v as int][j as int];
            let st = s.stack.update(s.stack.len() - 1, (v, (j + 1) as usize));
            if s.visited[w as int] {
                DfsState {
                    stack: st,
                    visited: s.visited,
                    pre: s.pre,
                    post: s.post,
                    next_pre: s.next_pre,
                    next_post: s.next_post,
                    root: s.root,
                    done: false,
                }
            } else {
                discover(s, st, w)
            }
        } else {
            DfsState {
                stack: s.stack.drop_last(),
                visited: s.visited,
                pre: s.pre,
                post: s.post.update(v as int, s.next_post),
                next_pre: s.next_pre,
                next_post: (s.next_post + 1) as usize,
                root: s.root,
                done: false,
            }
        }
    }
}

/// The search after `k` steps.
pub open spec fn dfs_after(adj: Seq<Seq<usize>>, k: nat) -> DfsState
    decreases k,
{
    if k == 0 {
        dfs_start(adj.len())
    } else {
        dfs_step(adj, dfs_after(adj, (k - 1) as nat))
    }
}

/// The finished search.
pub open spec fn dfs_search(adj: Seq<Seq<usize>>) -> DfsState {
    dfs_after(adj, choose|k: nat| dfs_after(adj, k).done)
}

// ── components in the search's order ───────────────────────────────────────

/// The first `k` of `cs` whose key is `key`, in order.
pub open spec fn with_key(key_of: spec_fn(Seq<usize>) -> nat, cs: Seq<Seq<usize>>, key: nat, k: int) -> Seq<Seq<usize>>
    decreases k,
{
    if k <= 0 {
        Seq::empty()
    } else if key_of(cs[k - 1]) == key {
        with_key(key_of, cs, key, k - 1).push(cs[k - 1])
    } else {
        with_key(key_of, cs, key, k - 1)
    }
}

/// The members of `cs` whose key is below `key`, by key, ties in the order
/// of `cs`.
pub open spec fn by_key_upto(key_of: spec_fn(Seq<usize>) -> nat, cs: Seq<Seq<usize>>, key: int) -> Seq<Seq<usize>>
    decreases key,
{
    if key <= 0 {
        Seq::empty()
    } else {
        by_key_upto(key_of, cs, key - 1) + with_key(key_of, cs, (key - 1) as nat, cs.len() as int)
    }
}

/// The position among the first `k` of `c` of its earliest discovered
/// vertex (the first such on a tie).
pub open spec fn first_discovered(c: Seq<usize>, pre: Seq<usize>, k: int) -> int
    decreases k,
{
    if k <= 1 {
        0
    } else {
        let b = first_discovered(c, pre, k - 1);
        if pre[c[k - 1] as int] < pre[c[b] as int] { k - 1 } else { b }
    }
}

/// The finishing number of `c`'s first discovered vertex.
pub open spec fn finish_of(c: Seq<usize>, pre: Seq<usize>, post: Seq<usize>) -> nat {
    post[c[first_discovered(c, pre, c.len() as int)] as int] as nat
}

/// A component's key: when the search finished its first discovered vertex.
pub open spec fn finish_key(s: DfsState) -> spec_fn(Seq<usize>) -> nat {
    |c: Seq<usize>| finish_of(c, s.pre, s.post)
}

/// The first `k` of `c` discovered as number `val`, in order.
pub open spec fn with_pre(c: Seq<usize>, pre: Seq<usize>, val: nat, k: int) -> Seq<usize>
    decreases k,
{
    if k <= 0 {
        Seq::empty()
    } else if pre[c[k - 1] as int] == val {
        with_pre(c, pre, val, k - 1).push(c[k - 1])
    } else {
        with_pre(c, pre, val, k - 1)
    }
}

/// The members of `c` discovered as a number in `lo..hi`, latest first.
pub open spec fn pre_between(c: Seq<usize>, pre: Seq<usize>, hi: int, lo: int) -> Seq<usize>
    decreases hi - lo,
{
    if hi <= lo {
        Seq::empty()
    } else {
        with_pre(c, pre, (hi - 1) as nat, c.len() as int) + pre_between(c, pre, hi - 1, lo)
    }
}

/// Each component's members, latest discovered first.
pub open spec fn latest_first(o: Seq<Seq<usize>>, pre: Seq<usize>, n: int) -> Seq<Seq<usize>> {
    Seq::new(o.len(), |i: int| pre_between(o[i], pre, n + 1, 0))
}

/// All strongly connected components, in the order a depth-first search
/// (from vertices in index order, successors in list order) finishes
/// their first discovered vertex, each with its members latest discovered
/// first: the order in which Tarjan's algorithm emits them.
pub open spec fn components(adj: Seq<Seq<usize>>) -> Seq<Seq<usize>> {
    let s = dfs_search(adj);
    latest_first(by_key_upto(finish_key(s), classes(adj), adj.len() as int + 1), s.pre, adj.len() as int)
}

/// Adjacency lists only name vertices of the graph.
pub open spec fn well_formed(adj: Seq<Seq<usize>>) -> bool {
    forall|v: int, j: int|
        0 <= v < adj.len() && 0 <= j < adj[v].len() ==> (#[trigger] adj[v][j] as int) < adj.len()
}

proof fn lemma_path_extend(adj: Seq<Seq<usize>>, p: Seq<usize>, w: usize)
    requires
        is_path(adj, p),
        adj[p.last() as int].contains(w),
        (w as int) < adj.len(),
    ensures
        is_path(adj, p.push(w)),
        p.push(w)[0] == p[0],
        p.push(w).last() == w,
{
    let q = p.push(w);
    assert forall|i: int| 0 <= i < q.len() - 1 implies adj[q[i] as int].contains(#[trigger] q[i + 1]) by {
        if i < p.len() - 1 {
            assert(q[i] == p[i] && q[i + 1] == p[i + 1]);
        } else {
            assert(q[i] == p.last());
        }
    }
}

proof fn lemma_reach_self(adj: Seq<Seq<usize>>, u: usize)
    requires
        (u as int) < adj.len(),
    ensures
        reach(adj, u, u),
{
    let p = seq![u];
    assert(p[0] == u && p.last() == u);
    assert(is_path(adj, p));
}

/// A vertex set that holds `u` and is closed under edges holds every
/// vertex reachable from `u`.
proof fn lemma_closed_holds_reach(adj: Seq<Seq<usize>>, vis: Seq<bool>, p: Seq<usize>)
    requires
        vis.len() == adj.len(),
        is_path(adj, p),
        vis[p[0] as int],
        forall|x: int, j: int|
            0 <= x < adj.len() && vis[x] && 0 <= j < adj[x].len() ==> vis[#[trigger] adj[x][j] as int],
    ensures
        vis[p.last() as int],
    decreases p.len(),
{
    if p.len() > 1 {
        let q = p.drop_last();
        assert(is_path(adj, q)) by {
            assert forall|i: int| 0 <= i < q.len() - 1 implies adj[q[i] as int].contains(#[trigger] q[i + 1]) by {
                assert(q[i] == p[i] && q[i + 1] == p[i + 1]);
            }
            assert forall|i: int| 0 <= i < q.len() implies (#[trigger] q[i] as int) < adj.len() by {
                assert(q[i] == p[i]);
            }
        }
        lemma_closed_holds_reach(adj, vis, q);
        let x = q.last();
        assert(adj[p[p.len() - 2] as int].contains(p[p.len() - 2 + 1]));
        let j = choose|j: int| 0 <= j < adj[x as int].len() && adj[x as int][j] == p.last();
        assert(vis[adj[x as int][j] as int]);
    }
}

/// The number of `true` entries among the first `k`.
pub open spec fn count_true(s: Seq<bool>, k: int) -> nat
    decreases k,
{
    if k <= 0 {
        0
    } else {
        count_true(s, k - 1) + if s[k - 1] { 1nat } else { 0nat }
    }
}

proof fn lemma_count_bound(s: Seq<bool>, k: int)
    requires
        0 <= k <= s.len(),
    ensures
        count_true(s, k) <= k,
    decreases k,
{
    if k > 0 {
        lemma_count_bound(s, k - 1);
    }
}

proof fn lemma_count_set(s: Seq<bool>, i: int, k: int)
    requires
        0 <= i < s.len(),
        !s[i],
        0 <= k <= s.len(),
    ensures
        count_true(s.update(i, true), k) == count_true(s, k) + if i < k { 1nat } else { 0nat },
    decreases k,
{
    if k > 0 {
        lemma_count_set(s, i, k - 1);
    }
}

proof fn lemma_count_zero(s: Seq<bool>, k: int)
    requires
        0 <= k <= s.len(),
        forall|x: int| 0 <= x < s.len() ==> !s[x],
    ensures
        count_true(s, k) == 0,
    decreases k,
{
    if k > 0 {
        lemma_count_zero(s, k - 1);
    }
}

/// The vertices reachable from `u`.
pub fn reachable_from(adj: &Vec<Vec<usize>>, u: usize) -> (vis: Vec<bool>)
    requires
        (u as int) < adj@.len(),
        well_formed(adj_view(adj@)),
    ensures
        vis@.len() == adj@.len(),
        forall|v: usize| (v as int) < adj@.len() ==> (vis@[v as int] <==> reach(adj_view(adj@), u, v)),
{
    let ghost g = adj_view(adj@);
    let n = adj.len();
    let mut vis: Vec<bool> = Vec::new();
    let mut k: usize = 0;
    while k < n
        invariant
            k <= n,
            vis@.len() == k,
            forall|x: int| 0 <= x < k ==> !vis@[x],
        decreases n - k,
    {
        vis.push(false);
        k = k + 1;
    }
    proof {
        lemma_count_zero(vis@, n as int);
        lemma_count_set(vis@, u as int, n as int);
        lemma_reach_self(g, u);
    }
    vis.set(u, true);
    let mut stack: Vec<usize> = vec![u];
    let ghost mut nvis: nat = 1;
    while stack.len() > 0
        invariant
            g == adj_view(adj@),
            well_formed(g),
            n == adj@.len(),
            vis@.len() == n,
            vis@[u as int],
            nvis == count_true(vis@, n as int),
            forall|x: int| 0 <= x < n && vis@[x] ==> reach(g, u, x as usize),
            forall|i: int| 0 <= i < stack@.len() ==> (stack@[i] as int) < n && vis@[stack@[i] as int],
            forall|i: int, j: int| 0 <= i < j < stack@.len() ==> stack@[i] != stack@[j],
            forall|x: int, j: int|
                0 <= x < n && vis@[x] && !stack@.contains(x as usize) && 0 <= j < g[x].len()
                    ==> vis@[#[trigger] g[x][j] as int],
        decreases 2 * (n - nvis) + stack@.len(),
    {
        proof { lemma_count_bound(vis@, n as int); }
        let ghost m0 = 2 * (n - nvis) + stack@.len();
        let ghost s_before = stack@;
        let v = stack.pop().unwrap();
        let ghost st0 = stack@;
        assert(s_before =~= st0.push(v));
        assert forall|x: int, k: int|
            0 <= x < n && x != v && vis@[x] && !stack@.contains(x as usize) && 0 <= k < g[x].len()
                implies vis@[#[trigger] g[x][k] as int] by {
            assert(!s_before.contains(x as usize)) by {
                if s_before.contains(x as usize) {
                    let i = choose|i: int| 0 <= i < s_before.len() && s_before[i] == x as usize;
                    if i < st0.len() {
                        assert(stack@[i] == x as usize);
                    }
                }
            }
        }
        assert(!stack@.contains(v)) by {
            if stack@.contains(v) {
                let i = choose|i: int| 0 <= i < stack@.len() && stack@[i] == v;
            }
        }
        let succ = &adj[v];
        assert(succ@ == g[v as int]);
        let mut j: usize = 0;
        while j < succ.len()
            invariant
                g == adj_view(adj@),
                well_formed(g),
                n == adj@.len(),
                succ@ == g[v as int],
                (v as int) < n,
                vis@[v as int],
                !stack@.contains(v),
                vis@.len() == n,
                vis@[u as int],
                j <= succ@.len(),
                nvis == count_true(vis@, n as int),
                forall|x: int| 0 <= x < n && vis@[x] ==> reach(g, u, x as usize),
                forall|i: int| 0 <= i < stack@.len() ==> (stack@[i] as int) < n && vis@[stack@[i] as int],
                forall|i: int, k: int| 0 <= i < k < stack@.len() ==> stack@[i] != stack@[k],
                forall|k: int| 0 <= k < j ==> vis@[#[trigger] g[v as int][k] as int],
                forall|x: int, k: int|
                    0 <= x < n && x != v && vis@[x] && !stack@.contains(x as usize) && 0 <= k < g[x].len()
                        ==> vis@[#[trigger] g[x][k] as int],
                nvis <= n,
                2 * (n - nvis) + stack@.len() < m0,
            decreases succ@.len() - j,
        {
            let w = succ[j];
            assert((w as int) < n) by {
                assert(g[v as int][j as int] == w);
            }
            if !vis[w] {
                proof {
                    assert(g[v as int].contains(w)) by {
                        assert(g[v as int][j as int] == w);
                    }
                    let p = choose|p: Seq<usize>| is_path(g, p) && p[0] == u && p.last() == v;
                    lemma_path_extend(g, p, w);
                    lemma_count_set(vis@, w as int, n as int);
                    assert(!stack@.contains(w)) by {
                        if stack@.contains(w) {
                            let i = choose|i: int| 0 <= i < stack@.len() && stack@[i] == w;
                        }
                    }
                }
                let ghost old_vis = vis@;
                let ghost old_stack = stack@;
                vis.set(w, true);
                stack.push(w);
                proof {
                    nvis = nvis + 1;
                    lemma_count_bound(vis@, n as int);
                    assert(stack@ =~= old_stack.push(w));
                    assert(stack@[old_stack.len() as int] == w);
                    assert forall|x: int, k: int|
                        0 <= x < n && x != v && vis@[x] && !stack@.contains(x as usize) && 0 <= k < g[x].len()
                            implies vis@[#[trigger] g[x][k] as int] by {
                        if x != w as int {
                            assert(old_vis[x]);
                            assert(!old_stack.contains(x as usize)) by {
                                if old_stack.contains(x as usize) {
                                    let i = choose|i: int| 0 <= i < old_stack.len() && old_stack[i] == x as usize;
                                    assert(stack@[i] == x as usize);
                                }
                            }
                            assert(old_vis[g[x][k] as int]);
                        } else {
                            assert(stack@.contains(w));
                        }
                    }
                }
            }
            j = j + 1;
        }
    }
    proof {
        assert forall|v: usize| (v as int) < n implies (vis@[v as int] <==> reach(g, u, v)) by {
            if reach(g, u, v) {
                let p = choose|p: Seq<usize>| is_path(g, p) && p[0] == u && p.last() == v;
                assert forall|x: int, j: int|
                    0 <= x < g.len() && vis@[x] && 0 <= j < g[x].len() implies vis@[#[trigger] g[x][j] as int] by {
                    assert(!stack@.contains(x as usize));
                }
                lemma_closed_holds_reach(g, vis@, p);
            }
        }
    }
    vis
}


/// The components as sequences.
pub open spec fn comps_view(c: Seq<Vec<usize>>) -> Seq<Seq<usize>> {
    c.map_values(|v: Vec<usize>| v@)
}

/// The strongly connected components of the graph: classes of mutual
/// reachability, sinks first (see `components`), each in increasing order.
pub fn strongly_connected_components(adj: &Vec<Vec<usize>>) -> (comps: Vec<Vec<usize>>)
    requires
        well_formed(adj_view(adj@)),
    ensures
        comps_view(comps@) == components(adj_view(adj@)),
{
    let ghost g = adj_view(adj@);
    let n = adj.len();
    let mut r: Vec<Vec<bool>> = Vec::new();
    let mut u: usize = 0;
    while u < n
        invariant
            g == adj_view(adj@),
            well_formed(g),
            n == adj@.len(),
            u <= n,
            r@.len() == u,
            forall|a: int| 0 <= a < u ==> #[trigger] r@[a]@.len() == n,
            forall|a: int, b: usize|
                0 <= a < u && (b as int) < n ==> (r@[a]@[b as int] <==> reach(g, a as usize, b)),
        decreases n - u,
    {
        let row = reachable_from(adj, u);
        r.push(row);
        u = u + 1;
    }
    let mut comps: Vec<Vec<usize>> = Vec::new();
    let mut u: usize = 0;
    while u < n
        invariant
            g == adj_view(adj@),
            n == adj@.len(),
            u <= n,
            r@.len() == n,
            forall|a: int| 0 <= a < n ==> #[trigger] r@[a]@.len() == n,
            forall|a: int, b: usize|
                0 <= a < n && (b as int) < n ==> (r@[a]@[b as int] <==> reach(g, a as usize, b)),
            comps_view(comps@) == comps_upto(g, u as int),
        decreases n - u,
    {
        let mut rep = true;
        let mut w: usize = 0;
        while w < u
            invariant
                u < n,
                w <= u,
                r@.len() == n,
                forall|a: int| 0 <= a < n ==> #[trigger] r@[a]@.len() == n,
                forall|a: int, b: usize|
                    0 <= a < n && (b as int) < n ==> (r@[a]@[b as int] <==> reach(g, a as usize, b)),
                rep == (forall|x: usize| x < w ==> !mutual(g, x, u)),
            decreases u - w,
        {
            let ghost rep0 = rep;
            assert(r@[w as int]@[u as int] == reach(g, w, u));
            assert(r@[u as int]@[w as int] == reach(g, u, w));
            if r[w][u] && r[u][w] {
                rep = false;
            }
            proof {
                if !rep {
                    if mutual(g, w, u) {
                        assert(!(forall|x: usize| x < w + 1 ==> !mutual(g, x, u)));
                    } else {
                        assert(!rep0);
                        let x0 = choose|x: usize| x < w && mutual(g, x, u);
                        assert(!(forall|x: usize| x < w + 1 ==> !mutual(g, x, u)));
                    }
                }
                if rep {
                    assert forall|x: usize| x < w + 1 implies !mutual(g, x, u) by {
                        if x < w {
                        } else {
                            assert(x == w);
                        }
                    }
                }
            }
            w = w + 1;
        }
        if rep {
            let mut c: Vec<usize> = Vec::new();
            let mut v: usize = 0;
            while v < n
                invariant
                    u < n,
                    v <= n,
                    n == adj@.len(),
                    g == adj_view(adj@),
                    r@.len() == n,
                    forall|a: int| 0 <= a < n ==> #[trigger] r@[a]@.len() == n,
                    forall|a: int, b: usize|
                        0 <= a < n && (b as int) < n ==> (r@[a]@[b as int] <==> reach(g, a as usize, b)),
                    c@ == class_upto(g, u, v as int),
                decreases n - v,
            {
                assert(r@[u as int]@[v as int] == reach(g, u, v));
                assert(r@[v as int]@[u as int] == reach(g, v, u));
                if r[u][v] && r[v][u] {
                    c.push(v);
                }
                v = v + 1;
            }
            let ghost before = comps_view(comps@);
            comps.push(c);
            assert(comps_view(comps@) =~= before.push(c@));
        } else {
            assert(!is_rep(g, u));
        }
        u = u + 1;
    }
    proof {
        lemma_comps_structure(g, n as int);
    }
    let ghost cs = comps_view(comps@);
    assert(cs == classes(g));
    let (pre, post) = depth_first(adj);
    let ghost ds = dfs_search(g);
    proof {
        lemma_dfs_search_inv(g);
        lemma_comps_structure(g, n as int);
        lemma_comps_in_range(g, n as int);
    }
    let mut keys: Vec<usize> = Vec::new();
    let mut j: usize = 0;
    while j < comps.len()
        invariant
            j <= comps@.len(),
            n == adj@.len(),
            g == adj_view(adj@),
            cs == comps_view(comps@),
            pre@ == ds.pre,
            post@ == ds.post,
            dfs_inv(g, ds),
            forall|c: int| 0 <= c < cs.len() ==> {
                let x = #[trigger] cs[c];
                &&& x.len() > 0
                &&& forall|i: int| 0 <= i < x.len() ==> (x[i] as int) < n
            },
            keys@.len() == j,
            forall|c: int| 0 <= c < j ==> #[trigger] keys@[c] as nat == finish_key(ds)(cs[c]),
            forall|c: int| 0 <= c < j ==> #[trigger] keys@[c] <= n,
        decreases comps@.len() - j,
    {
        assert(cs[j as int] == comps@[j as int]@);
        let k = finish_key_of(&comps[j], &pre, &post);
        assert(k as nat == finish_key(ds)(cs[j as int]));
        proof {
            let x = cs[j as int];
            lemma_first_discovered_range(x, ds.pre, x.len() as int);
            let r = x[first_discovered(x, ds.pre, x.len() as int)];
            assert((r as int) < n);
        }
        keys.push(k);
        j = j + 1;
    }
    let mut out: Vec<Vec<usize>> = Vec::new();
    let mut key: usize = 0;
    loop
        invariant_except_break
            comps_view(out@) == latest_first(by_key_upto(finish_key(ds), cs, key as int), ds.pre, n as int),
        invariant
            key <= n,
            n == adj@.len(),
            g == adj_view(adj@),
            cs == comps_view(comps@),
            cs == classes(g),
            pre@ == ds.pre,
            dfs_inv(g, ds),
            keys@.len() == cs.len(),
            forall|c: int| 0 <= c < cs.len() ==> #[trigger] keys@[c] as nat == finish_key(ds)(cs[c]),
            forall|c: int| 0 <= c < cs.len() ==> {
                let x = #[trigger] cs[c];
                &&& x.len() > 0
                &&& forall|i: int| 0 <= i < x.len() ==> (x[i] as int) < n
            },
        ensures
            comps_view(out@) == latest_first(by_key_upto(finish_key(ds), cs, n + 1), ds.pre, n as int),
        decreases n - key,
    {
        let mut j: usize = 0;
        while j < comps.len()
            invariant
                key <= n,
                j <= comps@.len(),
                n == adj@.len(),
                cs == comps_view(comps@),
                pre@ == ds.pre,
                dfs_inv(g, ds),
                g == adj_view(adj@),
                keys@.len() == cs.len(),
                forall|c: int| 0 <= c < cs.len() ==> #[trigger] keys@[c] as nat == finish_key(ds)(cs[c]),
                forall|c: int| 0 <= c < cs.len() ==> {
                    let x = #[trigger] cs[c];
                    &&& x.len() > 0
                    &&& forall|i: int| 0 <= i < x.len() ==> (x[i] as int) < n
                },
                comps_view(out@) == latest_first(
                    by_key_upto(finish_key(ds), cs, key as int) + with_key(finish_key(ds), cs, key as nat, j as int),
                    ds.pre,
                    n as int,
                ),
            decreases comps@.len() - j,
        {
            assert(cs[j as int] == comps@[j as int]@);
            if keys[j] == key {
                let ghost before = by_key_upto(finish_key(ds), cs, key as int) + with_key(finish_key(ds), cs, key as nat, j as int);
                let ghost out0 = comps_view(out@);
                let c = members_by_discovery(&comps[j], &pre, n);
                out.push(c);
                assert(with_key(finish_key(ds), cs, key as nat, j + 1) == with_key(finish_key(ds), cs, key as nat, j as int).push(cs[j as int]));
                let ghost after = by_key_upto(finish_key(ds), cs, key as int) + with_key(finish_key(ds), cs, key as nat, j + 1);
                assert(after =~= before.push(cs[j as int]));
                assert(comps_view(out@) =~= out0.push(c@));
                assert(comps_view(out@) =~= latest_first(after, ds.pre, n as int));
            } else {
                assert(with_key(finish_key(ds), cs, key as nat, j + 1) == with_key(finish_key(ds), cs, key as nat, j as int));
            }
            j = j + 1;
        }
        assert(by_key_upto(finish_key(ds), cs, key + 1) == by_key_upto(finish_key(ds), cs, key as int) + with_key(finish_key(ds), cs, key as nat, cs.len() as int));
        if key == n {
            break;
        }
        key = key + 1;
    }
    out
}

/// The discovery and finishing numbers of the depth-first search.
fn depth_first(adj: &Vec<Vec<usize>>) -> (r: (Vec<usize>, Vec<usize>))
    requires
        well_formed(adj_view(adj@)),
    ensures
        r.0@ == dfs_search(adj_view(adj@)).pre,
        r.1@ == dfs_search(adj_view(adj@)).post,
{
    let ghost g = adj_view(adj@);
    let n = adj.len();
    let mut visited: Vec<bool> = Vec::new();
    let mut pre: Vec<usize> = Vec::new();
    let mut post: Vec<usize> = Vec::new();
    let mut i: usize = 0;
    while i < n
        invariant
            i <= n,
            visited@ == Seq::new(i as nat, |x: int| false),
            pre@ == Seq::new(i as nat, |x: int| 0usize),
            post@ == Seq::new(i as nat, |x: int| 0usize),
        decreases n - i,
    {
        visited.push(false);
        pre.push(0);
        post.push(0);
        i = i + 1;
        assert(visited@ =~= Seq::new(i as nat, |x: int| false));
        assert(pre@ =~= Seq::new(i as nat, |x: int| 0usize));
        assert(post@ =~= Seq::new(i as nat, |x: int| 0usize));
    }
    let mut stack: Vec<(usize, usize)> = Vec::new();
    let mut next_pre: usize = 0;
    let mut next_post: usize = 0;
    let mut root: usize = 0;
    let ghost mut k: nat = 0;
    assert(state_of(stack@, visited@, pre@, post@, next_pre, next_post, root) == dfs_after(g, 0));
    proof {
        lemma_dfs_inv_after(g, 0);
    }
    loop
        invariant
            n == adj@.len(),
            g == adj_view(adj@),
            well_formed(g),
            state_of(stack@, visited@, pre@, post@, next_pre, next_post, root) == dfs_after(g, k),
            dfs_inv(g, dfs_after(g, k)),
        ensures
            stack@.len() == 0,
            root >= n,
            state_of(stack@, visited@, pre@, post@, next_pre, next_post, root) == dfs_after(g, k),
        decreases n - next_pre, stack_sum(g, stack@), n - root,
    {
        let ghost s0 = dfs_after(g, k);
        proof {
            lemma_dfs_inv_step(g, s0);
            lemma_stack_sum_pos(g, stack@);
        }
        if stack.len() == 0 {
            if root >= n {
                break;
            }
            if visited[root] {
                root = root + 1;
            } else {
                proof {
                    lemma_count_missing(visited@, root as int, n as int);
                }
                stack.push((root, 0));
                visited.set(root, true);
                pre.set(root, next_pre);
                next_pre = next_pre + 1;
            }
        } else {
            let top = stack.len() - 1;
            let v = stack[top].0;
            let j = stack[top].1;
            assert(g[v as int] == adj@[v as int]@);
            if j < adj[v].len() {
                let w = adj[v][j];
                assert((w as int) < n);
                let ghost st0 = stack@;
                stack.set(top, (v, j + 1));
                proof {
                    lemma_stack_sum_bump(g, st0);
                }
                if !visited[w] {
                    proof {
                        lemma_count_missing(visited@, w as int, n as int);
                    }
                    stack.push((w, 0));
                    visited.set(w, true);
                    pre.set(w, next_pre);
                    next_pre = next_pre + 1;
                }
            } else {
                stack.pop();
                post.set(v, next_post);
                next_post = next_post + 1;
            }
        }
        assert(state_of(stack@, visited@, pre@, post@, next_pre, next_post, root) =~= dfs_step(g, s0));
        proof {
            k = k + 1;
        }
    }
    proof {
        let s = dfs_after(g, k);
        assert(dfs_after(g, k + 1).done);
        lemma_dfs_search_at(g, k + 1);
    }
    (pre, post)
}

/// A search state with the given parts, not over.
pub open spec fn state_of(
    stack: Seq<(usize, usize)>,
    visited: Seq<bool>,
    pre: Seq<usize>,
    post: Seq<usize>,
    next_pre: usize,
    next_post: usize,
    root: usize,
) -> DfsState {
    DfsState { stack, visited, pre, post, next_pre, next_post, root, done: false }
}

/// A component's key: the finishing number of its first discovered vertex.
fn finish_key_of(c: &Vec<usize>, pre: &Vec<usize>, post: &Vec<usize>) -> (k: usize)
    requires
        c@.len() > 0,
        pre@.len() == post@.len(),
        forall|i: int| 0 <= i < c@.len() ==> (c@[i] as int) < pre@.len(),
    ensures
        k as nat == finish_of(c@, pre@, post@),
{
    let mut b: usize = 0;
    let mut i: usize = 1;
    while i < c.len()
        invariant
            1 <= i <= c@.len(),
            pre@.len() == post@.len(),
            forall|x: int| 0 <= x < c@.len() ==> (c@[x] as int) < pre@.len(),
            b as int == first_discovered(c@, pre@, i as int),
            b < i,
        decreases c@.len() - i,
    {
        if pre[c[i]] < pre[c[b]] {
            b = i;
        }
        i = i + 1;
    }
    post[c[b]]
}

/// `c`'s members, latest discovered first.
fn members_by_discovery(c: &Vec<usize>, pre: &Vec<usize>, n: usize) -> (out: Vec<usize>)
    requires
        forall|i: int| 0 <= i < c@.len() ==> (c@[i] as int) < pre@.len(),
    ensures
        out@ == pre_between(c@, pre@, n + 1, 0),
{
    let mut out: Vec<usize> = Vec::new();
    let mut val: usize = n;
    loop
        invariant_except_break
            out@ == pre_between(c@, pre@, n + 1, val + 1),
        invariant
            val <= n,
            forall|i: int| 0 <= i < c@.len() ==> (c@[i] as int) < pre@.len(),
        ensures
            out@ == pre_between(c@, pre@, n + 1, 0),
        decreases val,
    {
        let mut i: usize = 0;
        while i < c.len()
            invariant
                i <= c@.len(),
                val <= n,
                forall|x: int| 0 <= x < c@.len() ==> (c@[x] as int) < pre@.len(),
                out@ == pre_between(c@, pre@, n + 1, val + 1) + with_pre(c@, pre@, val as nat, i as int),
            decreases c@.len() - i,
        {
            let ghost o0 = out@;
            if pre[c[i]] == val {
                out.push(c[i]);
                assert(out@ =~= pre_between(c@, pre@, n + 1, val + 1) + with_pre(c@, pre@, val as nat, i + 1));
            }
            i = i + 1;
        }
        proof {
            lemma_pre_between_step(c@, pre@, n + 1, val as int);
        }
        if val == 0 {
            break;
        }
        val = val - 1;
    }
    out
}


proof fn lemma_class_in_range(adj: Seq<Seq<usize>>, u: usize, k: int)
    ensures
        forall|i: int| 0 <= i < class_upto(adj, u, k).len() ==> (#[trigger] class_upto(adj, u, k)[i] as int) < k,
    decreases k,
{
    if k > 0 {
        lemma_class_in_range(adj, u, k - 1);
        let prev = class_upto(adj, u, k - 1);
        if mutual(adj, u, (k - 1) as usize) {
            assert forall|i: int| 0 <= i < class_upto(adj, u, k).len() implies (#[trigger] class_upto(adj, u, k)[i] as int) < k by {
                if i < prev.len() {
                    assert(class_upto(adj, u, k)[i] == prev[i]);
                }
            }
        }
    }
}

proof fn lemma_comps_in_range(adj: Seq<Seq<usize>>, m: int)
    ensures
        forall|k: int, i: int|
            0 <= k < comps_upto(adj, m).len() && 0 <= i < comps_upto(adj, m)[k].len()
                ==> (#[trigger] comps_upto(adj, m)[k][i] as int) < adj.len(),
    decreases m,
{
    if m > 0 {
        lemma_comps_in_range(adj, m - 1);
        lemma_class_in_range(adj, (m - 1) as usize, adj.len() as int);
        let prev = comps_upto(adj, m - 1);
        if is_rep(adj, (m - 1) as usize) {
            assert forall|k: int, i: int|
                0 <= k < comps_upto(adj, m).len() && 0 <= i < comps_upto(adj, m)[k].len()
                    implies (#[trigger] comps_upto(adj, m)[k][i] as int) < adj.len() by {
                if k < prev.len() {
                    assert(comps_upto(adj, m)[k] == prev[k]);
                }
            }
        }
    }
}

/// Every member of a class is a vertex of the graph.
proof fn lemma_classes_in_range(adj: Seq<Seq<usize>>, k: int)
    requires
        0 <= k < classes(adj).len(),
    ensures
        forall|i: int| 0 <= i < classes(adj)[k].len() ==> (#[trigger] classes(adj)[k][i] as int) < adj.len(),
{
    lemma_comps_in_range(adj, adj.len() as int);
    assert forall|i: int| 0 <= i < classes(adj)[k].len() implies (#[trigger] classes(adj)[k][i] as int) < adj.len() by {
        assert(comps_upto(adj, adj.len() as int)[k][i] == classes(adj)[k][i]);
    }
}

// ── components partition the vertices ──────────────────────────────────────

proof fn lemma_reach_trans(adj: Seq<Seq<usize>>, u: usize, v: usize, w: usize)
    requires
        reach(adj, u, v),
        reach(adj, v, w),
    ensures
        reach(adj, u, w),
{
    let p = choose|p: Seq<usize>| is_path(adj, p) && p[0] == u && p.last() == v;
    let q = choose|q: Seq<usize>| is_path(adj, q) && q[0] == v && q.last() == w;
    let r = p + q.drop_first();
    assert forall|i: int| 0 <= i < r.len() implies (#[trigger] r[i] as int) < adj.len() by {
        if i < p.len() {
            assert(r[i] == p[i]);
        } else {
            assert(r[i] == q[i - p.len() + 1]);
        }
    }
    assert forall|i: int| 0 <= i < r.len() - 1 implies adj[r[i] as int].contains(#[trigger] r[i + 1]) by {
        if i < p.len() - 1 {
            assert(r[i] == p[i] && r[i + 1] == p[i + 1]);
        } else if i == p.len() - 1 {
            assert(r[i] == p.last() && r[i] == q[0]);
            assert(r[i + 1] == q[1]);
        } else {
            assert(r[i] == q[i - p.len() + 1] && r[i + 1] == q[i - p.len() + 2]);
        }
    }
    assert(is_path(adj, r));
    assert(r[0] == u);
    if q.len() == 1 {
        assert(r =~= p);
    } else {
        assert(r.last() == q.last());
    }
}

proof fn lemma_mutual_trans(adj: Seq<Seq<usize>>, u: usize, v: usize, w: usize)
    requires
        mutual(adj, u, v),
        mutual(adj, v, w),
    ensures
        mutual(adj, u, w),
{
    lemma_reach_trans(adj, u, v, w);
    lemma_reach_trans(adj, w, v, u);
}

proof fn lemma_class_contains(adj: Seq<Seq<usize>>, u: usize, k: int, v: usize)
    requires
        0 <= k,
    ensures
        class_upto(adj, u, k).contains(v) <==> ((v as int) < k && mutual(adj, u, v)),
    decreases k,
{
    if k > 0 {
        lemma_class_contains(adj, u, k - 1, v);
        let prev = class_upto(adj, u, k - 1);
        let now = class_upto(adj, u, k);
        if mutual(adj, u, (k - 1) as usize) {
            assert(now == prev.push((k - 1) as usize));
            if prev.contains(v) {
                let i = choose|i: int| 0 <= i < prev.len() && prev[i] == v;
                assert(now[i] == v);
            }
            if now.contains(v) && v != (k - 1) as usize {
                let i = choose|i: int| 0 <= i < now.len() && now[i] == v;
                assert(i < prev.len());
                assert(prev[i] == v);
            }
            if v == (k - 1) as usize {
                assert(now[prev.len() as int] == v);
            }
        }
    }
}

proof fn lemma_class_first(adj: Seq<Seq<usize>>, r: usize, k: int)
    requires
        is_rep(adj, r),
        (r as int) < k <= adj.len(),
    ensures
        class_upto(adj, r, k).len() > 0,
        class_upto(adj, r, k)[0] == r,
    decreases k,
{
    if k == r + 1 {
        lemma_class_contains(adj, r, r as int, r);
        if class_upto(adj, r, r as int).len() > 0 {
            let x = class_upto(adj, r, r as int)[0];
            lemma_class_contains(adj, r, r as int, x);
            assert(class_upto(adj, r, r as int).contains(x));
            assert(!mutual(adj, x, r));
        }
        lemma_reach_self(adj, r);
    } else {
        lemma_class_first(adj, r, k - 1);
        let prev = class_upto(adj, r, k - 1);
        if mutual(adj, r, (k - 1) as usize) {
            assert(class_upto(adj, r, k)[0] == prev[0]);
        }
    }
}

/// The component whose smallest vertex is `r`.
pub open spec fn class_of(adj: Seq<Seq<usize>>, r: usize) -> Seq<usize> {
    class_upto(adj, r, adj.len() as int)
}

proof fn lemma_comps_structure(adj: Seq<Seq<usize>>, m: int)
    requires
        0 <= m <= adj.len() <= usize::MAX,
    ensures
        forall|c: int| 0 <= c < comps_upto(adj, m).len() ==> {
            let x = #[trigger] comps_upto(adj, m)[c];
            &&& x.len() > 0
            &&& is_rep(adj, x[0])
            &&& (x[0] as int) < m
            &&& x == class_of(adj, x[0])
        },
        forall|c1: int, c2: int| 0 <= c1 < c2 < comps_upto(adj, m).len() ==>
            (#[trigger] comps_upto(adj, m)[c1])[0] < (#[trigger] comps_upto(adj, m)[c2])[0],
        forall|r: usize| (r as int) < m && #[trigger] is_rep(adj, r) ==>
            exists|c: int| 0 <= c < comps_upto(adj, m).len() && (#[trigger] comps_upto(adj, m)[c])[0] == r,
    decreases m,
{
    if m > 0 {
        lemma_comps_structure(adj, m - 1);
        let prev = comps_upto(adj, m - 1);
        let now = comps_upto(adj, m);
        let r = (m - 1) as usize;
        if is_rep(adj, r) {
            lemma_class_first(adj, r, adj.len() as int);
            assert(now == prev.push(class_of(adj, r)));
            assert forall|c: int| 0 <= c < now.len() implies {
                let x = #[trigger] now[c];
                &&& x.len() > 0
                &&& is_rep(adj, x[0])
                &&& (x[0] as int) < m
                &&& x == class_of(adj, x[0])
            } by {
                if c < prev.len() {
                    assert(now[c] == prev[c]);
                }
            }
            assert forall|c1: int, c2: int| 0 <= c1 < c2 < now.len() implies
                (#[trigger] now[c1])[0] < (#[trigger] now[c2])[0] by {
                assert(now[c1] == prev[c1]);
                if c2 < prev.len() {
                    assert(now[c2] == prev[c2]);
                } else {
                    let x = prev[c1];
                    assert((x[0] as int) < m - 1);
                    assert(now[c2] == class_of(adj, r));
                    assert(now[c2][0] == r);
                }
            }
            assert forall|q: usize| (q as int) < m && #[trigger] is_rep(adj, q) implies
                exists|c: int| 0 <= c < now.len() && (#[trigger] now[c])[0] == q by {
                if q == r {
                    assert(now[prev.len() as int][0] == q);
                } else {
                    let c = choose|c: int| 0 <= c < prev.len() && (#[trigger] prev[c])[0] == q;
                    assert(now[c] == prev[c]);
                }
            }
        } else {
            assert(now == prev);
        }
    }
}

proof fn lemma_find_rep(adj: Seq<Seq<usize>>, v: usize, x: usize)
    requires
        (x as int) < adj.len(),
        mutual(adj, x, v),
    ensures
        exists|r: usize| r <= x && #[trigger] is_rep(adj, r) && mutual(adj, r, v),
    decreases x,
{
    if !is_rep(adj, x) {
        let w = choose|w: usize| w < x && mutual(adj, w, x);
        lemma_mutual_trans(adj, w, x, v);
        lemma_find_rep(adj, v, w);
        let r = choose|r: usize| r <= w && #[trigger] is_rep(adj, r) && mutual(adj, r, v);
        assert(r <= x && is_rep(adj, r) && mutual(adj, r, v));
    } else {
        assert(x <= x && is_rep(adj, x) && mutual(adj, x, v));
    }
}

/// The classes partition the vertices.
proof fn lemma_classes_partition(adj: Seq<Seq<usize>>, v: usize)
    requires
        (v as int) < adj.len() <= usize::MAX,
    ensures
        exists|c: int| 0 <= c < classes(adj).len() && (#[trigger] classes(adj)[c]).contains(v),
        forall|c1: int, c2: int| 0 <= c1 < c2 < classes(adj).len() ==>
            !((#[trigger] classes(adj)[c1]).contains(v) && (#[trigger] classes(adj)[c2]).contains(v)),
{
    let n = adj.len() as int;
    let cs = classes(adj);
    lemma_comps_structure(adj, n);
    lemma_reach_self(adj, v);
    lemma_find_rep(adj, v, v);
    let r = choose|r: usize| r <= v && #[trigger] is_rep(adj, r) && mutual(adj, r, v);
    let c = choose|c: int| 0 <= c < cs.len() && (#[trigger] cs[c])[0] == r;
    lemma_class_contains(adj, r, n, v);
    assert(cs[c].contains(v));
    assert forall|c1: int, c2: int| 0 <= c1 < c2 < cs.len() implies
        !((#[trigger] cs[c1]).contains(v) && (#[trigger] cs[c2]).contains(v)) by {
        if cs[c1].contains(v) && cs[c2].contains(v) {
            let r1 = cs[c1][0];
            let r2 = cs[c2][0];
            lemma_class_contains(adj, r1, n, v);
            lemma_class_contains(adj, r2, n, v);
            lemma_mutual_trans(adj, r1, v, r2);
            assert(r1 < r2);
            assert(!mutual(adj, r1, r2));
        }
    }
}

/// Vertices of one class reach each other.
proof fn lemma_class_members_mutual(adj: Seq<Seq<usize>>, c: int, u: usize, v: usize)
    requires
        adj.len() <= usize::MAX,
        0 <= c < classes(adj).len(),
        classes(adj)[c].contains(u),
        classes(adj)[c].contains(v),
    ensures
        mutual(adj, u, v),
{
    let n = adj.len() as int;
    lemma_comps_structure(adj, n);
    let r = classes(adj)[c][0];
    lemma_class_contains(adj, r, n, u);
    lemma_class_contains(adj, r, n, v);
    lemma_mutual_trans(adj, u, r, v);
}

// ── components in the search's order ──────────────────────────────────────

proof fn lemma_with_key(key_of: spec_fn(Seq<usize>) -> nat, cs: Seq<Seq<usize>>, key: nat, k: int)
    requires
        0 <= k <= cs.len(),
        forall|i: int, j: int| 0 <= i < j < cs.len() ==> (#[trigger] cs[i])[0] < (#[trigger] cs[j])[0],
    ensures
        forall|a: int| 0 <= a < with_key(key_of, cs, key, k).len() ==>
            key_of(#[trigger] with_key(key_of, cs, key, k)[a]) == key
                && exists|j: int| 0 <= j < k && cs[j] == with_key(key_of, cs, key, k)[a],
        forall|a: int, b: int| 0 <= a < b < with_key(key_of, cs, key, k).len() ==>
            (#[trigger] with_key(key_of, cs, key, k)[a])[0] < (#[trigger] with_key(key_of, cs, key, k)[b])[0],
        forall|a: int| 0 <= a < with_key(key_of, cs, key, k).len() ==>
            exists|j: int| 0 <= j < k && cs[j] == #[trigger] with_key(key_of, cs, key, k)[a]
                && (forall|i: int| #![trigger cs[i]] 0 <= i < j ==> cs[i][0] < cs[j][0]),
        forall|j: int| 0 <= j < k && key_of(#[trigger] cs[j]) == key ==> with_key(key_of, cs, key, k).contains(cs[j]),
    decreases k,
{
    if k > 0 {
        lemma_with_key(key_of, cs, key, k - 1);
        let prev = with_key(key_of, cs, key, k - 1);
        let now = with_key(key_of, cs, key, k);
        if key_of(cs[k - 1]) == key {
            assert(now == prev.push(cs[k - 1]));
            assert forall|a: int| 0 <= a < now.len() implies
                key_of(#[trigger] now[a]) == key && exists|j: int| 0 <= j < k && cs[j] == now[a] by {
                if a < prev.len() {
                    assert(now[a] == prev[a]);
                    let j = choose|j: int| 0 <= j < k - 1 && cs[j] == prev[a];
                } else {
                    assert(cs[k - 1] == now[a]);
                }
            }
            assert forall|a: int, b: int| 0 <= a < b < now.len() implies (#[trigger] now[a])[0] < (#[trigger] now[b])[0] by {
                assert(now[a] == prev[a]);
                if b < prev.len() {
                    assert(now[b] == prev[b]);
                } else {
                    let j = choose|j: int| 0 <= j < k - 1 && cs[j] == prev[a];
                    assert(cs[j][0] < cs[k - 1][0]);
                }
            }
            assert forall|a: int| 0 <= a < now.len() implies
                exists|j: int| 0 <= j < k && cs[j] == #[trigger] now[a]
                    && (forall|i: int| #![trigger cs[i]] 0 <= i < j ==> cs[i][0] < cs[j][0]) by {
                if a < prev.len() {
                    assert(now[a] == prev[a]);
                    let j = choose|j: int| 0 <= j < k - 1 && cs[j] == prev[a]
                        && (forall|i: int| #![trigger cs[i]] 0 <= i < j ==> cs[i][0] < cs[j][0]);
                } else {
                    assert(cs[k - 1] == now[a]);
                    assert(forall|i: int| #![trigger cs[i]] 0 <= i < k - 1 ==> cs[i][0] < cs[k - 1][0]);
                }
            }
            assert forall|j: int| 0 <= j < k && key_of(#[trigger] cs[j]) == key implies now.contains(cs[j]) by {
                if j < k - 1 {
                    let a = choose|a: int| 0 <= a < prev.len() && prev[a] == cs[j];
                    assert(now[a] == prev[a]);
                } else {
                    assert(now[prev.len() as int] == cs[j]);
                }
            }
        } else {
            assert(now == prev);
            assert forall|a: int| 0 <= a < now.len() implies
                key_of(#[trigger] now[a]) == key && exists|j: int| 0 <= j < k && cs[j] == now[a] by {
                let j = choose|j: int| 0 <= j < k - 1 && cs[j] == prev[a];
            }
            assert forall|a: int| 0 <= a < now.len() implies
                exists|j: int| 0 <= j < k && cs[j] == #[trigger] now[a]
                    && (forall|i: int| #![trigger cs[i]] 0 <= i < j ==> cs[i][0] < cs[j][0]) by {
                let j = choose|j: int| 0 <= j < k - 1 && cs[j] == prev[a]
                    && (forall|i: int| #![trigger cs[i]] 0 <= i < j ==> cs[i][0] < cs[j][0]);
            }
        }
    }
}

/// Components before `key` are ordered by key, then by smallest vertex;
/// each is one of `cs`, and each of `cs` with a smaller key is there.
proof fn lemma_by_key(key_of: spec_fn(Seq<usize>) -> nat, cs: Seq<Seq<usize>>, key: int)
    requires
        0 <= key,
        forall|i: int, j: int| 0 <= i < j < cs.len() ==> (#[trigger] cs[i])[0] < (#[trigger] cs[j])[0],
    ensures
        forall|a: int| 0 <= a < by_key_upto(key_of, cs, key).len() ==>
            key_of(#[trigger] by_key_upto(key_of, cs, key)[a]) < key
                && exists|j: int| 0 <= j < cs.len() && cs[j] == by_key_upto(key_of, cs, key)[a],
        forall|a: int, b: int| 0 <= a < b < by_key_upto(key_of, cs, key).len() ==> {
            let x = #[trigger] by_key_upto(key_of, cs, key)[a];
            let y = #[trigger] by_key_upto(key_of, cs, key)[b];
            key_of(x) < key_of(y) || (key_of(x) == key_of(y) && x[0] < y[0])
        },
        forall|j: int| 0 <= j < cs.len() && key_of(#[trigger] cs[j]) < key ==> by_key_upto(key_of, cs, key).contains(cs[j]),
    decreases key,
{
    if key > 0 {
        lemma_by_key(key_of, cs, key - 1);
        lemma_with_key(key_of, cs, (key - 1) as nat, cs.len() as int);
        let s = by_key_upto(key_of, cs, key - 1);
        let w = with_key(key_of, cs, (key - 1) as nat, cs.len() as int);
        let now = by_key_upto(key_of, cs, key);
        assert(now == s + w);
        assert forall|a: int| 0 <= a < now.len() implies
            key_of(#[trigger] now[a]) < key && exists|j: int| 0 <= j < cs.len() && cs[j] == now[a] by {
            if a < s.len() {
                assert(now[a] == s[a]);
            } else {
                assert(now[a] == w[a - s.len()]);
            }
        }
        assert forall|a: int, b: int| 0 <= a < b < now.len() implies {
            let x = #[trigger] now[a];
            let y = #[trigger] now[b];
            key_of(x) < key_of(y) || (key_of(x) == key_of(y) && x[0] < y[0])
        } by {
            if b < s.len() {
                assert(now[a] == s[a] && now[b] == s[b]);
            } else if a < s.len() {
                assert(now[a] == s[a] && now[b] == w[b - s.len()]);
            } else {
                assert(now[a] == w[a - s.len()] && now[b] == w[b - s.len()]);
            }
        }
        assert forall|j: int| 0 <= j < cs.len() && key_of(#[trigger] cs[j]) < key implies now.contains(cs[j]) by {
            if key_of(cs[j]) < key - 1 {
                let a = choose|a: int| 0 <= a < s.len() && s[a] == cs[j];
                assert(now[a] == s[a]);
            } else {
                let a = choose|a: int| 0 <= a < w.len() && w[a] == cs[j];
                assert(now[s.len() + a] == w[a]);
            }
        }
    }
}

// ── the search's invariant ─────────────────────────────────────────────────

/// What every step of the search keeps: the numbering has the graph's
/// size, the next discovery number counts the discovered vertices, each
/// frame on the path is unfinished, the frames name vertices and successor
/// positions of the graph, and every number given is below the next one.
pub open spec fn dfs_inv(adj: Seq<Seq<usize>>, s: DfsState) -> bool {
    let n = adj.len();
    &&& n <= usize::MAX
    &&& s.visited.len() == n
    &&& s.pre.len() == n
    &&& s.post.len() == n
    &&& s.next_pre == count_true(s.visited, n as int)
    &&& s.next_pre <= n
    &&& s.next_post + s.stack.len() == s.next_pre
    &&& s.root <= n
    &&& forall|i: int| 0 <= i < s.stack.len() ==> (#[trigger] s.stack[i].0 as int) < n
        && (s.stack[i].1 as int) <= adj[s.stack[i].0 as int].len()
    &&& forall|v: int| 0 <= v < n ==> #[trigger] s.pre[v] <= s.next_pre
    &&& forall|v: int| 0 <= v < n ==> #[trigger] s.post[v] <= s.next_post
}

/// The frames' remaining work: for each, the successors left plus one.
pub open spec fn stack_sum(adj: Seq<Seq<usize>>, st: Seq<(usize, usize)>) -> nat
    decreases st.len(),
{
    if st.len() == 0 {
        0
    } else {
        stack_sum(adj, st.drop_last()) + (adj[st.last().0 as int].len() - st.last().1 + 1) as nat
    }
}

proof fn lemma_stack_sum_pos(adj: Seq<Seq<usize>>, st: Seq<(usize, usize)>)
    requires
        st.len() > 0 ==> (st.last().1 as int) <= adj[st.last().0 as int].len(),
    ensures
        st.len() > 0 ==> stack_sum(adj, st.drop_last()) < stack_sum(adj, st),
{
}

proof fn lemma_stack_sum_bump(adj: Seq<Seq<usize>>, st: Seq<(usize, usize)>)
    requires
        st.len() > 0,
        (st.last().1 as int) < adj[st.last().0 as int].len(),
        (st.last().1 as int) + 1 <= usize::MAX,
    ensures
        stack_sum(adj, st.update(st.len() - 1, (st.last().0, (st.last().1 + 1) as usize))) + 1 == stack_sum(adj, st),
{
    let u = st.update(st.len() - 1, (st.last().0, (st.last().1 + 1) as usize));
    assert(u.drop_last() =~= st.drop_last());
}

proof fn lemma_count_missing(s: Seq<bool>, i: int, k: int)
    requires
        0 <= i < k <= s.len(),
        !s[i],
    ensures
        count_true(s, k) < k,
    decreases k,
{
    if i < k - 1 {
        lemma_count_missing(s, i, k - 1);
    } else {
        lemma_count_bound(s, k - 1);
    }
}

proof fn lemma_dfs_inv_discover(adj: Seq<Seq<usize>>, s: DfsState, st: Seq<(usize, usize)>, u: usize)
    requires
        dfs_inv(adj, s),
        (u as int) < adj.len(),
        !s.visited[u as int],
        st.len() == s.stack.len(),
        forall|i: int| 0 <= i < st.len() ==> (#[trigger] st[i].0 as int) < adj.len()
            && (st[i].1 as int) <= adj[st[i].0 as int].len(),
    ensures
        dfs_inv(adj, discover(s, st, u)),
{
    let n = adj.len() as int;
    let d = discover(s, st, u);
    lemma_count_set(s.visited, u as int, n);
    lemma_count_missing(s.visited, u as int, n);
    assert forall|i: int| 0 <= i < d.stack.len() implies (#[trigger] d.stack[i].0 as int) < n
        && (d.stack[i].1 as int) <= adj[d.stack[i].0 as int].len() by {
        if i < st.len() {
            assert(d.stack[i] == st[i]);
        }
    }
    assert forall|v: int| 0 <= v < n implies #[trigger] d.pre[v] <= d.next_pre by {
        if v != u as int {
            assert(s.pre[v] <= s.next_pre);
        }
    }
    assert forall|v: int| 0 <= v < n implies #[trigger] d.post[v] <= d.next_post by {
        assert(s.post[v] <= s.next_post);
    }
}

proof fn lemma_dfs_inv_step(adj: Seq<Seq<usize>>, s: DfsState)
    requires
        well_formed(adj),
        dfs_inv(adj, s),
    ensures
        dfs_inv(adj, dfs_step(adj, s)),
{
    let n = adj.len() as int;
    if s.done {
    } else if s.stack.len() == 0 {
        if s.root as int >= n {
        } else if s.visited[s.root as int] {
        } else {
            lemma_dfs_inv_discover(adj, s, s.stack, s.root);
        }
    } else {
        let last = s.stack.len() - 1;
        let v = s.stack.last().0;
        let j = s.stack.last().1;
        assert((v as int) < n && (j as int) <= adj[v as int].len()) by {
            assert(s.stack[last] == s.stack.last());
        }
        if (j as int) < adj[v as int].len() {
            let w = adj[v as int][j as int];
            assert((w as int) < n);
            let st = s.stack.update(last, (v, (j + 1) as usize));
            assert forall|i: int| 0 <= i < st.len() implies (#[trigger] st[i].0 as int) < n
                && (st[i].1 as int) <= adj[st[i].0 as int].len() by {
                if i != last {
                    assert(st[i] == s.stack[i]);
                }
            }
            if !s.visited[w as int] {
                lemma_dfs_inv_discover(adj, s, st, w);
            }
        } else {
            let d = dfs_step(adj, s);
            assert forall|i: int| 0 <= i < d.stack.len() implies (#[trigger] d.stack[i].0 as int) < n
                && (d.stack[i].1 as int) <= adj[d.stack[i].0 as int].len() by {
                assert(d.stack[i] == s.stack[i]);
            }
            assert forall|x: int| 0 <= x < n implies #[trigger] d.pre[x] <= d.next_pre by {
                assert(s.pre[x] <= s.next_pre);
            }
            assert forall|x: int| 0 <= x < n implies #[trigger] d.post[x] <= d.next_post by {
                if x != v as int {
                    assert(s.post[x] <= s.next_post);
                }
            }
        }
    }
}

proof fn lemma_dfs_inv_after(adj: Seq<Seq<usize>>, k: nat)
    requires
        well_formed(adj),
        adj.len() <= usize::MAX,
    ensures
        dfs_inv(adj, dfs_after(adj, k)),
    decreases k,
{
    if k == 0 {
        let s = dfs_start(adj.len());
        lemma_count_zero(s.visited, adj.len() as int);
    } else {
        lemma_dfs_inv_after(adj, (k - 1) as nat);
        lemma_dfs_inv_step(adj, dfs_after(adj, (k - 1) as nat));
    }
}

proof fn lemma_dfs_stays(adj: Seq<Seq<usize>>, a: nat, m: nat)
    requires
        dfs_after(adj, a).done,
    ensures
        dfs_after(adj, a + m) == dfs_after(adj, a),
    decreases m,
{
    if m > 0 {
        lemma_dfs_stays(adj, a, (m - 1) as nat);
        assert(dfs_after(adj, a + m) == dfs_step(adj, dfs_after(adj, (a + m - 1) as nat)));
    }
}

/// A search that is over at step `k` is the finished search.
proof fn lemma_dfs_search_at(adj: Seq<Seq<usize>>, k: nat)
    requires
        dfs_after(adj, k).done,
    ensures
        dfs_search(adj) == dfs_after(adj, k),
{
    let k0 = choose|k: nat| dfs_after(adj, k).done;
    assert(dfs_after(adj, k0).done);
    if k0 <= k {
        lemma_dfs_stays(adj, k0, (k - k0) as nat);
    } else {
        lemma_dfs_stays(adj, k, (k0 - k) as nat);
    }
}

/// The finished search keeps the invariant.
proof fn lemma_dfs_search_inv(adj: Seq<Seq<usize>>)
    requires
        well_formed(adj),
        adj.len() <= usize::MAX,
    ensures
        dfs_inv(adj, dfs_search(adj)),
{
    let k0 = choose|k: nat| dfs_after(adj, k).done;
    lemma_dfs_inv_after(adj, k0);
}

// ── ordering members ────────────────────────────────────────────────────────

proof fn lemma_first_discovered_range(c: Seq<usize>, pre: Seq<usize>, k: int)
    requires
        1 <= k,
    ensures
        0 <= first_discovered(c, pre, k) < k,
    decreases k,
{
    if k > 1 {
        lemma_first_discovered_range(c, pre, k - 1);
    }
}

proof fn lemma_pre_between_step(c: Seq<usize>, pre: Seq<usize>, hi: int, lo: int)
    requires
        0 <= lo < hi,
    ensures
        pre_between(c, pre, hi, lo) == pre_between(c, pre, hi, lo + 1) + with_pre(c, pre, lo as nat, c.len() as int),
    decreases hi - lo,
{
    if hi - 1 == lo {
        assert(pre_between(c, pre, hi - 1, lo) =~= Seq::<usize>::empty());
        assert(pre_between(c, pre, hi, lo + 1) =~= Seq::<usize>::empty());
        assert(pre_between(c, pre, hi, lo) =~= pre_between(c, pre, hi, lo + 1) + with_pre(c, pre, lo as nat, c.len() as int));
    } else {
        lemma_pre_between_step(c, pre, hi - 1, lo);
        let top = with_pre(c, pre, (hi - 1) as nat, c.len() as int);
        assert(pre_between(c, pre, hi, lo + 1) == top + pre_between(c, pre, hi - 1, lo + 1));
        assert(pre_between(c, pre, hi, lo) =~= pre_between(c, pre, hi, lo + 1) + with_pre(c, pre, lo as nat, c.len() as int));
    }
}

proof fn lemma_with_pre_contains(c: Seq<usize>, pre: Seq<usize>, val: nat, k: int, x: usize)
    requires
        0 <= k <= c.len(),
    ensures
        with_pre(c, pre, val, k).contains(x) <==> (exists|i: int| 0 <= i < k && c[i] == x) && pre[x as int] == val,
    decreases k,
{
    if k > 0 {
        lemma_with_pre_contains(c, pre, val, k - 1, x);
        let prev = with_pre(c, pre, val, k - 1);
        if pre[c[k - 1] as int] == val {
            let now = with_pre(c, pre, val, k);
            assert(now == prev.push(c[k - 1]));
            if prev.contains(x) {
                let a = choose|a: int| 0 <= a < prev.len() && prev[a] == x;
                assert(now[a] == x);
            }
            if now.contains(x) && x != c[k - 1] {
                let a = choose|a: int| 0 <= a < now.len() && now[a] == x;
                assert(prev[a] == x);
            }
            if x == c[k - 1] {
                assert(now[prev.len() as int] == x);
            }
        }
    }
}

proof fn lemma_pre_between_contains(c: Seq<usize>, pre: Seq<usize>, hi: int, lo: int, x: usize)
    requires
        0 <= lo,
    ensures
        pre_between(c, pre, hi, lo).contains(x) <==> c.contains(x) && lo <= pre[x as int] < hi,
    decreases hi - lo,
{
    if hi > lo {
        lemma_pre_between_contains(c, pre, hi - 1, lo, x);
        lemma_with_pre_contains(c, pre, (hi - 1) as nat, c.len() as int, x);
        let top = with_pre(c, pre, (hi - 1) as nat, c.len() as int);
        let rest = pre_between(c, pre, hi - 1, lo);
        let all = pre_between(c, pre, hi, lo);
        assert(all == top + rest);
        if top.contains(x) {
            let a = choose|a: int| 0 <= a < top.len() && top[a] == x;
            assert(all[a] == x);
        }
        if rest.contains(x) {
            let a = choose|a: int| 0 <= a < rest.len() && rest[a] == x;
            assert(all[top.len() + a] == x);
        }
        if all.contains(x) {
            let a = choose|a: int| 0 <= a < all.len() && all[a] == x;
            if a < top.len() {
                assert(top[a] == x);
            } else {
                assert(rest[a - top.len()] == x);
            }
        }
    }
}

// ── components ──────────────────────────────────────────────────────────────

/// The facts about `components` the public lemmas rest on: each is a
/// class with its members reordered, every class is one of them, and
/// distinct positions hold distinct classes.
proof fn lemma_components_facts(adj: Seq<Seq<usize>>)
    requires
        adj.len() <= usize::MAX,
        well_formed(adj),
    ensures
        components(adj).len() == by_key_upto(finish_key(dfs_search(adj)), classes(adj), adj.len() as int + 1).len(),
        forall|a: int| 0 <= a < components(adj).len() ==>
            exists|j: int| 0 <= j < classes(adj).len()
                && classes(adj)[j] == #[trigger] by_key_upto(finish_key(dfs_search(adj)), classes(adj), adj.len() as int + 1)[a],
        forall|a: int, x: usize| #![trigger components(adj)[a].contains(x)] 0 <= a < components(adj).len() ==>
            (components(adj)[a].contains(x)
                <==> by_key_upto(finish_key(dfs_search(adj)), classes(adj), adj.len() as int + 1)[a].contains(x)),
        forall|a: int, b: int| 0 <= a < b < components(adj).len() ==>
            #[trigger] by_key_upto(finish_key(dfs_search(adj)), classes(adj), adj.len() as int + 1)[a]
                != #[trigger] by_key_upto(finish_key(dfs_search(adj)), classes(adj), adj.len() as int + 1)[b],
        forall|j: int| 0 <= j < classes(adj).len() ==>
            by_key_upto(finish_key(dfs_search(adj)), classes(adj), adj.len() as int + 1).contains(#[trigger] classes(adj)[j]),
{
    let n = adj.len() as int;
    let cs = classes(adj);
    let s = dfs_search(adj);
    let key_of = finish_key(s);
    let o = by_key_upto(key_of, cs, n + 1);
    lemma_comps_structure(adj, n);
    lemma_dfs_search_inv(adj);
    lemma_comps_in_range(adj, n);
    assert forall|i: int, j: int| 0 <= i < j < cs.len() implies (#[trigger] cs[i])[0] < (#[trigger] cs[j])[0] by {}
    lemma_by_key(key_of, cs, n + 1);
    assert forall|a: int| 0 <= a < o.len() implies exists|j: int| 0 <= j < cs.len() && cs[j] == #[trigger] o[a] by {
        assert(key_of(o[a]) < n + 1);
    }
    assert forall|j: int| 0 <= j < cs.len() implies o.contains(#[trigger] cs[j]) by {
        let x = cs[j];
        lemma_first_discovered_range(x, s.pre, x.len() as int);
        let r = x[first_discovered(x, s.pre, x.len() as int)];
        assert((r as int) < n);
        assert(s.post[r as int] <= s.next_post);
        assert(key_of(x) < n + 1);
    }
    assert forall|a: int, x: usize| #![trigger components(adj)[a].contains(x)] 0 <= a < components(adj).len() implies
        (components(adj)[a].contains(x) <==> o[a].contains(x)) by {
        let j = choose|j: int| 0 <= j < cs.len() && cs[j] == o[a];
        assert(components(adj)[a] == pre_between(o[a], s.pre, n + 1, 0));
        lemma_pre_between_contains(o[a], s.pre, n + 1, 0, x);
        if o[a].contains(x) {
            let i = choose|i: int| 0 <= i < o[a].len() && o[a][i] == x;
            assert((x as int) < n);
            assert(s.pre[x as int] <= s.next_pre);
        }
    }
    assert forall|a: int, b: int| 0 <= a < b < components(adj).len() implies #[trigger] o[a] != #[trigger] o[b] by {
        let ja = choose|j: int| 0 <= j < cs.len() && cs[j] == o[a];
        if key_of(o[a]) == key_of(o[b]) {
            assert(o[a][0] < o[b][0]);
        }
    }
}

/// Every member of a component is a vertex of the graph.
pub proof fn lemma_components_in_range(adj: Seq<Seq<usize>>, k: int)
    requires
        adj.len() <= usize::MAX,
        well_formed(adj),
        0 <= k < components(adj).len(),
    ensures
        forall|i: int| 0 <= i < components(adj)[k].len() ==> (#[trigger] components(adj)[k][i] as int) < adj.len(),
{
    lemma_components_facts(adj);
    let o = by_key_upto(finish_key(dfs_search(adj)), classes(adj), adj.len() as int + 1);
    let j = choose|j: int| 0 <= j < classes(adj).len() && classes(adj)[j] == o[k];
    lemma_classes_in_range(adj, j);
    assert forall|i: int| 0 <= i < components(adj)[k].len() implies (#[trigger] components(adj)[k][i] as int) < adj.len() by {
        let x = components(adj)[k][i];
        assert(components(adj)[k].contains(x));
        assert(o[k].contains(x));
    }
}

/// The components partition the vertices: every vertex of the graph is in
/// exactly one component.
pub proof fn lemma_components_partition(adj: Seq<Seq<usize>>, v: usize)
    requires
        (v as int) < adj.len() <= usize::MAX,
        well_formed(adj),
    ensures
        exists|c: int| 0 <= c < components(adj).len() && (#[trigger] components(adj)[c]).contains(v),
        forall|c1: int, c2: int| 0 <= c1 < c2 < components(adj).len() ==>
            !((#[trigger] components(adj)[c1]).contains(v) && (#[trigger] components(adj)[c2]).contains(v)),
{
    let cs = classes(adj);
    let comps = components(adj);
    let o = by_key_upto(finish_key(dfs_search(adj)), cs, adj.len() as int + 1);
    lemma_components_facts(adj);
    lemma_classes_partition(adj, v);
    let c = choose|c: int| 0 <= c < cs.len() && (#[trigger] cs[c]).contains(v);
    assert(o.contains(cs[c]));
    let a = choose|a: int| 0 <= a < o.len() && o[a] == cs[c];
    assert(comps[a].contains(v));
    assert forall|c1: int, c2: int| 0 <= c1 < c2 < comps.len() implies
        !((#[trigger] comps[c1]).contains(v) && (#[trigger] comps[c2]).contains(v)) by {
        if comps[c1].contains(v) && comps[c2].contains(v) {
            assert(o[c1].contains(v) && o[c2].contains(v));
            let j1 = choose|j: int| 0 <= j < cs.len() && cs[j] == o[c1];
            let j2 = choose|j: int| 0 <= j < cs.len() && cs[j] == o[c2];
            if j1 < j2 {
                assert(!(cs[j1].contains(v) && cs[j2].contains(v)));
            } else if j2 < j1 {
                assert(!(cs[j2].contains(v) && cs[j1].contains(v)));
            }
            assert(o[c1] != o[c2]);
        }
    }
}

/// Vertices of one component reach each other.
pub proof fn lemma_component_members_mutual(adj: Seq<Seq<usize>>, c: int, u: usize, v: usize)
    requires
        adj.len() <= usize::MAX,
        well_formed(adj),
        0 <= c < components(adj).len(),
        components(adj)[c].contains(u),
        components(adj)[c].contains(v),
    ensures
        mutual(adj, u, v),
{
    lemma_components_facts(adj);
    let o = by_key_upto(finish_key(dfs_search(adj)), classes(adj), adj.len() as int + 1);
    let j = choose|j: int| 0 <= j < classes(adj).len() && classes(adj)[j] == o[c];
    lemma_class_members_mutual(adj, j, u, v);
}

/// Vertices that reach each other are in the same component, and no
/// component is empty.
pub proof fn lemma_mutual_members_share_a_component(adj: Seq<Seq<usize>>, c: int, u: usize, v: usize)
    requires
        adj.len() <= usize::MAX,
        well_formed(adj),
        0 <= c < components(adj).len(),
        components(adj)[c].contains(u),
        (v as int) < adj.len(),
        mutual(adj, u, v),
    ensures
        components(adj)[c].contains(v),
        components(adj)[c].len() > 0,
{
    let n = adj.len() as int;
    lemma_components_facts(adj);
    lemma_comps_structure(adj, n);
    let o = by_key_upto(finish_key(dfs_search(adj)), classes(adj), adj.len() as int + 1);
    let j = choose|j: int| 0 <= j < classes(adj).len() && classes(adj)[j] == o[c];
    let r = o[c][0];
    assert(o[c] == class_of(adj, r));
    assert(o[c].contains(u));
    lemma_class_contains(adj, r, n, u);
    lemma_mutual_trans(adj, r, u, v);
    lemma_class_contains(adj, r, n, v);
}

/// No component is empty.
pub proof fn lemma_components_nonempty(adj: Seq<Seq<usize>>, c: int)
    requires
        adj.len() <= usize::MAX,
        well_formed(adj),
        0 <= c < components(adj).len(),
    ensures
        components(adj)[c].len() > 0,
{
    let n = adj.len() as int;
    lemma_components_facts(adj);
    lemma_comps_structure(adj, n);
    let o = by_key_upto(finish_key(dfs_search(adj)), classes(adj), adj.len() as int + 1);
    let j = choose|j: int| 0 <= j < classes(adj).len() && classes(adj)[j] == o[c];
    assert(o[c].len() > 0);
    assert(components(adj)[c].contains(o[c][0]));
}

} // verus!
