//! Graphs given as adjacency lists over the node indices `0..n`, the paths
//! through them, and the bookkeeping that the best-first searches share.
use vstd::prelude::*;

verus! {

/// The largest cost; a node whose cost is this has not been reached yet.
pub open spec fn not_reached() -> u32 {
    u32::MAX
}

/// Every neighbour named in the lists is a node of the graph.
pub open spec fn wf_graph(adj: Seq<Seq<usize>>) -> bool {
    forall|u: int, k: int|
        0 <= u < adj.len() && 0 <= k < adj[u].len() ==> (#[trigger] adj[u][k]) < adj.len()
}

/// `p` is a walk through the graph: a non-empty sequence of nodes, each one
/// a neighbour of the one before it.
pub open spec fn is_path(adj: Seq<Seq<usize>>, p: Seq<usize>) -> bool {
    &&& p.len() >= 1
    &&& forall|i: int| 0 <= i < p.len() ==> (#[trigger] p[i]) < adj.len()
    &&& forall|i: int| 0 <= i < p.len() - 1 ==> adj[#[trigger] p[i] as int].contains(p[i + 1])
}

/// There is a walk from `s` to `t`.
pub open spec fn reachable(adj: Seq<Seq<usize>>, s: usize, t: usize) -> bool {
    exists|p: Seq<usize>| #[trigger] is_path(adj, p) && p[0] == s && p.last() == t
}

/// The adjacency lists of a vector of vectors.
pub open spec fn lists(adj: Seq<Vec<usize>>) -> Seq<Seq<usize>> {
    adj.map_values(|row: Vec<usize>| row@)
}

/// How many entries of `s` are reached costs.
pub open spec fn count_reached(s: Seq<u32>) -> nat
    decreases s.len(),
{
    if s.len() == 0 {
        0
    } else {
        count_reached(s.drop_last()) + if s.last() != not_reached() {
            1nat
        } else {
            0nat
        }
    }
}

/// The sum of all entries of `s`.
pub open spec fn cost_sum(s: Seq<u32>) -> nat
    decreases s.len(),
{
    if s.len() == 0 {
        0
    } else {
        cost_sum(s.drop_last()) + s.last() as nat
    }
}

pub proof fn lemma_count_reached_update(s: Seq<u32>, i: int, x: u32)
    requires
        0 <= i < s.len(),
    ensures
        count_reached(s.update(i, x)) + (if s[i] != not_reached() { 1int } else { 0int })
            == count_reached(s) + (if x != not_reached() { 1int } else { 0int }),
        count_reached(s) <= s.len(),
    decreases s.len(),
{
    let t = s.update(i, x);
    if i == s.len() - 1 {
        assert(t.drop_last() =~= s.drop_last());
        lemma_count_reached_le(s.drop_last());
    } else {
        assert(t.drop_last() =~= s.drop_last().update(i, x));
        lemma_count_reached_update(s.drop_last(), i, x);
    }
}

pub proof fn lemma_count_reached_le(s: Seq<u32>)
    ensures
        count_reached(s) <= s.len(),
    decreases s.len(),
{
    if s.len() > 0 {
        lemma_count_reached_le(s.drop_last());
    }
}

pub proof fn lemma_cost_sum_update(s: Seq<u32>, i: int, x: u32)
    requires
        0 <= i < s.len(),
    ensures
        cost_sum(s.update(i, x)) + s[i] == cost_sum(s) + x,
    decreases s.len(),
{
    let t = s.update(i, x);
    if i == s.len() - 1 {
        assert(t.drop_last() =~= s.drop_last());
    } else {
        assert(t.drop_last() =~= s.drop_last().update(i, x));
        lemma_cost_sum_update(s.drop_last(), i, x);
    }
}

/// Node `w` has an entry in the open list.
pub open spec fn in_open(open: Seq<(u32, usize)>, w: usize) -> bool {
    exists|j: int| 0 <= j < open.len() && (#[trigger] open[j]).1 == w
}

/// Every neighbour of `u` has been reached.
pub open spec fn neighbours_reached(adj: Seq<Seq<usize>>, g: Seq<u32>, u: int) -> bool {
    forall|k: int| 0 <= k < adj[u].len() ==> g[#[trigger] adj[u][k] as int] != not_reached()
}

/// The reached nodes are closed under the edges of the graph.
pub open spec fn closed(adj: Seq<Seq<usize>>, g: Seq<u32>) -> bool {
    forall|u: int| 0 <= u < adj.len() && g[u] != not_reached() ==> #[trigger] neighbours_reached(adj, g, u)
}

/// Each reached node but the start has been reached from a neighbour whose
/// cost is smaller, and the costs of reached nodes stay below their number.
pub open spec fn links_ok(adj: Seq<Seq<usize>>, g: Seq<u32>, came: Seq<usize>, start: usize) -> bool {
    &&& g.len() == adj.len()
    &&& came.len() == adj.len()
    &&& start < adj.len()
    &&& g[start as int] == 0
    &&& forall|v: int|
        0 <= v < adj.len() && v != start && #[trigger] g[v] != not_reached() ==> {
            &&& came[v] < adj.len()
            &&& adj[came[v] as int].contains(v as usize)
            &&& g[came[v] as int] < g[v]
        }
    &&& forall|v: int| 0 <= v < adj.len() && #[trigger] g[v] != not_reached() ==> g[v] < count_reached(g)
}

/// Every open entry names a reached node.
pub open spec fn open_ok(adj: Seq<Seq<usize>>, g: Seq<u32>, open: Seq<(u32, usize)>) -> bool {
    forall|j: int|
        0 <= j < open.len() ==> (#[trigger] open[j]).1 < adj.len() && g[open[j].1 as int] != not_reached()
}

/// Each reached node is either still waiting in the open list or has all its
/// neighbours reached.
pub open spec fn frontier_ok(adj: Seq<Seq<usize>>, g: Seq<u32>, open: Seq<(u32, usize)>) -> bool {
    forall|u: int|
        0 <= u < adj.len() && #[trigger] g[u] != not_reached() ==> in_open(open, u as usize)
            || neighbours_reached(adj, g, u)
}

pub proof fn lemma_in_open_push(open: Seq<(u32, usize)>, e: (u32, usize), w: usize)
    requires
        in_open(open, w) || e.1 == w,
    ensures
        in_open(open.push(e), w),
{
    if e.1 == w {
        assert(open.push(e)[open.len() as int] == e);
    } else {
        let j = choose|j: int| 0 <= j < open.len() && (#[trigger] open[j]).1 == w;
        assert(open.push(e)[j] == open[j]);
    }
}

pub proof fn lemma_in_open_remove(open: Seq<(u32, usize)>, k: int, w: usize)
    requires
        0 <= k < open.len(),
        in_open(open, w),
        open[k].1 != w,
    ensures
        in_open(open.remove(k), w),
{
    let j = choose|j: int| 0 <= j < open.len() && (#[trigger] open[j]).1 == w;
    if j < k {
        assert(open.remove(k)[j] == open[j]);
    } else {
        assert(open.remove(k)[j - 1] == open[j]);
    }
}

/// A set of reached nodes that holds the start and is closed under the edges
/// holds every node that can be reached from the start.
pub proof fn lemma_closed_reaches(adj: Seq<Seq<usize>>, g: Seq<u32>, start: usize, p: Seq<usize>)
    requires
        wf_graph(adj),
        g.len() == adj.len(),
        closed(adj, g),
        is_path(adj, p),
        p[0] == start,
        g[start as int] != not_reached(),
    ensures
        g[p.last() as int] != not_reached(),
    decreases p.len(),
{
    if p.len() > 1 {
        let q = p.drop_last();
        assert(is_path(adj, q)) by {
            assert forall|i: int| 0 <= i < q.len() - 1 implies adj[#[trigger] q[i] as int].contains(q[i + 1]) by {
                assert(q[i] == p[i] && q[i + 1] == p[i + 1]);
            }
        }
        lemma_closed_reaches(adj, g, start, q);
        let u = p[p.len() - 2];
        let v = p.last();
        assert(q.last() == u);
        assert(adj[u as int].contains(v));
        let k = choose|k: int| 0 <= k < adj[u as int].len() && adj[u as int][k] == v;
        assert(neighbours_reached(adj, g, u as int));
        assert(g[adj[u as int][k] as int] != not_reached());
    }
}

/// When the search has stopped with its reached set closed, the goal can be
/// reached exactly when it was reached.
pub proof fn lemma_unreached_goal(adj: Seq<Seq<usize>>, g: Seq<u32>, start: usize, goal: usize)
    requires
        wf_graph(adj),
        g.len() == adj.len(),
        closed(adj, g),
        start < adj.len(),
        goal < adj.len(),
        g[start as int] != not_reached(),
        g[goal as int] == not_reached(),
    ensures
        !reachable(adj, start, goal),
{
    if reachable(adj, start, goal) {
        let p = choose|p: Seq<usize>| #[trigger] is_path(adj, p) && p[0] == start && p.last() == goal;
        lemma_closed_reaches(adj, g, start, p);
    }
}

/// The heuristic never drops by more than one along an edge and is zero at
/// the goal (a consistent estimate of the remaining steps).
pub open spec fn consistent(adj: Seq<Seq<usize>>, h: Seq<u32>, goal: usize) -> bool {
    &&& h.len() == adj.len()
    &&& goal < adj.len()
    &&& h[goal as int] == 0
    &&& forall|u: int, k: int| 0 <= u < adj.len() && 0 <= k < adj[u].len() ==> h[u] <= h[#[trigger] adj[u][k] as int] + 1
}

/// `q` is a walk from `start` to `goal`.
pub open spec fn walk_between(adj: Seq<Seq<usize>>, q: Seq<usize>, start: usize, goal: usize) -> bool {
    is_path(adj, q) && q[0] == start && q.last() == goal
}

/// Node `v` has an open entry whose estimate is at most its cost plus its
/// heuristic.
#[verifier::opaque]
pub open spec fn fresh(open: Seq<(u32, usize)>, g: Seq<u32>, h: Seq<u32>, v: usize) -> bool {
    exists|j: int| 0 <= j < open.len() && (#[trigger] open[j]).1 == v && open[j].0 <= g[v as int] + h[v as int]
}

/// Every neighbour of `u` costs at most one more than `u`.
pub open spec fn neighbours_within(adj: Seq<Seq<usize>>, g: Seq<u32>, u: int) -> bool {
    forall|k: int| 0 <= k < adj[u].len() ==> g[#[trigger] adj[u][k] as int] <= g[u] + 1
}

/// No open entry estimates less than its node's cost.
pub open spec fn keys_ok(g: Seq<u32>, open: Seq<(u32, usize)>) -> bool {
    forall|j: int| 0 <= j < open.len() ==> g[(#[trigger] open[j]).1 as int] <= open[j].0
}

/// Each reached node has a fresh open entry, or, unless it is the goal, has
/// been expanded at its current cost.
pub open spec fn frontier_fresh(adj: Seq<Seq<usize>>, g: Seq<u32>, open: Seq<(u32, usize)>, h: Seq<u32>, goal: usize) -> bool {
    forall|u: int|
        0 <= u < adj.len() && #[trigger] g[u] != not_reached() ==> fresh(open, g, h, u as usize) || (u != goal
            && neighbours_within(adj, g, u))
}

proof fn lemma_frontier_prefix(
    adj: Seq<Seq<usize>>,
    g: Seq<u32>,
    open: Seq<(u32, usize)>,
    h: Seq<u32>,
    start: usize,
    goal: usize,
    q: Seq<usize>,
    k: int,
)
    requires
        wf_graph(adj),
        g.len() == adj.len(),
        h.len() == adj.len(),
        g[start as int] == 0,
        frontier_fresh(adj, g, open, h, goal),
        walk_between(adj, q, start, goal),
        q.len() <= u32::MAX,
        0 <= k < q.len(),
    ensures
        (exists|i: int| 0 <= i <= k && g[q[i] as int] <= i && #[trigger] fresh(open, g, h, q[i])) || g[q[k] as int] <= k,
    decreases k,
{
    if k > 0 {
        lemma_frontier_prefix(adj, g, open, h, start, goal, q, k - 1);
        if !(exists|i: int| 0 <= i <= k - 1 && g[q[i] as int] <= i && #[trigger] fresh(open, g, h, q[i])) {
            let u = q[k - 1];
            assert(g[u as int] <= k - 1);
            assert(u < adj.len());
            assert(g[u as int] != not_reached());
            if fresh(open, g, h, u) {
                assert(0 <= k - 1 <= k && g[q[k - 1] as int] <= k - 1 && fresh(open, g, h, q[k - 1]));
            } else {
                assert(neighbours_within(adj, g, u as int));
                assert(adj[u as int].contains(q[k]));
                let kk = choose|kk: int| 0 <= kk < adj[u as int].len() && adj[u as int][kk] == q[k];
                assert(g[adj[u as int][kk] as int] <= g[u as int] + 1);
            }
        }
    }
}

/// Along every walk from the start to the goal, while the goal has not
/// been taken from the open list, some node at position `i` has a fresh
/// open entry and costs at most `i`.
pub proof fn lemma_frontier(
    adj: Seq<Seq<usize>>,
    g: Seq<u32>,
    open: Seq<(u32, usize)>,
    h: Seq<u32>,
    start: usize,
    goal: usize,
    q: Seq<usize>,
)
    requires
        wf_graph(adj),
        g.len() == adj.len(),
        h.len() == adj.len(),
        g[start as int] == 0,
        frontier_fresh(adj, g, open, h, goal),
        walk_between(adj, q, start, goal),
        q.len() <= u32::MAX,
    ensures
        exists|i: int| 0 <= i < q.len() && g[q[i] as int] <= i && #[trigger] fresh(open, g, h, q[i]),
{
    let last = q.len() - 1;
    lemma_frontier_prefix(adj, g, open, h, start, goal, q, last);
    if !(exists|i: int| 0 <= i <= last && g[q[i] as int] <= i && #[trigger] fresh(open, g, h, q[i])) {
        assert(q[last] == goal);
        assert(g[goal as int] != not_reached());
        assert(fresh(open, g, h, q[last]));
    }
}

/// A consistent heuristic at position `i` of a walk ending at the goal is
/// at most the number of steps left.
pub proof fn lemma_heuristic_along(adj: Seq<Seq<usize>>, h: Seq<u32>, goal: usize, q: Seq<usize>, i: int)
    requires
        consistent(adj, h, goal),
        is_path(adj, q),
        q.last() == goal,
        0 <= i < q.len(),
    ensures
        h[q[i] as int] <= q.len() - 1 - i,
    decreases q.len() - i,
{
    if i < q.len() - 1 {
        lemma_heuristic_along(adj, h, goal, q, i + 1);
        let u = q[i];
        assert(adj[u as int].contains(q[i + 1]));
        let k = choose|k: int| 0 <= k < adj[u as int].len() && adj[u as int][k] == q[i + 1];
        assert(h[u as int] <= h[adj[u as int][k] as int] + 1);
    }
}

/// When the goal's entry is the cheapest open entry and the heuristic is
/// consistent, the goal's cost is below the length of every walk to it.
pub proof fn lemma_goal_cheapest(
    adj: Seq<Seq<usize>>,
    g: Seq<u32>,
    open: Seq<(u32, usize)>,
    h: Seq<u32>,
    start: usize,
    goal: usize,
    k: int,
)
    requires
        wf_graph(adj),
        g.len() == adj.len(),
        g[start as int] == 0,
        consistent(adj, h, goal),
        frontier_fresh(adj, g, open, h, goal),
        keys_ok(g, open),
        0 <= k < open.len(),
        open[k].1 == goal,
        forall|j: int| 0 <= j < open.len() ==> open[k].0 <= (#[trigger] open[j]).0,
    ensures
        forall|q: Seq<usize>| #[trigger] walk_between(adj, q, start, goal) ==> g[goal as int] < q.len(),
{
    assert forall|q: Seq<usize>| #[trigger] walk_between(adj, q, start, goal) implies g[goal as int] < q.len() by {
        if q.len() <= u32::MAX {
            lemma_frontier(adj, g, open, h, start, goal, q);
            let i = choose|i: int| 0 <= i < q.len() && g[q[i] as int] <= i && #[trigger] fresh(open, g, h, q[i]);
            reveal(fresh);
            let j = choose|j: int| 0 <= j < open.len() && (#[trigger] open[j]).1 == q[i] && open[j].0 <= g[q[i] as int] + h[q[i] as int];
            lemma_heuristic_along(adj, h, goal, q, i);
            assert(open[k].0 <= open[j].0);
            assert(g[open[k].1 as int] <= open[k].0);
        }
    }
}

pub proof fn lemma_fresh_remove(open: Seq<(u32, usize)>, g: Seq<u32>, h: Seq<u32>, k: int, v: usize)
    requires
        0 <= k < open.len(),
        fresh(open, g, h, v),
        open[k].1 != v,
    ensures
        fresh(open.remove(k), g, h, v),
{
    reveal(fresh);
    let j = choose|j: int| 0 <= j < open.len() && (#[trigger] open[j]).1 == v && open[j].0 <= g[v as int] + h[v as int];
    let r = open.remove(k);
    if j < k {
        assert(r[j] == open[j]);
    } else {
        assert(r[j - 1] == open[j]);
    }
}

pub proof fn lemma_fresh_push(
    open: Seq<(u32, usize)>,
    g: Seq<u32>,
    g2: Seq<u32>,
    h: Seq<u32>,
    e: (u32, usize),
    v: usize,
)
    requires
        (fresh(open, g, h, v) && g2[v as int] == g[v as int]) || (e.1 == v && e.0 <= g2[v as int] + h[v as int]),
    ensures
        fresh(open.push(e), g2, h, v),
{
    reveal(fresh);
    let o = open.push(e);
    if e.1 == v && e.0 <= g2[v as int] + h[v as int] {
        assert(o[open.len() as int] == e);
    } else {
        let j = choose|j: int| 0 <= j < open.len() && (#[trigger] open[j]).1 == v && open[j].0 <= g[v as int] + h[v as int];
        assert(o[j] == open[j]);
    }
}

pub proof fn lemma_fresh_same(open: Seq<(u32, usize)>, g: Seq<u32>, g2: Seq<u32>, h: Seq<u32>, v: usize)
    requires
        fresh(open, g, h, v),
        g2[v as int] == g[v as int],
    ensures
        fresh(open, g2, h, v),
{
    reveal(fresh);
    let j = choose|j: int| 0 <= j < open.len() && (#[trigger] open[j]).1 == v && open[j].0 <= g[v as int] + h[v as int];
    assert(open[j].1 == v);
}

/// Taking entry `k` (of node `i`) out of the open list keeps every estimate
/// at least its node's cost, and every other reached node fresh or
/// expanded.
pub proof fn lemma_after_pop(
    adj: Seq<Seq<usize>>,
    g: Seq<u32>,
    open: Seq<(u32, usize)>,
    h: Seq<u32>,
    goal: usize,
    k: int,
)
    requires
        0 <= k < open.len(),
        adj.len() <= usize::MAX,
        keys_ok(g, open),
        frontier_fresh(adj, g, open, h, goal),
    ensures
        keys_ok(g, open.remove(k)),
        forall|u: int|
            0 <= u < adj.len() && u != open[k].1 && #[trigger] g[u] != not_reached() ==> fresh(
                open.remove(k),
                g,
                h,
                u as usize,
            ) || (u != goal && neighbours_within(adj, g, u)),
{
    let r = open.remove(k);
    assert forall|jj: int| 0 <= jj < r.len() implies g[(#[trigger] r[jj]).1 as int] <= r[jj].0 by {
        if jj < k {
            assert(r[jj] == open[jj]);
        } else {
            assert(r[jj] == open[jj + 1]);
        }
    }
    assert forall|u: int|
        0 <= u < adj.len() && u != open[k].1 && #[trigger] g[u] != not_reached() implies fresh(r, g, h, u as usize) || (u
            != goal && neighbours_within(adj, g, u)) by {
        if fresh(open, g, h, u as usize) {
            assert(open[k].1 != u as usize);
            lemma_fresh_remove(open, g, h, k, u as usize);
        }
    }
}

/// Once node `i`, not the goal, has been expanded, and every other reached
/// node is fresh or expanded, the frontier is fresh.
pub proof fn lemma_after_expand(adj: Seq<Seq<usize>>, g: Seq<u32>, open: Seq<(u32, usize)>, h: Seq<u32>, goal: usize, i: int)
    requires
        i != goal,
        neighbours_within(adj, g, i),
        forall|u: int|
            0 <= u < adj.len() && u != i && #[trigger] g[u] != not_reached() ==> fresh(open, g, h, u as usize) || (u
                != goal && neighbours_within(adj, g, u)),
    ensures
        frontier_fresh(adj, g, open, h, goal),
{
    assert forall|u: int| 0 <= u < adj.len() && #[trigger] g[u] != not_reached() implies fresh(open, g, h, u as usize)
        || (u != goal && neighbours_within(adj, g, u)) by {
        if u != i {
            assert(g[u] != not_reached());
        }
    }
}

/// Follow the links from `goal` back to `start` and return the walk from
/// `start` to `goal` that they spell.
pub fn follow_links(adj: &Vec<Vec<usize>>, g: &Vec<u32>, came: &Vec<usize>, start: usize, goal: usize) -> (path: Vec<usize>)
    requires
        wf_graph(lists(adj@)),
        links_ok(lists(adj@), g@, came@, start),
        goal < adj.len(),
        g@[goal as int] != not_reached(),
    ensures
        is_path(lists(adj@), path@),
        path@[0] == start,
        path@.last() == goal,
        path@.no_duplicates(),
        path@.len() <= g@[goal as int] + 1,
{
    let ghost graph = lists(adj@);
    let mut back: Vec<usize> = Vec::new();
    back.push(goal);
    let mut cur = goal;
    while cur != start
        invariant
            graph == lists(adj@),
            links_ok(graph, g@, came@, start),
            cur < adj.len(),
            g@[cur as int] != not_reached(),
            back@.len() >= 1,
            back@[0] == goal,
            back@.last() == cur,
            forall|i: int| 0 <= i < back@.len() ==> (#[trigger] back@[i]) < adj.len(),
            forall|i: int|
                0 <= i < back@.len() - 1 ==> graph[#[trigger] back@[i + 1] as int].contains(back@[i]),
            forall|i: int, j: int|
                0 <= i < j < back@.len() ==> g@[#[trigger] back@[j] as int] < g@[#[trigger] back@[i] as int],
            forall|i: int| 0 <= i < back@.len() ==> g@[#[trigger] back@[i] as int] + i <= g@[goal as int],
        decreases g@[cur as int],
    {
        let prev = came[cur];
        assert(graph[prev as int].contains(cur));
        let ghost before = back@;
        back.push(prev);
        proof {
            assert forall|i: int, j: int| 0 <= i < j < back@.len() implies g@[#[trigger] back@[j] as int]
                < g@[#[trigger] back@[i] as int] by {
                if j == back@.len() - 1 {
                    assert(back@[j] == prev);
                    assert(back@[i] == before[i]);
                    if i < before.len() - 1 {
                        assert(g@[before[before.len() - 1] as int] < g@[before[i] as int]);
                    }
                } else {
                    assert(back@[i] == before[i] && back@[j] == before[j]);
                }
            }
            assert forall|i: int| 0 <= i < back@.len() implies g@[#[trigger] back@[i] as int] + i <= g@[goal as int] by {
                if i < before.len() {
                    assert(back@[i] == before[i]);
                } else {
                    assert(back@[i] == prev);
                    assert(before[before.len() - 1] == cur);
                }
            }
        }
        cur = prev;
    }
    assert(g@[back@[back@.len() - 1] as int] + (back@.len() - 1) <= g@[goal as int]);
    let mut path: Vec<usize> = Vec::new();
    let len = back.len();
    let mut i = len;
    while i > 0
        invariant
            graph == lists(adj@),
            back@.len() == len,
            len >= 1,
            back@[0] == goal,
            back@.last() == start,
            i <= len,
            path@.len() == len - i,
            forall|j: int| 0 <= j < path@.len() ==> #[trigger] path@[j] == back@[len - 1 - j],
            forall|j: int| 0 <= j < back@.len() ==> (#[trigger] back@[j]) < adj.len(),
            forall|j: int|
                0 <= j < back@.len() - 1 ==> graph[#[trigger] back@[j + 1] as int].contains(back@[j]),
            forall|a: int, b: int|
                0 <= a < b < back@.len() ==> g@[#[trigger] back@[b] as int] < g@[#[trigger] back@[a] as int],
        decreases i,
    {
        i = i - 1;
        path.push(back[i]);
    }
    assert(path@.no_duplicates()) by {
        assert forall|a: int, b: int| 0 <= a < path@.len() && 0 <= b < path@.len() && a != b implies path@[a]
            != path@[b] by {
            assert(path@[a] == back@[len - 1 - a]);
            assert(path@[b] == back@[len - 1 - b]);
            if a < b {
                assert(g@[back@[len - 1 - a] as int] < g@[back@[len - 1 - b] as int]);
            } else {
                assert(g@[back@[len - 1 - b] as int] < g@[back@[len - 1 - a] as int]);
            }
        }
    }
    assert(is_path(graph, path@)) by {
        assert forall|j: int| 0 <= j < path@.len() implies (#[trigger] path@[j]) < graph.len() by {
            assert(path@[j] == back@[len - 1 - j]);
        }
        assert forall|j: int| 0 <= j < path@.len() - 1 implies graph[#[trigger] path@[j] as int].contains(
            path@[j + 1],
        ) by {
            let b = len - 2 - j;
            assert(path@[j] == back@[b + 1]);
            assert(path@[j + 1] == back@[b]);
        }
    }
    path
}

/// The index of an entry of `open` with the smallest estimate.
pub fn cheapest_entry(open: &Vec<(u32, usize)>) -> (k: usize)
    requires
        open.len() > 0,
    ensures
        k < open.len(),
        forall|j: int| 0 <= j < open.len() ==> open@[k as int].0 <= (#[trigger] open@[j]).0,
{
    let mut best: usize = 0;
    let mut j: usize = 1;
    while j < open.len()
        invariant
            0 < j <= open.len(),
            best < j,
            forall|i: int| 0 <= i < j ==> open@[best as int].0 <= (#[trigger] open@[i]).0,
        decreases open.len() - j,
    {
        if open[j].0 < open[best].0 {
            best = j;
        }
        j = j + 1;
    }
    best
}

} // verus!
