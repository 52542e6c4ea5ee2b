//! Best-first search over the graph of spaces (rooms, regions, oceans) that
//! portals connect. Each space is pushed on the open list at most once.
use vstd::prelude::*;
use crate::graph::{
    cheapest_entry, closed, count_reached, follow_links, frontier_ok, in_open, is_path, lemma_count_reached_le,
    lemma_count_reached_update, lemma_in_open_push, lemma_in_open_remove, lemma_unreached_goal, links_ok, lists,
    neighbours_reached, not_reached, open_ok, reachable, wf_graph, consistent, walk_between, fresh,
    neighbours_within, keys_ok, frontier_fresh, lemma_goal_cheapest, lemma_fresh_push, lemma_after_pop, lemma_after_expand,
};

verus! {

/// `s` is strictly increasing.
pub open spec fn strictly_increasing(s: Seq<usize>) -> bool {
    forall|a: int, b: int| 0 <= a < b < s.len() ==> s[a] < s[b]
}

/// The distinct entries of `v` in increasing order.
pub fn sorted_unique(v: &Vec<usize>) -> (out: Vec<usize>)
    ensures
        strictly_increasing(out@),
        forall|x: usize| #[trigger] out@.contains(x) == v@.contains(x),
{
    let mut out: Vec<usize> = Vec::new();
    let mut i: usize = 0;
    while i < v.len()
        invariant
            i <= v.len(),
            strictly_increasing(out@),
            forall|x: usize| #[trigger] out@.contains(x) == v@.subrange(0, i as int).contains(x),
        decreases v.len() - i,
    {
        let x = v[i];
        let ghost before = out@;
        let mut pos: usize = 0;
        while pos < out.len() && out[pos] < x
            invariant
                pos <= out.len(),
                forall|a: int| 0 <= a < pos ==> out@[a] < x,
            decreases out.len() - pos,
        {
            pos = pos + 1;
        }
        if pos < out.len() && out[pos] == x {
            assert forall|y: usize| #[trigger] out@.contains(y) == v@.subrange(0, i + 1).contains(y) by {
                assert(v@.subrange(0, i + 1) =~= v@.subrange(0, i as int).push(x));
                if y == x {
                    assert(out@[pos as int] == x);
                }
                let s0 = v@.subrange(0, i as int);
                if s0.contains(y) {
                    let a = choose|a: int| 0 <= a < s0.len() && s0[a] == y;
                    assert(v@.subrange(0, i + 1)[a] == y);
                }
                let s1 = v@.subrange(0, i + 1);
                assert(s1[i as int] == x);
                if s1.contains(y) && y != x {
                    let a = choose|a: int| 0 <= a < s1.len() && s1[a] == y;
                    assert(a < i);
                    assert(v@.subrange(0, i as int)[a] == y);
                }
            }
        } else {
            out.insert(pos, x);
            assert(strictly_increasing(out@)) by {
                assert forall|a: int, b: int| 0 <= a < b < out@.len() implies out@[a] < out@[b] by {
                    if a < pos && b > pos {
                        assert(out@[b] == before[b - 1]);
                        if pos < before.len() {
                            assert(before[pos as int] > x);
                            assert(before[pos as int] <= before[b - 1]);
                        }
                    } else if a == pos && b > pos {
                        assert(out@[b] == before[b - 1]);
                        assert(before[pos as int] > x);
                        assert(before[pos as int] <= before[b - 1]);
                    } else if a > pos {
                        assert(out@[a] == before[a - 1] && out@[b] == before[b - 1]);
                    }
                }
            }
            assert forall|y: usize| #[trigger] out@.contains(y) == v@.subrange(0, i + 1).contains(y) by {
                assert(v@.subrange(0, i + 1) =~= v@.subrange(0, i as int).push(x));
                if y == x {
                    assert(out@[pos as int] == x);
                }
                if out@.contains(y) && y != x {
                    let a = choose|a: int| 0 <= a < out@.len() && out@[a] == y;
                    if a < pos {
                        assert(before[a] == y);
                    } else {
                        assert(before[a - 1] == y);
                    }
                    assert(before.contains(y));
                }
                if before.contains(y) {
                    let a = choose|a: int| 0 <= a < before.len() && before[a] == y;
                    if a < pos {
                        assert(out@[a] == y);
                    } else {
                        assert(out@[a + 1] == y);
                    }
                }
                let s0 = v@.subrange(0, i as int);
                if s0.contains(y) {
                    let a = choose|a: int| 0 <= a < s0.len() && s0[a] == y;
                    assert(v@.subrange(0, i + 1)[a] == y);
                }
                let s1 = v@.subrange(0, i + 1);
                assert(s1[i as int] == x);
                if s1.contains(y) && y != x {
                    let a = choose|a: int| 0 <= a < s1.len() && s1[a] == y;
                    assert(a < i);
                    assert(v@.subrange(0, i as int)[a] == y);
                }
            }
        }
        i = i + 1;
    }
    assert(v@.subrange(0, v.len() as int) =~= v@);
    out
}

/// Every estimate of `h` is zero.
pub open spec fn all_zero(h: Seq<u32>) -> bool {
    forall|i: int| 0 <= i < h.len() ==> #[trigger] h[i] == 0
}

/// With zero estimates, the open entries hold their nodes' costs, which lie
/// between `level` and one more, and no reached node costs more than one
/// past `level`.
spec fn level_ok(adj: Seq<Seq<usize>>, g: Seq<u32>, open: Seq<(u32, usize)>, level: int) -> bool {
    &&& forall|j: int|
        0 <= j < open.len() ==> (#[trigger] open[j]).0 == g[open[j].1 as int] && level <= open[j].0 <= level + 1
    &&& forall|v: int| 0 <= v < adj.len() && #[trigger] g[v] != not_reached() ==> g[v] <= level + 1
}

/// Best-first search from space `start` to space `goal`, each portal
/// crossing costing one; `neighbours[s]` lists the spaces that portals lead
/// to from `s` (in any order, repeats allowed) and `heuristic[s]` estimates
/// the remaining cost from `s`. Returns the spaces of a walk from start to
/// goal, or `None` when the goal cannot be reached.
#[verifier::rlimit(100)]
#[verifier::spinoff_prover]
pub fn astar_spaces(neighbours: &Vec<Vec<usize>>, heuristic: &Vec<u32>, start: usize, goal: usize) -> (path: Option<
    Vec<usize>,
>)
    requires
        wf_graph(lists(neighbours@)),
        heuristic.len() == neighbours.len(),
        start < neighbours.len(),
        goal < neighbours.len(),
        neighbours.len() < u32::MAX,
    ensures
        path is Some <==> reachable(lists(neighbours@), start, goal),
        path matches Some(p) ==> {
            &&& is_path(lists(neighbours@), p@)
            &&& p@[0] == start
            &&& p@.last() == goal
            &&& p@.no_duplicates()
            &&& all_zero(heuristic@) ==> forall|q: Seq<usize>|
                #[trigger] walk_between(lists(neighbours@), q, start, goal) ==> p@.len() <= q.len()
        },
{
    let ghost graph = lists(neighbours@);
    let n = neighbours.len();
    let mut g: Vec<u32> = Vec::new();
    let mut came: Vec<usize> = Vec::new();
    let mut pushed: Vec<bool> = Vec::new();
    let mut r: usize = 0;
    while r < n
        invariant
            r <= n,
            g.len() == r,
            came.len() == r,
            pushed.len() == r,
            forall|k: int| 0 <= k < r ==> #[trigger] g@[k] == not_reached(),
            forall|k: int| 0 <= k < r ==> !(#[trigger] pushed@[k]),
            count_reached(g@) == 0,
        decreases n - r,
    {
        assert(g@.push(u32::MAX).drop_last() =~= g@);
        g.push(u32::MAX);
        came.push(n);
        pushed.push(false);
        r = r + 1;
    }
    proof {
        lemma_count_reached_update(g@, start as int, 0);
    }
    g.set(start, 0);
    let mut open: Vec<(u32, usize)> = Vec::new();
    open.push((heuristic[start], start));
    pushed.set(start, true);
    let mut done = false;
    assert(links_ok(graph, g@, came@, start));
    assert(in_open(open@, start)) by {
        assert(open@[0].1 == start);
    }
    let ghost zero = all_zero(heuristic@);
    let ghost mut level: int = 0;
    proof {
        if zero {
            assert(heuristic@[start as int] == 0);
            assert(fresh(open@, g@, heuristic@, start)) by {
                reveal(fresh);
                assert(open@[0].1 == start);
            }
            assert(frontier_fresh(graph, g@, open@, heuristic@, goal)) by {
                assert forall|u: int| 0 <= u < graph.len() && #[trigger] g@[u] != not_reached() implies fresh(
                    open@,
                    g@,
                    heuristic@,
                    u as usize,
                ) || (u != goal && neighbours_within(graph, g@, u)) by {
                    assert(u == start);
                }
            }
            assert(level_ok(graph, g@, open@, level)) by {
                assert forall|v: int| 0 <= v < graph.len() && #[trigger] g@[v] != not_reached() implies g@[v] <= level
                    + 1 by {
                    assert(v == start);
                }
            }
        }
    }
    while !done && open.len() > 0
        invariant
            graph == lists(neighbours@),
            wf_graph(graph),
            n == neighbours.len(),
            n < u32::MAX,
            heuristic.len() == n,
            start < n,
            goal < n,
            pushed.len() == n,
            forall|v: int| 0 <= v < n ==> #[trigger] pushed@[v] == (g@[v] != not_reached()),
            links_ok(graph, g@, came@, start),
            open_ok(graph, g@, open@),
            !done ==> frontier_ok(graph, g@, open@),
            done ==> g@[goal as int] != not_reached(),
            zero == all_zero(heuristic@),
            zero && !done ==> frontier_fresh(graph, g@, open@, heuristic@, goal) && level_ok(graph, g@, open@, level),
            done && zero ==> forall|q: Seq<usize>|
                #[trigger] walk_between(graph, q, start, goal) ==> g@[goal as int] < q.len(),
        decreases n - count_reached(g@), open.len(),
    {
        proof {
            lemma_count_reached_le(g@);
        }
        let ghost c0 = count_reached(g@);
        let ghost len0 = open.len();
        let k = cheapest_entry(&open);
        let ghost open_before = open@;
        let entry = open.remove(k);
        let space = entry.1;
        assert(open_before[k as int] == entry);
        proof {
            if zero {
                assert(keys_ok(g@, open_before)) by {
                    assert forall|jj: int| 0 <= jj < open_before.len() implies g@[(#[trigger] open_before[jj]).1 as int]
                        <= open_before[jj].0 by {
                        assert(open_before[jj].0 == g@[open_before[jj].1 as int]);
                    }
                }
            }
        }
        if space == goal {
            proof {
                if zero {
                    assert(consistent(graph, heuristic@, goal)) by {
                        assert(heuristic@[goal as int] == 0);
                        assert forall|u: int, kk: int| 0 <= u < graph.len() && 0 <= kk < graph[u].len() implies heuristic@[u]
                            <= heuristic@[#[trigger] graph[u][kk] as int] + 1 by {
                            assert(heuristic@[u] == 0);
                        }
                    }
                    lemma_goal_cheapest(graph, g@, open_before, heuristic@, start, goal, k as int);
                }
            }
            done = true;
        } else {
            let ghost level_old = level;
            proof {
                if zero {
                    level = open_before[k as int].0 as int;
                    assert(level_ok(graph, g@, open@, level)) by {
                        assert forall|jj: int| 0 <= jj < open@.len() implies (#[trigger] open@[jj]).0 == g@[open@[jj].1 as int]
                            && level <= open@[jj].0 <= level + 1 by {
                            if jj < k {
                                assert(open@[jj] == open_before[jj]);
                            } else {
                                assert(open@[jj] == open_before[jj + 1]);
                            }
                        }
                    }
                    lemma_after_pop(graph, g@, open_before, heuristic@, goal, k as int);
                }
            }
            let g_curr = g[space];
            let nbs = sorted_unique(&neighbours[space]);
            assert(neighbours@[space as int]@ == graph[space as int]);
            assert forall|u: int|
                0 <= u < n && u != space && #[trigger] g@[u] != not_reached() implies in_open(open@, u as usize)
                    || neighbours_reached(graph, g@, u) by {
                if in_open(open_before, u as usize) {
                    lemma_in_open_remove(open_before, k as int, u as usize);
                }
            }
            assert forall|kk: int| 0 <= kk < nbs@.len() implies (#[trigger] nbs@[kk]) < n by {
                let x = nbs@[kk];
                assert(nbs@.contains(x));
                assert(graph[space as int].contains(x));
                let a = choose|a: int| 0 <= a < graph[space as int].len() && graph[space as int][a] == x;
                assert(graph[space as int][a] < n);
            }
            let ghost open_mid = open@;
            let mut j: usize = 0;
            while j < nbs.len()
                invariant
                    graph == lists(neighbours@),
                    wf_graph(graph),
                    n == neighbours.len(),
                    n < u32::MAX,
                    heuristic.len() == n,
                    start < n,
                    space < n,
                    forall|x: usize| #[trigger] nbs@.contains(x) == graph[space as int].contains(x),
                    j <= nbs.len(),
                    g@[space as int] == g_curr,
                    g_curr != not_reached(),
                    pushed.len() == n,
                    forall|v: int| 0 <= v < n ==> #[trigger] pushed@[v] == (g@[v] != not_reached()),
                    links_ok(graph, g@, came@, start),
                    open_ok(graph, g@, open@),
                    forall|u: int|
                        0 <= u < n && u != space && #[trigger] g@[u] != not_reached() ==> in_open(open@, u as usize)
                            || neighbours_reached(graph, g@, u),
                    forall|kk: int| 0 <= kk < j ==> g@[#[trigger] nbs@[kk] as int] != not_reached(),
                    forall|kk: int| 0 <= kk < nbs@.len() ==> (#[trigger] nbs@[kk]) < n,
                    zero == all_zero(heuristic@),
                    goal < n,
                    space != goal,
                    zero ==> g_curr == level,
                    zero ==> level_ok(graph, g@, open@, level),
                    zero ==> forall|kk: int| 0 <= kk < j ==> g@[#[trigger] nbs@[kk] as int] <= g_curr + 1,
                    zero ==> forall|u: int|
                        0 <= u < n && u != space && #[trigger] g@[u] != not_reached() ==> fresh(
                            open@,
                            g@,
                            heuristic@,
                            u as usize,
                        ) || (u != goal && neighbours_within(graph, g@, u)),
                    count_reached(g@) == c0 + (open.len() - open_mid.len()),
                    open.len() >= open_mid.len(),
                    open_mid.len() + 1 == len0,
                decreases nbs.len() - j,
            {
                let nb = nbs[j];
                assert(nbs@.contains(nb));
                assert(graph[space as int].contains(nb));
                proof {
                    let a = choose|a: int| 0 <= a < graph[space as int].len() && graph[space as int][a] == nb;
                    assert(graph[space as int][a] < n);
                }
                let tentative = g_curr.saturating_add(1);
                assert(g_curr < count_reached(g@));
                proof {
                    lemma_count_reached_le(g@);
                }
                assert(tentative == g_curr + 1);
                if tentative < g[nb] {
                    let ghost g_old = g@;
                    let ghost open_old = open@;
                    proof {
                        lemma_count_reached_update(g@, nb as int, tentative);
                    }
                    came.set(nb, space);
                    g.set(nb, tentative);
                    let f = tentative.saturating_add(heuristic[nb]);
                    let newly = !pushed[nb];
                    if newly {
                        pushed.set(nb, true);
                        open.push((f, nb));
                    }
                    assert(nb != start);
                    assert(links_ok(graph, g@, came@, start)) by {
                        assert forall|v: int|
                            0 <= v < n && v != start && #[trigger] g@[v] != not_reached() implies {
                            &&& came@[v] < n
                            &&& graph[came@[v] as int].contains(v as usize)
                            &&& g@[came@[v] as int] < g@[v]
                        } by {
                            if v != nb {
                                assert(g_old[v] != not_reached());
                            }
                        }
                        assert forall|v: int| 0 <= v < n && #[trigger] g@[v] != not_reached() implies g@[v]
                            < count_reached(g@) by {
                            if v != nb {
                                assert(g_old[v] != not_reached());
                            }
                        }
                    }
                    assert(open_ok(graph, g@, open@)) by {
                        assert forall|jj: int| 0 <= jj < open@.len() implies (#[trigger] open@[jj]).1 < n
                            && g@[open@[jj].1 as int] != not_reached() by {
                            if jj < open_old.len() {
                                assert(open@[jj] == open_old[jj]);
                            }
                        }
                    }
                    assert forall|u: int|
                        0 <= u < n && u != space && #[trigger] g@[u] != not_reached() implies in_open(
                            open@,
                            u as usize,
                        ) || neighbours_reached(graph, g@, u) by {
                        if u == nb && newly {
                            lemma_in_open_push(open_old, (f, nb), nb);
                        } else if in_open(open_old, u as usize) {
                            if newly {
                                lemma_in_open_push(open_old, (f, nb), u as usize);
                            }
                        } else {
                            assert(g_old[u] != not_reached());
                            assert(neighbours_reached(graph, g_old, u));
                            assert forall|kk: int| 0 <= kk < graph[u].len() implies g@[#[trigger] graph[u][kk]
                                as int] != not_reached() by {
                                assert(g_old[graph[u][kk] as int] != not_reached());
                            }
                        }
                    }
                    assert forall|kk: int| 0 <= kk < j + 1 implies g@[#[trigger] nbs@[kk] as int]
                        != not_reached() by {
                        if nbs@[kk] != nb {
                            assert(g_old[nbs@[kk] as int] != not_reached());
                        }
                    }
                    proof {
                        if zero {
                            assert(g_old[nb as int] == not_reached());
                            assert(newly);
                            assert(heuristic@[nb as int] == 0);
                            assert(f == tentative);
                            assert(level_ok(graph, g@, open@, level)) by {
                                assert forall|jj: int| 0 <= jj < open@.len() implies (#[trigger] open@[jj]).0
                                    == g@[open@[jj].1 as int] && level <= open@[jj].0 <= level + 1 by {
                                    if jj < open_old.len() {
                                        assert(open@[jj] == open_old[jj]);
                                        assert(g_old[open_old[jj].1 as int] != not_reached());
                                    }
                                }
                                assert forall|v: int| 0 <= v < graph.len() && #[trigger] g@[v] != not_reached() implies g@[v]
                                    <= level + 1 by {
                                    if v != nb {
                                        assert(g_old[v] != not_reached());
                                    }
                                }
                            }
                            assert forall|u: int|
                                0 <= u < n && u != space && #[trigger] g@[u] != not_reached() implies fresh(
                                    open@,
                                    g@,
                                    heuristic@,
                                    u as usize,
                                ) || (u != goal && neighbours_within(graph, g@, u)) by {
                                if u == nb {
                                    lemma_fresh_push(open_old, g_old, g@, heuristic@, (f, nb), nb);
                                } else {
                                    assert(g_old[u] != not_reached());
                                    if fresh(open_old, g_old, heuristic@, u as usize) {
                                        lemma_fresh_push(open_old, g_old, g@, heuristic@, (f, nb), u as usize);
                                    } else {
                                        assert forall|kk: int| 0 <= kk < graph[u].len() implies g@[#[trigger] graph[
                                            u][kk] as int] <= g@[u] + 1 by {
                                            assert(g_old[graph[u][kk] as int] <= g_old[u] + 1);
                                        }
                                    }
                                }
                            }
                            assert forall|kk: int| 0 <= kk < j + 1 implies g@[#[trigger] nbs@[kk] as int] <= g_curr + 1 by {
                                if nbs@[kk] != nb {
                                    assert(g_old[nbs@[kk] as int] <= g_curr + 1);
                                }
                            }
                        }
                    }
                }
                j = j + 1;
            }
            proof {
                lemma_count_reached_le(g@);
            }
            proof {
                if zero {
                    assert(neighbours_within(graph, g@, space as int)) by {
                        assert forall|kk: int| 0 <= kk < graph[space as int].len() implies g@[#[trigger] graph[
                            space as int][kk] as int] <= g@[space as int] + 1 by {
                            let x = graph[space as int][kk];
                            assert(graph[space as int].contains(x));
                            assert(nbs@.contains(x));
                            let b = choose|b: int| 0 <= b < nbs@.len() && nbs@[b] == x;
                            assert(g@[nbs@[b] as int] <= g_curr + 1);
                        }
                    }
                }
            }
            assert(neighbours_reached(graph, g@, space as int)) by {
                assert forall|kk: int| 0 <= kk < graph[space as int].len() implies g@[#[trigger] graph[
                    space as int][kk] as int] != not_reached() by {
                    let x = graph[space as int][kk];
                    assert(graph[space as int].contains(x));
                    assert(nbs@.contains(x));
                    let b = choose|b: int| 0 <= b < nbs@.len() && nbs@[b] == x;
                    assert(g@[nbs@[b] as int] != not_reached());
                }
            }
            proof {
                if zero {
                    lemma_after_expand(graph, g@, open@, heuristic@, goal, space as int);
                }
            }
        }
    }
    if g[goal] != u32::MAX {
        proof {
            if zero && !done {
                reveal(fresh);
                assert(fresh(open@, g@, heuristic@, goal));
            }
        }
        let p = follow_links(neighbours, &g, &came, start, goal);
        Some(p)
    } else {
        proof {
            assert(open@.len() == 0);
            assert(closed(graph, g@)) by {
                assert forall|u: int| 0 <= u < graph.len() && g@[u] != not_reached() implies #[trigger] neighbours_reached(
                    graph,
                    g@,
                    u,
                ) by {
                    assert(!in_open(open@, u as usize));
                }
            }
            lemma_unreached_goal(graph, g@, start, goal);
        }
        None
    }
}

/// The spaces at the far ends of the portals `ps` leaving a space, in order;
/// portals not listed in `ends` (from-space, to-space) are skipped.
pub open spec fn far_ends(ends: Seq<(usize, usize)>, ps: Seq<usize>) -> Seq<usize>
    decreases ps.len(),
{
    if ps.len() == 0 {
        Seq::empty()
    } else {
        let rest = far_ends(ends, ps.drop_last());
        if ps.last() < ends.len() {
            rest.push(ends[ps.last() as int].1)
        } else {
            rest
        }
    }
}

/// The spaces at the near ends of the portals `ps` entering a space, in
/// order; portals not listed in `ends` are skipped.
pub open spec fn near_ends(ends: Seq<(usize, usize)>, ps: Seq<usize>) -> Seq<usize>
    decreases ps.len(),
{
    if ps.len() == 0 {
        Seq::empty()
    } else {
        let rest = near_ends(ends, ps.drop_last());
        if ps.last() < ends.len() {
            rest.push(ends[ps.last() as int].0)
        } else {
            rest
        }
    }
}

/// Through the portals `ps`, a space reaches the far end of every portal
/// listed in `ends`, once per such portal, and nothing else; likewise for
/// the near ends of the portals entering it.
pub proof fn lemma_portal_ends(ends: Seq<(usize, usize)>, ps: Seq<usize>)
    ensures
        far_ends(ends, ps).len() == ps.filter(|p: usize| p < ends.len()).len(),
        near_ends(ends, ps).len() == ps.filter(|p: usize| p < ends.len()).len(),
        forall|k: int|
            0 <= k < ps.len() && #[trigger] ps[k] < ends.len() ==> far_ends(ends, ps).contains(ends[ps[k] as int].1)
                && near_ends(ends, ps).contains(ends[ps[k] as int].0),
        forall|j: int|
            0 <= j < far_ends(ends, ps).len() ==> exists|k: int|
                0 <= k < ps.len() && #[trigger] ps[k] < ends.len() && #[trigger] far_ends(ends, ps)[j] == ends[ps[k] as int].1,
        forall|j: int|
            0 <= j < near_ends(ends, ps).len() ==> exists|k: int|
                0 <= k < ps.len() && #[trigger] ps[k] < ends.len() && #[trigger] near_ends(ends, ps)[j] == ends[ps[k] as int].0,
    decreases ps.len(),
{
    reveal_with_fuel(Seq::filter, 1);
    if ps.len() > 0 {
        let d = ps.drop_last();
        lemma_portal_ends(ends, d);
        let f = far_ends(ends, ps);
        let t = near_ends(ends, ps);
        let fd = far_ends(ends, d);
        let td = near_ends(ends, d);
        let last = ps.len() - 1;
        assert(ps[last] == ps.last());
        assert forall|k: int|
            0 <= k < ps.len() && #[trigger] ps[k] < ends.len() implies f.contains(ends[ps[k] as int].1) && t.contains(
            ends[ps[k] as int].0,
        ) by {
            if k < last {
                assert(ps[k] == d[k]);
                let j1 = choose|j: int| 0 <= j < fd.len() && fd[j] == ends[d[k] as int].1;
                let j2 = choose|j: int| 0 <= j < td.len() && td[j] == ends[d[k] as int].0;
                assert(f[j1] == fd[j1]);
                assert(t[j2] == td[j2]);
            } else {
                assert(f[f.len() - 1] == ends[ps[k] as int].1);
                assert(t[t.len() - 1] == ends[ps[k] as int].0);
            }
        }
        assert forall|j: int| 0 <= j < f.len() implies exists|k: int|
            0 <= k < ps.len() && #[trigger] ps[k] < ends.len() && #[trigger] f[j] == ends[ps[k] as int].1 by {
            if j < fd.len() {
                assert(f[j] == fd[j]);
                let k = choose|k: int| 0 <= k < d.len() && #[trigger] d[k] < ends.len() && fd[j] == ends[d[k] as int].1;
                assert(ps[k] == d[k]);
            } else {
                assert(ps[last] < ends.len());
            }
        }
        assert forall|j: int| 0 <= j < t.len() implies exists|k: int|
            0 <= k < ps.len() && #[trigger] ps[k] < ends.len() && #[trigger] t[j] == ends[ps[k] as int].0 by {
            if j < td.len() {
                assert(t[j] == td[j]);
                let k = choose|k: int| 0 <= k < d.len() && #[trigger] d[k] < ends.len() && td[j] == ends[d[k] as int].0;
                assert(ps[k] == d[k]);
            } else {
                assert(ps[last] < ends.len());
            }
        }
    }
}

/// Every portal end is one of the `n` spaces.
pub open spec fn ends_within(ends: Seq<(usize, usize)>, n: nat) -> bool {
    forall|p: int| 0 <= p < ends.len() ==> (#[trigger] ends[p]).0 < n && ends[p].1 < n
}

/// The ends of `ps` in `ends`, taking the far end (`far`) or the near end,
/// appended to `out`.
fn push_ends(out: &mut Vec<usize>, ends: &Vec<(usize, usize)>, ps: &Vec<usize>, far: bool)
    ensures
        final(out)@ == old(out)@ + if far {
            far_ends(ends@, ps@)
        } else {
            near_ends(ends@, ps@)
        },
{
    let ghost start = out@;
    let mut k: usize = 0;
    while k < ps.len()
        invariant
            k <= ps@.len(),
            out@ == start + if far {
                far_ends(ends@, ps@.take(k as int))
            } else {
                near_ends(ends@, ps@.take(k as int))
            },
        decreases ps@.len() - k,
    {
        let p = ps[k];
        proof {
            assert(ps@.take(k + 1).drop_last() =~= ps@.take(k as int));
            assert(ps@.take(k + 1).last() == p);
        }
        let ghost before = out@;
        if p < ends.len() {
            if far {
                out.push(ends[p].1);
            } else {
                out.push(ends[p].0);
            }
        }
        proof {
            if far {
                assert(out@ =~= start + far_ends(ends@, ps@.take(k + 1)));
            } else {
                assert(out@ =~= start + near_ends(ends@, ps@.take(k + 1)));
            }
        }
        k = k + 1;
    }
    assert(ps@.take(ps@.len() as int) =~= ps@);
}

proof fn lemma_ends_within(ends: Seq<(usize, usize)>, ps: Seq<usize>, n: nat)
    requires
        ends_within(ends, n),
    ensures
        forall|k: int| 0 <= k < far_ends(ends, ps).len() ==> #[trigger] far_ends(ends, ps)[k] < n,
        forall|k: int| 0 <= k < near_ends(ends, ps).len() ==> #[trigger] near_ends(ends, ps)[k] < n,
    decreases ps.len(),
{
    if ps.len() > 0 {
        let d = ps.drop_last();
        lemma_ends_within(ends, d, n);
        let f = far_ends(ends, ps);
        let t = near_ends(ends, ps);
        let fd = far_ends(ends, d);
        let td = near_ends(ends, d);
        if ps.last() < ends.len() {
            let e = ends[ps.last() as int];
            assert(e.0 < n && e.1 < n);
        }
        assert forall|k: int| 0 <= k < f.len() implies #[trigger] f[k] < n by {
            if k < fd.len() {
                assert(f[k] == fd[k]);
            }
        }
        assert forall|k: int| 0 <= k < t.len() implies #[trigger] t[k] < n by {
            if k < td.len() {
                assert(t[k] == td[k]);
            }
        }
    }
}

/// The neighbours of each space: the far ends of the portals leaving it, in
/// order, then the near ends of the portals entering it, in order, skipping
/// portals not listed in `ends`.
pub fn space_neighbours(portals_from: &Vec<Vec<usize>>, portals_to: &Vec<Vec<usize>>, ends: &Vec<(usize, usize)>) -> (nb:
    Vec<Vec<usize>>)
    requires
        portals_from.len() == portals_to.len(),
        ends_within(ends@, portals_from.len() as nat),
    ensures
        nb.len() == portals_from.len(),
        forall|s: int|
            0 <= s < nb.len() ==> (#[trigger] nb@[s])@ == far_ends(ends@, portals_from@[s]@) + near_ends(
                ends@,
                portals_to@[s]@,
            ),
        wf_graph(lists(nb@)),
        forall|s: int, k: int|
            0 <= s < nb.len() && 0 <= k < portals_from@[s]@.len() && #[trigger] portals_from@[s]@[k] < ends.len()
                ==> nb@[s]@.contains(ends@[portals_from@[s]@[k] as int].1),
        forall|s: int, k: int|
            0 <= s < nb.len() && 0 <= k < portals_to@[s]@.len() && #[trigger] portals_to@[s]@[k] < ends.len()
                ==> nb@[s]@.contains(ends@[portals_to@[s]@[k] as int].0),
        forall|s: int|
            0 <= s < nb.len() ==> (#[trigger] nb@[s])@.len() == portals_from@[s]@.filter(|p: usize| p < ends.len()).len()
                + portals_to@[s]@.filter(|p: usize| p < ends.len()).len(),
{
    let n = portals_from.len();
    let mut nb: Vec<Vec<usize>> = Vec::new();
    let mut s: usize = 0;
    while s < n
        invariant
            n == portals_from.len(),
            n == portals_to.len(),
            s <= n,
            nb.len() == s,
            forall|t: int|
                0 <= t < s ==> (#[trigger] nb@[t])@ == far_ends(ends@, portals_from@[t]@) + near_ends(
                    ends@,
                    portals_to@[t]@,
                ),
        decreases n - s,
    {
        let mut row: Vec<usize> = Vec::new();
        push_ends(&mut row, ends, &portals_from[s], true);
        push_ends(&mut row, ends, &portals_to[s], false);
        assert(row@ =~= far_ends(ends@, portals_from@[s as int]@) + near_ends(ends@, portals_to@[s as int]@));
        nb.push(row);
        s = s + 1;
    }
    proof {
        assert forall|s: int, k: int|
            0 <= s < nb.len() && 0 <= k < portals_from@[s]@.len() && #[trigger] portals_from@[s]@[k] < ends.len()
                implies nb@[s]@.contains(ends@[portals_from@[s]@[k] as int].1) by {
            lemma_portal_ends(ends@, portals_from@[s]@);
            let f = far_ends(ends@, portals_from@[s]@);
            let j = choose|j: int| 0 <= j < f.len() && f[j] == ends@[portals_from@[s]@[k] as int].1;
            assert(nb@[s]@[j] == f[j]);
        }
        assert forall|s: int, k: int|
            0 <= s < nb.len() && 0 <= k < portals_to@[s]@.len() && #[trigger] portals_to@[s]@[k] < ends.len()
                implies nb@[s]@.contains(ends@[portals_to@[s]@[k] as int].0) by {
            lemma_portal_ends(ends@, portals_to@[s]@);
            let f = far_ends(ends@, portals_from@[s]@);
            let t = near_ends(ends@, portals_to@[s]@);
            let j = choose|j: int| 0 <= j < t.len() && t[j] == ends@[portals_to@[s]@[k] as int].0;
            assert(nb@[s]@[f.len() + j] == t[j]);
        }
        assert forall|s: int| 0 <= s < nb.len() implies (#[trigger] nb@[s])@.len() == portals_from@[s]@.filter(
            |p: usize| p < ends.len(),
        ).len() + portals_to@[s]@.filter(|p: usize| p < ends.len()).len() by {
            lemma_portal_ends(ends@, portals_from@[s]@);
            lemma_portal_ends(ends@, portals_to@[s]@);
        }
        let g = lists(nb@);
        assert forall|u: int, k: int| 0 <= u < g.len() && 0 <= k < g[u].len() implies (#[trigger] g[u][k]) < g.len() by {
            lemma_ends_within(ends@, portals_from@[u]@, n as nat);
            lemma_ends_within(ends@, portals_to@[u]@, n as nat);
            let f = far_ends(ends@, portals_from@[u]@);
            let t = near_ends(ends@, portals_to@[u]@);
            assert(g[u] == nb@[u]@);
            if k < f.len() {
                assert(g[u][k] == f[k]);
            } else {
                assert(g[u][k] == t[k - f.len()]);
            }
        }
    }
    nb
}

/// Where a traveller between spaces heads.
pub enum RoutePlan {
    /// Follow this walk of spaces; its first space is the first target.
    FollowPath(Vec<usize>),
    /// Head straight for this space.
    DirectTo(usize),
}

/// With a space graph (`has_graph`), follow a walk from `start` to `goal` if
/// there is one; otherwise head straight for `goal`.
pub fn plan_route(has_graph: bool, nb: &Vec<Vec<usize>>, heuristic: &Vec<u32>, start: usize, goal: usize) -> (plan:
    RoutePlan)
    requires
        wf_graph(lists(nb@)),
        heuristic.len() == nb.len(),
        start < nb.len(),
        goal < nb.len(),
        nb.len() < u32::MAX,
    ensures
        plan is FollowPath <==> has_graph && reachable(lists(nb@), start, goal),
        plan matches RoutePlan::FollowPath(w) ==> {
            &&& is_path(lists(nb@), w@)
            &&& w@[0] == start
            &&& w@.last() == goal
            &&& w@.no_duplicates()
            &&& all_zero(heuristic@) ==> forall|q: Seq<usize>|
                #[trigger] walk_between(lists(nb@), q, start, goal) ==> w@.len() <= q.len()
        },
        !(plan is FollowPath) ==> plan == RoutePlan::DirectTo(goal),
{
    if has_graph {
        match astar_spaces(nb, heuristic, start, goal) {
            Some(w) => {
                return RoutePlan::FollowPath(w);
            },
            None => {},
        }
    }
    RoutePlan::DirectTo(goal)
}

} // verus!
