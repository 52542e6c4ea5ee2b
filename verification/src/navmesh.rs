//! The connectivity of a navigation mesh: which polygons share an edge, and
//! a best-first search from one polygon to another across shared edges.
use vstd::prelude::*;
use crate::graph::{
    closed, count_reached, cost_sum, follow_links, cheapest_entry, in_open, is_path, lemma_count_reached_le,
    lemma_count_reached_update, lemma_cost_sum_update, lemma_in_open_push, lemma_in_open_remove,
    lemma_unreached_goal, links_ok, lists, neighbours_reached, not_reached, open_ok, frontier_ok, reachable,
    wf_graph, consistent, walk_between, fresh, neighbours_within, keys_ok, frontier_fresh, lemma_goal_cheapest,
    lemma_fresh_push, lemma_after_pop, lemma_after_expand,
};

verus! {

/// Whether polygons `a` and `b` were found to share an edge; only the entry
/// of the smaller index's row at the larger index is consulted.
pub open spec fn linked(shares: Seq<Vec<bool>>, a: int, b: int) -> bool {
    if a < b {
        shares[a]@[b]
    } else {
        shares[b]@[a]
    }
}

/// The neighbour list of polygon `k`: strictly increasing, and holding
/// exactly the other polygons that share an edge with `k`.
pub open spec fn neighbour_row(shares: Seq<Vec<bool>>, n: int, k: int, row: Seq<usize>) -> bool {
    &&& forall|a: int, b: int| 0 <= a < b < row.len() ==> row[a] < row[b]
    &&& forall|a: int| 0 <= a < row.len() ==> (#[trigger] row[a]) < n
    &&& forall|m: int| 0 <= m < n ==> (row.contains(m as usize) == #[trigger] is_neighbour(shares, k, m))
}

/// Polygons `k` and `m` are distinct and share an edge.
pub open spec fn is_neighbour(shares: Seq<Vec<bool>>, k: int, m: int) -> bool {
    m != k && linked(shares, k, m)
}

/// The shared-edge table is square with one row per polygon.
pub open spec fn square(shares: Seq<Vec<bool>>, n: int) -> bool {
    &&& shares.len() == n
    &&& forall|i: int| 0 <= i < n ==> (#[trigger] shares[i])@.len() == n
}

/// The pair `{k, m}` has been looked at once the scan of pairs `(a, b)` with
/// `a < b` has reached row `i`, column `j`.
pub open spec fn pair_seen(i: int, j: int, k: int, m: int) -> bool {
    let a = if k < m { k } else { m };
    let b = if k < m { m } else { k };
    a < i || (a == i && b < j)
}

/// The list of polygon `k` once the scan has reached row `i`, column `j`.
pub open spec fn row_so_far(shares: Seq<Vec<bool>>, n: int, k: int, row: Seq<usize>, i: int, j: int) -> bool {
    &&& forall|a: int, b: int| 0 <= a < b < row.len() ==> row[a] < row[b]
    &&& forall|a: int| 0 <= a < row.len() ==> (#[trigger] row[a]) < n
    &&& forall|m: int| 0 <= m < n ==> (row.contains(m as usize) == #[trigger] listed_by(shares, k, m, i, j))
}

/// Polygon `m` belongs in the list of `k` once the scan has reached row `i`,
/// column `j`.
pub open spec fn listed_by(shares: Seq<Vec<bool>>, k: int, m: int, i: int, j: int) -> bool {
    is_neighbour(shares, k, m) && pair_seen(i, j, k, m)
}

proof fn lemma_row_next(shares: Seq<Vec<bool>>, n: int, k: int, row: Seq<usize>, i: int, j: int, i2: int, j2: int)
    requires
        0 <= k < n <= usize::MAX,
        row_so_far(shares, n, k, row, i, j),
        forall|m: int| 0 <= m < n && m != k ==> pair_seen(i, j, k, m) == pair_seen(i2, j2, k, m),
    ensures
        row_so_far(shares, n, k, row, i2, j2),
        i >= n ==> neighbour_row(shares, n, k, row),
{
    assert forall|m: int| 0 <= m < n implies (row.contains(m as usize) == #[trigger] listed_by(shares, k, m, i2, j2)) by {
        assert(row.contains(m as usize) == listed_by(shares, k, m, i, j));
        if m != k {
            assert(pair_seen(i, j, k, m) == pair_seen(i2, j2, k, m));
        }
    }
    if i >= n {
        assert forall|m: int| 0 <= m < n implies (row.contains(m as usize) == #[trigger] is_neighbour(shares, k, m)) by {
            assert(row.contains(m as usize) == listed_by(shares, k, m, i, j));
            if m != k {
                assert(pair_seen(i, j, k, m));
            }
        }
    }
}

proof fn lemma_row_step(shares: Seq<Vec<bool>>, n: int, k: int, before: Seq<usize>, after: Seq<usize>, i: int, j: int)
    requires
        square(shares, n),
        n <= usize::MAX,
        0 <= i < j < n,
        0 <= k < n,
        row_so_far(shares, n, k, before, i, j),
        k == i && shares[i]@[j] ==> after == before.push(j as usize),
        k == j && shares[i]@[j] ==> after == before.push(i as usize),
        !((k == i || k == j) && shares[i]@[j]) ==> after == before,
    ensures
        row_so_far(shares, n, k, after, i, j + 1),
{
    let other = if k == i { j } else { i };
    if (k == i || k == j) && shares[i]@[j] {
        assert(linked(shares, k, other));
        assert forall|a: int| 0 <= a < before.len() implies (#[trigger] before[a]) < other by {
            let m = before[a] as int;
            assert(0 <= m < n);
            assert(before.contains(m as usize));
            assert(before.contains(m as usize) == listed_by(shares, k, m, i, j));
        }
        assert forall|m: int| 0 <= m < n implies (after.contains(m as usize) == #[trigger] listed_by(shares, k, m, i, j + 1)) by {
            assert(before.contains(m as usize) == listed_by(shares, k, m, i, j));
            if m == other {
                assert(after[before.len() as int] == m as usize);
            } else {
                assert(pair_seen(i, j + 1, k, m) == pair_seen(i, j, k, m));
                if after.contains(m as usize) {
                    let a = choose|a: int| 0 <= a < after.len() && after[a] == m as usize;
                    assert(a < before.len());
                    assert(before[a] == m as usize);
                }
                if before.contains(m as usize) {
                    let a = choose|a: int| 0 <= a < before.len() && before[a] == m as usize;
                    assert(after[a] == m as usize);
                }
            }
        }
    } else {
        assert forall|m: int| 0 <= m < n implies (after.contains(m as usize) == #[trigger] listed_by(shares, k, m, i, j + 1)) by {
            assert(before.contains(m as usize) == listed_by(shares, k, m, i, j));
            if (k == i && m == j) || (k == j && m == i) {
                assert(!linked(shares, k, m));
            } else {
                assert(pair_seen(i, j + 1, k, m) == pair_seen(i, j, k, m));
            }
        }
    }
}

/// Navigation mesh connectivity: `adj[i]` lists the polygons that share an
/// edge with polygon `i`.
#[derive(Debug)]
pub struct NavMesh {
    pub adj: Vec<Vec<usize>>,
}

impl NavMesh {
    /// The adjacency lists as sequences.
    pub open spec fn graph(&self) -> Seq<Seq<usize>> {
        lists(self.adj@)
    }

    /// Every neighbour named is a polygon of the mesh.
    pub open spec fn wf(&self) -> bool {
        wf_graph(self.graph())
    }

    /// Build the connectivity of `n` polygons from the table of which pairs
    /// share an edge. Each list comes out in increasing order, and a pair is
    /// linked both ways.
    pub fn from_shared_edges(n: usize, shares: &Vec<Vec<bool>>) -> (mesh: NavMesh)
        requires
            square(shares@, n as int),
        ensures
            mesh.adj.len() == n,
            mesh.wf(),
            forall|k: int| 0 <= k < n ==> neighbour_row(shares@, n as int, k, #[trigger] mesh.adj@[k]@),
    {
        let mut adj: Vec<Vec<usize>> = Vec::new();
        let mut r: usize = 0;
        while r < n
            invariant
                r <= n,
                adj.len() == r,
                forall|k: int| 0 <= k < r ==> (#[trigger] adj@[k])@.len() == 0,
            decreases n - r,
        {
            adj.push(Vec::new());
            r = r + 1;
        }
        let mut i: usize = 0;
        while i < n
            invariant
                square(shares@, n as int),
                i <= n,
                adj.len() == n,
                forall|k: int| 0 <= k < n ==> row_so_far(shares@, n as int, k, #[trigger] adj@[k]@, i as int, i + 1),
            decreases n - i,
        {
            let mut j: usize = i + 1;
            while j < n
                invariant
                    square(shares@, n as int),
                    i < n,
                    i < j <= n,
                    adj.len() == n,
                    forall|k: int| 0 <= k < n ==> row_so_far(shares@, n as int, k, #[trigger] adj@[k]@, i as int, j as int),
                decreases n - j,
            {
                let ghost before = adj@;
                let linked_ij = shares[i][j];
                if linked_ij {
                    adj[i].push(j);
                    adj[j].push(i);
                }
                assert forall|k: int| 0 <= k < n implies row_so_far(shares@, n as int, k, #[trigger] adj@[k]@, i as int, j + 1) by {
                    lemma_row_step(shares@, n as int, k, before[k]@, adj@[k]@, i as int, j as int);
                }
                j = j + 1;
            }
            assert forall|k: int| 0 <= k < n implies row_so_far(shares@, n as int, k, #[trigger] adj@[k]@, i + 1, i + 2) by {
                lemma_row_next(shares@, n as int, k, adj@[k]@, i as int, n as int, i + 1, i + 2);
            }
            i = i + 1;
        }
        let mesh = NavMesh { adj };
        assert forall|k: int| 0 <= k < n implies neighbour_row(shares@, n as int, k, #[trigger] mesh.adj@[k]@) by {
            lemma_row_next(shares@, n as int, k, mesh.adj@[k]@, n as int, n + 1, n as int, n + 1);
        }
        assert(wf_graph(mesh.graph())) by {
            assert forall|u: int, k: int|
                0 <= u < mesh.graph().len() && 0 <= k < mesh.graph()[u].len() implies (#[trigger] mesh.graph()[u][k])
                < mesh.graph().len() by {
                assert(mesh.graph()[u] == mesh.adj@[u]@);
                assert(mesh.adj@[u]@[k] < n);
            }
        }
        mesh
    }

    /// Best-first search over the mesh from `start_idx` to `goal_idx`, each
    /// step costing one; `heuristic[i]` is the estimated remaining cost from
    /// polygon `i`. Returns the polygons of a walk from start to goal, or
    /// `None` when the goal cannot be reached.
    #[verifier::rlimit(100)]
    #[verifier::spinoff_prover]
    pub fn astar(&self, heuristic: &Vec<u32>, start_idx: usize, goal_idx: usize) -> (path: Option<Vec<usize>>)
        requires
            self.wf(),
            heuristic.len() == self.adj.len(),
            start_idx < self.adj.len(),
            goal_idx < self.adj.len(),
            self.adj.len() < u32::MAX,
        ensures
            path is Some <==> reachable(self.graph(), start_idx, goal_idx),
            path matches Some(p) ==> {
                &&& is_path(self.graph(), p@)
                &&& p@[0] == start_idx
                &&& p@.last() == goal_idx
                &&& p@.no_duplicates()
                &&& consistent(self.graph(), heuristic@, goal_idx) ==> forall|q: Seq<usize>|
                    #[trigger] walk_between(self.graph(), q, start_idx, goal_idx) ==> p@.len() <= q.len()
            },
    {
        let ghost graph = self.graph();
        let n = self.adj.len();
        let mut g: Vec<u32> = Vec::new();
        let mut came: Vec<usize> = Vec::new();
        let mut r: usize = 0;
        while r < n
            invariant
                r <= n,
                g.len() == r,
                came.len() == r,
                forall|k: int| 0 <= k < r ==> #[trigger] g@[k] == not_reached(),
                count_reached(g@) == 0,
            decreases n - r,
        {
            assert(g@.push(u32::MAX).drop_last() =~= g@);
            g.push(u32::MAX);
            came.push(n);
            r = r + 1;
        }
        proof {
            lemma_count_reached_update(g@, start_idx as int, 0);
        }
        g.set(start_idx, 0);
        let mut open: Vec<(u32, usize)> = Vec::new();
        open.push((heuristic[start_idx], start_idx));
        let mut done = false;
        assert(links_ok(graph, g@, came@, start_idx));
        assert(in_open(open@, start_idx)) by {
            assert(open@[0].1 == start_idx);
        }
        assert(fresh(open@, g@, heuristic@, start_idx)) by {
            reveal(fresh);
            assert(open@[0].1 == start_idx);
        }
        assert(frontier_fresh(graph, g@, open@, heuristic@, goal_idx)) by {
            assert forall|u: int| 0 <= u < graph.len() && #[trigger] g@[u] != not_reached() implies fresh(
                open@,
                g@,
                heuristic@,
                u as usize,
            ) || (u != goal_idx && neighbours_within(graph, g@, u)) by {
                assert(u == start_idx);
            }
        }
        while !done && open.len() > 0
            invariant
                graph == self.graph(),
                wf_graph(graph),
                n == self.adj.len(),
                n < u32::MAX,
                heuristic.len() == n,
                start_idx < n,
                goal_idx < n,
                links_ok(graph, g@, came@, start_idx),
                open_ok(graph, g@, open@),
                !done ==> frontier_ok(graph, g@, open@),
                done ==> g@[goal_idx as int] != not_reached(),
                keys_ok(g@, open@),
                !done ==> frontier_fresh(graph, g@, open@, heuristic@, goal_idx),
                done && consistent(graph, heuristic@, goal_idx) ==> forall|q: Seq<usize>|
                    #[trigger] walk_between(graph, q, start_idx, goal_idx) ==> g@[goal_idx as int] < q.len(),
            decreases cost_sum(g@), open.len(),
        {
            let ghost sum0 = cost_sum(g@);
            let ghost len0 = open.len();
            let k = cheapest_entry(&open);
            let ghost open_before = open@;
            let entry = open.remove(k);
            let i = entry.1;
            assert(open_before[k as int] == entry);
            if i == goal_idx {
                proof {
                    if consistent(graph, heuristic@, goal_idx) {
                        lemma_goal_cheapest(graph, g@, open_before, heuristic@, start_idx, goal_idx, k as int);
                    }
                }
                done = true;
            } else {
                proof {
                    lemma_after_pop(graph, g@, open_before, heuristic@, goal_idx, k as int);
                }
                let gi = g[i];
                let row = &self.adj[i];
                assert(row@ == graph[i as int]);
                assert forall|u: int|
                    0 <= u < n && u != i && #[trigger] g@[u] != not_reached() implies in_open(open@, u as usize)
                        || neighbours_reached(graph, g@, u) by {
                    if in_open(open_before, u as usize) {
                        lemma_in_open_remove(open_before, k as int, u as usize);
                    }
                }
                let mut j: usize = 0;
                let ghost open_mid = open@;
                while j < row.len()
                    invariant
                        graph == self.graph(),
                        wf_graph(graph),
                        n == self.adj.len(),
                        n < u32::MAX,
                        heuristic.len() == n,
                        start_idx < n,
                        i < n,
                        row@ == graph[i as int],
                        j <= row.len(),
                        g@[i as int] == gi,
                        gi != not_reached(),
                        links_ok(graph, g@, came@, start_idx),
                        open_ok(graph, g@, open@),
                        forall|u: int|
                            0 <= u < n && u != i && #[trigger] g@[u] != not_reached() ==> in_open(open@, u as usize)
                                || neighbours_reached(graph, g@, u),
                        forall|kk: int| 0 <= kk < j ==> g@[#[trigger] row@[kk] as int] != not_reached(),
                        forall|kk: int| 0 <= kk < j ==> g@[#[trigger] row@[kk] as int] <= gi + 1,
                        keys_ok(g@, open@),
                        goal_idx < n,
                        i != goal_idx,
                        forall|u: int|
                            0 <= u < n && u != i && #[trigger] g@[u] != not_reached() ==> fresh(
                                open@,
                                g@,
                                heuristic@,
                                u as usize,
                            ) || (u != goal_idx && neighbours_within(graph, g@, u)),
                        cost_sum(g@) + (open.len() - open_mid.len()) <= sum0,
                        open.len() >= open_mid.len(),
                        open_mid.len() + 1 == len0,
                    decreases row.len() - j,
                {
                    let nb = row[j];
                    assert(graph[i as int][j as int] == nb);
                    assert(nb < n);
                    let tentative = gi.saturating_add(1);
                    assert(gi < count_reached(g@));
                    proof {
                        lemma_count_reached_le(g@);
                    }
                    assert(tentative == gi + 1);
                    if tentative < g[nb] {
                        let ghost g_old = g@;
                        let ghost open_old = open@;
                        proof {
                            lemma_count_reached_update(g@, nb as int, tentative);
                            lemma_cost_sum_update(g@, nb as int, tentative);
                        }
                        g.set(nb, tentative);
                        came.set(nb, i);
                        let f = tentative.saturating_add(heuristic[nb]);
                        open.push((f, nb));
                        assert(nb != start_idx);
                        assert(graph[i as int].contains(nb)) by {
                            assert(graph[i as int][j as int] == nb);
                        }
                        assert(links_ok(graph, g@, came@, start_idx)) by {
                            assert forall|v: int|
                                0 <= v < n && v != start_idx && #[trigger] g@[v] != not_reached() implies {
                                &&& came@[v] < n
                                &&& graph[came@[v] as int].contains(v as usize)
                                &&& g@[came@[v] as int] < g@[v]
                            } by {
                                if v != nb {
                                    assert(g_old[v] != not_reached());
                                }
                            }
                            assert forall|v: int| 0 <= v < n && #[trigger] g@[v] != not_reached() implies g@[v]
                                < count_reached(g@) by {
                                if v != nb {
                                    assert(g_old[v] != not_reached());
                                }
                            }
                        }
                        assert(open_ok(graph, g@, open@)) by {
                            assert forall|jj: int| 0 <= jj < open@.len() implies (#[trigger] open@[jj]).1 < n
                                && g@[open@[jj].1 as int] != not_reached() by {
                                if jj < open_old.len() {
                                    assert(open@[jj] == open_old[jj]);
                                }
                            }
                        }
                        assert forall|u: int|
                            0 <= u < n && u != i && #[trigger] g@[u] != not_reached() implies in_open(
                                open@,
                                u as usize,
                            ) || neighbours_reached(graph, g@, u) by {
                            if u == nb {
                                lemma_in_open_push(open_old, (f, nb), nb);
                            } else if in_open(open_old, u as usize) {
                                lemma_in_open_push(open_old, (f, nb), u as usize);
                            } else {
                                assert(neighbours_reached(graph, g_old, u));
                                assert forall|kk: int| 0 <= kk < graph[u].len() implies g@[#[trigger] graph[u][kk]
                                    as int] != not_reached() by {
                                    assert(g_old[graph[u][kk] as int] != not_reached());
                                }
                            }
                        }
                        assert forall|kk: int| 0 <= kk < j + 1 implies g@[#[trigger] row@[kk] as int]
                            != not_reached() by {
                            if row@[kk] != nb {
                                assert(g_old[row@[kk] as int] != not_reached());
                            }
                        }
                        assert(keys_ok(g@, open@)) by {
                            assert forall|jj: int| 0 <= jj < open@.len() implies g@[(#[trigger] open@[jj]).1 as int]
                                <= open@[jj].0 by {
                                if jj < open_old.len() {
                                    assert(open@[jj] == open_old[jj]);
                                    assert(g_old[open_old[jj].1 as int] <= open_old[jj].0);
                                }
                            }
                        }
                        assert forall|u: int|
                            0 <= u < n && u != i && #[trigger] g@[u] != not_reached() implies fresh(
                                open@,
                                g@,
                                heuristic@,
                                u as usize,
                            ) || (u != goal_idx && neighbours_within(graph, g@, u)) by {
                            if u == nb {
                                lemma_fresh_push(open_old, g_old, g@, heuristic@, (f, nb), nb);
                            } else {
                                assert(g_old[u] != not_reached());
                                if fresh(open_old, g_old, heuristic@, u as usize) {
                                    lemma_fresh_push(open_old, g_old, g@, heuristic@, (f, nb), u as usize);
                                } else {
                                    assert forall|kk: int| 0 <= kk < graph[u].len() implies g@[#[trigger] graph[u][kk]
                                        as int] <= g@[u] + 1 by {
                                        assert(g_old[graph[u][kk] as int] <= g_old[u] + 1);
                                    }
                                }
                            }
                        }
                        assert forall|kk: int| 0 <= kk < j + 1 implies g@[#[trigger] row@[kk] as int] <= gi + 1 by {
                            if row@[kk] != nb {
                                assert(g_old[row@[kk] as int] <= gi + 1);
                            }
                        }
                    }
                    j = j + 1;
                }
                assert(neighbours_within(graph, g@, i as int)) by {
                    assert forall|kk: int| 0 <= kk < graph[i as int].len() implies g@[#[trigger] graph[i as int][kk]
                        as int] <= g@[i as int] + 1 by {
                        assert(row@[kk] == graph[i as int][kk]);
                    }
                }
                assert(neighbours_reached(graph, g@, i as int)) by {
                    assert forall|kk: int| 0 <= kk < graph[i as int].len() implies g@[#[trigger] graph[i as int][kk]
                        as int] != not_reached() by {
                        assert(row@[kk] == graph[i as int][kk]);
                    }
                }
                proof {
                    lemma_after_expand(graph, g@, open@, heuristic@, goal_idx, i as int);
                }
            }
        }
        if g[goal_idx] != u32::MAX {
            proof {
                if !done {
                    reveal(fresh);
                    assert(fresh(open@, g@, heuristic@, goal_idx));
                }
            }
            let p = follow_links(&self.adj, &g, &came, start_idx, goal_idx);
            Some(p)
        } else {
            proof {
                assert(open@.len() == 0);
                assert(closed(graph, g@)) by {
                    assert forall|u: int| 0 <= u < graph.len() && g@[u] != not_reached() implies #[trigger] neighbours_reached(
                        graph,
                        g@,
                        u,
                    ) by {
                        assert(!in_open(open@, u as usize));
                    }
                }
                lemma_unreached_goal(graph, g@, start_idx, goal_idx);
            }
            None
        }
    }
}


/// Sharing an edge is mutual: in a mesh built from a shared-edge table,
/// polygon `b` is a neighbour of `a` exactly when `a` is a neighbour of `b`.
pub proof fn lemma_links_symmetric(shares: Seq<Vec<bool>>, mesh: NavMesh, a: int, b: int)
    requires
        square(shares, mesh.adj@.len() as int),
        forall|k: int| 0 <= k < mesh.adj@.len() ==> neighbour_row(shares, mesh.adj@.len() as int, k, #[trigger] mesh.adj@[k]@),
        0 <= a < mesh.adj@.len(),
        0 <= b < mesh.adj@.len(),
    ensures
        mesh.graph()[a].contains(b as usize) == mesh.graph()[b].contains(a as usize),
{
    let n = mesh.adj@.len() as int;
    assert(mesh.graph()[a] == mesh.adj@[a]@);
    assert(mesh.graph()[b] == mesh.adj@[b]@);
    assert(neighbour_row(shares, n, a, mesh.adj@[a]@));
    assert(neighbour_row(shares, n, b, mesh.adj@[b]@));
    assert(mesh.adj@[a]@.contains(b as usize) == is_neighbour(shares, a, b));
    assert(mesh.adj@[b]@.contains(a as usize) == is_neighbour(shares, b, a));
}

} // verus!
