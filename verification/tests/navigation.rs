use audioverse_core::navmesh::NavMesh;
use audioverse_core::pathfinding::{astar_spaces, plan_route, sorted_unique, space_neighbours, RoutePlan};

fn table(n: usize, pairs: &[(usize, usize)]) -> Vec<Vec<bool>> {
    let mut t = vec![vec![false; n]; n];
    for &(a, b) in pairs {
        let (lo, hi) = if a < b { (a, b) } else { (b, a) };
        t[lo][hi] = true;
    }
    t
}

/// A walk through the graph that visits no node twice.
fn is_walk(adj: &[Vec<usize>], p: &[usize]) -> bool {
    let mut seen = p.to_vec();
    seen.sort();
    seen.dedup();
    !p.is_empty() && seen.len() == p.len() && p.windows(2).all(|w| adj[w[0]].contains(&w[1]))
}

#[test]
fn shared_edges_link_both_ways_in_increasing_order() {
    let t = table(4, &[(2, 0), (1, 2), (2, 3)]);
    let mesh = NavMesh::from_shared_edges(4, &t);
    assert_eq!(mesh.adj, vec![vec![2], vec![2], vec![0, 1, 3], vec![2]]);
}

#[test]
fn only_upper_triangle_is_consulted() {
    let mut t = vec![vec![false; 3]; 3];
    t[1][0] = true;
    t[2][2] = true;
    let mesh = NavMesh::from_shared_edges(3, &t);
    assert_eq!(mesh.adj, vec![Vec::<usize>::new(), vec![], vec![]]);
}

#[test]
fn astar_finds_a_walk_along_a_corridor() {
    let t = table(5, &[(0, 1), (1, 2), (2, 3), (3, 4)]);
    let mesh = NavMesh::from_shared_edges(5, &t);
    let h = vec![4, 3, 2, 1, 0];
    let p = mesh.astar(&h, 0, 4).expect("corridor is connected");
    assert_eq!(p, vec![0, 1, 2, 3, 4]);
}

#[test]
fn astar_start_is_goal() {
    let mesh = NavMesh::from_shared_edges(2, &table(2, &[]));
    assert_eq!(mesh.astar(&vec![0, 0], 1, 1), Some(vec![1]));
}

#[test]
fn astar_reports_unreachable_goal() {
    let t = table(4, &[(0, 1), (2, 3)]);
    let mesh = NavMesh::from_shared_edges(4, &t);
    assert_eq!(mesh.astar(&vec![0; 4], 0, 3), None);
    assert_eq!(mesh.astar(&vec![0; 4], 3, 2), Some(vec![3, 2]));
}

#[test]
fn astar_walk_is_valid_on_a_grid() {
    // 3x3 grid of cells, 4-connected.
    let mut pairs = Vec::new();
    for r in 0..3 {
        for c in 0..3 {
            let i = r * 3 + c;
            if c + 1 < 3 { pairs.push((i, i + 1)); }
            if r + 1 < 3 { pairs.push((i, i + 3)); }
        }
    }
    let mesh = NavMesh::from_shared_edges(9, &table(9, &pairs));
    let h: Vec<u32> = (0..9).map(|i: u32| (2 - i / 3) + (2 - i % 3)).collect();
    let p = mesh.astar(&h, 0, 8).expect("grid is connected");
    assert_eq!(p.first(), Some(&0));
    assert_eq!(p.last(), Some(&8));
    assert!(is_walk(&mesh.adj, &p));
    assert_eq!(p.len(), 5);
}

#[test]
fn sorted_unique_sorts_and_removes_repeats() {
    assert_eq!(sorted_unique(&vec![5, 1, 5, 3, 1, 0]), vec![0, 1, 3, 5]);
    assert_eq!(sorted_unique(&vec![]), Vec::<usize>::new());
}

#[test]
fn astar_spaces_follows_one_way_portals() {
    // 0 -> 1 -> 2, and 2 -> 0; no way back from 2 to 1 except through 0.
    let nb = vec![vec![1, 1], vec![2], vec![0]];
    let h = vec![0, 0, 0];
    assert_eq!(astar_spaces(&nb, &h, 0, 2), Some(vec![0, 1, 2]));
    assert_eq!(astar_spaces(&nb, &h, 2, 1), Some(vec![2, 0, 1]));
}

#[test]
fn astar_spaces_unreachable() {
    let nb = vec![vec![1], vec![0], vec![]];
    assert_eq!(astar_spaces(&nb, &vec![0, 0, 0], 0, 2), None);
    assert_eq!(astar_spaces(&nb, &vec![0, 0, 0], 2, 2), Some(vec![2]));
}

#[test]
fn astar_spaces_walk_is_valid() {
    let nb = vec![vec![3, 1, 1], vec![0, 4], vec![5], vec![0, 4], vec![1, 3, 5], vec![2, 4]];
    let h = vec![3, 2, 1, 2, 1, 0];
    let p = astar_spaces(&nb, &h, 0, 5).expect("connected");
    assert_eq!(p.first(), Some(&0));
    assert_eq!(p.last(), Some(&5));
    assert!(is_walk(&nb, &p));
}

#[test]
fn space_neighbours_follow_portals_both_ways() {
    // portal 0: 0 -> 1, portal 1: 2 -> 0, portal 5 is unknown
    let from = vec![vec![0, 5], vec![], vec![1]];
    let to = vec![vec![1], vec![0], vec![]];
    let ends = vec![(0, 1), (2, 0)];
    let nb = space_neighbours(&from, &to, &ends);
    assert_eq!(nb, vec![vec![1, 2], vec![0], vec![0]]);
}

#[test]
fn route_follows_a_walk_or_heads_straight_for_the_goal() {
    let nb = vec![vec![1], vec![2], vec![], vec![]];
    let h = vec![0, 0, 0, 0];
    match plan_route(true, &nb, &h, 0, 2) {
        RoutePlan::FollowPath(w) => assert_eq!(w, vec![0, 1, 2]),
        RoutePlan::DirectTo(_) => panic!("expected a walk"),
    }
    assert!(matches!(plan_route(true, &nb, &h, 0, 3), RoutePlan::DirectTo(3)));
    assert!(matches!(plan_route(false, &nb, &h, 0, 2), RoutePlan::DirectTo(2)));
    match plan_route(true, &nb, &h, 1, 1) {
        RoutePlan::FollowPath(w) => assert_eq!(w, vec![1]),
        RoutePlan::DirectTo(_) => panic!("expected a one-space walk"),
    }
}
