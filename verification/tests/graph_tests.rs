use prm_planner::error::PlanError;
use prm_planner::kruskal::{kruskal, DSU};
use prm_planner::structs::{isqrt, Edge, Graph, Point, UndirEdge};

fn pt(x: f64, y: f64) -> Point {
    Point { x: (x * 100.0).round() as i32, y: (y * 100.0).round() as i32 }
}

fn graph_of(points: &[Point], edges: &[(usize, usize)]) -> Graph {
    let mut g = Graph::new();
    for p in points {
        g.add_vertex(*p);
    }
    for &(a, b) in edges {
        let w = points[a].dist(&points[b]);
        g.add_edge(a, b, w);
    }
    g
}

fn total_weight(g: &Graph) -> u64 {
    g.get_undirected_edges().iter().map(|e| e.weight).sum()
}

fn connects_all(n: usize, edges: &[UndirEdge]) -> bool {
    let mut label: Vec<usize> = (0..n).collect();
    let mut changed = true;
    while changed {
        changed = false;
        for e in edges {
            let low = label[e.from].min(label[e.to]);
            if label[e.from] != low || label[e.to] != low {
                label[e.from] = low;
                label[e.to] = low;
                changed = true;
            }
        }
    }
    label.iter().all(|&l| l == 0)
}

fn lightest_spanning_tree(n: usize, edges: &[UndirEdge]) -> Option<u64> {
    let m = edges.len();
    let mut best: Option<u64> = None;
    for mask in 0u32..(1u32 << m) {
        if mask.count_ones() as usize + 1 != n {
            continue;
        }
        let chosen: Vec<UndirEdge> = (0..m).filter(|i| mask & (1 << i) != 0).map(|i| edges[i]).collect();
        if connects_all(n, &chosen) {
            let w: u64 = chosen.iter().map(|e| e.weight).sum();
            best = Some(best.map_or(w, |b| b.min(w)));
        }
    }
    best
}

#[test]
fn isqrt_rounds_down() {
    assert_eq!(isqrt(0), 0);
    assert_eq!(isqrt(1), 1);
    assert_eq!(isqrt(3), 1);
    assert_eq!(isqrt(4), 2);
    assert_eq!(isqrt(99), 9);
    assert_eq!(isqrt(100), 10);
    assert_eq!(isqrt(u128::MAX), u64::MAX);
}

#[test]
fn distance_of_a_three_four_five_triangle() {
    let a = pt(0.0, 0.0);
    let b = pt(3.0, 4.0);
    assert_eq!(a.dist_sq(&b), 250_000);
    assert_eq!(a.dist(&b), 50_000);
    assert_eq!(b.dist(&a), 50_000);
    assert_eq!(a.dist(&a), 0);
}

#[test]
fn distance_rounds_down_to_a_weight_unit() {
    let a = pt(0.0, 0.0);
    let c = pt(10.0, 10.0);
    assert_eq!(a.dist(&c), 141_421);
}

#[test]
fn distance_over_the_whole_coordinate_range() {
    let a = Point { x: i32::MIN, y: i32::MIN };
    let b = Point { x: i32::MAX, y: i32::MAX };
    let side: u128 = u32::MAX as u128;
    assert_eq!(a.dist_sq(&b), 2 * side * side);
    assert_eq!(a.dist(&b), 607_400_099_853);
}

#[test]
fn add_vertex_returns_consecutive_indices() {
    let mut g = Graph::new();
    assert_eq!(g.add_vertex(pt(1.0, 2.0)), 0);
    assert_eq!(g.add_vertex(pt(3.0, 4.0)), 1);
    assert_eq!(g.vertices.len(), 2);
    assert_eq!(g.adj.len(), 2);
    assert_eq!(g.get_vertex(1), Some(&pt(3.0, 4.0)));
    assert_eq!(g.get_vertex(2), None);
    assert!(g.get_neighbors(0).unwrap().is_empty());
    assert!(g.get_neighbors(2).is_none());
}

#[test]
fn add_edge_records_both_directions() {
    let mut g = Graph::new();
    g.add_vertex(pt(0.0, 0.0));
    g.add_vertex(pt(1.0, 0.0));
    g.add_edge(0, 1, 7);
    assert_eq!(g.adj[0], vec![Edge { to_idx: 1, weight: 7 }]);
    assert_eq!(g.adj[1], vec![Edge { to_idx: 0, weight: 7 }]);
}

#[test]
fn add_edge_ignores_unknown_vertices() {
    let mut g = Graph::new();
    g.add_vertex(pt(0.0, 0.0));
    g.add_edge(0, 1, 7);
    g.add_edge(5, 0, 7);
    assert!(g.adj[0].is_empty());
}

#[test]
fn undirected_edges_come_once_in_adjacency_order() {
    let mut g = Graph::new();
    for i in 0..4 {
        g.add_vertex(pt(i as f64, 0.0));
    }
    g.add_edge(2, 3, 5);
    g.add_edge(0, 1, 9);
    g.add_edge(3, 0, 4);
    g.add_edge(1, 0, 1);
    let edges = g.get_undirected_edges();
    assert_eq!(
        edges,
        vec![
            UndirEdge { from: 0, to: 1, weight: 9 },
            UndirEdge { from: 0, to: 3, weight: 4 },
            UndirEdge { from: 2, to: 3, weight: 5 },
        ]
    );
}

#[test]
fn dsu_starts_with_singletons() {
    let mut dsu = DSU::new(4);
    for i in 0..4 {
        assert_eq!(dsu.find(i), i);
    }
}

#[test]
fn dsu_union_reports_new_links_only() {
    let mut dsu = DSU::new(5);
    assert!(dsu.union(0, 1));
    assert!(dsu.union(2, 3));
    assert!(!dsu.union(1, 0));
    assert!(dsu.union(1, 3));
    assert!(!dsu.union(0, 2));
    assert_eq!(dsu.find(3), dsu.find(0));
    assert_ne!(dsu.find(4), dsu.find(0));
}

#[test]
fn dsu_union_keeps_the_representative_of_the_first() {
    let mut dsu = DSU::new(3);
    assert!(dsu.union(2, 0));
    assert_eq!(dsu.find(0), 2);
    assert!(dsu.union(1, 0));
    assert_eq!(dsu.find(2), 1);
    assert_eq!(dsu.find(0), 1);
}

#[test]
fn graph_with_vertices_has_them_in_order_and_no_edge() {
    let points = vec![pt(3.0, 1.0), pt(0.0, 0.0), pt(3.0, 1.0)];
    let g = Graph::with_vertices(&points);
    assert_eq!(g.vertices, points);
    assert_eq!(g.adj, vec![Vec::<Edge>::new(), Vec::new(), Vec::new()]);
    let none = Graph::with_vertices(&Vec::new());
    assert!(none.vertices.is_empty() && none.adj.is_empty());
}

#[test]
fn square_with_diagonals_keeps_three_sides() {
    let points = [pt(0.0, 0.0), pt(10.0, 0.0), pt(10.0, 10.0), pt(0.0, 10.0)];
    let g = graph_of(&points, &[(0, 1), (1, 2), (2, 3), (3, 0), (0, 2), (1, 3)]);
    let tree = kruskal(&g).unwrap();
    assert_eq!(tree.vertices, g.vertices);
    let edges = tree.get_undirected_edges();
    assert_eq!(edges.len(), 3);
    assert_eq!(total_weight(&tree), 300_000);
    for e in &edges {
        assert_eq!(e.weight, 100_000);
    }
    assert!(connects_all(4, &edges));
}

#[test]
fn square_with_diagonals_breaks_ties_in_canonical_order() {
    let points = [pt(0.0, 0.0), pt(10.0, 0.0), pt(10.0, 10.0), pt(0.0, 10.0)];
    let g = graph_of(&points, &[(0, 1), (1, 2), (2, 3), (3, 0), (0, 2), (1, 3)]);
    let tree = kruskal(&g).unwrap();
    assert_eq!(
        tree.adj[0],
        vec![Edge { to_idx: 1, weight: 100_000 }, Edge { to_idx: 3, weight: 100_000 }]
    );
    assert_eq!(
        tree.adj[1],
        vec![Edge { to_idx: 0, weight: 100_000 }, Edge { to_idx: 2, weight: 100_000 }]
    );
    assert_eq!(tree.adj[2], vec![Edge { to_idx: 1, weight: 100_000 }]);
    assert_eq!(tree.adj[3], vec![Edge { to_idx: 0, weight: 100_000 }]);
}

#[test]
fn disconnected_pair_reports_two_components() {
    let points = [pt(0.0, 0.0), pt(1.0, 0.0), pt(100.0, 100.0), pt(101.0, 100.0)];
    let g = graph_of(&points, &[(0, 1), (2, 3)]);
    assert_eq!(kruskal(&g).unwrap_err(), PlanError::Disconnected { components: 2 });
}

#[test]
fn three_clusters_report_three_components() {
    let points = [
        pt(0.0, 0.0),
        pt(1.0, 0.0),
        pt(2.0, 0.0),
        pt(50.0, 50.0),
        pt(51.0, 50.0),
        pt(90.0, 90.0),
    ];
    let g = graph_of(&points, &[(0, 1), (1, 2), (0, 2), (3, 4)]);
    assert_eq!(kruskal(&g).unwrap_err(), PlanError::Disconnected { components: 3 });
}

#[test]
fn kruskal_takes_light_edges_first() {
    let mut g = Graph::new();
    for i in 0..3 {
        g.add_vertex(pt(i as f64, 0.0));
    }
    g.add_edge(0, 1, 30);
    g.add_edge(0, 2, 20);
    g.add_edge(1, 2, 10);
    let tree = kruskal(&g).unwrap();
    assert_eq!(
        tree.get_undirected_edges(),
        vec![UndirEdge { from: 0, to: 2, weight: 20 }, UndirEdge { from: 1, to: 2, weight: 10 }]
    );
    assert_eq!(tree.adj[1], vec![Edge { to_idx: 2, weight: 10 }]);
    assert_eq!(tree.adj[2], vec![Edge { to_idx: 1, weight: 10 }, Edge { to_idx: 0, weight: 20 }]);
}

#[test]
fn kruskal_keeps_a_single_vertex() {
    let mut g = Graph::new();
    g.add_vertex(pt(4.0, 4.0));
    let tree = kruskal(&g).unwrap();
    assert_eq!(tree.vertices.len(), 1);
    assert!(tree.adj[0].is_empty());
}

#[test]
fn kruskal_of_the_empty_graph_is_empty() {
    let g = Graph::new();
    let tree = kruskal(&g).unwrap();
    assert!(tree.vertices.is_empty());
    assert!(tree.adj.is_empty());
}

#[test]
fn kruskal_reports_isolated_vertices() {
    let points = [pt(0.0, 0.0), pt(1.0, 0.0), pt(9.0, 9.0)];
    let g = graph_of(&points, &[(0, 1)]);
    assert_eq!(kruskal(&g).unwrap_err(), PlanError::Disconnected { components: 2 });
}

#[test]
fn kruskal_weight_is_the_least_of_all_spanning_trees() {
    let points = [
        pt(0.0, 0.0),
        pt(4.0, 1.0),
        pt(7.0, 5.0),
        pt(2.0, 6.0),
        pt(9.0, 1.0),
        pt(5.0, 9.0),
    ];
    let links = [
        (0, 1),
        (0, 3),
        (1, 2),
        (1, 3),
        (1, 4),
        (2, 3),
        (2, 4),
        (2, 5),
        (3, 5),
        (4, 5),
        (0, 2),
    ];
    let g = graph_of(&points, &links);
    let tree = kruskal(&g).unwrap();
    let kept = tree.get_undirected_edges();
    assert_eq!(kept.len(), points.len() - 1);
    assert!(connects_all(points.len(), &kept));
    let least = lightest_spanning_tree(points.len(), &g.get_undirected_edges()).unwrap();
    assert_eq!(total_weight(&tree), least);
}

#[test]
fn kruskal_weight_is_least_with_equal_weights() {
    let mut g = Graph::new();
    for i in 0..5 {
        g.add_vertex(pt(i as f64, 0.0));
    }
    let links = [(0, 1, 2), (1, 2, 2), (2, 3, 1), (3, 4, 2), (4, 0, 1), (0, 2, 2), (1, 3, 3), (1, 4, 1)];
    for &(a, b, w) in &links {
        g.add_edge(a, b, w);
    }
    let tree = kruskal(&g).unwrap();
    assert_eq!(tree.get_undirected_edges().len(), 4);
    let least = lightest_spanning_tree(5, &g.get_undirected_edges()).unwrap();
    assert_eq!(total_weight(&tree), least);
    assert_eq!(least, 5);
}

#[test]
fn sorting_is_by_weight_and_stable() {
    let mut edges = vec![
        UndirEdge { from: 0, to: 1, weight: 5 },
        UndirEdge { from: 0, to: 2, weight: 3 },
        UndirEdge { from: 1, to: 2, weight: 5 },
        UndirEdge { from: 1, to: 3, weight: 1 },
        UndirEdge { from: 2, to: 3, weight: 3 },
        UndirEdge { from: 3, to: 4, weight: 5 },
        UndirEdge { from: 4, to: 0, weight: 0 },
    ];
    prm_planner::sorting::sort_edges(&mut edges);
    assert_eq!(
        edges,
        vec![
            UndirEdge { from: 4, to: 0, weight: 0 },
            UndirEdge { from: 1, to: 3, weight: 1 },
            UndirEdge { from: 0, to: 2, weight: 3 },
            UndirEdge { from: 2, to: 3, weight: 3 },
            UndirEdge { from: 0, to: 1, weight: 5 },
            UndirEdge { from: 1, to: 2, weight: 5 },
            UndirEdge { from: 3, to: 4, weight: 5 },
        ]
    );
}

#[test]
fn sorting_agrees_with_a_stable_sort_on_many_edges() {
    let mut edges: Vec<UndirEdge> = Vec::new();
    let mut seed: u64 = 12345;
    for i in 0..1000 {
        seed = seed.wrapping_mul(6364136223846793005).wrapping_add(1442695040888963407);
        edges.push(UndirEdge { from: i, to: i + 1, weight: (seed >> 33) % 50 });
    }
    let mut expected = edges.clone();
    expected.sort_by_key(|e| e.weight);
    prm_planner::sorting::sort_edges(&mut edges);
    assert_eq!(edges, expected);
}

#[test]
fn sorting_nothing_and_one_edge() {
    let mut none: Vec<UndirEdge> = Vec::new();
    prm_planner::sorting::sort_edges(&mut none);
    assert!(none.is_empty());
    let mut one = vec![UndirEdge { from: 2, to: 1, weight: 9 }];
    prm_planner::sorting::sort_edges(&mut one);
    assert_eq!(one, vec![UndirEdge { from: 2, to: 1, weight: 9 }]);
}

#[test]
fn well_formed_graphs_have_a_list_per_vertex_and_edges_to_vertices() {
    let mut g = Graph::new();
    assert!(g.is_well_formed());
    g.add_vertex(pt(0.0, 0.0));
    g.add_vertex(pt(1.0, 0.0));
    g.add_edge(0, 1, 3);
    assert!(g.is_well_formed());
    let short = Graph { vertices: vec![pt(0.0, 0.0)], adj: vec![] };
    assert!(!short.is_well_formed());
    let stray = Graph { vertices: vec![pt(0.0, 0.0)], adj: vec![vec![Edge { to_idx: 1, weight: 1 }]] };
    assert!(!stray.is_well_formed());
    let looped = Graph { vertices: vec![pt(0.0, 0.0)], adj: vec![vec![Edge { to_idx: 0, weight: 1 }]] };
    assert!(looped.is_well_formed());
}
