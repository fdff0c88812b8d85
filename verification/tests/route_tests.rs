use prm_planner::dfs::dfs_path;
use prm_planner::kruskal::kruskal;
use prm_planner::records::{edge_records, graph_from_records, path_points, EdgeRecord};
use prm_planner::structs::{Edge, Graph, Point};

fn pos(x: i32, y: i32) -> Point {
    Point { x, y }
}

fn line(n: usize) -> Graph {
    let mut g = Graph::new();
    for i in 0..n {
        g.add_vertex(pos(100 * i as i32, 0));
    }
    for i in 1..n {
        g.add_edge(i - 1, i, 10_000);
    }
    g
}

fn star_tree() -> Graph {
    let mut g = Graph::new();
    for i in 0..7 {
        g.add_vertex(pos(100 * i, 50 * i));
    }
    g.add_edge(0, 1, 1);
    g.add_edge(0, 2, 1);
    g.add_edge(1, 3, 1);
    g.add_edge(1, 4, 1);
    g.add_edge(2, 5, 1);
    g.add_edge(5, 6, 1);
    g
}

fn check_route(g: &Graph, path: &[usize], start: usize, end: usize) {
    assert_eq!(path[0], start);
    assert_eq!(*path.last().unwrap(), end);
    for w in path.windows(2) {
        assert!(g.adj[w[0]].iter().any(|e| e.to_idx == w[1]));
    }
    for i in 0..path.len() {
        for j in 0..i {
            assert_ne!(path[i], path[j]);
        }
    }
}

#[test]
fn dfs_from_a_vertex_to_itself_is_that_vertex() {
    let g = star_tree();
    assert_eq!(dfs_path(&g, 3, 3), Some(vec![3]));
    let lone = line(1);
    assert_eq!(dfs_path(&lone, 0, 0), Some(vec![0]));
}

#[test]
fn dfs_follows_a_line() {
    let g = line(5);
    assert_eq!(dfs_path(&g, 0, 4), Some(vec![0, 1, 2, 3, 4]));
    assert_eq!(dfs_path(&g, 3, 1), Some(vec![3, 2, 1]));
}

#[test]
fn dfs_finds_the_tree_route() {
    let g = star_tree();
    assert_eq!(dfs_path(&g, 3, 6), Some(vec![3, 1, 0, 2, 5, 6]));
    assert_eq!(dfs_path(&g, 4, 3), Some(vec![4, 1, 3]));
    assert_eq!(dfs_path(&g, 6, 0), Some(vec![6, 5, 2, 0]));
}

#[test]
fn dfs_routes_are_simple_paths_between_all_pairs() {
    let g = star_tree();
    for start in 0..7 {
        for end in 0..7 {
            let path = dfs_path(&g, start, end).unwrap();
            check_route(&g, &path, start, end);
        }
    }
}

#[test]
fn dfs_finds_nothing_across_components() {
    let mut g = line(3);
    g.add_vertex(pos(900, 900));
    g.add_vertex(pos(950, 900));
    g.add_edge(3, 4, 5);
    assert_eq!(dfs_path(&g, 0, 4), None);
    assert_eq!(dfs_path(&g, 3, 1), None);
    assert_eq!(dfs_path(&g, 3, 4), Some(vec![3, 4]));
}

#[test]
fn dfs_takes_neighbours_in_adjacency_order() {
    let mut g = Graph::new();
    for i in 0..4 {
        g.add_vertex(pos(i, i));
    }
    g.add_edge(0, 1, 1);
    g.add_edge(0, 2, 1);
    g.add_edge(1, 3, 1);
    g.add_edge(2, 3, 1);
    assert_eq!(dfs_path(&g, 0, 3), Some(vec![0, 1, 3]));
    assert_eq!(dfs_path(&g, 0, 2), Some(vec![0, 1, 3, 2]));
}

#[test]
fn dfs_to_an_index_that_is_no_vertex_finds_nothing() {
    let g = star_tree();
    assert_eq!(dfs_path(&g, 0, 7), None);
    assert_eq!(dfs_path(&g, 3, usize::MAX), None);
    let lone = line(1);
    assert_eq!(dfs_path(&lone, 0, 1), None);
}

#[test]
fn dfs_follows_directed_edges_only() {
    let g = Graph {
        vertices: vec![pos(0, 0), pos(1, 0)],
        adj: vec![vec![Edge { to_idx: 1, weight: 3 }], vec![]],
    };
    assert_eq!(dfs_path(&g, 0, 1), Some(vec![0, 1]));
    assert_eq!(dfs_path(&g, 1, 0), None);
}

#[test]
fn dfs_on_the_spanning_tree_reaches_every_vertex() {
    let mut g = Graph::new();
    let points = [pos(0, 0), pos(1000, 0), pos(1000, 1000), pos(0, 1000), pos(500, 500)];
    for p in &points {
        g.add_vertex(*p);
    }
    for a in 0..points.len() {
        for b in (a + 1)..points.len() {
            g.add_edge(a, b, points[a].dist(&points[b]));
        }
    }
    let tree = kruskal(&g).unwrap();
    for start in 0..points.len() {
        for end in 0..points.len() {
            let path = dfs_path(&tree, start, end).unwrap();
            check_route(&tree, &path, start, end);
        }
    }
}

#[test]
fn path_points_follow_the_route() {
    let g = star_tree();
    let path = dfs_path(&g, 3, 2).unwrap();
    assert_eq!(path_points(&g, &path), vec![pos(300, 150), pos(100, 50), pos(0, 0), pos(200, 100)]);
    assert_eq!(path_points(&g, &Vec::new()), Vec::<Point>::new());
}

#[test]
fn edge_records_list_each_edge_once() {
    let mut g = Graph::new();
    g.add_vertex(pos(0, 0));
    g.add_vertex(pos(1000, 0));
    g.add_vertex(pos(1000, 1000));
    g.add_edge(1, 0, 100_000);
    g.add_edge(1, 2, 100_000);
    g.add_edge(0, 2, 141_421);
    assert_eq!(
        edge_records(&g),
        vec![
            EdgeRecord { source: pos(0, 0), target: pos(1000, 0), weight: 100_000 },
            EdgeRecord { source: pos(0, 0), target: pos(1000, 1000), weight: 141_421 },
            EdgeRecord { source: pos(1000, 0), target: pos(1000, 1000), weight: 100_000 },
        ]
    );
}

#[test]
fn edge_records_skip_loops_and_isolated_vertices() {
    let mut g = Graph::new();
    g.add_vertex(pos(0, 0));
    g.add_vertex(pos(5, 5));
    g.add_edge(0, 0, 9);
    assert!(edge_records(&g).is_empty());
}

#[test]
fn graph_from_records_numbers_positions_as_they_appear() {
    let records = vec![
        EdgeRecord { source: pos(10, 10), target: pos(20, 20), weight: 5 },
        EdgeRecord { source: pos(30, 30), target: pos(10, 10), weight: 6 },
        EdgeRecord { source: pos(20, 20), target: pos(30, 30), weight: 7 },
    ];
    let g = graph_from_records(&records);
    assert_eq!(g.vertices, vec![pos(10, 10), pos(20, 20), pos(30, 30)]);
    assert_eq!(g.adj[0], vec![Edge { to_idx: 1, weight: 5 }, Edge { to_idx: 2, weight: 6 }]);
    assert_eq!(g.adj[1], vec![Edge { to_idx: 0, weight: 5 }, Edge { to_idx: 2, weight: 7 }]);
    assert_eq!(g.adj[2], vec![Edge { to_idx: 0, weight: 6 }, Edge { to_idx: 1, weight: 7 }]);
}

#[test]
fn graph_from_records_tells_negative_coordinates_apart() {
    let records = vec![
        EdgeRecord { source: pos(-1, 0), target: pos(0, -1), weight: 1 },
        EdgeRecord { source: pos(i32::MIN, i32::MAX), target: pos(i32::MAX, i32::MIN), weight: 2 },
        EdgeRecord { source: pos(0, -1), target: pos(i32::MIN, i32::MAX), weight: 3 },
    ];
    let g = graph_from_records(&records);
    assert_eq!(g.vertices, vec![pos(-1, 0), pos(0, -1), pos(i32::MIN, i32::MAX), pos(i32::MAX, i32::MIN)]);
    assert_eq!(g.adj[1], vec![Edge { to_idx: 0, weight: 1 }, Edge { to_idx: 2, weight: 3 }]);
}

#[test]
fn graph_from_no_records_is_empty() {
    let g = graph_from_records(&Vec::new());
    assert!(g.vertices.is_empty());
    assert!(g.adj.is_empty());
}

#[test]
fn export_and_import_keep_vertices_and_edges() {
    let mut g = Graph::new();
    let points = [pos(0, 0), pos(1000, 0), pos(1000, 1000), pos(0, 1000)];
    for p in &points {
        g.add_vertex(*p);
    }
    g.add_edge(2, 3, 100_000);
    g.add_edge(0, 1, 100_000);
    g.add_edge(1, 3, 141_421);
    g.add_edge(0, 3, 100_000);
    let records = edge_records(&g);
    let back = graph_from_records(&records);
    let mut before: Vec<Point> = g.vertices.clone();
    let mut after: Vec<Point> = back.vertices.clone();
    before.sort_by_key(|p| (p.x, p.y));
    after.sort_by_key(|p| (p.x, p.y));
    assert_eq!(before, after);
    let mut links_before: Vec<(Point, Point, u64)> = Vec::new();
    for (u, row) in g.adj.iter().enumerate() {
        for e in row {
            links_before.push((g.vertices[u], g.vertices[e.to_idx], e.weight));
        }
    }
    let mut links_after: Vec<(Point, Point, u64)> = Vec::new();
    for (u, row) in back.adj.iter().enumerate() {
        for e in row {
            links_after.push((back.vertices[u], back.vertices[e.to_idx], e.weight));
        }
    }
    links_before.sort_by_key(|l| (l.0.x, l.0.y, l.1.x, l.1.y, l.2));
    links_after.sort_by_key(|l| (l.0.x, l.0.y, l.1.x, l.1.y, l.2));
    assert_eq!(links_before, links_after);
    assert_eq!(edge_records(&back).len(), records.len());
}
