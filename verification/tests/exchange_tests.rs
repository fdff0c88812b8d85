use prm_planner::kruskal::kruskal;
use prm_planner::prm_generator::generate_random_graph;
use prm_planner::query::find_route;
use prm_planner::readmap::{MapImage, OccupancyMap};
use prm_planner::records::{
    edge_records, graph_from_records, path_points, point_fields, record_fields, record_from_fields, EdgeRecord,
};
use prm_planner::structs::{Graph, Point};
use rand::rngs::StdRng;
use rand::SeedableRng;

fn write_edge_list(graph: &Graph) -> Vec<u8> {
    let mut writer = csv::Writer::from_writer(Vec::new());
    writer.write_record(&["x1", "y1", "x2", "y2", "weight"]).unwrap();
    for record in edge_records(graph) {
        writer.write_record(record_fields(&record)).unwrap();
    }
    writer.into_inner().unwrap()
}

fn read_edge_list(bytes: &[u8]) -> Graph {
    let mut reader = csv::Reader::from_reader(bytes);
    let mut records: Vec<EdgeRecord> = Vec::new();
    for row in reader.byte_records() {
        let row = row.unwrap();
        let fields: Vec<Vec<u8>> = row.iter().map(|f| f.to_vec()).collect();
        records.push(record_from_fields(&fields).unwrap());
    }
    graph_from_records(&records)
}

fn links(g: &Graph) -> Vec<(Point, Point, u64)> {
    let mut all: Vec<(Point, Point, u64)> = Vec::new();
    for (u, row) in g.adj.iter().enumerate() {
        for e in row {
            all.push((g.vertices[u], g.vertices[e.to_idx], e.weight));
        }
    }
    all.sort_by_key(|l| (l.0.x, l.0.y, l.1.x, l.1.y, l.2));
    all
}

fn positions(g: &Graph) -> Vec<Point> {
    let mut all = g.vertices.clone();
    all.sort_by_key(|p| (p.x, p.y));
    all.dedup();
    all
}

#[test]
fn edge_list_file_has_a_row_for_each_edge() {
    let mut g = Graph::new();
    g.add_vertex(Point { x: 150, y: 275 });
    g.add_vertex(Point { x: 1000, y: 0 });
    g.add_vertex(Point { x: -325, y: 5 });
    g.add_edge(0, 1, 89_342);
    g.add_edge(2, 0, 54_632);
    let text = String::from_utf8(write_edge_list(&g)).unwrap();
    assert_eq!(text, "x1,y1,x2,y2,weight\n1.50,2.75,10.00,0.00,8.9342\n1.50,2.75,-3.25,0.05,5.4632\n");
}

#[test]
fn edge_list_file_is_read_back_as_written() {
    let data: Vec<u8> = vec![255; 3 * 40 * 40];
    let map = OccupancyMap::new(MapImage::from_raw(40, 40, data).unwrap());
    let mut rng = StdRng::seed_from_u64(11);
    let roadmap = generate_random_graph(&map, 30, 1500, &mut rng, 100).unwrap();
    let back = read_edge_list(&write_edge_list(&roadmap));
    assert_eq!(links(&back), links(&roadmap));
    let with_edges: Vec<Point> = {
        let mut all: Vec<Point> =
            (0..roadmap.vertices.len()).filter(|&u| !roadmap.adj[u].is_empty()).map(|u| roadmap.vertices[u]).collect();
        all.sort_by_key(|p| (p.x, p.y));
        all.dedup();
        all
    };
    assert_eq!(positions(&back), with_edges);
}

#[test]
fn saved_tree_answers_route_queries() {
    let data: Vec<u8> = vec![255; 3 * 40 * 40];
    let map = OccupancyMap::new(MapImage::from_raw(40, 40, data).unwrap());
    let mut rng = StdRng::seed_from_u64(3);
    let roadmap = generate_random_graph(&map, 40, 6000, &mut rng, 100).unwrap();
    let tree = kruskal(&roadmap).unwrap();
    let saved = read_edge_list(&write_edge_list(&tree));
    assert_eq!(positions(&saved), positions(&tree));
    assert_eq!(links(&saved), links(&tree));
    let corners = [Point { x: 100, y: 100 }, Point { x: 3800, y: 200 }, Point { x: 2000, y: 3700 }];
    for from in &corners {
        for to in &corners {
            let route = find_route(&saved, &map, *from, *to).unwrap();
            let points = path_points(&saved, &route);
            assert_eq!(points.len(), route.len());
            for pair in route.windows(2) {
                assert!(saved.adj[pair[0]].iter().any(|e| e.to_idx == pair[1]));
            }
        }
    }
}

#[test]
fn route_file_has_a_row_for_each_vertex() {
    let mut g = Graph::new();
    g.add_vertex(Point { x: 0, y: 0 });
    g.add_vertex(Point { x: 1234, y: -5 });
    g.add_edge(0, 1, 1);
    let mut writer = csv::Writer::from_writer(Vec::new());
    writer.write_record(&["x", "y"]).unwrap();
    for point in path_points(&g, &vec![0, 1]) {
        writer.write_record(point_fields(&point)).unwrap();
    }
    let text = String::from_utf8(writer.into_inner().unwrap()).unwrap();
    assert_eq!(text, "x,y\n0.00,0.00\n12.34,-0.05\n");
}
