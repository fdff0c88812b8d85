use prm_planner::error::PlanError;
use prm_planner::prm_generator::{
    accept_point, collision_steps, connect_roadmap, generate_random_graph, sample_valid_point,
};
use prm_planner::query::find_route;
use prm_planner::readmap::{find_bounds, is_black, MapImage, OccupancyMap};
use prm_planner::structs::{Graph, Point};
use prm_planner::vertice_mais_proximo::vertice_mais_prox;
use rand::rngs::StdRng;
use rand::SeedableRng;

fn at(x: i32, y: i32) -> Point {
    Point { x, y }
}

/// An image from rows of characters: '#' is black, '.' is white.
fn image_of(rows: &[&str]) -> MapImage {
    let height = rows.len() as u32;
    let width = rows[0].len() as u32;
    let mut data: Vec<u8> = Vec::new();
    for row in rows {
        for c in row.chars() {
            let v: u8 = if c == '#' { 0 } else { 255 };
            data.push(v);
            data.push(v);
            data.push(v);
        }
    }
    MapImage::from_raw(width, height, data).unwrap()
}

fn open_map(size: u32) -> OccupancyMap {
    let data: Vec<u8> = vec![255; (3 * size * size) as usize];
    OccupancyMap::new(MapImage::from_raw(size, size, data).unwrap())
}

fn walled_map() -> OccupancyMap {
    OccupancyMap::new(image_of(&[
        "##########",
        "#........#",
        "#........#",
        "#...##...#",
        "#...##...#",
        "#...##...#",
        "#........#",
        "#........#",
        "##########",
    ]))
}

#[test]
fn black_is_below_the_threshold_on_every_channel() {
    assert!(is_black((0, 0, 0)));
    assert!(is_black((49, 49, 49)));
    assert!(!is_black((50, 49, 49)));
    assert!(!is_black((49, 50, 49)));
    assert!(!is_black((49, 49, 50)));
    assert!(!is_black((255, 255, 255)));
}

#[test]
fn image_from_raw_needs_enough_bytes() {
    assert!(MapImage::from_raw(2, 2, vec![0; 11]).is_none());
    assert!(MapImage::from_raw(2, 2, vec![0; 12]).is_some());
    assert!(MapImage::from_raw(0, 0, Vec::new()).is_some());
}

#[test]
fn image_keeps_its_size() {
    let image = MapImage::from_raw(3, 2, vec![7; 18]).unwrap();
    assert_eq!(image.width(), 3);
    assert_eq!(image.height(), 2);
}

#[test]
fn bounds_are_the_box_of_the_free_pixels() {
    let image = image_of(&["######", "#..###", "#...##", "######", "######"]);
    assert_eq!(find_bounds(&image), (1, 1, 3, 2));
}

#[test]
fn bounds_of_a_free_image_are_the_image() {
    let image = image_of(&["....", "....", "...."]);
    assert_eq!(find_bounds(&image), (0, 0, 3, 2));
}

#[test]
fn bounds_of_a_black_image_are_the_image() {
    let image = image_of(&["####", "####"]);
    assert_eq!(find_bounds(&image), (0, 0, 3, 1));
}

#[test]
fn bounds_of_a_single_free_pixel() {
    let image = image_of(&["#####", "#####", "###.#", "#####"]);
    assert_eq!(find_bounds(&image), (3, 2, 3, 2));
}

#[test]
fn bounds_read_each_pixel_where_it_lies() {
    let image = image_of(&["#.", "##", "##"]);
    assert_eq!(find_bounds(&image), (1, 0, 1, 0));
    let image = image_of(&["###", "#.."]);
    assert_eq!(find_bounds(&image), (1, 1, 2, 1));
}

#[test]
fn obstruction_goes_by_the_nearest_pixel() {
    let map = OccupancyMap::new(image_of(&["#.", ".."]));
    assert!(map.is_obstructed(&at(0, 0)));
    assert!(map.is_obstructed(&at(49, 49)));
    assert!(!map.is_obstructed(&at(50, 0)));
    assert!(!map.is_obstructed(&at(0, 50)));
    assert!(!map.is_obstructed(&at(100, 100)));
    assert!(!map.is_obstructed(&at(149, 149)));
}

#[test]
fn obstruction_outside_the_image() {
    let map = OccupancyMap::new(image_of(&["#.", ".."]));
    assert!(map.is_obstructed(&at(150, 0)));
    assert!(map.is_obstructed(&at(100, 150)));
    assert!(map.is_obstructed(&at(i32::MAX, i32::MAX)));
    assert!(map.is_obstructed(&at(-500, -500)));
    assert!(!map.is_obstructed(&at(-500, 100)));
}

#[test]
fn segment_collides_where_a_sample_hits_an_obstacle() {
    let map = walled_map();
    assert!(map.is_path_colliding(&at(200, 400), &at(700, 400), 5));
    assert!(!map.is_path_colliding(&at(200, 200), &at(700, 200), 5));
    assert!(!map.is_path_colliding(&at(200, 200), &at(200, 700), 10));
}

#[test]
fn segment_check_sees_only_its_samples() {
    let map = walled_map();
    assert!(!map.is_path_colliding(&at(200, 400), &at(700, 400), 1));
    assert!(map.is_path_colliding(&at(200, 400), &at(700, 400), 2));
    assert!(map.is_path_colliding(&at(0, 0), &at(200, 200), 1));
    assert!(map.is_path_colliding(&at(200, 200), &at(0, 0), 1));
}

#[test]
fn segment_check_without_steps() {
    let map = walled_map();
    assert!(!map.is_path_colliding(&at(0, 0), &at(200, 200), -1));
    assert!(map.is_path_colliding(&at(0, 0), &at(200, 200), 0));
    assert!(!map.is_path_colliding(&at(200, 200), &at(0, 0), 0));
}

#[test]
fn segment_samples_round_down() {
    let map = OccupancyMap::new(image_of(&["..#", "..."]));
    // samples of x: 0, 49, 99, 149; the last is the first on the black pixel
    assert!(!map.is_path_colliding(&at(0, 0), &at(149, 0), 3));
    assert!(map.is_path_colliding(&at(0, 0), &at(150, 0), 3));
    // downwards the samples are 150, 99, 49, 0
    assert!(map.is_path_colliding(&at(150, 0), &at(0, 0), 3));
    assert!(!map.is_path_colliding(&at(149, 0), &at(-1, 0), 3));
}

#[test]
fn nearest_vertex_prefers_the_first_of_equals() {
    let map = open_map(20);
    let mut g = Graph::new();
    g.add_vertex(at(0, 0));
    g.add_vertex(at(1000, 0));
    assert_eq!(vertice_mais_prox(&g, &map, 500, 0), Ok(0));
    assert_eq!(vertice_mais_prox(&g, &map, 501, 0), Ok(1));
    assert_eq!(vertice_mais_prox(&g, &map, 499, 0), Ok(0));
}

#[test]
fn nearest_vertex_among_several() {
    let map = open_map(20);
    let mut g = Graph::new();
    g.add_vertex(at(100, 100));
    g.add_vertex(at(900, 100));
    g.add_vertex(at(500, 800));
    assert_eq!(vertice_mais_prox(&g, &map, 600, 600), Ok(2));
    assert_eq!(vertice_mais_prox(&g, &map, 800, 200), Ok(1));
    assert_eq!(vertice_mais_prox(&g, &map, 0, 0), Ok(0));
}

#[test]
fn nearest_vertex_of_an_empty_graph_is_zero() {
    let map = open_map(20);
    let g = Graph::new();
    assert_eq!(vertice_mais_prox(&g, &map, 500, 500), Ok(0));
}

#[test]
fn coordinates_outside_the_rectangle_are_out_of_bounds() {
    let map = walled_map();
    assert_eq!(map.pixel_bounds, (1, 1, 8, 7));
    let mut g = Graph::new();
    g.add_vertex(at(200, 200));
    assert_eq!(vertice_mais_prox(&g, &map, 99, 200), Err(PlanError::OutOfBounds));
    assert_eq!(vertice_mais_prox(&g, &map, 200, 99), Err(PlanError::OutOfBounds));
    assert_eq!(vertice_mais_prox(&g, &map, 801, 200), Err(PlanError::OutOfBounds));
    assert_eq!(vertice_mais_prox(&g, &map, 200, 701), Err(PlanError::OutOfBounds));
    assert_eq!(vertice_mais_prox(&g, &map, -1, -1), Err(PlanError::OutOfBounds));
    assert_eq!(vertice_mais_prox(&g, &map, i32::MAX, i32::MAX), Err(PlanError::OutOfBounds));
    assert_eq!(vertice_mais_prox(&g, &map, 100, 100), Ok(0));
    assert_eq!(vertice_mais_prox(&g, &map, 799, 699), Ok(0));
}

#[test]
fn the_borders_of_the_rectangle_are_in_bounds() {
    let map = walled_map();
    assert_eq!(map.bounds(), (100, 100, 800, 700));
    let mut g = Graph::new();
    g.add_vertex(at(200, 200));
    g.add_vertex(at(800, 700));
    assert_eq!(vertice_mais_prox(&g, &map, 800, 200), Ok(1));
    assert_eq!(vertice_mais_prox(&g, &map, 200, 700), Ok(0));
    assert_eq!(vertice_mais_prox(&g, &map, 800, 700), Ok(1));
    assert_eq!(vertice_mais_prox(&g, &map, 100, 700), Ok(0));
    assert_eq!(vertice_mais_prox(&Graph::new(), &map, 800, 700), Ok(0));
}

#[test]
fn an_obstacle_on_the_border_is_obstructed() {
    let map = OccupancyMap::new(image_of(&["....", "...#", "...."]));
    assert_eq!(map.pixel_bounds, (0, 0, 3, 2));
    let mut g = Graph::new();
    g.add_vertex(at(0, 0));
    assert_eq!(vertice_mais_prox(&g, &map, 300, 100), Err(PlanError::Obstructed));
    assert_eq!(vertice_mais_prox(&g, &map, 300, 200), Ok(0));
    assert_eq!(vertice_mais_prox(&g, &map, 301, 200), Err(PlanError::OutOfBounds));
}

#[test]
fn every_sampled_vertex_can_be_queried_where_it_lies() {
    let map = OccupancyMap::new(image_of(&["..", ".."]));
    let mut rng = StdRng::seed_from_u64(17);
    let g = generate_random_graph(&map, 200, 50, &mut rng, 10).unwrap();
    let mut on_border = 0;
    for (i, p) in g.vertices.iter().enumerate() {
        let found = vertice_mais_prox(&g, &map, p.x, p.y).unwrap();
        assert_eq!(g.vertices[found], *p);
        assert!(found <= i);
        if p.x == 100 || p.y == 100 {
            on_border += 1;
        }
    }
    assert!(on_border > 0);
}

#[test]
fn sampling_a_free_map_always_succeeds() {
    let map = open_map(6);
    for seed in 0..20 {
        let mut rng = StdRng::seed_from_u64(seed);
        let g = generate_random_graph(&map, 25, 200, &mut rng, 1).unwrap();
        assert_eq!(g.vertices.len(), 25);
    }
}

#[test]
fn coordinates_on_an_obstacle_are_obstructed() {
    let map = walled_map();
    let mut g = Graph::new();
    g.add_vertex(at(200, 200));
    assert_eq!(vertice_mais_prox(&g, &map, 450, 400), Err(PlanError::Obstructed));
    assert_eq!(vertice_mais_prox(&g, &map, 349, 400), Ok(0));
}

#[test]
fn collision_steps_are_half_the_radius_in_pixels() {
    assert_eq!(collision_steps(0), 1);
    assert_eq!(collision_steps(1), 1);
    assert_eq!(collision_steps(200), 1);
    assert_eq!(collision_steps(201), 2);
    assert_eq!(collision_steps(400), 2);
    assert_eq!(collision_steps(8000), 40);
    assert_eq!(collision_steps(u32::MAX), 21_474_837);
}

#[test]
fn roadmap_links_near_pairs_with_a_free_segment() {
    let map = walled_map();
    let points = vec![at(200, 200), at(700, 200), at(200, 400), at(700, 400), at(200, 650)];
    let g = connect_roadmap(&map, &points, 500);
    assert_eq!(g.vertices, points);
    let targets: Vec<Vec<usize>> = g.adj.iter().map(|row| row.iter().map(|e| e.to_idx).collect()).collect();
    assert_eq!(targets, vec![vec![1, 2, 4], vec![0, 3], vec![0, 4], vec![1], vec![0, 2]]);
    assert_eq!(g.adj[0][0].weight, 50_000);
    assert_eq!(g.adj[0][1].weight, 20_000);
    assert_eq!(g.adj[0][2].weight, 45_000);
    assert_eq!(g.adj[4][1].weight, 25_000);
}

#[test]
fn roadmap_with_radius_zero_links_equal_points_only() {
    let map = open_map(10);
    let points = vec![at(100, 100), at(101, 100), at(100, 100)];
    let g = connect_roadmap(&map, &points, 0);
    let targets: Vec<Vec<usize>> = g.adj.iter().map(|row| row.iter().map(|e| e.to_idx).collect()).collect();
    assert_eq!(targets, vec![vec![2], vec![], vec![0]]);
    assert_eq!(g.adj[0][0].weight, 0);
}

#[test]
fn sampled_points_are_free_and_inside() {
    let map = walled_map();
    let mut rng = StdRng::seed_from_u64(7);
    for _ in 0..200 {
        let p = sample_valid_point(&map, &mut rng, 1000).unwrap();
        assert!(!map.is_obstructed(&p));
        assert!(100 <= p.x && p.x <= 800);
        assert!(100 <= p.y && p.y <= 700);
    }
}

#[test]
fn sampling_without_attempts_gives_nothing() {
    let map = walled_map();
    let mut rng = StdRng::seed_from_u64(7);
    assert_eq!(sample_valid_point(&map, &mut rng, 0), None);
}

#[test]
fn sampling_a_black_map_is_given_up() {
    let map = OccupancyMap::new(image_of(&["####", "####", "####"]));
    let mut rng = StdRng::seed_from_u64(1);
    assert_eq!(sample_valid_point(&map, &mut rng, 50), None);
    let r = generate_random_graph(&map, 3, 500, &mut rng, 50);
    assert_eq!(r.unwrap_err(), PlanError::SamplingExhausted);
}

#[test]
fn random_roadmap_of_no_vertices_is_empty() {
    let map = OccupancyMap::new(image_of(&["####", "####", "####"]));
    let mut rng = StdRng::seed_from_u64(1);
    let g = generate_random_graph(&map, 0, 500, &mut rng, 0).unwrap();
    assert!(g.vertices.is_empty());
}

#[test]
fn random_roadmap_has_only_valid_connections() {
    let map = walled_map();
    let mut rng = StdRng::seed_from_u64(2024);
    let radius: u32 = 300;
    let g = generate_random_graph(&map, 40, radius, &mut rng, 10_000).unwrap();
    assert_eq!(g.vertices.len(), 40);
    assert_eq!(g.adj.len(), 40);
    let steps = collision_steps(radius);
    let mut edges = 0;
    for (u, row) in g.adj.iter().enumerate() {
        for e in row {
            let v = e.to_idx;
            assert_ne!(u, v);
            let (a, b) = if u < v { (g.vertices[u], g.vertices[v]) } else { (g.vertices[v], g.vertices[u]) };
            assert!(a.dist_sq(&b) <= (radius as u128) * (radius as u128));
            assert!(!map.is_path_colliding(&a, &b, steps));
            assert_eq!(e.weight, a.dist(&b));
            assert!(g.adj[v].iter().any(|back| back.to_idx == u && back.weight == e.weight));
            edges += 1;
        }
    }
    assert!(edges > 0);
    for p in &g.vertices {
        assert!(!map.is_obstructed(p));
    }
}

#[test]
fn random_roadmap_links_every_valid_pair() {
    let map = walled_map();
    let mut rng = StdRng::seed_from_u64(99);
    let radius: u32 = 250;
    let g = generate_random_graph(&map, 25, radius, &mut rng, 10_000).unwrap();
    let steps = collision_steps(radius);
    for i in 0..25 {
        for j in (i + 1)..25 {
            let a = g.vertices[i];
            let b = g.vertices[j];
            let valid = a.dist_sq(&b) <= (radius as u128) * (radius as u128) && !map.is_path_colliding(&a, &b, steps);
            assert_eq!(valid, g.adj[i].iter().any(|e| e.to_idx == j));
        }
    }
}

#[test]
fn random_roadmaps_differ_with_the_seed() {
    let map = open_map(50);
    let mut first = StdRng::seed_from_u64(1);
    let mut second = StdRng::seed_from_u64(2);
    let a = generate_random_graph(&map, 10, 100, &mut first, 10).unwrap();
    let b = generate_random_graph(&map, 10, 100, &mut second, 10).unwrap();
    assert_ne!(a.vertices, b.vertices);
    let mut again = StdRng::seed_from_u64(1);
    let c = generate_random_graph(&map, 10, 100, &mut again, 10).unwrap();
    assert_eq!(a.vertices, c.vertices);
}

#[test]
fn route_between_two_coordinates() {
    let map = open_map(20);
    let mut g = Graph::new();
    for i in 0..4 {
        g.add_vertex(at(100 + 400 * i, 500));
    }
    g.add_edge(0, 1, 40_000);
    g.add_edge(1, 2, 40_000);
    g.add_edge(2, 3, 40_000);
    assert_eq!(find_route(&g, &map, at(150, 450), at(1250, 600)), Ok(vec![0, 1, 2, 3]));
    assert_eq!(find_route(&g, &map, at(900, 0), at(880, 1800)), Ok(vec![2]));
}

#[test]
fn route_reports_the_first_bad_coordinate() {
    let map = walled_map();
    let mut g = Graph::new();
    g.add_vertex(at(200, 200));
    g.add_vertex(at(700, 200));
    g.add_edge(0, 1, 50_000);
    assert_eq!(find_route(&g, &map, at(0, 0), at(450, 400)), Err(PlanError::OutOfBounds));
    assert_eq!(find_route(&g, &map, at(450, 400), at(0, 0)), Err(PlanError::Obstructed));
    assert_eq!(find_route(&g, &map, at(200, 200), at(0, 0)), Err(PlanError::OutOfBounds));
    assert_eq!(find_route(&g, &map, at(200, 200), at(450, 400)), Err(PlanError::Obstructed));
    assert_eq!(find_route(&g, &map, at(200, 200), at(600, 300)), Ok(vec![0, 1]));
}

#[test]
fn route_without_a_path_is_no_path_found() {
    let map = open_map(20);
    let mut g = Graph::new();
    g.add_vertex(at(100, 100));
    g.add_vertex(at(1500, 1500));
    assert_eq!(find_route(&g, &map, at(100, 100), at(1500, 1500)), Err(PlanError::NoPathFound));
}

#[test]
fn well_formed_maps_have_a_rectangle_in_range() {
    let mut map = walled_map();
    assert!(map.is_well_formed());
    map.pixel_bounds = (5, 1, 4, 7);
    assert!(!map.is_well_formed());
    map.pixel_bounds = (1, 1, 21_474_836, 7);
    assert!(map.is_well_formed());
    map.pixel_bounds = (1, 1, 21_474_837, 7);
    assert!(!map.is_well_formed());
    map.pixel_bounds = (1, 8, 4, 7);
    assert!(!map.is_well_formed());
}

#[test]
fn random_roadmap_without_attempts_is_given_up() {
    let map = open_map(10);
    let mut rng = StdRng::seed_from_u64(5);
    assert_eq!(generate_random_graph(&map, 1, 100, &mut rng, 0).unwrap_err(), PlanError::SamplingExhausted);
}

#[test]
fn drawn_points_are_taken_off_obstacles_only() {
    let map = walled_map();
    assert_eq!(accept_point(&map, 200, 200), Some(at(200, 200)));
    assert_eq!(accept_point(&map, 450, 400), None);
    assert_eq!(accept_point(&map, 0, 0), None);
    assert_eq!(accept_point(&map, 349, 400), Some(at(349, 400)));
    assert_eq!(accept_point(&map, 350, 400), None);
}

#[test]
fn sampling_a_free_map_needs_one_attempt() {
    let map = open_map(12);
    for seed in 0..50 {
        let mut rng = StdRng::seed_from_u64(seed);
        let p = sample_valid_point(&map, &mut rng, 1).unwrap();
        assert!(0 <= p.x && p.x <= 1100);
        assert!(0 <= p.y && p.y <= 1100);
    }
}
