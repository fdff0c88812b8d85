//! The roadmap vertex nearest to a coordinate.

use crate::error::PlanError;
use crate::readmap::{in_rectangle, OccupancyMap};
use crate::structs::{Graph, Point, UNITS_PER_PIXEL};
use vstd::prelude::*;

verus! {

/// Whether the coordinate `(x, y)` lies outside the navigable rectangle of
/// the map. The four borders belong to the rectangle.
pub open spec fn out_of_bounds(map: OccupancyMap, x: i32, y: i32) -> bool {
    ||| x < map.pixel_bounds.0 * UNITS_PER_PIXEL
    ||| y < map.pixel_bounds.1 * UNITS_PER_PIXEL
    ||| x > map.pixel_bounds.2 * UNITS_PER_PIXEL
    ||| y > map.pixel_bounds.3 * UNITS_PER_PIXEL
}

/// A coordinate is out of bounds exactly where its point is not in the
/// rectangle that the sampler draws from.
pub proof fn lemma_out_of_bounds(map: OccupancyMap, x: i32, y: i32)
    ensures
        out_of_bounds(map, x, y) <==> !in_rectangle(map, Point { x, y }),
{
}

/// Whether vertex `i` is the first of the vertices at the least distance
/// from `point`.
pub open spec fn is_nearest(vertices: Seq<Point>, point: Point, i: int) -> bool {
    &&& 0 <= i < vertices.len()
    &&& forall|j: int|
        0 <= j < vertices.len() ==> vertices[i].spec_dist_sq(point) <= (#[trigger] vertices[j]).spec_dist_sq(point)
    &&& forall|j: int| 0 <= j < i ==> vertices[i].spec_dist_sq(point) < (#[trigger] vertices[j]).spec_dist_sq(point)
}

/// The index of the vertex nearest to the coordinate `(x, y)`; of several at
/// the same distance, the first. The coordinate must lie in the navigable
/// rectangle, borders included, and off every obstacle. A graph without
/// vertices gives index 0.
pub fn vertice_mais_prox(gr: &Graph, map: &OccupancyMap, x: i32, y: i32) -> (r: Result<usize, PlanError>)
    ensures
        out_of_bounds(*map, x, y) ==> r == Err::<usize, PlanError>(PlanError::OutOfBounds),
        !out_of_bounds(*map, x, y) && map.obstructed(Point { x, y }) ==> r == Err::<usize, PlanError>(
            PlanError::Obstructed,
        ),
        !out_of_bounds(*map, x, y) && !map.obstructed(Point { x, y }) ==> r.is_ok() && (if gr@.vertices.len()
            == 0 {
            r.unwrap() == 0
        } else {
            is_nearest(gr@.vertices, Point { x, y }, r.unwrap() as int)
        }),
{
    let point = Point { x, y };
    let wide_x: i64 = x as i64;
    let wide_y: i64 = y as i64;
    if wide_x < map.pixel_bounds.0 as i64 * 100 || wide_y < map.pixel_bounds.1 as i64 * 100 || wide_x
        > map.pixel_bounds.2 as i64 * 100 || wide_y > map.pixel_bounds.3 as i64 * 100 {
        return Err(PlanError::OutOfBounds);
    }
    if map.is_obstructed(&point) {
        return Err(PlanError::Obstructed);
    }
    if gr.vertices.len() == 0 {
        return Ok(0);
    }
    let mut menor_dist: u128 = gr.vertices[0].dist_sq(&point);
    let mut i_mais_prox: usize = 0;
    let mut i: usize = 1;
    while i < gr.vertices.len()
        invariant
            1 <= i <= gr.vertices.len(),
            i_mais_prox < i,
            menor_dist == gr@.vertices[i_mais_prox as int].spec_dist_sq(point),
            forall|j: int| 0 <= j < i ==> menor_dist <= (#[trigger] gr@.vertices[j]).spec_dist_sq(point),
            forall|j: int| 0 <= j < i_mais_prox ==> menor_dist < (#[trigger] gr@.vertices[j]).spec_dist_sq(point),
        decreases gr.vertices.len() - i,
    {
        let dist: u128 = gr.vertices[i].dist_sq(&point);
        if dist < menor_dist {
            menor_dist = dist;
            i_mais_prox = i;
        }
        i += 1;
    }
    Ok(i_mais_prox)
}

} // verus!
