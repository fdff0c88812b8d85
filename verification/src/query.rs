//! A route query: from two coordinates to the tree route between the
//! vertices nearest to them.

use crate::dfs::{dfs_path, is_route, reachable};
use crate::error::PlanError;
use crate::readmap::OccupancyMap;
use crate::structs::{Graph, Point};
use crate::vertice_mais_proximo::{is_nearest, out_of_bounds, vertice_mais_prox};
use vstd::prelude::*;

verus! {

/// Why a coordinate cannot be used for a query, if it cannot: it lies
/// outside the navigable rectangle, or else on an obstacle.
pub open spec fn coordinate_error(map: OccupancyMap, p: Point) -> Option<PlanError> {
    if out_of_bounds(map, p.x, p.y) {
        Some(PlanError::OutOfBounds)
    } else if map.obstructed(p) {
        Some(PlanError::Obstructed)
    } else {
        None
    }
}

/// The route through the graph between the vertices nearest to `from` and
/// to `to`. The start coordinate is checked before the end coordinate; an
/// unusable coordinate is reported as the locator reports it. Where no path
/// joins the two vertices, the answer is `NoPathFound`.
pub fn find_route(gr: &Graph, map: &OccupancyMap, from: Point, to: Point) -> (r: Result<Vec<usize>, PlanError>)
    requires
        gr.wf(),
        gr@.vertices.len() >= 1,
    ensures
        coordinate_error(*map, from) matches Some(e) ==> r == Err::<Vec<usize>, PlanError>(e),
        coordinate_error(*map, from).is_none() ==> (coordinate_error(*map, to) matches Some(e) ==> r == Err::<
            Vec<usize>,
            PlanError,
        >(e)),
        coordinate_error(*map, from).is_none() && coordinate_error(*map, to).is_none() ==> forall|
            s: int,
            e: int,
        |
            is_nearest(gr@.vertices, from, s) && is_nearest(gr@.vertices, to, e) ==> (if reachable(gr@, s, e) {
                r.is_ok() && is_route(gr@, r.unwrap()@, s, e)
            } else {
                r == Err::<Vec<usize>, PlanError>(PlanError::NoPathFound)
            }),
{
    let start: usize = match vertice_mais_prox(gr, map, from.x, from.y) {
        Ok(idx) => idx,
        Err(e) => {
            return Err(e);
        },
    };
    let end: usize = match vertice_mais_prox(gr, map, to.x, to.y) {
        Ok(idx) => idx,
        Err(e) => {
            return Err(e);
        },
    };
    proof {
        assert forall|s: int, e: int|
            is_nearest(gr@.vertices, from, s) && is_nearest(gr@.vertices, to, e) implies s == start && e == end by {
            lemma_nearest_unique(gr@.vertices, from, s, start as int);
            lemma_nearest_unique(gr@.vertices, to, e, end as int);
        }
    }
    match dfs_path(gr, start, end) {
        Some(path) => Ok(path),
        None => Err(PlanError::NoPathFound),
    }
}

/// Only one vertex is the first at the least distance.
pub proof fn lemma_nearest_unique(vertices: Seq<Point>, point: Point, i: int, j: int)
    requires
        is_nearest(vertices, point, i),
        is_nearest(vertices, point, j),
    ensures
        i == j,
{
    if i < j {
        assert(vertices[j].spec_dist_sq(point) < vertices[i].spec_dist_sq(point));
        assert(vertices[i].spec_dist_sq(point) <= vertices[j].spec_dist_sq(point));
    }
    if j < i {
        assert(vertices[i].spec_dist_sq(point) < vertices[j].spec_dist_sq(point));
        assert(vertices[j].spec_dist_sq(point) <= vertices[i].spec_dist_sq(point));
    }
}

} // verus!
