//! Probabilistic roadmap planning over a two-dimensional occupancy map.
//!
//! A roadmap is sampled over the free area of a map, reduced to a minimum
//! spanning tree, and queried for the tree route between two coordinates.
//!
//! All numbers are fixed-point integers: a coordinate counts hundredths of a
//! pixel, a weight ten-thousandths of a pixel. These are the numbers that
//! the exchange files hold, so a roadmap is read back as it was written.
//!
//! The executable functions carry contracts over mathematical models of
//! their data; the modules `connectivity`, `edges`, `canonical`, `spanning`
//! and `round_trip` hold the theory that the contracts rest on.

pub mod canonical;
pub mod connectivity;
pub mod decimal;
pub mod dfs;
pub mod edges;
pub mod error;
pub mod kruskal;
pub mod prm_generator;
pub mod query;
pub mod readmap;
pub mod records;
pub mod round_trip;
pub mod sorting;
pub mod spanning;
pub mod structs;
pub mod vertice_mais_proximo;
