//! A planar Voronoi vertex-graph builder.
//!
//! Given a finite sequence of 2D sites with integer coordinates, the library
//! runs a sweep-line (Fortune's) algorithm over an ordered event stream and
//! returns the diagram's vertex graph: the Voronoi vertices (circumcenters of
//! site triples detected as circle events) together with their symmetric
//! adjacency.  Only vertices and finite edges between them are produced;
//! unbounded edges are not generated.
//!
//! All geometry is exact: positions and comparisons are carried out in
//! checked 128-bit integer arithmetic over rational coordinates, so the
//! result is a deterministic function of the input sequence.  An input whose
//! geometry degenerates (coincident or collinear sites reaching the
//! circumcircle solve, or a site with no arc strictly above it) is rejected
//! with an explicit error, never with a non-finite value or a panic.

pub mod beach;
pub mod driver;
pub mod event;
pub mod geom;
pub mod graph;
pub mod num;
pub mod state;
