//! Planar geometry on an integer lattice: Delaunay triangulation by
//! incremental insertion and alpha shapes derived from it.
//!
//! Every coordinate is an integer, so the geometric predicates are decided
//! exactly: a circumcenter is kept as a pair of fractions, and whether a
//! point lies in a circumcircle is a comparison of integers. The results do
//! not depend on the order of the input nor on points that occur twice.
//!
//! The data flows from points through [`triangulate`] to a list of
//! triangles, and from there through [`alpha_shape_2d`] to a list of shapes.
//! What holds of the results for every input is stated and proved in
//! [`laws`].

mod algebra;
pub mod alpha;
pub mod bounding_box;
pub mod delaunay;
pub mod edge;
pub mod laws;
pub mod ordering;
pub mod partition;
pub mod point;
pub mod scaffold;
mod sequences;
pub mod shape;
pub mod triangle;
pub mod unique;
pub mod wide;

pub use alpha::{alpha_shape_2d, Alpha, AlphaShape2D};
pub use bounding_box::BoundingBox;
pub use delaunay::{get_bounding_triangle, triangulate, Triangulation2};
pub use edge::Edge;
pub use ordering::{points_max, points_min};
pub use point::{Point, COORD_LIMIT};
pub use scaffold::INPUT_LIMIT;
pub use shape::Shape2D;
pub use triangle::{RationalPoint, Ratio, Triangle};
