//! Administrative boundary assembly and a static spatial index over boxes.
//!
//! Coordinates are fixed-point integers (for OpenStreetMap data, units of
//! 1e-7 degrees), so every comparison made by the assembly is exact.

pub mod boundary;
pub mod geometry;
pub mod index;
pub mod polygons;
pub mod rings;

pub use boundary::{build_boundary, Boundary, MultiPolygon};
pub use geometry::{BoundaryError, Coord, Role, Segment};
pub use index::{Piece, SpatialIndex};
pub use polygons::{assemble_polygons, orient_ring, point_in_ring, Assembly, Polygon};
pub use rings::assemble_rings;
