//! A hierarchical hexagonal grid over the sphere: the 64-bit index of a
//! cell, the navigation between cells, and the assembly of the cells that
//! cover a shape.

pub mod cell;
pub mod covering;
pub mod direction;
pub mod dispatch;
pub mod geometry;
pub mod hierarchy;
pub mod raw;
pub mod resolution;
pub mod step;
pub mod text;

pub use cell::{CellIndex, InvalidCellIndex, Path};
pub use covering::{Fill, ResolutionMismatch};
pub use direction::Direction;
pub use geometry::{Coord, Geometry, InvalidGeometry, Polygon};
pub use resolution::Resolution;
