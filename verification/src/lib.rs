//! A verified maze-generation library.
//!
//! A maze is a rectangular grid of cells, each with four potential walls
//! (north, south, west, east).  [`generate`] carves a perfect maze — the
//! open-passage graph is a spanning tree of the grid — by a randomized
//! iterative depth-first walk, and [`build_level`] turns a finished grid
//! into an ordered list of static axis-aligned boxes (walls, floor and a
//! goal sensor) for a renderer or physics engine to instantiate.

pub mod count;
pub mod generate;
pub mod geometry;
pub mod grid;
pub mod reach;
pub mod rng;

pub use generate::ConfigError;
pub use generate::generate;

pub use geometry::StaticGeometry;
pub use geometry::Vec3i;
pub use geometry::build_level;
pub use rng::RandomSource;
pub use grid::Direction;
pub use grid::Cell;
pub use grid::Grid;
