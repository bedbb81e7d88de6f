//! The integer core of a Monte Carlo ray tracer: how an image is cut into
//! tiles, how a tile is walked, how the tiles are put back together, and how
//! a light path ends.

pub mod canvas;
pub mod grid;
pub mod integrator;
pub mod math;
pub mod tile;
pub mod tiling;
pub mod walk;
