//! Routines for inspecting and manipulating cubic Bézier curves and paths made of them,
//! with coordinates on an integer grid and exact arithmetic.

pub mod geo;
pub mod curve;
pub mod characteristics;
pub mod path;
pub mod fill;
pub mod stroke;
pub mod graph_path;
pub mod arithmetic;
pub mod scan;
