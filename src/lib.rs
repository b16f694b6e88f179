//! Nearest segment hit by a ray, on an exact integer grid.
//!
//! Coordinates are integers, so every quantity the geometry needs (the
//! determinant of two directions, the crossing point of two lines, squared
//! distances) is computed exactly: the crossing point is a rational point and
//! squared distances are fractions.
pub mod arith;
pub mod geometry;
pub mod nearest;
pub mod parse;
