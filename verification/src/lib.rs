//! Polyline simplification by the Douglas-Peucker method.
//!
//! A polyline is an ordered sequence of 2D integer points. Simplification
//! removes points whose perpendicular distance to the chord of their span
//! is within a caller-supplied tolerance, keeping the shape of the path.

pub mod geometry;
pub mod tolerance;
pub mod simplify;
pub mod batch;
