//! A Monte Carlo path tracer's discrete core: axes, the scheduling of a
//! render across threads, the Perlin lattice tables and the shape of the
//! bounding-volume hierarchy.

pub mod bvh;
pub mod perlin;
pub mod render;
pub mod util;
