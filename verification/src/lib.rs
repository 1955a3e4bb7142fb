//! A sphere-tracing renderer core over signed distance fields.
//!
//! Geometry lives on a fixed-point lattice: a world coordinate of one unit
//! is `math::FP` lattice units, and every operation is exact integer
//! arithmetic, so each distance function, combinator and the ray marcher
//! itself carry machine-checked contracts.  The floating-point shading
//! passes that sit on top of this core are host-side concerns.

pub mod linear;
pub mod mat;
pub mod math;
pub mod raymarch;
pub mod scene;
pub mod sdf;
pub mod twod;
