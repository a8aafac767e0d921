//! Indoor radio multipath tracing on an exact fixed-point model.
//!
//! Positions are integer coordinates in a caller-chosen unit (for example
//! millimetres). Every computation is exact integer arithmetic; where a real
//! quantity has no integer value (a length, an intersection point) the
//! rounding used is part of the function's contract.

pub mod best;
pub mod geometry;
pub mod isect;
pub mod num;
pub mod rays;
pub mod reflect;
pub mod signal;
pub mod trace;
pub mod vec2;
pub mod vec3;
