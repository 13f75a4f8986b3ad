//! Verified cores of three small programs: the decisions of a recursive ray
//! tracer, a sliding-tile puzzle solver, and the field analysis of a
//! builder derive.

pub mod single;
pub mod objects;
pub mod raytracing;
pub mod frame;
pub mod puzzle;
pub mod builder;
