//! The decisions of the shading engine.

pub mod physics;
