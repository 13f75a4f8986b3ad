//! The decisions that each kind of primitive takes when a ray meets it.

pub mod sphere;
pub mod plane;
