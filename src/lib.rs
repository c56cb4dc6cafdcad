//! Integer core of a two-dimensional gravity animation: the frame rasterizer
//! that draws bodies as midpoint circles into an RGBA buffer, and the policy
//! that decides which bodies merge on contact during a simulation step.

pub mod collision;
pub mod render;
