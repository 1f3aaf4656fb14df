//! Passes of the rendering pipeline.

pub mod glow;
