//! Settings of the FXAA anti-aliasing pass.

use vstd::prelude::*;

verus! {

/// How far the edge search of the anti-aliasing pass explores; higher
/// qualities take more samples along an edge.
#[derive(Debug, Clone, Copy, PartialEq, Eq, Structural)]
pub enum Quality {
    Low,
    Medium,
    High,
}

#[derive(Debug, Clone)]
pub struct Config {
    pub quality: Quality,
}

impl Default for Config {
    fn default() -> (config: Self)
        ensures
            config.quality == Quality::Low,
    {
        Self { quality: Quality::Low }
    }
}

} // verus!
