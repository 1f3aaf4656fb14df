//! Settings of the glow pass.

use vstd::prelude::*;

verus! {

/// The glow pass has nothing to configure yet.
#[derive(Debug, Clone, Default)]
pub struct Config {}

} // verus!
