//! What a frame is made of: instances of the renderer's objects.

use vstd::prelude::*;

verus! {

/// One of the renderer's objects, named by the index under which the
/// renderer keeps its mesh.
#[derive(Debug, Clone, Copy, PartialEq, Eq, Structural)]
pub struct Object {
    pub index: usize,
}

/// One object to be drawn, with the parameters of type `P` to draw it with
/// (its transform and color, as the renderer keeps them).
#[derive(Debug, Clone, Copy)]
pub struct Instance<P: Copy> {
    pub object: Object,
    pub params: P,
}

} // verus!
