//! Bookkeeping for a small renderer: the list of instances drawn each frame,
//! the settings of the post-processing passes, and the ring of particle
//! buffers that short-lived particles are streamed into.
//!
//! Nothing here touches the GPU. The renderer owns the graphics resources;
//! this crate tells it what to draw and where to write, and every function
//! in it is verified against the contract it states.

use vstd::prelude::*;

pub mod fxaa;
pub mod object;
pub mod particle;
pub mod pipeline;

pub use object::{Instance, Object};

verus! {

/// The instances to be drawn in one frame, in the order they were added.
pub struct RenderList<P: Copy> {
    instances: Vec<Instance<P>>,
}

impl<P: Copy> View for RenderList<P> {
    type V = Seq<Instance<P>>;

    closed spec fn view(&self) -> Seq<Instance<P>> {
        self.instances@
    }
}

impl<P: Copy> Default for RenderList<P> {
    fn default() -> (list: Self)
        ensures
            list@ == Seq::<Instance<P>>::empty(),
    {
        RenderList { instances: Vec::new() }
    }
}

impl<P: Copy> RenderList<P> {
    /// An empty list.
    pub fn new() -> (list: RenderList<P>)
        ensures
            list@ == Seq::<Instance<P>>::empty(),
    {
        RenderList { instances: Vec::new() }
    }

    /// Appends a copy of `instance`.
    pub fn add_instance(&mut self, instance: &Instance<P>)
        ensures
            final(self)@ == old(self)@.push(*instance),
    {
        self.instances.push(*instance);
    }

    /// Appends an instance of `object` drawn with `params`.
    pub fn add(&mut self, object: Object, params: &P)
        ensures
            final(self)@ == old(self)@.push(Instance { object, params: *params }),
    {
        self.add_instance(&Instance { object, params: *params });
    }

    /// Removes all instances.
    pub fn clear(&mut self)
        ensures
            final(self)@ == Seq::<Instance<P>>::empty(),
    {
        self.instances.clear();
    }

    /// The instances in the order they were added.
    pub fn instances(&self) -> (instances: &[Instance<P>])
        ensures
            instances@ == self@,
    {
        self.instances.as_slice()
    }
}

} // verus!
