//! Typed pipeline registries.
//!
//! The renderer keeps one registry per concrete pipeline type (the set of
//! pipeline types is closed), each a lazily initialised singleton: the
//! pipeline is constructed at most once, on first use, and every later
//! access returns that same instance. Construction itself needs the GPU
//! device, so the embedding program builds the pipeline value and installs
//! it; installation demands an empty slot, which is what makes a second
//! instance impossible.

use vstd::prelude::*;

pub mod sprite;

verus! {

/// A lazy singleton holding the one instance of a pipeline type.
pub struct PipelineRegistry<P> {
    pub slot: Option<P>,
}

impl<P> PipelineRegistry<P> {
    /// Whether the pipeline has been constructed yet.
    pub open spec fn is_initialized(self) -> bool {
        self.slot is Some
    }

    /// An empty registry: no pipeline instance exists yet.
    pub fn new() -> (r: PipelineRegistry<P>)
        ensures
            !r.is_initialized(),
    {
        PipelineRegistry { slot: None }
    }

    /// Whether the pipeline has been constructed yet.
    pub fn is_ready(&self) -> (r: bool)
        ensures
            r == self.is_initialized(),
    {
        self.slot.is_some()
    }

    /// Installs the freshly constructed pipeline. Only an empty registry
    /// accepts one, so at most one instance ever exists per type.
    pub fn install(&mut self, pipeline: P)
        requires
            !old(self).is_initialized(),
        ensures
            final(self).is_initialized(),
            final(self).slot == Some(pipeline),
    {
        self.slot = Some(pipeline);
    }

    /// The one pipeline instance, for further interaction; every call
    /// hands out the same instance, and the registry stays initialised.
    pub fn get_pipeline_mut(&mut self) -> (r: &mut P)
        requires
            old(self).is_initialized(),
        ensures
            old(self).slot == Some(*r),
            final(self).slot == Some(*final(r)),
    {
        match &mut self.slot {
            Some(p) => p,
            None => {
                proof {
                    assert(false);
                }
                vstd::pervasive::unreached()
            },
        }
    }
}

} // verus!
