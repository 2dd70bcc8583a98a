//! Application states.
//!
//! The event loop of the embedding program drives a state: it forwards
//! window and input events and runs an update per frame. The library
//! ships the inert state, which ignores every event and changes nothing.

use vstd::prelude::*;

verus! {

/// A state with no behaviour: initialisation, events and updates all
/// leave it (and the world) untouched.
pub struct EmptyState {}

impl EmptyState {
    /// A fresh inert state.
    pub fn new() -> (r: EmptyState) {
        EmptyState {  }
    }
}

} // verus!
