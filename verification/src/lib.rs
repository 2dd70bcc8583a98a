//! A verified core for a batched sprite renderer.
//!
//! The crate owns the bookkeeping half of a small GPU sprite engine: a
//! handle-keyed resource registry with an idempotent, path-keyed texture
//! cache, a lazily initialised pipeline slot, and the per-frame sprite
//! batching algorithm (stable grouping by texture, draw-span computation,
//! instance-buffer layout and the amortised-doubling growth policy).
//!
//! Everything that must talk to a GPU device, a window or the file system
//! (buffer and texture creation, bind-group construction, command
//! submission, presentation) is left to the embedding program: those calls
//! hand plain values in and take plain values out, and the contracts here
//! describe exactly what the core computes from them.

pub mod components;
pub mod handles;
pub mod pipelines;
pub mod renderer;
pub mod states;
