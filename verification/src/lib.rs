//! Per-frame GPU work scheduling and dynamic resource lifecycle management.
//!
//! The crate models the device-facing side of a real-time renderer as plain
//! values: GPU buffers, texture arrays and bind groups are tracked by integer
//! identities, so that the lifecycle rules — when storage must be reallocated,
//! when derived bind groups must be rebuilt, in which order graph nodes may
//! run — are stated as contracts and proved.
//!
//! Modules:
//! - [`registry`]: a handle registry assigning stable identities to a dynamic
//!   set of logical objects, with deferred (mark-and-sweep) removal.
//! - [`pot_buffer`]: a growable device buffer whose capacity is the smallest
//!   power of two that covers the largest payload ever written.
//! - [`directional`]: the array resource manager pattern, instantiated for
//!   directional lights: a registry plus packed buffer, texture array and
//!   cached bind group, reconciled once per frame.
//! - [`graph`]: the render graph: nodes declare how they use data and render
//!   target slots, and the graph schedules them in dependency order.

pub mod directional;
pub mod graph;
pub mod pot_buffer;
pub mod registry;
