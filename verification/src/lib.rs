//! A deterministic simulation kernel: an entity/component world with
//! generation-stamped handles, a singleton resource store with runtime-checked
//! exclusive borrows, explicit plugin registries, a sequential per-tick
//! scheduler, and a versioned save/load pipeline with content fingerprinting.

pub mod codec;
pub mod commands;
pub mod entity;
pub mod hashing;
pub mod mesh;
pub mod registry;
pub mod resources;
pub mod save;
pub mod store;
pub mod system;
pub mod ui;
pub mod world;

use vstd::prelude::*;

verus! {

/// Marker type for component data that is deliberately left out of the
/// save pipeline.
pub struct NoSerialize;

} // verus!
