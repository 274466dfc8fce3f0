//! Post-instantiation restructuring of blueprint instances and tracking of
//! nested instance completion, over an explicit entity arena.
//!
//! - [`world`]: the entity arena (liveness, parent links, components, flags).
//! - [`migrate`]: copying components between entities.
//! - [`marker`]: the lifecycle stage of one instance.
//! - [`instance`]: what is known of one spawned blueprint instance.
//! - [`restructure`]: root discrimination and one-level flattening.
//! - [`tracker`]: per-owner completion trackers and completion events.
//! - [`tick`]: one scheduling tick over all instances.

pub mod instance;
pub mod marker;
pub mod migrate;
pub mod restructure;
pub mod tick;
pub mod tracker;
pub mod world;
