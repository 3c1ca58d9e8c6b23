//! A safe synchronization layer for command recording against a low-level
//! graphics/compute device.
//!
//! Commands recorded through [`builder::SyncCommandBufferBuilder`] declare the
//! resources they touch; the builder tracks per-range resource state, inserts
//! the pipeline barriers needed to order conflicting accesses, and batches
//! those barriers so that one barrier resolves many hazards.  Building yields
//! a [`synced::SyncCommandBuffer`], which owns the frozen per-resource state
//! and offers a lock/unlock protocol for submission alongside other in-flight
//! work.

pub mod barrier;
pub mod builder;
pub mod command;
pub mod errors;
pub mod flags;
pub mod future;
pub mod laws;
pub mod locks;
pub mod range_map;
pub mod resource;
pub mod state;
pub mod synced;
pub mod version;

use vstd::prelude::*;

verus! {

/// Size and offset unit for device resources.
pub type DeviceSize = u64;

} // verus!
