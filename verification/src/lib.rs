//! Chunk streaming for a tiled 2D world: which chunks are loaded, who claims
//! them, and when a chunk that nobody claims may be dropped.
//!
//! Observers of the world hold tickets and claim chunk coordinates with them.
//! The chunk manager generates a chunk when its coordinate is first claimed,
//! keeps it while anybody claims it, and drops it a grace period after the
//! last claim has been given up. What the manager does is stated over a model
//! of its state, [`world::residency::Residency`], and proved.

pub mod id;
pub mod world;
