//! The streamed world.
//!
//! - `chunk`: chunk coordinates, tiles and chunks.
//! - `area`: the square of coordinates around an observer.
//! - `generators`: where chunks come from.
//! - `ticket`, `sets`: tickets, and the index of who claims what.
//! - `residency`: the state of the chunk manager as a state machine.
//! - `manager`: the chunk manager.
//! - `hashed`, `clock`: the hashed collections and the clock underneath.

pub mod area;
pub mod chunk;
pub mod clock;
pub mod generators;
pub mod hashed;
pub mod manager;
pub mod residency;
pub mod sets;
pub mod ticket;
