//! Method-of-loci memory indexing: rooms holding described items, corridors
//! between rooms with shortest-route search, and walks for ordered recall.

pub mod text;
pub mod room;
pub mod route;
pub mod corridor;
pub mod walk;
pub mod layout;
pub mod tags;

pub use corridor::{Corridor, CorridorMap};
pub use layout::{lay_out_pairs, AnchorSlot, PairsLayout};
pub use room::Room;
pub use walk::{build_walk, Walk, WalkAction, WalkStep};
