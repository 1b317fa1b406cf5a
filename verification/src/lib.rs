//! A registry of named, capacity-bounded rooms: a best-effort relay of text
//! lines between the members of a room, and on top of it a turn-based fight
//! between two players.

pub mod ident;
pub mod model;
pub mod room;
pub mod registry;
pub mod payload;
pub mod actor;
pub mod laws;
