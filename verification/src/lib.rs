//! Core logic of a two-player word-scramble game server: room ledger,
//! match registry, scoring, wire-message codec, outcome computation and
//! the per-connection session state machine.

pub mod codec;
pub mod words;
pub mod ledger;
pub mod outcome;
pub mod registry;
pub mod session;
pub mod timer;

use vstd::prelude::*;

verus! {

/// Number of matchmaking rooms.
pub const ROOM_COUNT: usize = 4;

/// Capacity of each room: a match holds exactly two seats.
pub const ROOM_CAPACITY: u8 = 2;

} // verus!
