//! Authoritative state of a two-player paddle-and-ball game server: the
//! per-room simulation bookkeeping (player records, coalesced move intents,
//! side pinning, hit timers), rooms with capacity and lifecycle, the room
//! controller that places players and ticks rooms, and the messages the
//! server sends. The rigid-body solver itself runs outside this crate and is
//! addressed through plain body and collider keys.

pub mod geometry;
pub mod timer;
pub mod physics;
pub mod player;
pub mod room;
pub mod room_controller;
pub mod messages;
pub mod game_state;
