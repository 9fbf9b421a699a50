//! Server core of a multiplayer typing race.
//!
//! Clients join a named room under a display name and race to reproduce a
//! shared target text character by character.  This crate holds the
//! authoritative room state machine: admission and reconnection, keystroke
//! validation, finish ranking, the countdown schedule, the reconnect replay
//! sequence, and the wire codec.  All I/O (sockets, timers, the broadcast
//! channel) lives outside, in the surrounding application.

use vstd::prelude::*;

pub mod codec;
pub mod events;
pub mod game;
pub mod registry;
pub mod session;

verus! {

/// Number of players that must be present before a countdown is scheduled.
pub const QUORUM: usize = 3;

} // verus!
