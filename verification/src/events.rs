//! Server-to-client events and their mathematical view.
//!
//! `ServerEvent` is the executable value that sessions publish on the bus or
//! write directly to one socket; `EventV` is its view, with every string seen
//! as a sequence of Unicode scalar values.

use crate::game::Finish;
use vstd::prelude::*;

verus! {

/// View of a server event: what the event says, free of `String`.
#[verifier::ext_equal]
pub enum EventV {
    LobbyUpdate { players: Seq<Seq<char>> },
    NameConflict,
    Countdown { seconds: u8 },
    StartRace { text: Seq<char> },
    Feedback { position: u16, correct: bool, key: Seq<char> },
    Progress { name: Seq<char>, position: u16 },
    Finish { name: Seq<char>, time_ms: u64 },
    RaceResult { ranking: Seq<(Seq<char>, u64)> },
    ErrorMsg { message: Seq<char> },
}

/// A server-to-client event.
///
/// `Feedback` and `NameConflict` are private: they are written directly to
/// one socket and never published on the bus.  Everything else is broadcast
/// to the event's room.
#[derive(Debug, Clone, PartialEq, Eq)]
pub enum ServerEvent {
    /// The room's roster changed (or is replayed): all current names.
    LobbyUpdate { players: Vec<String> },
    /// A non-reconnect Join named an already-present player.
    NameConflict,
    /// Seconds left before the race starts.
    Countdown { seconds: u8 },
    /// The race begins on this target text.
    StartRace { text: String },
    /// Private echo of one keystroke: cursor before the keystroke, whether it
    /// matched, and the typed string.
    Feedback { position: u16, correct: bool, key: String },
    /// A player's cursor moved to `position`.
    Progress { name: String, position: u16 },
    /// A player completed the text after `time_ms` milliseconds of race time.
    Finish { name: String, time_ms: u64 },
    /// Every player finished: the full ranking in completion order.
    RaceResult { ranking: Vec<Finish> },
    /// A frame could not be understood.
    ErrorMsg { message: String },
}

impl View for ServerEvent {
    type V = EventV;

    open spec fn view(&self) -> EventV {
        match self {
            ServerEvent::LobbyUpdate { players } => EventV::LobbyUpdate {
                players: players@.map_values(|s: String| s@),
            },
            ServerEvent::NameConflict => EventV::NameConflict,
            ServerEvent::Countdown { seconds } => EventV::Countdown { seconds: *seconds },
            ServerEvent::StartRace { text } => EventV::StartRace { text: text@ },
            ServerEvent::Feedback { position, correct, key } => EventV::Feedback {
                position: *position,
                correct: *correct,
                key: key@,
            },
            ServerEvent::Progress { name, position } => EventV::Progress {
                name: name@,
                position: *position,
            },
            ServerEvent::Finish { name, time_ms } => EventV::Finish {
                name: name@,
                time_ms: *time_ms,
            },
            ServerEvent::RaceResult { ranking } => EventV::RaceResult {
                ranking: ranking@.map_values(|f: Finish| (f.name@, f.time_ms)),
            },
            ServerEvent::ErrorMsg { message } => EventV::ErrorMsg { message: message@ },
        }
    }
}

/// The views of a sequence of events.
pub open spec fn views_of(s: Seq<ServerEvent>) -> Seq<EventV> {
    s.map_values(|e: ServerEvent| e@)
}

} // verus!
