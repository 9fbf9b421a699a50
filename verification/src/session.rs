//! The per-connection state machine.
//!
//! Each connected client runs one inbound loop that decodes frames and calls
//! the step functions here under the room's exclusive section, and one
//! outbound loop that forwards bus events through [`should_forward`].  The
//! step functions are pure state transitions: they mutate the room and the
//! session binding and return the events to write directly to the caller's
//! socket and the events to publish on the bus.

use crate::codec::encodable;
use crate::events::{views_of, EventV, ServerEvent};
use crate::game::{AdmitOutcome, Finish, GameState, PlayerState};
use vstd::pervasive::unreached;
use vstd::prelude::*;
use vstd::utf8::{encode_scalar, encode_utf8};

verus! {

/// Per-connection state: the room and display name bound by a successful
/// Join; both `None` until then.
pub struct Session {
    pub room: Option<String>,
    pub name: Option<String>,
}

impl Session {
    /// The session is bound to this room under this display name.
    pub open spec fn bound_to(self, room: Seq<char>, name: Seq<char>) -> bool {
        &&& self.room matches Some(r) && r@ == room
        &&& self.name matches Some(n) && n@ == name
    }

    /// A fresh, unbound session.
    pub fn new() -> (s: Session)
        ensures
            s.room is None,
            s.name is None,
    {
        Session { room: None, name: None }
    }
}

/// The roster event for the room's current state.
pub open spec fn lobby_event(g: GameState) -> EventV {
    EventV::LobbyUpdate { players: g.players@.map_values(|p: PlayerState| p.name@) }
}

/// The finish list as ranking pairs, in completion order.
pub open spec fn ranking_view(g: GameState) -> Seq<(Seq<char>, u64)> {
    g.finishes@.map_values(|f: Finish| (f.name@, f.time_ms))
}

/// The final-ranking event for the room's current state.
pub open spec fn race_result_event(g: GameState) -> EventV {
    EventV::RaceResult { ranking: ranking_view(g) }
}

/// Replayed private feedback: one correct-keystroke echo per character the
/// player has already typed.
pub open spec fn replay_feedback(text: Seq<char>, pos: nat) -> Seq<EventV> {
    Seq::new(
        pos,
        |i: int| EventV::Feedback { position: i as u16, correct: true, key: seq![text[i]] },
    )
}

/// Replayed cursors: one progress event per player, in roster order.
pub open spec fn replay_progress(g: GameState) -> Seq<EventV> {
    Seq::new(
        g.players@.len(),
        |i: int| EventV::Progress {
            name: g.players@[i].name@,
            position: g.players@[i].position as u16,
        },
    )
}

/// The reconnect replay sequence: the events that bring a returning client
/// back in sync.  In order: the roster; if the race started and is neither
/// finished nor past the three-second countdown window, the remaining
/// countdown; if the race started, the start event; one feedback echo per
/// typed character; every player's cursor; and, once everyone finished, the
/// final ranking.
pub open spec fn replay_view(g: GameState, name: Seq<char>, now_ms: u64) -> Seq<EventV> {
    seq![lobby_event(g)] + (match g.race_start {
        Some(s) => if g.finishes@.len() < g.players@.len() && now_ms < s + 3000 {
            seq![EventV::Countdown { seconds: (3 - (now_ms - s) / 1000) as u8 }]
        } else {
            Seq::empty()
        },
        None => Seq::empty(),
    }) + (if g.race_start is Some {
        seq![EventV::StartRace { text: g.text@ }]
    } else {
        Seq::empty()
    }) + replay_feedback(g.text@, g.position_of(name)) + replay_progress(g) + (
    if g.finishes@.len() == g.players@.len() {
        seq![race_result_event(g)]
    } else {
        Seq::empty()
    })
}

proof fn lemma_views_push(s: Seq<ServerEvent>, e: ServerEvent)
    ensures
        views_of(s.push(e)) =~= views_of(s).push(e@),
{
}

/// A copy of the finish list, for a ranking event.
fn clone_ranking(game: &GameState) -> (v: Vec<Finish>)
    ensures
        v@.map_values(|f: Finish| (f.name@, f.time_ms)) =~= ranking_view(*game),
{
    let mut v: Vec<Finish> = Vec::new();
    let mut j: usize = 0;
    while j < game.finishes.len()
        invariant
            j <= game.finishes@.len(),
            v@.len() == j,
            forall|i: int|
                0 <= i < j ==> (#[trigger] v@[i]).name@ == game.finishes@[i].name@
                    && v@[i].time_ms == game.finishes@[i].time_ms,
        decreases game.finishes@.len() - j,
    {
        v.push(
            Finish { name: game.finishes[j].name.clone(), time_ms: game.finishes[j].time_ms },
        );
        j += 1;
    }
    v
}

/// Synthesize the reconnect replay (see [`replay_view`]).  The room is not
/// mutated.  `now_ms` must be a current reading of the clock `race_start`
/// came from.
pub fn replay_events(game: &GameState, name: &String, now_ms: u64) -> (v: Vec<ServerEvent>)
    requires
        game.wf(),
        game.has_player(name@),
        game.race_start matches Some(s) ==> now_ms >= s,
    ensures
        views_of(v@) == replay_view(*game, name@, now_ms),
{
    let ghost g = *game;
    let mut v: Vec<ServerEvent> = Vec::new();
    v.push(ServerEvent::LobbyUpdate { players: game.player_names() });
    let ghost stage1 = seq![lobby_event(g)];
    proof {
        assert(views_of(v@) =~~= stage1);
    }
    match game.race_start {
        None => {
        },
        Some(s) => {
            let elapsed = now_ms - s;
            if game.finishes.len() < game.players.len() && elapsed < 3000 {
                let secs = 3 - (elapsed / 1000);
                let e = ServerEvent::Countdown { seconds: secs as u8 };
                proof {
                    lemma_views_push(v@, e);
                }
                v.push(e);
            }
            let e = ServerEvent::StartRace { text: game.text.clone() };
            proof {
                lemma_views_push(v@, e);
            }
            v.push(e);
        },
    }
    let ghost stage2 = stage1 + (match g.race_start {
        Some(s) => if g.finishes@.len() < g.players@.len() && now_ms < s + 3000 {
            seq![EventV::Countdown { seconds: (3 - (now_ms - s) / 1000) as u8 }]
        } else {
            Seq::empty()
        },
        None => Seq::empty(),
    }) + (if g.race_start is Some {
        seq![EventV::StartRace { text: g.text@ }]
    } else {
        Seq::empty()
    });
    proof {
        assert(views_of(v@) =~~= stage2);
    }
    let pidx = match game.find_player(name) {
        Some(i) => i,
        None => unreached(),
    };
    proof {
        assert(g.player_index(name@) == pidx as int);
    }
    let pos = game.players[pidx].position;
    let mut k: usize = 0;
    while k < pos
        invariant
            game.wf(),
            pidx < game.players@.len(),
            pos == game.players@[pidx as int].position,
            pos <= game.text@.len(),
            k <= pos,
            views_of(v@) =~~= stage2 + replay_feedback(game.text@, k as nat),
        decreases pos - k,
    {
        let key = game.text.as_str().substring_char(k, k + 1).to_owned();
        let e = ServerEvent::Feedback { position: k as u16, correct: true, key };
        proof {
            lemma_views_push(v@, e);
            assert(e@->Feedback_key =~= seq![game.text@[k as int]]);
            assert(views_of(v@.push(e)) =~~= stage2 + replay_feedback(
                game.text@,
                (k + 1) as nat,
            ));
        }
        v.push(e);
        k += 1;
    }
    let ghost stage3 = stage2 + replay_feedback(g.text@, g.position_of(name@));
    proof {
        assert(views_of(v@) =~~= stage3);
    }
    let mut j: usize = 0;
    while j < game.players.len()
        invariant
            game.wf(),
            j <= game.players@.len(),
            views_of(v@) =~~= stage3 + replay_progress(g).take(j as int),
            g == *game,
        decreases game.players@.len() - j,
    {
        let e = ServerEvent::Progress {
            name: game.players[j].name.clone(),
            position: game.players[j].position as u16,
        };
        proof {
            lemma_views_push(v@, e);
            assert(replay_progress(g).take(j + 1 as int) =~= replay_progress(g).take(
                j as int,
            ).push(replay_progress(g)[j as int]));
            assert(views_of(v@.push(e)) =~~= stage3 + replay_progress(g).take(j + 1 as int));
        }
        v.push(e);
        j += 1;
    }
    let ghost stage4 = stage3 + replay_progress(g);
    proof {
        assert(replay_progress(g).take(game.players@.len() as int) =~= replay_progress(g));
        assert(views_of(v@) =~~= stage4);
    }
    if game.finishes.len() == game.players.len() {
        let e = ServerEvent::RaceResult { ranking: clone_ranking(game) };
        proof {
            lemma_views_push(v@, e);
            assert(e@ =~~= race_result_event(g));
        }
        v.push(e);
    }
    proof {
        assert(views_of(v@) =~~= replay_view(g, name@, now_ms));
    }
    v
}

/// What a Join produced: events for the requester's socket alone, events for
/// the bus, and whether this join must schedule the countdown task.
pub struct JoinOutput {
    pub direct: Vec<ServerEvent>,
    pub broadcast: Vec<ServerEvent>,
    pub start_countdown: bool,
}

/// Process a Join frame for the room named in it.
///
/// A present name with the reconnect flag set replays the room to the
/// returning client over the bus and leaves the room untouched (reconnect
/// idempotence); a present name without the flag is answered with a private
/// conflict; a free name joins at position 0 and the new roster is
/// broadcast.  The countdown is scheduled exactly when an admission brings
/// the roster to quorum while no race has started and no countdown was ever
/// scheduled for this room.
pub fn handle_join(
    game: &mut GameState,
    session: &mut Session,
    room: &String,
    name: &String,
    reconnect: bool,
    now_ms: u64,
) -> (out: JoinOutput)
    requires
        old(game).wf(),
        old(game).players@.len() < 0xFFFF,
        encode_utf8(name@).len() <= 0xFFFF,
        old(game).race_start matches Some(s) ==> now_ms >= s,
    ensures
        final(game).wf(),
        (!reconnect && old(game).has_player(name@)) ==> {
            &&& *final(game) == *old(game)
            &&& *final(session) == *old(session)
            &&& views_of(out.direct@) =~= seq![EventV::NameConflict]
            &&& out.broadcast@.len() == 0
            &&& !out.start_countdown
        },
        (reconnect && old(game).has_player(name@)) ==> {
            &&& *final(game) == *old(game)
            &&& final(session).bound_to(room@, name@)
            &&& out.direct@.len() == 0
            &&& views_of(out.broadcast@) == replay_view(*old(game), name@, now_ms)
            &&& !out.start_countdown
        },
        (!old(game).has_player(name@)) ==> {
            &&& final(game).players@.len() == old(game).players@.len() + 1
            &&& final(game).players@.take(old(game).players@.len() as int) =~= old(game).players@
            &&& final(game).players@.last().name@ == name@
            &&& final(game).players@.last().position == 0
            &&& final(game).finishes@ =~= old(game).finishes@
            &&& final(game).text == old(game).text
            &&& final(game).race_start == old(game).race_start
            &&& final(session).bound_to(room@, name@)
            &&& out.direct@.len() == 0
            &&& views_of(out.broadcast@) =~= seq![lobby_event(*final(game))]
            &&& out.start_countdown == (final(game).players@.len() >= crate::QUORUM
                && old(game).race_start is None && !old(game).race_pending)
            &&& final(game).race_pending == (old(game).race_pending || out.start_countdown)
        },
{
    let outcome = game.try_admit(name, reconnect);
    match outcome {
        AdmitOutcome::NameTaken => {
            let mut direct: Vec<ServerEvent> = Vec::new();
            direct.push(ServerEvent::NameConflict);
            JoinOutput { direct, broadcast: Vec::new(), start_countdown: false }
        },
        AdmitOutcome::Reconnecting => {
            session.room = Some(room.clone());
            session.name = Some(name.clone());
            let broadcast = replay_events(game, name, now_ms);
            JoinOutput { direct: Vec::new(), broadcast, start_countdown: false }
        },
        AdmitOutcome::Admitted => {
            session.room = Some(room.clone());
            session.name = Some(name.clone());
            let mut broadcast: Vec<ServerEvent> = Vec::new();
            broadcast.push(ServerEvent::LobbyUpdate { players: game.player_names() });
            let start_countdown = game.players.len() >= crate::QUORUM && game.race_start.is_none()
                && !game.race_pending;
            if start_countdown {
                game.race_pending = true;
            }
            proof {
                assert(views_of(broadcast@) =~~= seq![lobby_event(*game)]);
            }
            JoinOutput { direct: Vec::new(), broadcast, start_countdown }
        },
    }
}

/// What a keystroke produced: the private feedback for the sender and the
/// progress, finish and ranking events for the bus.
pub struct KeyOutput {
    pub direct: Vec<ServerEvent>,
    pub broadcast: Vec<ServerEvent>,
}

/// Process a Keystroke frame from a session.
///
/// An unbound session, or a bound name that has left the roster, is ignored.
/// Otherwise the sender always receives private feedback carrying the cursor
/// before the keystroke; on a correct keystroke the new cursor is broadcast,
/// and when it reaches the end of the text a finish entry is recorded and
/// broadcast, followed by the full ranking once every player has finished.
/// A keystroke of a player who already completed the text changes nothing
/// (keystroke idempotence at completion).
pub fn handle_keystroke(
    game: &mut GameState,
    session: &Session,
    key: &String,
    now_ms: u64,
) -> (out: KeyOutput)
    requires
        old(game).wf(),
        old(game).race_start matches Some(s) ==> now_ms >= s,
        old(game).race_start matches Some(s) ==> (old(game).finishes@.len() > 0 ==> now_ms >= s
            + old(game).finishes@.last().time_ms),
    ensures
        final(game).wf(),
        (session.name is None || (session.name matches Some(n) && !old(game).has_player(n@)))
            ==> {
            &&& *final(game) == *old(game)
            &&& out.direct@.len() == 0
            &&& out.broadcast@.len() == 0
        },
        session.name matches Some(n) ==> (old(game).has_player(n@) ==> ({
            let i = old(game).player_index(n@);
            let pos = old(game).players@[i].position as int;
            let tlen = old(game).text@.len() as int;
            let correct = old(game).race_start is Some && pos < tlen && key@.len() == 1
                && key@[0] == old(game).text@[pos];
            &&& views_of(out.direct@) =~= seq![
                EventV::Feedback { position: pos as u16, correct, key: key@ },
            ]
            &&& (!correct ==> *final(game) == *old(game) && out.broadcast@.len() == 0)
            &&& (correct ==> {
                &&& final(game).players@ =~= old(game).players@.update(
                    i,
                    PlayerState {
                        name: old(game).players@[i].name,
                        position: (pos + 1) as usize,
                    },
                )
                &&& final(game).text == old(game).text
                &&& final(game).race_start == old(game).race_start
                &&& final(game).race_pending == old(game).race_pending
            })
            &&& (correct && pos + 1 < tlen ==> {
                &&& final(game).finishes@ =~= old(game).finishes@
                &&& views_of(out.broadcast@) =~= seq![
                    EventV::Progress { name: n@, position: (pos + 1) as u16 },
                ]
            })
            &&& (correct && pos + 1 == tlen ==> (old(game).race_start matches Some(s) && ({
                let t = (now_ms - s) as u64;
                &&& final(game).finishes@.len() == old(game).finishes@.len() + 1
                &&& final(game).finishes@.take(old(game).finishes@.len() as int) =~= old(
                    game,
                ).finishes@
                &&& final(game).finishes@.last().name@ == n@
                &&& final(game).finishes@.last().time_ms == t
                &&& views_of(out.broadcast@) =~= seq![
                    EventV::Progress { name: n@, position: (pos + 1) as u16 },
                    EventV::Finish { name: n@, time_ms: t },
                ] + (if final(game).finishes@.len() == final(game).players@.len() {
                    seq![race_result_event(*final(game))]
                } else {
                    Seq::empty()
                })
            })))
        })),
        session.name matches Some(n) ==> ((old(game).has_player(n@) && old(game).players@[old(
            game,
        ).player_index(n@)].position == old(game).text@.len()) ==> *final(game) == *old(game)
            && out.broadcast@.len() == 0),
{
    let name = match &session.name {
        Some(n) => n,
        None => {
            return KeyOutput { direct: Vec::new(), broadcast: Vec::new() };
        },
    };
    let i = match game.find_player(name) {
        Some(i) => i,
        None => {
            return KeyOutput { direct: Vec::new(), broadcast: Vec::new() };
        },
    };
    proof {
        assert(old(game).player_index(name@) == i as int);
    }
    let pos = game.players[i].position;
    let correct = game.advance(i, key);
    let mut direct: Vec<ServerEvent> = Vec::new();
    direct.push(ServerEvent::Feedback { position: pos as u16, correct, key: key.clone() });
    let mut broadcast: Vec<ServerEvent> = Vec::new();
    if correct {
        let newpos = pos + 1;
        broadcast.push(ServerEvent::Progress { name: name.clone(), position: newpos as u16 });
        let tlen = game.text.as_str().unicode_len();
        if newpos == tlen {
            match game.mark_finish(i, now_ms) {
                Some(t) => {
                    broadcast.push(ServerEvent::Finish { name: name.clone(), time_ms: t });
                    if game.all_finished() {
                        broadcast.push(ServerEvent::RaceResult { ranking: clone_ranking(game) });
                    }
                },
                None => {
                    proof {
                        // impossible: the player stood short of the end, so
                        // by well-formedness their name is not in the finish
                        // list yet
                        if old(game).has_finish(name@) {
                            let k = choose|k: int|
                                0 <= k < old(game).finishes@.len() && old(
                                    game,
                                ).finishes@[k].name@ == name@;
                            assert(old(game).players@[i as int].position == old(
                                game,
                            ).text@.len());
                        }
                        assert(false);
                    }
                },
            }
        }
    }
    KeyOutput { direct, broadcast }
}

/// Process a disconnect.  Before the race starts the bound player leaves the
/// roster and the new roster is broadcast; once the race has started the
/// player's state is retained so a reconnect can resume it, and nothing is
/// broadcast.  An unbound session leaves no trace.
pub fn handle_disconnect(game: &mut GameState, session: &Session) -> (out: Vec<ServerEvent>)
    requires
        old(game).wf(),
    ensures
        final(game).wf(),
        session.name is None ==> *final(game) == *old(game) && out@.len() == 0,
        session.name matches Some(n) ==> (old(game).race_start is None ==> {
            &&& !final(game).has_player(n@)
            &&& (old(game).has_player(n@) ==> final(game).players@ =~= old(game).players@.remove(
                old(game).player_index(n@),
            ))
            &&& (!old(game).has_player(n@) ==> final(game).players@ =~= old(game).players@)
            &&& final(game).finishes@ =~= old(game).finishes@
            &&& final(game).text == old(game).text
            &&& final(game).race_start == old(game).race_start
            &&& final(game).race_pending == old(game).race_pending
            &&& views_of(out@) =~= seq![lobby_event(*final(game))]
        }),
        session.name is Some && old(game).race_start is Some ==> *final(game) == *old(game)
            && out@.len() == 0,
{
    let name = match &session.name {
        Some(n) => n,
        None => {
            return Vec::new();
        },
    };
    if game.race_start.is_some() {
        return Vec::new();
    }
    let _ = game.remove_player(name);
    let mut out: Vec<ServerEvent> = Vec::new();
    out.push(ServerEvent::LobbyUpdate { players: game.player_names() });
    proof {
        assert(views_of(out@) =~~= seq![lobby_event(*game)]);
    }
    out
}

/// The outbound filter: forward a bus event iff the session is bound to the
/// event's room.  Private events (keystroke feedback, name conflicts) never
/// reach the bus; replayed feedback does, and is deliberately forwarded to
/// the whole room, whose members tolerate the redelivery.
pub fn should_forward(session: &Session, event_room: &String) -> (b: bool)
    ensures
        b == (session.room matches Some(r) && r@ == event_room@),
{
    match &session.room {
        Some(r) => r.eq(event_room),
        None => false,
    }
}

/// The countdown values, in broadcast order.
pub open spec fn countdown_seconds() -> Seq<u8> {
    seq![3u8, 2u8, 1u8]
}

/// The events the countdown task publishes, one second apart, before it
/// starts the race.
pub fn countdown_schedule() -> (v: Vec<ServerEvent>)
    ensures
        views_of(v@) =~= seq![
            EventV::Countdown { seconds: 3 },
            EventV::Countdown { seconds: 2 },
            EventV::Countdown { seconds: 1 },
        ],
        views_of(v@) =~= countdown_seconds().map_values(|s: u8| EventV::Countdown { seconds: s }),
{
    let mut v: Vec<ServerEvent> = Vec::new();
    v.push(ServerEvent::Countdown { seconds: 3 });
    v.push(ServerEvent::Countdown { seconds: 2 });
    v.push(ServerEvent::Countdown { seconds: 1 });
    v
}

/// Law: observers see the countdown strictly decreasing; the start event is
/// published only after its last value.
pub proof fn lemma_countdown_monotonic()
    ensures
        forall|i: int, j: int|
            0 <= i < j < countdown_seconds().len() ==> countdown_seconds()[i]
                > countdown_seconds()[j],
{
}

/// The countdown task's final step, once its last sleep ran out: record the
/// race start time and build the start event carrying the target text.
pub fn fire_race_start(game: &mut GameState, now_ms: u64) -> (e: ServerEvent)
    requires
        old(game).wf(),
        old(game).race_start is None,
        old(game).race_pending,
    ensures
        final(game).wf(),
        final(game).race_start == Some(now_ms),
        final(game).players@ =~= old(game).players@,
        final(game).finishes@ =~= old(game).finishes@,
        final(game).text == old(game).text,
        final(game).race_pending == old(game).race_pending,
        e@ == (EventV::StartRace { text: old(game).text@ }),
{
    let e = ServerEvent::StartRace { text: game.text.clone() };
    game.start_race(now_ms);
    e
}

/// The reply to a frame that could not be understood.
pub fn invalid_frame_events() -> (v: Vec<ServerEvent>)
    ensures
        views_of(v@) =~= seq![EventV::ErrorMsg { message: "Invalid message"@ }],
{
    let mut v: Vec<ServerEvent> = Vec::new();
    v.push(ServerEvent::ErrorMsg { message: "Invalid message".to_owned() });
    v
}

/// Every element of the sequence fits the wire.
pub open spec fn all_encodable(s: Seq<EventV>) -> bool {
    forall|i: int| 0 <= i < s.len() ==> encodable(#[trigger] s[i])
}

proof fn lemma_all_encodable_concat(a: Seq<EventV>, b: Seq<EventV>)
    requires
        all_encodable(a),
        all_encodable(b),
    ensures
        all_encodable(a + b),
{
    assert forall|i: int| 0 <= i < (a + b).len() implies encodable(#[trigger] (a + b)[i]) by {
        if i < a.len() {
            assert((a + b)[i] == a[i]);
        } else {
            assert((a + b)[i] == b[i - a.len()]);
        }
    }
}

proof fn lemma_single_char_encodable(c: char)
    ensures
        encode_utf8(seq![c]).len() <= 4,
{
    assert(seq![c].drop_first() =~= Seq::<char>::empty());
    assert(encode_utf8(seq![c]) == encode_scalar(c as u32) + encode_utf8(Seq::<char>::empty()));
}

/// The roster event of a well-formed room fits the wire.
pub proof fn lemma_lobby_event_encodable(g: GameState)
    requires
        g.wf(),
    ensures
        encodable(lobby_event(g)),
{
    let names = g.players@.map_values(|p: PlayerState| p.name@);
    assert forall|i: int| 0 <= i < names.len() implies encode_utf8(#[trigger] names[i]).len()
        <= 0xFFFF by {
        assert(names[i] == g.players@[i].name@);
    }
}

/// The final-ranking event of a well-formed room fits the wire: there are
/// never more finishers than players, and every finisher is a player.
pub proof fn lemma_race_result_encodable(g: GameState)
    requires
        g.wf(),
    ensures
        encodable(race_result_event(g)),
{
    crate::game::lemma_finishes_at_most_players(g);
    let entries = ranking_view(g);
    assert forall|i: int| 0 <= i < entries.len() implies encode_utf8(
        (#[trigger] entries[i]).0,
    ).len() <= 0xFFFF by {
        assert(entries[i].0 == g.finishes@[i].name@);
        assert(g.has_player(g.finishes@[i].name@));
        let w = g.player_index(g.finishes@[i].name@);
        assert(0 <= w < g.players@.len() && g.players@[w].name@ == g.finishes@[i].name@);
        assert(encode_utf8(g.players@[w].name@).len() <= 0xFFFF);
    }
}

/// Law: every event of the reconnect replay of a well-formed room fits the
/// wire, so the surrounding application can always frame the replay.
pub proof fn lemma_replay_encodable(g: GameState, name: Seq<char>, now_ms: u64)
    requires
        g.wf(),
        g.has_player(name),
    ensures
        all_encodable(replay_view(g, name, now_ms)),
{
    let part_lobby = seq![lobby_event(g)];
    let part_countdown = (match g.race_start {
        Some(s) => if g.finishes@.len() < g.players@.len() && now_ms < s + 3000 {
            seq![EventV::Countdown { seconds: (3 - (now_ms - s) / 1000) as u8 }]
        } else {
            Seq::empty()
        },
        None => Seq::empty(),
    });
    let part_start = (if g.race_start is Some {
        seq![EventV::StartRace { text: g.text@ }]
    } else {
        Seq::<EventV>::empty()
    });
    let part_fb = replay_feedback(g.text@, g.position_of(name));
    let part_prog = replay_progress(g);
    let part_result = (if g.finishes@.len() == g.players@.len() {
        seq![race_result_event(g)]
    } else {
        Seq::<EventV>::empty()
    });
    lemma_lobby_event_encodable(g);
    assert(all_encodable(part_lobby));
    assert(all_encodable(part_countdown));
    assert(all_encodable(part_start));
    let pidx = g.player_index(name);
    assert(0 <= pidx < g.players@.len() && g.players@[pidx].name@ == name);
    assert(g.position_of(name) <= g.text@.len());
    assert forall|i: int| 0 <= i < part_fb.len() implies encodable(#[trigger] part_fb[i]) by {
        lemma_single_char_encodable(g.text@[i]);
    }
    assert forall|i: int| 0 <= i < part_prog.len() implies encodable(#[trigger] part_prog[i]) by {
        assert(encode_utf8(g.players@[i].name@).len() <= 0xFFFF);
    }
    lemma_race_result_encodable(g);
    assert(all_encodable(part_result));
    lemma_all_encodable_concat(part_lobby, part_countdown);
    lemma_all_encodable_concat(part_lobby + part_countdown, part_start);
    lemma_all_encodable_concat(part_lobby + part_countdown + part_start, part_fb);
    lemma_all_encodable_concat(part_lobby + part_countdown + part_start + part_fb, part_prog);
    lemma_all_encodable_concat(
        part_lobby + part_countdown + part_start + part_fb + part_prog,
        part_result,
    );
    assert(replay_view(g, name, now_ms) == part_lobby + part_countdown + part_start + part_fb
        + part_prog + part_result);
}

} // verus!
