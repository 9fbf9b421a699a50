use typing_race::events::ServerEvent;
use typing_race::game::{Finish, GameState};
use typing_race::session::{
    countdown_schedule, fire_race_start, handle_disconnect, handle_join, handle_keystroke,
    invalid_frame_events, replay_events, should_forward, Session,
};

fn lobby(names: &[&str]) -> ServerEvent {
    ServerEvent::LobbyUpdate { players: names.iter().map(|n| n.to_string()).collect() }
}

fn join(game: &mut GameState, session: &mut Session, name: &str, reconnect: bool) -> Vec<ServerEvent> {
    let out = handle_join(game, session, &"r".to_string(), &name.to_string(), reconnect, 0);
    assert!(out.direct.is_empty());
    out.broadcast
}

#[test]
fn three_player_happy_path() {
    let mut game = GameState::new("ab".to_string());
    let mut sa = Session::new();
    let mut sb = Session::new();
    let mut sc = Session::new();

    // what A observes, in order
    let mut seen: Vec<ServerEvent> = Vec::new();

    let out = handle_join(&mut game, &mut sa, &"r".to_string(), &"A".to_string(), false, 0);
    assert!(!out.start_countdown);
    seen.extend(out.broadcast);
    let out = handle_join(&mut game, &mut sb, &"r".to_string(), &"B".to_string(), false, 0);
    assert!(!out.start_countdown);
    seen.extend(out.broadcast);
    let out = handle_join(&mut game, &mut sc, &"r".to_string(), &"C".to_string(), false, 0);
    assert!(out.start_countdown);
    seen.extend(out.broadcast);

    // the countdown task publishes its schedule, then starts the race
    seen.extend(countdown_schedule());
    let start = fire_race_start(&mut game, 1000);
    seen.push(start);

    // A types 'a' then 'b'
    let out = handle_keystroke(&mut game, &sa, &"a".to_string(), 1200);
    seen.extend(out.direct);
    seen.extend(out.broadcast);
    let out = handle_keystroke(&mut game, &sa, &"b".to_string(), 1600);
    seen.extend(out.direct);
    seen.extend(out.broadcast);

    assert_eq!(
        seen,
        vec![
            lobby(&["A"]),
            lobby(&["A", "B"]),
            lobby(&["A", "B", "C"]),
            ServerEvent::Countdown { seconds: 3 },
            ServerEvent::Countdown { seconds: 2 },
            ServerEvent::Countdown { seconds: 1 },
            ServerEvent::StartRace { text: "ab".to_string() },
            ServerEvent::Feedback { position: 0, correct: true, key: "a".to_string() },
            ServerEvent::Progress { name: "A".to_string(), position: 1 },
            ServerEvent::Feedback { position: 1, correct: true, key: "b".to_string() },
            ServerEvent::Progress { name: "A".to_string(), position: 2 },
            ServerEvent::Finish { name: "A".to_string(), time_ms: 600 },
        ]
    );

    // B and C finish too; the last finish carries the full ranking
    for key in ["a", "b"] {
        let out = handle_keystroke(&mut game, &sb, &key.to_string(), 2000);
        seen.extend(out.broadcast);
    }
    let out = handle_keystroke(&mut game, &sc, &"a".to_string(), 2400);
    seen.extend(out.broadcast);
    let out = handle_keystroke(&mut game, &sc, &"b".to_string(), 2500);
    let ranking = vec![
        Finish { name: "A".to_string(), time_ms: 600 },
        Finish { name: "B".to_string(), time_ms: 1000 },
        Finish { name: "C".to_string(), time_ms: 1500 },
    ];
    assert_eq!(
        out.broadcast,
        vec![
            ServerEvent::Progress { name: "C".to_string(), position: 2 },
            ServerEvent::Finish { name: "C".to_string(), time_ms: 1500 },
            ServerEvent::RaceResult { ranking },
        ]
    );
}

#[test]
fn wrong_keystroke_reports_and_moves_nothing() {
    let mut game = GameState::new("ab".to_string());
    let mut sa = Session::new();
    let mut sb = Session::new();
    let mut sc = Session::new();
    join(&mut game, &mut sa, "A", false);
    join(&mut game, &mut sb, "B", false);
    join(&mut game, &mut sc, "C", false);
    fire_race_start(&mut game, 1000);

    let out = handle_keystroke(&mut game, &sa, &"x".to_string(), 1200);
    assert_eq!(
        out.direct,
        vec![ServerEvent::Feedback { position: 0, correct: false, key: "x".to_string() }]
    );
    assert!(out.broadcast.is_empty());
    assert_eq!(game.players[0].position, 0);
}

#[test]
fn name_conflict_leaves_session_unbound() {
    let mut game = GameState::new("ab".to_string());
    let mut sa = Session::new();
    join(&mut game, &mut sa, "A", false);

    let mut s2 = Session::new();
    let out = handle_join(&mut game, &mut s2, &"r".to_string(), &"A".to_string(), false, 0);
    assert_eq!(out.direct, vec![ServerEvent::NameConflict]);
    assert!(out.broadcast.is_empty());
    assert!(!out.start_countdown);
    assert!(s2.room.is_none() && s2.name.is_none());
    assert_eq!(game.players.len(), 1);

    // a retry under a different name succeeds
    let out = handle_join(&mut game, &mut s2, &"r".to_string(), &"D".to_string(), false, 0);
    assert_eq!(out.broadcast, vec![lobby(&["A", "D"])]);
    assert_eq!(s2.name.as_deref(), Some("D"));
}

#[test]
fn reconnect_mid_race_replays_state() {
    let mut game = GameState::new("ab".to_string());
    let mut sa = Session::new();
    let mut sb = Session::new();
    let mut sc = Session::new();
    join(&mut game, &mut sa, "A", false);
    join(&mut game, &mut sb, "B", false);
    join(&mut game, &mut sc, "C", false);
    fire_race_start(&mut game, 1000);
    handle_keystroke(&mut game, &sa, &"a".to_string(), 1200);

    // A disconnects during the race: the roster keeps A and A's cursor
    let out = handle_disconnect(&mut game, &sa);
    assert!(out.is_empty());
    assert_eq!(game.players.len(), 3);
    assert_eq!(game.players[0].position, 1);

    // A reconnects after the countdown window (4500 >= 1000 + 3000)
    let mut sa2 = Session::new();
    let out = handle_join(&mut game, &mut sa2, &"r".to_string(), &"A".to_string(), true, 4500);
    assert!(out.direct.is_empty());
    assert_eq!(
        out.broadcast,
        vec![
            lobby(&["A", "B", "C"]),
            ServerEvent::StartRace { text: "ab".to_string() },
            ServerEvent::Feedback { position: 0, correct: true, key: "a".to_string() },
            ServerEvent::Progress { name: "A".to_string(), position: 1 },
            ServerEvent::Progress { name: "B".to_string(), position: 0 },
            ServerEvent::Progress { name: "C".to_string(), position: 0 },
        ]
    );
    // the replay mutated nothing
    assert_eq!(game.players.len(), 3);
    assert_eq!(game.players[0].position, 1);
    assert!(game.finishes.is_empty());
    assert_eq!(game.race_start, Some(1000));
}

#[test]
fn reconnect_within_window_includes_countdown() {
    let mut game = GameState::new("ab".to_string());
    let mut sa = Session::new();
    let mut sb = Session::new();
    let mut sc = Session::new();
    join(&mut game, &mut sa, "A", false);
    join(&mut game, &mut sb, "B", false);
    join(&mut game, &mut sc, "C", false);
    fire_race_start(&mut game, 1000);

    let events = replay_events(&game, &"A".to_string(), 2500);
    assert_eq!(
        events,
        vec![
            lobby(&["A", "B", "C"]),
            ServerEvent::Countdown { seconds: 2 },
            ServerEvent::StartRace { text: "ab".to_string() },
            ServerEvent::Progress { name: "A".to_string(), position: 0 },
            ServerEvent::Progress { name: "B".to_string(), position: 0 },
            ServerEvent::Progress { name: "C".to_string(), position: 0 },
        ]
    );
}

#[test]
fn lobby_disconnect_frees_the_name() {
    let mut game = GameState::new("ab".to_string());
    let mut sa = Session::new();
    let mut sb = Session::new();
    join(&mut game, &mut sa, "A", false);
    join(&mut game, &mut sb, "B", false);

    let out = handle_disconnect(&mut game, &sa);
    assert_eq!(out, vec![lobby(&["B"])]);

    // a later non-reconnect Join under the freed name is admitted
    let mut sa2 = Session::new();
    let out = handle_join(&mut game, &mut sa2, &"r".to_string(), &"A".to_string(), false, 0);
    assert!(out.direct.is_empty());
    assert_eq!(out.broadcast, vec![lobby(&["B", "A"])]);
}

#[test]
fn quorum_exactly_three_triggers_one_countdown() {
    let mut game = GameState::new("ab".to_string());
    let mut s1 = Session::new();
    let mut s2 = Session::new();
    let out = handle_join(&mut game, &mut s1, &"r".to_string(), &"A".to_string(), false, 0);
    assert!(!out.start_countdown);
    let out = handle_join(&mut game, &mut s2, &"r".to_string(), &"B".to_string(), false, 0);
    assert!(!out.start_countdown);

    let mut s3 = Session::new();
    let out = handle_join(&mut game, &mut s3, &"r".to_string(), &"C".to_string(), false, 0);
    assert!(out.start_countdown);

    // a fourth join during the countdown triggers none
    let mut s4 = Session::new();
    let out = handle_join(&mut game, &mut s4, &"r".to_string(), &"D".to_string(), false, 0);
    assert!(!out.start_countdown);

    // nor does one after the race has started
    fire_race_start(&mut game, 1000);
    let mut s5 = Session::new();
    let out = handle_join(&mut game, &mut s5, &"r".to_string(), &"E".to_string(), false, 1500);
    assert!(!out.start_countdown);
}

#[test]
fn countdown_schedule_is_three_two_one() {
    let v = countdown_schedule();
    assert_eq!(
        v,
        vec![
            ServerEvent::Countdown { seconds: 3 },
            ServerEvent::Countdown { seconds: 2 },
            ServerEvent::Countdown { seconds: 1 },
        ]
    );
}

#[test]
fn keystroke_after_completion_changes_nothing() {
    let mut game = GameState::new("a".to_string());
    let mut sa = Session::new();
    let mut sb = Session::new();
    let mut sc = Session::new();
    join(&mut game, &mut sa, "A", false);
    join(&mut game, &mut sb, "B", false);
    join(&mut game, &mut sc, "C", false);
    fire_race_start(&mut game, 1000);
    handle_keystroke(&mut game, &sa, &"a".to_string(), 1500);
    assert_eq!(game.finishes.len(), 1);

    let out = handle_keystroke(&mut game, &sa, &"a".to_string(), 1800);
    assert_eq!(
        out.direct,
        vec![ServerEvent::Feedback { position: 1, correct: false, key: "a".to_string() }]
    );
    assert!(out.broadcast.is_empty());
    assert_eq!(game.finishes.len(), 1);
    assert_eq!(game.players[0].position, 1);
}

#[test]
fn unbound_keystroke_is_ignored() {
    let mut game = GameState::new("ab".to_string());
    let unbound = Session::new();
    let out = handle_keystroke(&mut game, &unbound, &"a".to_string(), 0);
    assert!(out.direct.is_empty() && out.broadcast.is_empty());
    assert_eq!(game.players.len(), 0);
}

#[test]
fn forwarder_filters_by_bound_room() {
    let mut game = GameState::new("ab".to_string());
    let mut sa = Session::new();
    join(&mut game, &mut sa, "A", false);
    assert!(should_forward(&sa, &"r".to_string()));
    assert!(!should_forward(&sa, &"other".to_string()));
    let unbound = Session::new();
    assert!(!should_forward(&unbound, &"r".to_string()));
}

#[test]
fn join_during_race_is_admitted_at_position_zero() {
    let mut game = GameState::new("ab".to_string());
    let mut sa = Session::new();
    let mut sb = Session::new();
    let mut sc = Session::new();
    join(&mut game, &mut sa, "A", false);
    join(&mut game, &mut sb, "B", false);
    join(&mut game, &mut sc, "C", false);
    fire_race_start(&mut game, 1000);

    let mut sd = Session::new();
    let out = handle_join(&mut game, &mut sd, &"r".to_string(), &"D".to_string(), false, 1500);
    assert!(out.direct.is_empty());
    assert!(!out.start_countdown);
    assert_eq!(out.broadcast, vec![lobby(&["A", "B", "C", "D"])]);
    assert_eq!(game.players[3].name, "D");
    assert_eq!(game.players[3].position, 0);
}

#[test]
fn replay_of_finished_race_carries_ranking() {
    let mut game = GameState::new("a".to_string());
    let mut sa = Session::new();
    let mut sb = Session::new();
    let mut sc = Session::new();
    join(&mut game, &mut sa, "A", false);
    join(&mut game, &mut sb, "B", false);
    join(&mut game, &mut sc, "C", false);
    fire_race_start(&mut game, 1000);
    handle_keystroke(&mut game, &sa, &"a".to_string(), 1500);
    handle_keystroke(&mut game, &sb, &"a".to_string(), 1600);
    handle_keystroke(&mut game, &sc, &"a".to_string(), 1700);

    let events = replay_events(&game, &"A".to_string(), 9000);
    assert_eq!(
        events,
        vec![
            lobby(&["A", "B", "C"]),
            ServerEvent::StartRace { text: "a".to_string() },
            ServerEvent::Feedback { position: 0, correct: true, key: "a".to_string() },
            ServerEvent::Progress { name: "A".to_string(), position: 1 },
            ServerEvent::Progress { name: "B".to_string(), position: 1 },
            ServerEvent::Progress { name: "C".to_string(), position: 1 },
            ServerEvent::RaceResult {
                ranking: vec![
                    Finish { name: "A".to_string(), time_ms: 500 },
                    Finish { name: "B".to_string(), time_ms: 600 },
                    Finish { name: "C".to_string(), time_ms: 700 },
                ],
            },
        ]
    );
}

#[test]
fn unbound_disconnect_leaves_no_trace() {
    let mut game = GameState::new("ab".to_string());
    let mut sa = Session::new();
    join(&mut game, &mut sa, "A", false);
    let unbound = Session::new();
    let out = handle_disconnect(&mut game, &unbound);
    assert!(out.is_empty());
    assert_eq!(game.players.len(), 1);
}

#[test]
fn invalid_frame_is_answered_with_error() {
    assert_eq!(
        invalid_frame_events(),
        vec![ServerEvent::ErrorMsg { message: "Invalid message".to_string() }]
    );
}
