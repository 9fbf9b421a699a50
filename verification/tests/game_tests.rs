use typing_race::game::{AdmitOutcome, GameState};
use typing_race::registry::Registry;

fn room(text: &str) -> GameState {
    GameState::new(text.to_string())
}

#[test]
fn new_room_is_empty() {
    let g = room("ab");
    assert_eq!(g.players.len(), 0);
    assert_eq!(g.finishes.len(), 0);
    assert!(g.race_start.is_none());
    assert!(!g.race_pending);
}

#[test]
fn admit_inserts_at_zero() {
    let mut g = room("ab");
    assert_eq!(g.try_admit(&"A".to_string(), false), AdmitOutcome::Admitted);
    assert_eq!(g.players.len(), 1);
    assert_eq!(g.players[0].name, "A");
    assert_eq!(g.players[0].position, 0);
}

#[test]
fn admit_same_name_conflicts_without_flag() {
    let mut g = room("ab");
    assert_eq!(g.try_admit(&"A".to_string(), false), AdmitOutcome::Admitted);
    assert_eq!(g.try_admit(&"A".to_string(), false), AdmitOutcome::NameTaken);
    assert_eq!(g.players.len(), 1);
}

#[test]
fn admit_same_name_reconnects_with_flag() {
    let mut g = room("ab");
    assert_eq!(g.try_admit(&"A".to_string(), false), AdmitOutcome::Admitted);
    assert_eq!(g.try_admit(&"A".to_string(), true), AdmitOutcome::Reconnecting);
    assert_eq!(g.players.len(), 1);
}

#[test]
fn reconnect_flag_on_free_name_admits() {
    let mut g = room("ab");
    assert_eq!(g.try_admit(&"A".to_string(), true), AdmitOutcome::Admitted);
}

#[test]
fn advance_ignores_keystrokes_before_start() {
    let mut g = room("ab");
    g.try_admit(&"A".to_string(), false);
    assert!(!g.advance(0, &"a".to_string()));
    assert_eq!(g.players[0].position, 0);
}

fn started_room(text: &str, names: &[&str], start: u64) -> GameState {
    let mut g = room(text);
    for n in names {
        assert_eq!(g.try_admit(&n.to_string(), false), AdmitOutcome::Admitted);
    }
    g.race_pending = true;
    g.start_race(start);
    g
}

#[test]
fn advance_moves_on_expected_character() {
    let mut g = started_room("ab", &["A"], 1000);
    assert!(g.advance(0, &"a".to_string()));
    assert_eq!(g.players[0].position, 1);
    assert!(g.advance(0, &"b".to_string()));
    assert_eq!(g.players[0].position, 2);
}

#[test]
fn advance_rejects_wrong_character() {
    let mut g = started_room("ab", &["A"], 1000);
    assert!(!g.advance(0, &"x".to_string()));
    assert_eq!(g.players[0].position, 0);
}

#[test]
fn advance_rejects_multi_character_key() {
    let mut g = started_room("ab", &["A"], 1000);
    assert!(!g.advance(0, &"ab".to_string()));
    assert_eq!(g.players[0].position, 0);
}

#[test]
fn advance_is_no_op_at_completion() {
    let mut g = started_room("a", &["A"], 1000);
    assert!(g.advance(0, &"a".to_string()));
    assert_eq!(g.players[0].position, 1);
    assert!(!g.advance(0, &"a".to_string()));
    assert_eq!(g.players[0].position, 1);
}

#[test]
fn advance_counts_code_points() {
    let mut g = started_room("\u{e9}b", &["A"], 1000);
    assert!(g.advance(0, &"\u{e9}".to_string()));
    assert_eq!(g.players[0].position, 1);
    assert!(g.advance(0, &"b".to_string()));
    assert_eq!(g.players[0].position, 2);
}

#[test]
fn mark_finish_records_elapsed_once() {
    let mut g = started_room("a", &["A", "B"], 1000);
    assert!(g.advance(0, &"a".to_string()));
    assert_eq!(g.mark_finish(0, 1600), Some(600));
    assert_eq!(g.finishes.len(), 1);
    assert_eq!(g.finishes[0].name, "A");
    assert_eq!(g.finishes[0].time_ms, 600);
    // a second call appends nothing
    assert_eq!(g.mark_finish(0, 1700), None);
    assert_eq!(g.finishes.len(), 1);
}

#[test]
fn mark_finish_requires_completion() {
    let mut g = started_room("ab", &["A"], 1000);
    assert!(g.advance(0, &"a".to_string()));
    assert_eq!(g.mark_finish(0, 1600), None);
    assert_eq!(g.finishes.len(), 0);
}

#[test]
fn all_finished_compares_counts() {
    let mut g = started_room("a", &["A", "B"], 1000);
    assert!(!g.all_finished());
    g.advance(0, &"a".to_string());
    g.mark_finish(0, 1500);
    assert!(!g.all_finished());
    g.advance(1, &"a".to_string());
    g.mark_finish(1, 1600);
    assert!(g.all_finished());
}

#[test]
fn finish_times_follow_completion_order() {
    let mut g = started_room("a", &["A", "B", "C"], 1000);
    for (i, now) in [(0usize, 1500u64), (1, 1600), (2, 1700)] {
        assert!(g.advance(i, &"a".to_string()));
        g.mark_finish(i, now);
    }
    let times: Vec<u64> = g.finishes.iter().map(|f| f.time_ms).collect();
    assert_eq!(times, vec![500, 600, 700]);
    let names: Vec<&str> = g.finishes.iter().map(|f| f.name.as_str()).collect();
    assert_eq!(names, vec!["A", "B", "C"]);
}

#[test]
fn remove_player_only_before_start() {
    let mut g = room("ab");
    g.try_admit(&"A".to_string(), false);
    g.try_admit(&"B".to_string(), false);
    assert!(g.remove_player(&"A".to_string()));
    assert_eq!(g.players.len(), 1);
    assert_eq!(g.players[0].name, "B");
    assert!(!g.remove_player(&"A".to_string()));
}

#[test]
fn registry_creates_lazily_and_idempotently() {
    let mut reg = Registry::new();
    let text = "ab".to_string();
    let i = reg.get_or_create(&"r".to_string(), &text);
    assert_eq!(i, 0);
    assert_eq!(reg.rooms[0].name, "r");
    assert_eq!(reg.rooms[0].game.text, "ab");
    let j = reg.get_or_create(&"r".to_string(), &"other".to_string());
    assert_eq!(j, 0);
    assert_eq!(reg.rooms.len(), 1);
    // the existing room keeps its text: first writer wins
    assert_eq!(reg.rooms[0].game.text, "ab");
    let k = reg.get_or_create(&"s".to_string(), &text);
    assert_eq!(k, 1);
    assert_eq!(reg.rooms.len(), 2);
}
