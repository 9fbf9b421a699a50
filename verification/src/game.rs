//! Authoritative state of one room: roster, per-player cursor positions,
//! finish ranking, target text and race start time.
//!
//! All string lengths on the wire are 16-bit, so well-formed rooms keep the
//! target text, every player name and the roster size within those bounds.

use vstd::prelude::*;
use vstd::utf8::encode_utf8;

verus! {

/// One player of a room: display name and cursor position, the count of
/// characters of the target text typed correctly so far (in Unicode scalar
/// values, not bytes).
#[derive(Debug, Clone, PartialEq, Eq)]
pub struct PlayerState {
    pub name: String,
    pub position: usize,
}

/// One finish-list entry: who completed the text and after how many
/// milliseconds of race time.
#[derive(Debug, Clone, PartialEq, Eq)]
pub struct Finish {
    pub name: String,
    pub time_ms: u64,
}

/// Outcome of an admission attempt (a Join frame).
#[derive(Clone, Copy, PartialEq, Eq, Structural, Debug)]
pub enum AdmitOutcome {
    /// The name was free: the player was inserted at position 0.
    Admitted,
    /// The client asked to reconnect and the name is present: nothing changed.
    Reconnecting,
    /// The name is present and the client did not ask to reconnect.
    NameTaken,
}

/// State of one room.
///
/// `race_start` is a reading of the server's monotonic millisecond clock,
/// `None` until the countdown resolves.  `race_pending` records that a
/// countdown has been scheduled, so that later joins never schedule a second
/// one.
pub struct GameState {
    pub players: Vec<PlayerState>,
    pub finishes: Vec<Finish>,
    pub text: String,
    pub race_start: Option<u64>,
    pub race_pending: bool,
}

impl GameState {
    /// Whether some player carries this display name.
    pub open spec fn has_player(self, name: Seq<char>) -> bool {
        exists|i: int| 0 <= i < self.players@.len() && self.players@[i].name@ == name
    }

    /// Index of the player carrying this display name (meaningful when
    /// `has_player(name)` holds and names are distinct).
    pub open spec fn player_index(self, name: Seq<char>) -> int {
        choose|i: int| 0 <= i < self.players@.len() && self.players@[i].name@ == name
    }

    /// Cursor position of the named player.
    pub open spec fn position_of(self, name: Seq<char>) -> nat {
        self.players@[self.player_index(name)].position as nat
    }

    /// Whether the finish list holds an entry for this display name.
    pub open spec fn has_finish(self, name: Seq<char>) -> bool {
        exists|i: int| 0 <= i < self.finishes@.len() && self.finishes@[i].name@ == name
    }

    /// No two players share a display name.
    pub open spec fn names_distinct(self) -> bool {
        forall|i: int, j: int|
            0 <= i < j < self.players@.len() ==> self.players@[i].name@ != self.players@[j].name@
    }

    /// Well-formedness: the invariants that every reachable room satisfies.
    ///
    /// Besides the data-model invariants (distinct names, bounded cursors, a
    /// duplicate-free finish list of completed players ordered by time, an
    /// untouched room before the race starts), it keeps every wire-visible
    /// quantity within the 16-bit bounds of the protocol.
    pub open spec fn wf(self) -> bool {
        &&& self.names_distinct()
        &&& self.players@.len() <= 0xFFFF
        &&& self.text@.len() <= 0xFFFF
        &&& encode_utf8(self.text@).len() <= 0xFFFF
        &&& (forall|i: int|
            0 <= i < self.players@.len()
                ==> (#[trigger] self.players@[i]).position <= self.text@.len())
        &&& (forall|i: int|
            0 <= i < self.players@.len()
                ==> encode_utf8((#[trigger] self.players@[i]).name@).len() <= 0xFFFF)
        &&& (forall|i: int, j: int|
            0 <= i < j < self.finishes@.len()
                ==> self.finishes@[i].name@ != self.finishes@[j].name@)
        &&& (forall|i: int|
            0 <= i < self.finishes@.len()
                ==> self.has_player((#[trigger] self.finishes@[i]).name@))
        &&& (forall|i: int, j: int|
            0 <= i < self.finishes@.len() && 0 <= j < self.players@.len()
                && (#[trigger] self.finishes@[i]).name@ == (#[trigger] self.players@[j]).name@
                ==> self.players@[j].position == self.text@.len())
        &&& (forall|i: int, j: int|
            0 <= i <= j < self.finishes@.len()
                ==> self.finishes@[i].time_ms <= self.finishes@[j].time_ms)
        &&& (self.race_start is None ==> self.finishes@.len() == 0)
        &&& (self.race_start is None
            ==> (forall|i: int|
                0 <= i < self.players@.len() ==> (#[trigger] self.players@[i]).position == 0))
        &&& (self.race_start is Some ==> self.race_pending)
    }

    /// A fresh room on the given target text: empty roster, no finishes, race
    /// not started and no countdown scheduled.
    pub fn new(text: String) -> (g: GameState)
        requires
            encode_utf8(text@).len() <= 0xFFFF,
        ensures
            g.wf(),
            g.text@ == text@,
            g.players@.len() == 0,
            g.finishes@.len() == 0,
            g.race_start is None,
            !g.race_pending,
    {
        proof {
            lemma_encode_utf8_at_least_one_byte_per_char(text@);
        }
        GameState {
            players: Vec::new(),
            finishes: Vec::new(),
            text,
            race_start: None,
            race_pending: false,
        }
    }

    /// Index of the player with this display name, if present.
    pub fn find_player(&self, name: &String) -> (r: Option<usize>)
        ensures
            r matches Some(i) ==> i < self.players@.len() && self.players@[i as int].name@ == name@,
            r is None ==> !self.has_player(name@),
    {
        let mut j: usize = 0;
        while j < self.players.len()
            invariant
                j <= self.players@.len(),
                forall|k: int| 0 <= k < j ==> self.players@[k].name@ != name@,
            decreases self.players@.len() - j,
        {
            if self.players[j].name.eq(name) {
                return Some(j);
            }
            j += 1;
        }
        None
    }

    /// Whether the finish list already holds this display name.
    pub fn contains_finish(&self, name: &String) -> (r: bool)
        ensures
            r == self.has_finish(name@),
    {
        let mut j: usize = 0;
        while j < self.finishes.len()
            invariant
                j <= self.finishes@.len(),
                forall|k: int| 0 <= k < j ==> self.finishes@[k].name@ != name@,
            decreases self.finishes@.len() - j,
        {
            if self.finishes[j].name.eq(name) {
                return true;
            }
            j += 1;
        }
        false
    }

    /// Resolve an admission attempt.  A present name counts as a reconnection
    /// exactly when the client asked for one; otherwise it is a conflict.  A
    /// free name is inserted at position 0 (also while a race is running:
    /// late joiners race from the start of the text).
    pub fn try_admit(&mut self, name: &String, reconnect: bool) -> (r: AdmitOutcome)
        requires
            old(self).wf(),
            old(self).players@.len() < 0xFFFF,
            encode_utf8(name@).len() <= 0xFFFF,
        ensures
            final(self).wf(),
            r is Reconnecting <==> (reconnect && old(self).has_player(name@)),
            r is NameTaken <==> (!reconnect && old(self).has_player(name@)),
            r is Admitted <==> !old(self).has_player(name@),
            r is Admitted ==> {
                &&& final(self).players@.len() == old(self).players@.len() + 1
                &&& final(self).players@.take(old(self).players@.len() as int)
                    =~= old(self).players@
                &&& final(self).players@.last().name@ == name@
                &&& final(self).players@.last().position == 0
                &&& final(self).finishes@ =~= old(self).finishes@
                &&& final(self).text == old(self).text
                &&& final(self).race_start == old(self).race_start
                &&& final(self).race_pending == old(self).race_pending
            },
            !(r is Admitted) ==> *final(self) == *old(self),
    {
        if self.find_player(name).is_some() {
            if reconnect {
                AdmitOutcome::Reconnecting
            } else {
                AdmitOutcome::NameTaken
            }
        } else {
            self.players.push(PlayerState { name: name.clone(), position: 0 });
            proof {
                let post = *self;
                let pre = *old(self);
                assert(post.players@.take(pre.players@.len() as int) =~= pre.players@);
                assert forall|k: int| 0 <= k < post.finishes@.len() implies post.has_player(
                    (#[trigger] post.finishes@[k]).name@,
                ) by {
                    let w = choose|w: int|
                        0 <= w < pre.players@.len() && pre.players@[w].name@
                            == pre.finishes@[k].name@;
                    assert(post.players@[w].name@ == post.finishes@[k].name@);
                }
            }
            AdmitOutcome::Admitted
        }
    }

    /// Apply one keystroke of the player at index `i`.  The keystroke counts
    /// exactly when the race has started, the player has not yet completed
    /// the text, and the typed string is exactly the next expected character;
    /// only then does the cursor move, by one.
    pub fn advance(&mut self, i: usize, key: &String) -> (correct: bool)
        requires
            old(self).wf(),
            i < old(self).players@.len(),
        ensures
            final(self).wf(),
            correct <==> {
                &&& old(self).race_start is Some
                &&& old(self).players@[i as int].position < old(self).text@.len()
                &&& key@.len() == 1
                &&& key@[0] == old(self).text@[old(self).players@[i as int].position as int]
            },
            correct ==> {
                &&& final(self).players@ =~= old(self).players@.update(
                    i as int,
                    PlayerState {
                        name: old(self).players@[i as int].name,
                        position: (old(self).players@[i as int].position + 1) as usize,
                    },
                )
                &&& final(self).finishes@ =~= old(self).finishes@
                &&& final(self).text == old(self).text
                &&& final(self).race_start == old(self).race_start
                &&& final(self).race_pending == old(self).race_pending
            },
            !correct ==> *final(self) == *old(self),
    {
        let pos = self.players[i].position;
        let tlen = self.text.as_str().unicode_len();
        let correct = self.race_start.is_some() && pos < tlen && key.as_str().unicode_len() == 1
            && key.as_str().get_char(0) == self.text.as_str().get_char(pos);
        if correct {
            self.players[i].position = pos + 1;
            proof {
                let post = *self;
                let pre = *old(self);
                assert forall|k: int| 0 <= k < post.finishes@.len() implies post.has_player(
                    (#[trigger] post.finishes@[k]).name@,
                ) by {
                    let w = choose|w: int|
                        0 <= w < pre.players@.len() && pre.players@[w].name@
                            == pre.finishes@[k].name@;
                    assert(post.players@[w].name@ == post.finishes@[k].name@);
                }
                // the moving player was short of the end, so by
                // well-formedness no finish entry carries their name
                assert forall|k: int, j: int|
                    0 <= k < post.finishes@.len() && 0 <= j < post.players@.len()
                        && (#[trigger] post.finishes@[k]).name@ == (#[trigger] post.players@[j]).name@
                    implies post.players@[j].position == post.text@.len() by {
                    if j == i as int {
                        assert(pre.finishes@[k].name@ == pre.players@[i as int].name@);
                        assert(pre.players@[i as int].position == pre.text@.len());
                    }
                }
            }
        }
        correct
    }

    /// Record a completion: append `(name of player i, now - race_start)` to
    /// the finish list iff the race has started, player `i` stands at the end
    /// of the text, and the name is not in the list yet.  `now_ms` must come
    /// from the same monotonic clock as `race_start`, read no earlier than
    /// any previous reading handed to this room.
    pub fn mark_finish(&mut self, i: usize, now_ms: u64) -> (r: Option<u64>)
        requires
            old(self).wf(),
            i < old(self).players@.len(),
            old(self).race_start matches Some(s) ==> now_ms >= s,
            old(self).race_start matches Some(s) ==> (old(self).finishes@.len() > 0
                ==> now_ms >= s + old(self).finishes@.last().time_ms),
        ensures
            final(self).wf(),
            r is Some <==> {
                &&& old(self).race_start is Some
                &&& old(self).players@[i as int].position == old(self).text@.len()
                &&& !old(self).has_finish(old(self).players@[i as int].name@)
            },
            r matches Some(t) ==> {
                &&& old(self).race_start matches Some(s) && t == now_ms - s
                &&& final(self).finishes@.len() == old(self).finishes@.len() + 1
                &&& final(self).finishes@.take(old(self).finishes@.len() as int)
                    =~= old(self).finishes@
                &&& final(self).finishes@.last().name@ == old(self).players@[i as int].name@
                &&& final(self).finishes@.last().time_ms == t
                &&& final(self).players@ =~= old(self).players@
                &&& final(self).text == old(self).text
                &&& final(self).race_start == old(self).race_start
                &&& final(self).race_pending == old(self).race_pending
            },
            r is None ==> *final(self) == *old(self),
    {
        let started_at = match self.race_start {
            Some(s) => s,
            None => {
                return None;
            },
        };
        let tlen = self.text.as_str().unicode_len();
        if self.players[i].position != tlen {
            return None;
        }
        let name = self.players[i].name.clone();
        if self.contains_finish(&name) {
            return None;
        }
        let elapsed = now_ms - started_at;
        self.finishes.push(Finish { name, time_ms: elapsed });
        proof {
            let post = *self;
            let pre = *old(self);
            assert(post.finishes@.take(pre.finishes@.len() as int) =~= pre.finishes@);
            assert forall|k: int| 0 <= k < post.finishes@.len() implies post.has_player(
                (#[trigger] post.finishes@[k]).name@,
            ) by {
                if k < pre.finishes@.len() {
                    let w = choose|w: int|
                        0 <= w < pre.players@.len() && pre.players@[w].name@
                            == pre.finishes@[k].name@;
                    assert(post.players@[w].name@ == post.finishes@[k].name@);
                } else {
                    assert(post.players@[i as int].name@ == post.finishes@[k].name@);
                }
            }
        }
        Some(elapsed)
    }

    /// Whether every player of the room has completed the text.
    pub fn all_finished(&self) -> (b: bool)
        ensures
            b == (self.finishes@.len() == self.players@.len()),
    {
        self.finishes.len() == self.players.len()
    }

    /// Remove a player who disconnected before the race started.  Callers
    /// keep racing players (race started) in the roster instead.
    pub fn remove_player(&mut self, name: &String) -> (removed: bool)
        requires
            old(self).wf(),
            old(self).race_start is None,
        ensures
            final(self).wf(),
            removed == old(self).has_player(name@),
            !final(self).has_player(name@),
            removed ==> {
                &&& 0 <= old(self).player_index(name@) < old(self).players@.len()
                &&& final(self).players@ =~= old(self).players@.remove(
                    old(self).player_index(name@),
                )
            },
            !removed ==> *final(self) == *old(self),
            final(self).finishes@ =~= old(self).finishes@,
            final(self).text == old(self).text,
            final(self).race_start == old(self).race_start,
            final(self).race_pending == old(self).race_pending,
    {
        match self.find_player(name) {
            None => false,
            Some(i) => {
                self.players.remove(i);
                proof {
                    let post = *self;
                    let pre = *old(self);
                    assert(pre.player_index(name@) == i as int);
                    assert forall|w: int|
                        0 <= w < post.players@.len()
                        implies (#[trigger] post.players@[w]).name@ != name@ by {
                        if w < i as int {
                            assert(pre.players@[w].name@ != pre.players@[i as int].name@);
                        } else {
                            assert(post.players@[w] == pre.players@[w + 1]);
                        }
                    }
                }
                true
            },
        }
    }

    /// The roster as a list of display names, in insertion order.
    pub fn player_names(&self) -> (v: Vec<String>)
        ensures
            v@.len() == self.players@.len(),
            forall|i: int| 0 <= i < v@.len() ==> (#[trigger] v@[i])@ == self.players@[i].name@,
    {
        let mut v: Vec<String> = Vec::new();
        let mut j: usize = 0;
        while j < self.players.len()
            invariant
                j <= self.players@.len(),
                v@.len() == j,
                forall|i: int| 0 <= i < j ==> (#[trigger] v@[i])@ == self.players@[i].name@,
            decreases self.players@.len() - j,
        {
            v.push(self.players[j].name.clone());
            j += 1;
        }
        v
    }

    /// Start the race: record the clock reading.  Only the countdown task
    /// calls this, once, after the countdown it was scheduled for has run
    /// out.
    pub fn start_race(&mut self, now_ms: u64)
        requires
            old(self).wf(),
            old(self).race_start is None,
            old(self).race_pending,
        ensures
            final(self).wf(),
            final(self).race_start == Some(now_ms),
            final(self).players@ =~= old(self).players@,
            final(self).finishes@ =~= old(self).finishes@,
            final(self).text == old(self).text,
            final(self).race_pending,
    {
        self.race_start = Some(now_ms);
    }
}

impl GameState {
    /// The set of player names.
    pub open spec fn players_set(self) -> Set<Seq<char>> {
        Set::new(|n: Seq<char>| self.has_player(n))
    }

    /// The positions mapping, keyed by player name.
    pub open spec fn positions_map(self) -> Map<Seq<char>, nat> {
        Map::new(|n: Seq<char>| self.has_player(n), |n: Seq<char>| self.position_of(n))
    }
}

/// Law: the positions mapping has exactly one entry per player — its domain
/// is the set of players, and vice versa.
pub proof fn lemma_positions_match_players(g: GameState)
    requires
        g.wf(),
    ensures
        g.positions_map().dom() =~= g.players_set(),
{
}

/// Law: every player's cursor lies between 0 and the length of the text.
pub proof fn lemma_positions_bounded(g: GameState, n: Seq<char>)
    requires
        g.wf(),
        g.has_player(n),
    ensures
        0 <= g.positions_map()[n] <= g.text@.len(),
{
    let i = g.player_index(n);
    assert(0 <= i < g.players@.len() && g.players@[i].name@ == n);
    assert(g.players@[i].position <= g.text@.len());
}

/// Law: the finish list holds no name twice, and each of its entries names a
/// player whose cursor stands at the end of the text.
pub proof fn lemma_finishes_complete(g: GameState, k: int)
    requires
        g.wf(),
        0 <= k < g.finishes@.len(),
    ensures
        forall|j: int|
            0 <= j < g.finishes@.len() && j != k ==> g.finishes@[j].name@ != g.finishes@[k].name@,
        g.has_player(g.finishes@[k].name@),
        g.positions_map()[g.finishes@[k].name@] == g.text@.len(),
{
    let n = g.finishes@[k].name@;
    assert(g.has_player(n));
    let i = g.player_index(n);
    assert(0 <= i < g.players@.len() && g.players@[i].name@ == n);
    assert(g.players@[i].position == g.text@.len());
}

/// Law: the finish list is ordered by the server clock reading of the
/// finishing keystroke (it grows by appending, in completion order).
pub proof fn lemma_finishes_time_ordered(g: GameState)
    requires
        g.wf(),
    ensures
        forall|i: int, j: int|
            0 <= i <= j < g.finishes@.len() ==> g.finishes@[i].time_ms <= g.finishes@[j].time_ms,
{
}

/// Law: the finish list never outgrows the roster — its entries name
/// distinct players.
pub proof fn lemma_finishes_at_most_players(g: GameState)
    requires
        g.wf(),
    ensures
        g.finishes@.len() <= g.players@.len(),
{
    broadcast use vstd::seq_lib::seq_to_set_is_finite;
    broadcast use vstd::set::group_set_axioms;

    let fnames = g.finishes@.map_values(|f: Finish| f.name@);
    let pnames = g.players@.map_values(|p: PlayerState| p.name@);
    assert(fnames.no_duplicates());
    assert(pnames.no_duplicates());
    fnames.unique_seq_to_set();
    pnames.unique_seq_to_set();
    assert forall|n: Seq<char>| fnames.to_set().contains(n) implies pnames.to_set().contains(
        n,
    ) by {
        let k = choose|k: int| 0 <= k < fnames.len() && fnames[k] == n;
        assert(g.has_player(n));
        let i = g.player_index(n);
        assert(pnames[i] == n);
    }
    assert(fnames.to_set().subset_of(pnames.to_set()));
    vstd::set_lib::lemma_len_subset(fnames.to_set(), pnames.to_set());
}

/// Every character needs at least one byte of UTF-8, so a text of at most
/// 0xFFFF bytes has at most 0xFFFF characters.
pub proof fn lemma_encode_utf8_at_least_one_byte_per_char(chars: Seq<char>)
    ensures
        encode_utf8(chars).len() >= chars.len(),
    decreases chars.len(),
{
    if chars.len() == 0 {
    } else {
        lemma_encode_utf8_at_least_one_byte_per_char(chars.drop_first());
    }
}

} // verus!
