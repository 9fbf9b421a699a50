//! The room registry: room name to room state, with lazy creation on the
//! first join.
//!
//! The surrounding application holds the registry inside one exclusive
//! section, so mutations of a room observe a total order and creation races
//! resolve first-writer-wins: a late creator finds the existing room.

use crate::game::GameState;
use vstd::prelude::*;
use vstd::utf8::encode_utf8;

verus! {

/// One registry entry: a room name and the room's state.
pub struct RoomEntry {
    pub name: String,
    pub game: GameState,
}

/// The process-wide mapping from room name to room state.
pub struct Registry {
    pub rooms: Vec<RoomEntry>,
}

impl Registry {
    /// Room names are unique and every room is well-formed.
    pub open spec fn wf(self) -> bool {
        &&& (forall|i: int, j: int|
            0 <= i < j < self.rooms@.len() ==> self.rooms@[i].name@ != self.rooms@[j].name@)
        &&& (forall|i: int| 0 <= i < self.rooms@.len() ==> (#[trigger] self.rooms@[i]).game.wf())
    }

    /// Whether a room of this name exists.
    pub open spec fn has_room(self, name: Seq<char>) -> bool {
        exists|i: int| 0 <= i < self.rooms@.len() && self.rooms@[i].name@ == name
    }

    /// Index of the room of this name (meaningful when `has_room` holds).
    pub open spec fn room_index(self, name: Seq<char>) -> int {
        choose|i: int| 0 <= i < self.rooms@.len() && self.rooms@[i].name@ == name
    }

    /// An empty registry.
    pub fn new() -> (r: Registry)
        ensures
            r.wf(),
            r.rooms@.len() == 0,
    {
        Registry { rooms: Vec::new() }
    }

    /// Index of the named room, created on first use with the given target
    /// text.  Creation is idempotent: an existing room is returned as it is,
    /// whatever text a late creator offers.
    pub fn get_or_create(&mut self, name: &String, text: &String) -> (i: usize)
        requires
            old(self).wf(),
            encode_utf8(text@).len() <= 0xFFFF,
            old(self).rooms@.len() < usize::MAX,
        ensures
            final(self).wf(),
            i < final(self).rooms@.len(),
            final(self).rooms@[i as int].name@ == name@,
            old(self).has_room(name@) ==> *final(self) == *old(self) && i as int == old(
                self,
            ).room_index(name@),
            !old(self).has_room(name@) ==> {
                &&& final(self).rooms@.len() == old(self).rooms@.len() + 1
                &&& final(self).rooms@.take(old(self).rooms@.len() as int) =~= old(self).rooms@
                &&& i as int == old(self).rooms@.len()
                &&& final(self).rooms@[i as int].game.players@.len() == 0
                &&& final(self).rooms@[i as int].game.finishes@.len() == 0
                &&& final(self).rooms@[i as int].game.race_start is None
                &&& !final(self).rooms@[i as int].game.race_pending
                &&& final(self).rooms@[i as int].game.text@ == text@
            },
    {
        let mut j: usize = 0;
        while j < self.rooms.len()
            invariant
                *self == *old(self),
                old(self).wf(),
                j <= self.rooms@.len(),
                forall|k: int| 0 <= k < j ==> self.rooms@[k].name@ != name@,
        decreases self.rooms@.len() - j,
        {
            if self.rooms[j].name.eq(name) {
                proof {
                    assert(self.room_index(name@) == j as int);
                }
                return j;
            }
            j += 1;
        }
        let game = GameState::new(text.clone());
        self.rooms.push(RoomEntry { name: name.clone(), game });
        proof {
            let post = *self;
            let pre = *old(self);
            assert(post.rooms@.take(pre.rooms@.len() as int) =~= pre.rooms@);
        }
        self.rooms.len() - 1
    }
}

} // verus!
