//! The world model and what holds of it between any two events.

use crate::model::{holds, Game, Mode, QueueEntry, Room, RoomState, User};
use vstd::prelude::*;

verus! {

/// Milliseconds during which a repeated request is answered from memory.
pub const DEDUP_WINDOW_MS: u64 = 60000;

/// Milliseconds the players of a proposed match have to accept it.
pub const PRESTART_MS: u64 = 10000;

/// Everything the engine owns.
pub struct World {
    /// The configured modes. They never change.
    pub modes: Vec<Mode>,
    /// Every user seen since the last restart. The table only grows.
    pub users: Vec<User>,
    /// The rooms that are not closed.
    pub rooms: Vec<Room>,
    /// The parties waiting for a match, of all modes, oldest first. The queue
    /// of one mode is made of the entries that carry that mode.
    pub queue: Vec<QueueEntry>,
    /// The games that are proposed, running, or over and not yet archived.
    pub games: Vec<Game>,
    /// The requests answered within the window, for telling repeats.
    pub seen: Vec<crate::engine::Seen>,
    /// The id the next room gets.
    pub next_room: u64,
    /// The id the next game gets.
    pub next_game: u64,
}

/// No two modes share a name.
pub open spec fn modes_wf(modes: Seq<Mode>) -> bool {
    forall|i: int, j: int|
        0 <= i < modes.len() && 0 <= j < modes.len() && i != j ==> (#[trigger] modes[i]).name@ != (
        #[trigger] modes[j]).name@
}

/// Whether no two modes of a list share a name.
pub fn names_differ(modes: &Vec<Mode>) -> (b: bool)
    ensures
        b == modes_wf(modes@),
{
    let mut k: usize = 0;
    while k < modes.len()
        invariant
            k <= modes@.len(),
            forall|i: int, j: int|
                0 <= i < k && 0 <= j < k && i != j ==> (#[trigger] modes@[i]).name@ != (
                #[trigger] modes@[j]).name@,
        decreases modes@.len() - k,
    {
        let mut j: usize = 0;
        while j < k
            invariant
                j <= k,
                k < modes@.len(),
                forall|x: int| 0 <= x < j ==> (#[trigger] modes@[x]).name@ != modes@[k as int].name@,
            decreases k - j,
        {
            if modes[j].name == modes[k].name {
                assert(modes@[j as int].name@ == modes@[k as int].name@);
                return false;
            }
            j = j + 1;
        }
        k = k + 1;
    }
    true
}

/// No two users share an identifier, and every user has a standing in every mode.
pub open spec fn users_wf(users: Seq<User>, modes: int) -> bool {
    &&& forall|i: int, j: int|
        0 <= i < users.len() && 0 <= j < users.len() && i != j ==> #[trigger] users[i].id@
            != #[trigger] users[j].id@
    &&& forall|i: int| 0 <= i < users.len() ==> (#[trigger] users[i]).rank@.len() == modes
}

/// What holds of one room: it has members, no member twice, every member is
/// a user who points back at the room, and the room is not closed.
pub open spec fn room_wf(room: Room, users: Seq<User>, next_room: u64, modes: int) -> bool {
    &&& room.id < next_room
    &&& room.members@.len() > 0
    &&& room.members@.no_duplicates()
    &&& forall|k: int|
        0 <= k < room.members@.len() ==> {
            &&& (#[trigger] room.members@[k]) < users.len()
            &&& users[room.members@[k] as int].room == Some(room.id)
        }
    &&& room.state != RoomState::Closed
    &&& room.state != RoomState::Idle ==> room.mode < modes
}

/// Whether the room with id `id` exists and has the user in slot `u` as a member.
pub open spec fn has_member(rooms: Seq<Room>, id: u64, u: int) -> bool {
    exists|r: int|
        0 <= r < rooms.len() && (#[trigger] rooms[r]).id == id && holds(rooms[r].members@, u)
}

/// Rooms have distinct ids, each room is sound, and a user who points at a
/// room is a member of it.
pub open spec fn rooms_wf(rooms: Seq<Room>, users: Seq<User>, next_room: u64, modes: int) -> bool {
    &&& forall|i: int, j: int|
        0 <= i < rooms.len() && 0 <= j < rooms.len() && i != j ==> (#[trigger] rooms[i]).id != (
        #[trigger] rooms[j]).id
    &&& forall|i: int| 0 <= i < rooms.len() ==> room_wf(#[trigger] rooms[i], users, next_room, modes)
    &&& forall|u: int|
        0 <= u < users.len() && (#[trigger] users[u]).room is Some ==> has_member(
            rooms,
            users[u].room->0,
            u,
        )
}

/// Whether `entry` is the queue entry of `room`.
pub open spec fn entry_of(entry: QueueEntry, room: Room) -> bool {
    &&& entry.room_id == room.id
    &&& room.state == RoomState::Queued
    &&& entry.mode == room.mode
    &&& entry.party_size == room.members@.len()
    &&& entry.entered_at == room.queued_at
}

/// Whether `entry` is the queue entry of one of the rooms.
pub open spec fn has_room(entry: QueueEntry, rooms: Seq<Room>) -> bool {
    exists|r: int| 0 <= r < rooms.len() && entry_of(entry, #[trigger] rooms[r])
}

/// Whether the queue holds an entry for the room with id `id`.
pub open spec fn in_queue(queue: Seq<QueueEntry>, id: u64) -> bool {
    exists|q: int| 0 <= q < queue.len() && (#[trigger] queue[q]).room_id == id
}

/// The queue is in order, holds no room twice, holds only rooms that are
/// queued, and holds every queued room.
pub open spec fn queue_wf(queue: Seq<QueueEntry>, rooms: Seq<Room>) -> bool {
    &&& forall|i: int, j: int|
        0 <= i < j < queue.len() ==> (#[trigger] queue[i]).before(#[trigger] queue[j])
    &&& forall|q: int| 0 <= q < queue.len() ==> has_room(#[trigger] queue[q], rooms)
    &&& forall|r: int|
        0 <= r < rooms.len() && (#[trigger] rooms[r]).state == RoomState::Queued ==> in_queue(
            queue,
            rooms[r].id,
        )
}

/// What holds of one game: it has two sides of equal size, an
/// acknowledgement for each player, and players that are users, none of
/// them twice.
pub open spec fn game_wf(game: Game, users: int, next_game: u64, modes: int) -> bool {
    &&& game.id < next_game
    &&& game.mode < modes
    &&& game.players@.len() % 2 == 0
    &&& game.acks@.len() == game.players@.len()
    &&& forall|k: int| 0 <= k < game.players@.len() ==> (#[trigger] game.players@[k]) < users
    &&& game.players@.no_duplicates()
    &&& game.started ==> game.unanimous()
    &&& game.result is Some ==> game.started
}

/// Games have distinct ids and each game is sound.
pub open spec fn games_wf(games: Seq<Game>, users: int, next_game: u64, modes: int) -> bool {
    &&& forall|i: int, j: int|
        0 <= i < games.len() && 0 <= j < games.len() && i != j ==> (#[trigger] games[i]).id != (
        #[trigger] games[j]).id
    &&& forall|i: int| 0 <= i < games.len() ==> game_wf(#[trigger] games[i], users, next_game, modes)
}

impl World {
    /// The invariant of the world model.
    pub open spec fn wf(&self) -> bool {
        &&& modes_wf(self.modes@)
        &&& users_wf(self.users@, self.modes@.len() as int)
        &&& rooms_wf(self.rooms@, self.users@, self.next_room, self.modes@.len() as int)
        &&& queue_wf(self.queue@, self.rooms@)
        &&& games_wf(self.games@, self.users@.len() as int, self.next_game, self.modes@.len() as int)
    }

    /// The slot of the user with identifier `id`, if the user is known.
    pub open spec fn slot_of(&self, id: Seq<char>) -> Option<int> {
        if exists|i: int| 0 <= i < self.users@.len() && (#[trigger] self.users@[i]).id@ == id {
            Some(choose|i: int| 0 <= i < self.users@.len() && (#[trigger] self.users@[i]).id@ == id)
        } else {
            None
        }
    }

    /// The position of the room with id `id`, if there is such a room.
    pub open spec fn room_at(&self, id: u64) -> Option<int> {
        if exists|i: int| 0 <= i < self.rooms@.len() && (#[trigger] self.rooms@[i]).id == id {
            Some(choose|i: int| 0 <= i < self.rooms@.len() && (#[trigger] self.rooms@[i]).id == id)
        } else {
            None
        }
    }

    /// The position of the game with id `id`, if there is such a game.
    pub open spec fn game_at(&self, id: u64) -> Option<int> {
        if exists|i: int| 0 <= i < self.games@.len() && (#[trigger] self.games@[i]).id == id {
            Some(choose|i: int| 0 <= i < self.games@.len() && (#[trigger] self.games@[i]).id == id)
        } else {
            None
        }
    }

    /// An empty world for the given modes. A standing is kept under the name
    /// of its mode, so there is a world only where no two modes share a name.
    pub fn new(modes: Vec<Mode>) -> (r: Option<World>)
        ensures
            match r {
                Some(w) => {
                    &&& modes_wf(modes@)
                    &&& w.wf()
                    &&& w.modes == modes
                    &&& w.users@.len() == 0
                    &&& w.rooms@.len() == 0
                    &&& w.queue@.len() == 0
                    &&& w.games@.len() == 0
                    &&& w.seen@.len() == 0
                    &&& w.next_room == 1
                    &&& w.next_game == 1
                },
                None => !modes_wf(modes@),
            },
    {
        if !names_differ(&modes) {
            return None;
        }
        Some(
            World {
                modes,
                users: Vec::new(),
                rooms: Vec::new(),
                queue: Vec::new(),
                games: Vec::new(),
                seen: Vec::new(),
                next_room: 1,
                next_game: 1,
            },
        )
    }

    /// Finds a user by identifier.
    pub fn find_user(&self, id: &str) -> (r: Option<usize>)
        requires
            self.wf(),
        ensures
            r matches Some(i) ==> i < self.users@.len() && self.users@[i as int].id@ == id@,
            r is None ==> forall|i: int| 0 <= i < self.users@.len() ==> (#[trigger] self.users@[i]).id@ != id@,
            self.slot_of(id@) == (match r {
                Some(i) => Some(i as int),
                None => None,
            }),
    {
        let wanted = String::from_str(id);
        let mut i: usize = 0;
        while i < self.users.len()
            invariant
                self.wf(),
                i <= self.users@.len(),
                wanted@ == id@,
                forall|j: int| 0 <= j < i ==> (#[trigger] self.users@[j]).id@ != id@,
            decreases self.users@.len() - i,
        {
            if self.users[i].id == wanted {
                proof {
                    let c = choose|c: int|
                        0 <= c < self.users@.len() && (#[trigger] self.users@[c]).id@ == id@;
                    assert(self.users@[c].id@ == self.users@[i as int].id@);
                }
                return Some(i);
            }
            i = i + 1;
        }
        None
    }

    /// Finds a room by id.
    pub fn find_room(&self, id: u64) -> (r: Option<usize>)
        requires
            self.wf(),
        ensures
            r matches Some(i) ==> i < self.rooms@.len() && self.rooms@[i as int].id == id,
            r is None ==> forall|i: int| 0 <= i < self.rooms@.len() ==> (#[trigger] self.rooms@[i]).id != id,
            self.room_at(id) == (match r {
                Some(i) => Some(i as int),
                None => None,
            }),
    {
        let mut i: usize = 0;
        while i < self.rooms.len()
            invariant
                self.wf(),
                i <= self.rooms@.len(),
                forall|j: int| 0 <= j < i ==> (#[trigger] self.rooms@[j]).id != id,
            decreases self.rooms@.len() - i,
        {
            if self.rooms[i].id == id {
                proof {
                    let c = choose|c: int|
                        0 <= c < self.rooms@.len() && (#[trigger] self.rooms@[c]).id == id;
                    assert(self.rooms@[c].id == self.rooms@[i as int].id);
                }
                return Some(i);
            }
            i = i + 1;
        }
        None
    }

    /// Finds a game by id.
    pub fn find_game(&self, id: u64) -> (r: Option<usize>)
        requires
            self.wf(),
        ensures
            r matches Some(i) ==> i < self.games@.len() && self.games@[i as int].id == id,
            r is None ==> forall|i: int| 0 <= i < self.games@.len() ==> (#[trigger] self.games@[i]).id != id,
            self.game_at(id) == (match r {
                Some(i) => Some(i as int),
                None => None,
            }),
    {
        let mut i: usize = 0;
        while i < self.games.len()
            invariant
                self.wf(),
                i <= self.games@.len(),
                forall|j: int| 0 <= j < i ==> (#[trigger] self.games@[j]).id != id,
            decreases self.games@.len() - i,
        {
            if self.games[i].id == id {
                proof {
                    let c = choose|c: int|
                        0 <= c < self.games@.len() && (#[trigger] self.games@[c]).id == id;
                    assert(self.games@[c].id == self.games@[i as int].id);
                }
                return Some(i);
            }
            i = i + 1;
        }
        None
    }
}

/// Users that keep their identifiers and their standings stay sound.
pub proof fn lemma_users_kept(before: Seq<User>, after: Seq<User>, modes: int)
    requires
        users_wf(before, modes),
        after.len() == before.len(),
        forall|i: int|
            0 <= i < before.len() ==> (#[trigger] after[i]).id == before[i].id && after[i].rank@.len()
                == before[i].rank@.len(),
    ensures
        users_wf(after, modes),
{
    assert forall|i: int, j: int|
        0 <= i < after.len() && 0 <= j < after.len() && i != j implies #[trigger] after[i].id@
        != #[trigger] after[j].id@ by {
        assert(after[i].id == before[i].id);
        assert(after[j].id == before[j].id);
        assert(before[i].id@ != before[j].id@);
    }
    assert forall|i: int| 0 <= i < after.len() implies (#[trigger] after[i]).rank@.len() == modes by {
        assert(before[i].rank@.len() == modes);
    }
}

/// A world whose users changed in nothing that the rooms, the queue or the
/// games look at is still sound.
pub proof fn lemma_users_changed(before: &World, after: &World)
    requires
        before.wf(),
        after.modes == before.modes,
        after.rooms == before.rooms,
        after.queue == before.queue,
        after.games == before.games,
        after.next_room == before.next_room,
        after.next_game == before.next_game,
        after.users@.len() == before.users@.len(),
        forall|i: int|
            0 <= i < before.users@.len() ==> {
                &&& (#[trigger] after.users@[i]).id == before.users@[i].id
                &&& after.users@[i].rank@.len() == before.users@[i].rank@.len()
                &&& after.users@[i].room == before.users@[i].room
            },
    ensures
        after.wf(),
{
    let modes = before.modes@.len() as int;
    lemma_users_kept(before.users@, after.users@, modes);
    assert forall|i: int| 0 <= i < after.rooms@.len() implies room_wf(
        #[trigger] after.rooms@[i],
        after.users@,
        after.next_room,
        modes,
    ) by {
        let room = before.rooms@[i];
        assert(room_wf(room, before.users@, before.next_room, modes));
        assert forall|k: int| 0 <= k < room.members@.len() implies (#[trigger] room.members@[k])
            < after.users@.len() && after.users@[room.members@[k] as int].room == Some(room.id) by {
            assert(before.users@[room.members@[k] as int].room == Some(room.id));
        }
    }
    assert forall|u: int|
        0 <= u < after.users@.len() && (#[trigger] after.users@[u]).room is Some implies has_member(
        after.rooms@,
        after.users@[u].room->0,
        u,
    ) by {
        assert(before.users@[u].room is Some);
    }
}

/// A user is a member of one room at most.
pub proof fn member_of_one_room(w: World, r1: int, r2: int, u: usize)
    requires
        w.wf(),
        0 <= r1 < w.rooms@.len(),
        0 <= r2 < w.rooms@.len(),
        holds(w.rooms@[r1].members@, u as int),
        holds(w.rooms@[r2].members@, u as int),
    ensures
        r1 == r2,
{
    let room1 = w.rooms@[r1];
    let room2 = w.rooms@[r2];
    assert(room_wf(room1, w.users@, w.next_room, w.modes@.len() as int));
    assert(room_wf(room2, w.users@, w.next_room, w.modes@.len() as int));
    let k1 = choose|k: int| 0 <= k < room1.members@.len() && room1.members@[k] == u;
    let k2 = choose|k: int| 0 <= k < room2.members@.len() && room2.members@[k] == u;
    assert(w.users@[room1.members@[k1] as int].room == Some(room1.id));
    assert(w.users@[room2.members@[k2] as int].room == Some(room2.id));
}

/// A room that is queued has exactly one entry in the queue, and so stands
/// in the queue of exactly one mode; a room in any other state has none.
pub proof fn queued_once(w: World, r: int)
    requires
        w.wf(),
        0 <= r < w.rooms@.len(),
    ensures
        w.rooms@[r].state == RoomState::Queued <==> in_queue(w.queue@, w.rooms@[r].id),
        forall|p: int, q: int|
            0 <= p < w.queue@.len() && 0 <= q < w.queue@.len() && (#[trigger] w.queue@[p]).room_id
                == w.rooms@[r].id && (#[trigger] w.queue@[q]).room_id == w.rooms@[r].id ==> p == q,
        forall|q: int|
            0 <= q < w.queue@.len() && (#[trigger] w.queue@[q]).room_id == w.rooms@[r].id
                ==> w.queue@[q].mode == w.rooms@[r].mode,
{
    let id = w.rooms@[r].id;
    if in_queue(w.queue@, id) {
        let q = choose|q: int| 0 <= q < w.queue@.len() && (#[trigger] w.queue@[q]).room_id == id;
        assert(has_room(w.queue@[q], w.rooms@));
        let r2 = choose|r2: int|
            0 <= r2 < w.rooms@.len() && entry_of(w.queue@[q], #[trigger] w.rooms@[r2]);
        assert(r2 == r);
    }
    assert forall|p: int, q: int|
        0 <= p < w.queue@.len() && 0 <= q < w.queue@.len() && (#[trigger] w.queue@[p]).room_id
            == id && (#[trigger] w.queue@[q]).room_id == id implies p == q by {
        assert(has_room(w.queue@[p], w.rooms@) && has_room(w.queue@[q], w.rooms@));
        let rp = choose|x: int|
            0 <= x < w.rooms@.len() && entry_of(w.queue@[p], #[trigger] w.rooms@[x]);
        let rq = choose|x: int|
            0 <= x < w.rooms@.len() && entry_of(w.queue@[q], #[trigger] w.rooms@[x]);
        assert(rp == rq);
        if p < q {
            assert(w.queue@[p].before(w.queue@[q]));
        } else if q < p {
            assert(w.queue@[q].before(w.queue@[p]));
        }
    }
    assert forall|q: int|
        0 <= q < w.queue@.len() && (#[trigger] w.queue@[q]).room_id == id implies w.queue@[q].mode
            == w.rooms@[r].mode by {
        assert(has_room(w.queue@[q], w.rooms@));
        let rq = choose|x: int|
            0 <= x < w.rooms@.len() && entry_of(w.queue@[q], #[trigger] w.rooms@[x]);
        assert(rq == r);
    }
}

} // verus!
