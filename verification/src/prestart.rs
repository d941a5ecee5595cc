//! The accept-or-decline phase between the selection of a match and the
//! start of the game.

use crate::engine::{ErrorKind, Reply};
use crate::model::{holds, Game, Room, RoomState};
use crate::rooms::{lemma_entry_removed, remove_entry, without_room};
use crate::world::{entry_of, game_wf, has_room, in_queue, room_wf, World};
use vstd::prelude::*;

verus! {

/// Whether `after` is `before` in another state and with another game.
pub open spec fn room_moved(after: Room, before: Room, state: RoomState, game: u64) -> bool {
    &&& after.id == before.id
    &&& after.members == before.members
    &&& after.state == state
    &&& after.mode == before.mode
    &&& after.game == game
    &&& after.created_at == before.created_at
    &&& after.queued_at == before.queued_at
}

impl World {
    /// Whether `self` is `other` but for the rooms and the queue.
    pub open spec fn same_but_states(&self, other: &World) -> bool {
        &&& self.modes == other.modes
        &&& self.users == other.users
        &&& self.games == other.games
        &&& self.seen == other.seen
        &&& self.next_room == other.next_room
        &&& self.next_game == other.next_game
    }

    /// Moves the room at `r`, which is not queued, to another state that is
    /// neither queued nor closed.
    pub(crate) fn set_state(&mut self, r: usize, state: RoomState)
        requires
            old(self).wf(),
            r < old(self).rooms@.len(),
            old(self).rooms@[r as int].state != RoomState::Queued,
            old(self).rooms@[r as int].state != RoomState::Idle,
            state != RoomState::Queued,
            state != RoomState::Closed,
        ensures
            final(self).wf(),
            final(self).same_but_states(old(self)),
            final(self).queue == old(self).queue,
            final(self).same_rooms_but(old(self), r as int),
            room_moved(
                final(self).rooms@[r as int],
                old(self).rooms@[r as int],
                state,
                old(self).rooms@[r as int].game,
            ),
    {
        self.rooms[r].state = state;
        proof {
            self.lemma_states_changed(old(self), r as int);
        }
    }

    /// Moves the queued room at `r` out of the queue and into the prestart
    /// phase of game `game`.
    pub(crate) fn promote(&mut self, r: usize, game: u64)
        requires
            old(self).wf(),
            r < old(self).rooms@.len(),
            old(self).rooms@[r as int].state == RoomState::Queued,
        ensures
            final(self).wf(),
            final(self).same_but_states(old(self)),
            final(self).queue@ == without_room(old(self).queue@, old(self).rooms@[r as int].id),
            final(self).same_rooms_but(old(self), r as int),
            room_moved(
                final(self).rooms@[r as int],
                old(self).rooms@[r as int],
                RoomState::Prestart,
                game,
            ),
    {
        let id = self.rooms[r].id;
        self.rooms[r].state = RoomState::Prestart;
        self.rooms[r].game = game;
        remove_entry(&mut self.queue, id);
        proof {
            lemma_entry_removed(old(self).queue@, old(self).rooms@, self.rooms@, r as int);
            let mid = World { queue: old(self).queue, ..*self };
            mid.lemma_rooms_changed(old(self), r as int);
        }
    }

    /// Changing the state and the game of a room that stays out of the
    /// queue keeps the rooms sound.
    pub proof fn lemma_rooms_changed(&self, before: &World, r: int)
        requires
            before.wf(),
            0 <= r < before.rooms@.len(),
            self.modes == before.modes,
            self.users == before.users,
            self.next_room == before.next_room,
            self.same_rooms_but(before, r),
            self.rooms@[r].id == before.rooms@[r].id,
            self.rooms@[r].members == before.rooms@[r].members,
            self.rooms@[r].mode == before.rooms@[r].mode,
            self.rooms@[r].state != RoomState::Closed,
            before.rooms@[r].state != RoomState::Idle,
        ensures
            crate::world::rooms_wf(
                self.rooms@,
                self.users@,
                self.next_room,
                self.modes@.len() as int,
            ),
    {
        let modes = self.modes@.len() as int;
        assert forall|i: int| 0 <= i < self.rooms@.len() implies room_wf(
            #[trigger] self.rooms@[i],
            self.users@,
            self.next_room,
            modes,
        ) by {
            assert(room_wf(before.rooms@[i], before.users@, before.next_room, modes));
        }
        assert forall|v: int|
            0 <= v < self.users@.len() && (#[trigger] self.users@[v]).room is Some implies crate::world::has_member(
            self.rooms@,
            self.users@[v].room->0,
            v,
        ) by {
            let o = choose|o: int|
                0 <= o < before.rooms@.len() && (#[trigger] before.rooms@[o]).id
                    == before.users@[v].room->0 && holds(before.rooms@[o].members@, v);
            assert(self.rooms@[o].id == before.rooms@[o].id);
            assert(self.rooms@[o].members@ == before.rooms@[o].members@);
        }
        assert forall|i: int, j: int|
            0 <= i < self.rooms@.len() && 0 <= j < self.rooms@.len() && i != j implies (
        #[trigger] self.rooms@[i]).id != (#[trigger] self.rooms@[j]).id by {
            assert(self.rooms@[i].id == before.rooms@[i].id);
            assert(self.rooms@[j].id == before.rooms@[j].id);
        }
    }

    /// Changing the state of a room that was not queued and does not become
    /// queued keeps the world sound.
    pub proof fn lemma_states_changed(&self, before: &World, r: int)
        requires
            before.wf(),
            0 <= r < before.rooms@.len(),
            self.same_but_states(before),
            self.queue == before.queue,
            self.same_rooms_but(before, r),
            self.rooms@[r].id == before.rooms@[r].id,
            self.rooms@[r].members == before.rooms@[r].members,
            self.rooms@[r].mode == before.rooms@[r].mode,
            self.rooms@[r].state != RoomState::Closed,
            self.rooms@[r].state != RoomState::Queued,
            before.rooms@[r].state != RoomState::Queued,
            before.rooms@[r].state != RoomState::Idle,
        ensures
            self.wf(),
    {
        self.lemma_rooms_changed(before, r);
        assert forall|q: int| 0 <= q < self.queue@.len() implies has_room(
            #[trigger] self.queue@[q],
            self.rooms@,
        ) by {
            assert(has_room(before.queue@[q], before.rooms@));
            let o = choose|o: int|
                0 <= o < before.rooms@.len() && entry_of(before.queue@[q], #[trigger] before.rooms@[o]);
            assert(o != r);
            assert(entry_of(self.queue@[q], self.rooms@[o]));
        }
        assert forall|i: int|
            0 <= i < self.rooms@.len() && (#[trigger] self.rooms@[i]).state
                == RoomState::Queued implies in_queue(self.queue@, self.rooms@[i].id) by {
            assert(i != r);
            assert(self.rooms@[i] == before.rooms@[i]);
        }
    }
}

/// The position of the first occurrence of `u` among `players`, or the
/// number of players if there is none.
pub open spec fn seat(players: Seq<usize>, u: int) -> int
    decreases players.len(),
{
    if players.len() == 0 {
        0
    } else if players[0] == u {
        0
    } else {
        1 + seat(players.drop_first(), u)
    }
}

/// The seat of `u` among `players`, if it has one.
pub(crate) fn find_seat(players: &Vec<usize>, u: usize) -> (r: Option<usize>)
    ensures
        match r {
            Some(k) => k == seat(players@, u as int) && k < players@.len(),
            None => seat(players@, u as int) == players@.len(),
        },
{
    let mut k: usize = 0;
    assert(players@.skip(0) =~= players@);
    while k < players.len() && players[k] != u
        invariant
            k <= players@.len(),
            seat(players@, u as int) == k + seat(players@.skip(k as int), u as int),
        decreases players@.len() - k,
    {
        proof {
            let rest = players@.skip(k as int);
            assert(rest[0] == players@[k as int]);
            assert(rest.drop_first() =~= players@.skip(k + 1));
        }
        k = k + 1;
    }
    proof {
        let rest = players@.skip(k as int);
        if k < players@.len() {
            assert(rest[0] == players@[k as int]);
        }
    }
    if k < players.len() {
        Some(k)
    } else {
        None
    }
}

/// Whether every acknowledgement is given.
pub(crate) fn all_given(acks: &Vec<bool>) -> (b: bool)
    ensures
        b == forall|i: int| 0 <= i < acks@.len() ==> #[trigger] acks@[i],
{
    let mut i: usize = 0;
    while i < acks.len()
        invariant
            i <= acks@.len(),
            forall|j: int| 0 <= j < i ==> #[trigger] acks@[j],
        decreases acks@.len() - i,
    {
        if !acks[i] {
            return false;
        }
        i = i + 1;
    }
    true
}

/// Why the user in slot `u` may not answer the proposal its room at `r` is
/// part of, if so.
pub open spec fn answer_refusal(w: &World, u: int, r: int) -> Option<ErrorKind> {
    let room = w.rooms@[r];
    if room.state != RoomState::Prestart {
        Some(ErrorKind::StateViolation)
    } else {
        match w.game_at(room.game) {
            None => Some(ErrorKind::NotFound),
            Some(g) => if w.games@[g].started {
                Some(ErrorKind::StateViolation)
            } else if seat(w.games@[g].players@, u) >= w.games@[g].players@.len() {
                Some(ErrorKind::NotFound)
            } else {
                None
            },
        }
    }
}

/// Whether `after` is `before` with the acknowledgement of seat `k` given,
/// and started at `now` if that made the acknowledgements complete.
pub open spec fn game_accepted(after: Game, before: Game, k: int, now: u64) -> bool {
    let acks = before.acks@.update(k, true);
    let complete = forall|i: int| 0 <= i < acks.len() ==> #[trigger] acks[i];
    &&& after.id == before.id
    &&& after.mode == before.mode
    &&& after.players == before.players
    &&& after.acks@ == acks
    &&& after.deadline == before.deadline
    &&& after.result == before.result
    &&& after.started == complete
    &&& after.started_at == if complete {
        now
    } else {
        before.started_at
    }
}

/// Whether `after` is `before` once the player in seat `k` of the game at
/// `g` has accepted: the acknowledgement is recorded, and if it was the last
/// one missing, the game starts and its rooms are in game.
pub open spec fn accepted(before: &World, after: &World, g: int, k: int, now: u64) -> bool {
    let game = before.games@[g];
    &&& after.same_but_games(before)
    &&& after.games@.len() == before.games@.len()
    &&& forall|j: int|
        0 <= j < before.games@.len() && j != g ==> #[trigger] after.games@[j] == before.games@[j]
    &&& game_accepted(after.games@[g], game, k, now)
    &&& after.rooms@.len() == before.rooms@.len()
    &&& forall|i: int|
        0 <= i < before.rooms@.len() ==> if after.games@[g].started && (
        #[trigger] before.rooms@[i]).state == RoomState::Prestart && before.rooms@[i].game
            == game.id {
            room_moved(after.rooms@[i], before.rooms@[i], RoomState::InGame, game.id)
        } else {
            after.rooms@[i] == before.rooms@[i]
        }
}

/// Whether `after` is `before` once a player of the game at `g` has
/// declined: the game is withdrawn and all its rooms are idle again.
pub open spec fn declined(before: &World, after: &World, g: int) -> bool {
    let game = before.games@[g];
    &&& after.same_but_games(before)
    &&& after.games@ == before.games@.remove(g)
    &&& after.rooms@.len() == before.rooms@.len()
    &&& forall|i: int|
        0 <= i < before.rooms@.len() ==> if (#[trigger] before.rooms@[i]).state
            == RoomState::Prestart && before.rooms@[i].game == game.id {
            room_moved(after.rooms@[i], before.rooms@[i], RoomState::Idle, game.id)
        } else {
            after.rooms@[i] == before.rooms@[i]
        }
}

/// Whether `after` and `reply` are what an answer to a proposal makes of
/// `before`.
pub open spec fn prestart_post(before: &World, after: &World, now: u64, user: Seq<char>, accept: bool, reply: Reply) -> bool {
    match before.slot_of(user) {
        None => reply == Reply::Failed(ErrorKind::NotFound) && *after == *before,
        Some(u) => match before.users@[u].room {
            None => reply == Reply::Failed(ErrorKind::NotFound) && *after == *before,
            Some(id) => {
                let r = before.room_at(id)->0;
                &&& before.room_at(id) is Some
                &&& match answer_refusal(before, u, r) {
                    Some(e) => reply == Reply::Failed(e) && *after == *before,
                    None => {
                        let g = before.game_at(before.rooms@[r].game)->0;
                        &&& reply == Reply::Done
                        &&& if accept {
                            accepted(
                                before,
                                after,
                                g,
                                seat(before.games@[g].players@, u),
                                now,
                            )
                        } else {
                            declined(before, after, g)
                        }
                    },
                }
            },
        },
    }
}

impl World {
    /// Whether `self` is `other` but for the rooms and the games.
    pub open spec fn same_but_games(&self, other: &World) -> bool {
        &&& self.modes == other.modes
        &&& self.users == other.users
        &&& self.queue == other.queue
        &&& self.seen == other.seen
        &&& self.next_room == other.next_room
        &&& self.next_game == other.next_game
    }

    /// A player answers the proposal its room is part of. The game starts
    /// once every player has accepted; a single decline withdraws the
    /// proposal and sends every room of it back to idle.
    pub fn prestart(&mut self, now: u64, user: &str, accept: bool) -> (reply: Reply)
        requires
            old(self).wf(),
        ensures
            final(self).wf(),
            prestart_post(old(self), final(self), now, user@, accept, reply),
    {
        let u = match self.find_user(user) {
            Some(u) => u,
            None => {
                return Reply::Failed(ErrorKind::NotFound);
            },
        };
        let id = match self.users[u].room {
            Some(id) => id,
            None => {
                return Reply::Failed(ErrorKind::NotFound);
            },
        };
        proof {
            let o = choose|o: int|
                0 <= o < self.rooms@.len() && (#[trigger] self.rooms@[o]).id == id && holds(
                    self.rooms@[o].members@,
                    u as int,
                );
            assert(self.rooms@[o].id == id);
        }
        let r = match self.find_room(id) {
            Some(r) => r,
            None => {
                return Reply::Failed(ErrorKind::NotFound);
            },
        };
        match self.rooms[r].state {
            RoomState::Prestart => {},
            _ => {
                return Reply::Failed(ErrorKind::StateViolation);
            },
        }
        let g = match self.find_game(self.rooms[r].game) {
            Some(g) => g,
            None => {
                return Reply::Failed(ErrorKind::NotFound);
            },
        };
        if self.games[g].started {
            return Reply::Failed(ErrorKind::StateViolation);
        }
        let k = match find_seat(&self.games[g].players, u) {
            Some(k) => k,
            None => {
                return Reply::Failed(ErrorKind::NotFound);
            },
        };
        let ghost modes = self.modes@.len() as int;
        let ghost users = self.users@.len() as int;
        assert(game_wf(self.games@[g as int], users, self.next_game, modes));
        if !accept {
            self.abort_game(g);
            return Reply::Done;
        }
        self.games[g].acks[k] = true;
        let complete = all_given(&self.games[g].acks);
        if complete {
            self.games[g].started = true;
            self.games[g].started_at = now;
        }
        proof {
            assert forall|i: int| 0 <= i < self.games@.len() implies game_wf(
                #[trigger] self.games@[i],
                users,
                self.next_game,
                modes,
            ) by {
                assert(game_wf(old(self).games@[i], users, old(self).next_game, modes));
            }
            assert forall|i: int, j: int|
                0 <= i < self.games@.len() && 0 <= j < self.games@.len() && i != j implies (
            #[trigger] self.games@[i]).id != (#[trigger] self.games@[j]).id by {
                assert(self.games@[i].id == old(self).games@[i].id);
                assert(self.games@[j].id == old(self).games@[j].id);
            }
        }
        if complete {
            let game_id = self.games[g].id;
            self.move_rooms(game_id, RoomState::Prestart, RoomState::InGame);
        }
        Reply::Done
    }
}

} // verus!
