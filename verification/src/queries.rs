//! What the world model tells those who ask: who is in a room, who plays a
//! game, who has yet to answer a proposal.

use crate::engine::Reply;
use crate::model::{Game, RoomState, ScoreInfo};
use crate::sqlqueue::SqlOp;
use crate::ticking::lapsing_among;
use crate::world::{game_wf, room_wf, World};
use vstd::prelude::*;

verus! {

/// The identifiers of the users in the given slots, slot by slot.
pub open spec fn named(w: &World, slots: Seq<usize>, names: Seq<String>) -> bool {
    &&& names.len() == slots.len()
    &&& forall|k: int| 0 <= k < slots.len() ==> (#[trigger] names[k])@ == w.users@[slots[k] as int].id@
}

/// Of the first `k` players, those who have not given their acknowledgement.
pub open spec fn silent(players: Seq<usize>, acks: Seq<bool>, k: int) -> Seq<usize>
    decreases k,
{
    if k <= 0 {
        Seq::empty()
    } else if acks[k - 1] {
        silent(players, acks, k - 1)
    } else {
        silent(players, acks, k - 1).push(players[k - 1])
    }
}

/// What a finished game did to one of its players.
pub struct PlayerResult {
    /// The identifier of the player.
    pub user: String,
    /// The name of the mode of the game.
    pub mode: String,
    /// The change of rating the player is told.
    pub delta: i64,
    /// The standing of the player in the mode, as it is now.
    pub standing: ScoreInfo,
}

impl PlayerResult {
    /// The write that brings the stored standing of the player up to date.
    pub fn write(&self) -> (op: SqlOp)
        ensures
            op is UpdateScore,
            op->UpdateScore_user == self.user,
            op->UpdateScore_mode == self.mode,
            op->UpdateScore_score == self.standing.score,
            op->UpdateScore_wins == self.standing.wins,
            op->UpdateScore_losses == self.standing.losses,
    {
        SqlOp::UpdateScore {
            user: self.user.clone(),
            mode: self.mode.clone(),
            score: self.standing.score,
            wins: self.standing.wins,
            losses: self.standing.losses,
        }
    }
}

/// The finished game that a reply settles, if the reply settles one that is
/// on record with its result.
pub open spec fn settled_game(w: &World, reply: Reply) -> Option<int> {
    match reply {
        Reply::Settled { game, .. } => match w.game_at(game) {
            Some(g) => if w.games@[g].result is Some {
                Some(g)
            } else {
                None
            },
            None => None,
        },
        _ => None,
    }
}

/// Whether `r` is the result of the player in seat `k` of the game at `g`:
/// the player's identifier, the name of the game's mode, the change of the
/// player's team as the reply gives it, and the player's standing in the mode.
pub open spec fn result_at(w: &World, g: int, k: int, reply: Reply, r: PlayerResult) -> bool {
    let game = w.games@[g];
    let p = game.players@[k] as int;
    &&& r.user == w.users@[p].id
    &&& r.mode == w.modes@[game.mode as int].name
    &&& r.delta == if k < game.players@.len() / 2 {
        reply->Settled_delta_a
    } else {
        reply->Settled_delta_b
    }
    &&& r.standing == w.users@[p].rank@[game.mode as int]
}

impl World {
    /// The write that stores a user as the world holds it: its hero and its
    /// honor as they are now, not as a first login would set them. There is
    /// none for a user that is not known.
    pub fn upsert_of(&self, id: &str) -> (op: Option<SqlOp>)
        requires
            self.wf(),
        ensures
            match self.slot_of(id@) {
                None => op is None,
                Some(u) => {
                    &&& op is Some
                    &&& op->0 is UpsertUser
                    &&& op->0->UpsertUser_user == self.users@[u].id
                    &&& op->0->UpsertUser_hero == self.users@[u].hero
                    &&& op->0->UpsertUser_honor == self.users@[u].honor
                },
            },
    {
        match self.find_user(id) {
            None => None,
            Some(u) => Some(
                SqlOp::UpsertUser {
                    user: self.users[u].id.clone(),
                    hero: self.users[u].hero.clone(),
                    honor: self.users[u].honor,
                },
            ),
        }
    }

    /// What the game that `reply` settles did to its players, seat by seat:
    /// whom to tell which change, and which standing to write. A reply that
    /// settles no game on record gives nothing.
    pub fn results_of(&self, reply: Reply) -> (r: Vec<PlayerResult>)
        requires
            self.wf(),
        ensures
            match settled_game(self, reply) {
                None => r@.len() == 0,
                Some(g) => {
                    &&& r@.len() == self.games@[g].players@.len()
                    &&& forall|k: int|
                        0 <= k < r@.len() ==> result_at(self, g, k, reply, #[trigger] r@[k])
                },
            },
    {
        let mut out: Vec<PlayerResult> = Vec::new();
        let (id, delta_a, delta_b) = match reply {
            Reply::Settled { game, delta_a, delta_b } => (game, delta_a, delta_b),
            _ => {
                return out;
            },
        };
        let g = match self.find_game(id) {
            Some(g) => g,
            None => {
                return out;
            },
        };
        if self.games[g].result.is_none() {
            return out;
        }
        assert(game_wf(
            self.games@[g as int],
            self.users@.len() as int,
            self.next_game,
            self.modes@.len() as int,
        ));
        let game = &self.games[g];
        let n = game.players.len();
        let m = game.mode;
        let mut k: usize = 0;
        while k < n
            invariant
                self.wf(),
                g < self.games@.len(),
                *game == self.games@[g as int],
                settled_game(self, reply) == Some(g as int),
                reply == (Reply::Settled { game: id, delta_a, delta_b }),
                n == game.players@.len(),
                m == game.mode,
                m < self.modes@.len(),
                forall|i: int| 0 <= i < game.players@.len() ==> (#[trigger] game.players@[i]) < self.users@.len(),
                k <= n,
                out@.len() == k,
                forall|j: int| 0 <= j < k ==> result_at(self, g as int, j, reply, #[trigger] out@[j]),
            decreases n - k,
        {
            let p = game.players[k];
            assert(self.users@[p as int].rank@.len() == self.modes@.len());
            let result = PlayerResult {
                user: self.users[p].id.clone(),
                mode: self.modes[m].name.clone(),
                delta: if k < n / 2 {
                    delta_a
                } else {
                    delta_b
                },
                standing: self.users[p].rank[m],
            };
            out.push(result);
            k = k + 1;
        }
        out
    }

    /// The identifiers of the users in the given slots.
    pub(crate) fn names_of(&self, slots: &Vec<usize>) -> (names: Vec<String>)
        requires
            forall|k: int| 0 <= k < slots@.len() ==> (#[trigger] slots@[k]) < self.users@.len(),
        ensures
            named(self, slots@, names@),
    {
        let mut names: Vec<String> = Vec::new();
        let mut k: usize = 0;
        while k < slots.len()
            invariant
                k <= slots@.len(),
                forall|j: int| 0 <= j < slots@.len() ==> (#[trigger] slots@[j]) < self.users@.len(),
                names@.len() == k,
                forall|j: int| 0 <= j < k ==> (#[trigger] names@[j])@ == self.users@[slots@[j] as int].id@,
            decreases slots@.len() - k,
        {
            names.push(self.users[slots[k]].id.clone());
            k = k + 1;
        }
        names
    }

    /// The room the user is in, if the user is known and in a room.
    pub fn room_of(&self, user: &str) -> (r: Option<u64>)
        requires
            self.wf(),
        ensures
            r == (match self.slot_of(user@) {
                Some(u) => self.users@[u].room,
                None => None,
            }),
    {
        match self.find_user(user) {
            Some(u) => self.users[u].room,
            None => None,
        }
    }

    /// The state of the room with id `room`; a room that is no more is closed.
    pub fn state_of(&self, room: u64) -> (s: RoomState)
        requires
            self.wf(),
        ensures
            s == (match self.room_at(room) {
                Some(r) => self.rooms@[r].state,
                None => RoomState::Closed,
            }),
    {
        match self.find_room(room) {
            Some(r) => self.rooms[r].state,
            None => RoomState::Closed,
        }
    }

    /// The identifiers of the members of a room, the master first.
    pub fn members_of(&self, room: u64) -> (r: Option<Vec<String>>)
        requires
            self.wf(),
        ensures
            match self.room_at(room) {
                Some(i) => r is Some && named(self, self.rooms@[i].members@, r->0@),
                None => r is None,
            },
    {
        match self.find_room(room) {
            Some(i) => {
                assert(room_wf(
                    self.rooms@[i as int],
                    self.users@,
                    self.next_room,
                    self.modes@.len() as int,
                ));
                Some(self.names_of(&self.rooms[i].members))
            },
            None => None,
        }
    }

    /// The identifiers of the players of a game, the first team first.
    pub fn players_of(&self, game: u64) -> (r: Option<Vec<String>>)
        requires
            self.wf(),
        ensures
            match self.game_at(game) {
                Some(g) => r is Some && named(self, self.games@[g].players@, r->0@),
                None => r is None,
            },
    {
        match self.find_game(game) {
            Some(g) => {
                assert(game_wf(
                    self.games@[g as int],
                    self.users@.len() as int,
                    self.next_game,
                    self.modes@.len() as int,
                ));
                Some(self.names_of(&self.games[g].players))
            },
            None => None,
        }
    }

    /// The identifiers of the players of a game who have not accepted it.
    pub fn silent_of(&self, game: u64) -> (r: Option<Vec<String>>)
        requires
            self.wf(),
        ensures
            match self.game_at(game) {
                Some(g) => r is Some && named(
                    self,
                    silent(
                        self.games@[g].players@,
                        self.games@[g].acks@,
                        self.games@[g].players@.len() as int,
                    ),
                    r->0@,
                ),
                None => r is None,
            },
    {
        let g = match self.find_game(game) {
            Some(g) => g,
            None => {
                return None;
            },
        };
        assert(game_wf(
            self.games@[g as int],
            self.users@.len() as int,
            self.next_game,
            self.modes@.len() as int,
        ));
        let players = &self.games[g].players;
        let acks = &self.games[g].acks;
        let mut slots: Vec<usize> = Vec::new();
        let mut k: usize = 0;
        while k < players.len()
            invariant
                k <= players@.len(),
                acks@.len() == players@.len(),
                forall|j: int| 0 <= j < players@.len() ==> (#[trigger] players@[j]) < self.users@.len(),
                slots@ == silent(players@, acks@, k as int),
                forall|j: int| 0 <= j < slots@.len() ==> (#[trigger] slots@[j]) < self.users@.len(),
            decreases players@.len() - k,
        {
            if !acks[k] {
                slots.push(players[k]);
            }
            k = k + 1;
        }
        Some(self.names_of(&slots))
    }

    /// The ids of the proposals whose time is up at `now`, in the order the
    /// games are kept.
    pub fn lapsing(&self, now: u64) -> (ids: Vec<u64>)
        ensures
            ids@ == lapsing_among(self.games@, self.games@.len() as int, now),
    {
        let mut ids: Vec<u64> = Vec::new();
        let mut k: usize = 0;
        while k < self.games.len()
            invariant
                k <= self.games@.len(),
                ids@ == lapsing_among(self.games@, k as int, now),
            decreases self.games@.len() - k,
        {
            if !self.games[k].started && self.games[k].deadline <= now {
                ids.push(self.games[k].id);
            }
            k = k + 1;
        }
        ids
    }
}

} // verus!
