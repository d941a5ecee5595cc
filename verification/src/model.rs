//! The entities of the world model: modes, users, rooms, queue entries and
//! games.
//!
//! Users live in a table that only grows, so a user is referred to by its
//! position in that table (its slot) wherever the model points at one; the
//! string identifier is what the outside world uses.

use vstd::prelude::*;

verus! {

/// Rating of a user who has not played a mode yet.
pub const START_SCORE: u32 = 1000;

/// Honor of a user who has just been created.
pub const START_HONOR: i64 = 50;

/// A named game format.
pub struct Mode {
    pub name: String,
    /// Number of players on each side.
    pub team_size: usize,
    /// Whether games of this mode change ratings.
    pub ranked: bool,
}

/// A user's standing in one mode.
#[derive(Clone, Copy, Debug, PartialEq, Eq, Structural)]
pub struct ScoreInfo {
    pub score: u32,
    pub wins: u32,
    pub losses: u32,
}

/// One more, unless the counter is full.
pub open spec fn bumped(n: u32) -> u32 {
    if n == u32::MAX {
        n
    } else {
        (n + 1) as u32
    }
}

impl ScoreInfo {
    /// The standing after a game that changed the rating by `delta`.
    pub open spec fn after_game(self, delta: int, won: bool) -> ScoreInfo {
        ScoreInfo {
            score: crate::rating::rated(self.score, delta) as u32,
            wins: if won {
                bumped(self.wins)
            } else {
                self.wins
            },
            losses: if won {
                self.losses
            } else {
                bumped(self.losses)
            },
        }
    }

    /// The standing of a user who has not played yet.
    pub fn fresh() -> (s: ScoreInfo)
        ensures
            s == (ScoreInfo { score: START_SCORE, wins: 0, losses: 0 }),
    {
        ScoreInfo { score: START_SCORE, wins: 0, losses: 0 }
    }

    /// Records the outcome of one game.
    pub fn settle(self, delta: i64, won: bool) -> (s: ScoreInfo)
        ensures
            s == self.after_game(delta as int, won),
    {
        let score = crate::rating::apply_delta(self.score, delta);
        let wins = if won && self.wins < u32::MAX {
            self.wins + 1
        } else {
            self.wins
        };
        let losses = if !won && self.losses < u32::MAX {
            self.losses + 1
        } else {
            self.losses
        };
        ScoreInfo { score, wins, losses }
    }
}

/// A user known to the engine.
pub struct User {
    pub id: String,
    pub hero: String,
    pub honor: i64,
    pub online: bool,
    /// Standing in each configured mode, by the mode's position.
    pub rank: Vec<ScoreInfo>,
    /// The room the user is a member of, if any.
    pub room: Option<u64>,
    /// Identifiers of the users this user refuses to play against.
    pub black_list: Vec<String>,
}

/// Where a room stands in its life.
#[derive(Clone, Copy, Debug, PartialEq, Eq, Structural)]
pub enum RoomState {
    Idle,
    Queued,
    Prestart,
    InGame,
    Closed,
}

/// A party of users. The first member is the master.
pub struct Room {
    pub id: u64,
    /// Slots of the members, oldest first.
    pub members: Vec<usize>,
    pub state: RoomState,
    /// Position of the mode the room queued for; meaningful unless idle.
    pub mode: usize,
    /// The game the room was matched into; meaningful in prestart and in game.
    pub game: u64,
    pub created_at: u64,
    pub queued_at: u64,
}

/// A party waiting for a match.
#[derive(Clone, Copy, Debug, PartialEq, Eq, Structural)]
pub struct QueueEntry {
    pub room_id: u64,
    pub mode: usize,
    pub party_size: usize,
    pub team_score_avg: u32,
    pub entered_at: u64,
}

/// A match: proposed while its players have yet to accept, started once all
/// of them have, finished once a result is recorded.
pub struct Game {
    pub id: u64,
    pub mode: usize,
    /// Slots of the players: the first half is the first team, the second
    /// half the second.
    pub players: Vec<usize>,
    /// For each player, whether the player has accepted the match.
    pub acks: Vec<bool>,
    pub started: bool,
    /// When the proposal lapses if not everyone has accepted.
    pub deadline: u64,
    pub started_at: u64,
    /// Whether the first team won, once the game is over.
    pub result: Option<bool>,
}

/// Whether slot `x` is among `members`.
pub open spec fn holds(members: Seq<usize>, x: int) -> bool {
    exists|k: int| 0 <= k < members.len() && #[trigger] members[k] == x
}

impl QueueEntry {
    /// Whether this entry comes before `other` in the queue: the older entry
    /// first, and of two of the same age the one with the smaller room id.
    pub open spec fn before(self, other: QueueEntry) -> bool {
        self.entered_at < other.entered_at || (self.entered_at == other.entered_at && self.room_id
            < other.room_id)
    }

    #[verifier::when_used_as_spec(before)]
    pub fn comes_before(self, other: QueueEntry) -> (b: bool)
        ensures
            b == self.before(other),
    {
        self.entered_at < other.entered_at || (self.entered_at == other.entered_at && self.room_id
            < other.room_id)
    }
}

impl Game {
    /// Number of players on each side.
    pub open spec fn half(self) -> int {
        (self.players@.len() / 2) as int
    }

    /// The first team.
    pub open spec fn team_a(self) -> Seq<usize> {
        self.players@.subrange(0, self.half())
    }

    /// The second team.
    pub open spec fn team_b(self) -> Seq<usize> {
        self.players@.subrange(self.half(), self.players@.len() as int)
    }

    /// Whether every player has accepted.
    pub open spec fn unanimous(self) -> bool {
        forall|i: int| 0 <= i < self.acks@.len() ==> #[trigger] self.acks@[i]
    }
}

} // verus!
