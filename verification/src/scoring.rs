//! The end of a game: the ratings of its players change, its rooms close,
//! and the record waits to be archived.

use crate::engine::{ErrorKind, Reply};
use crate::model::{holds, Room, RoomState, ScoreInfo, User};
use crate::rooms::released;
use crate::world::{game_wf, lemma_users_changed, World};
use crate::ticking::lemma_games_without;
use vstd::prelude::*;

verus! {

/// The ratings in mode `m` of the players seated from `from` up to `to`.
pub open spec fn seat_scores(users: Seq<User>, players: Seq<usize>, m: int, from: int, to: int) -> Seq<
    u32,
> {
    Seq::new((to - from) as nat, |k: int| users[players[from + k] as int].rank@[m].score)
}

/// The standings of the user in slot `x` once the first `k` seats of a
/// finished game have been settled: for each of these seats that the user
/// holds, the outcome is recorded in the standing in mode `m`. The first
/// `half` seats are the first team.
pub open spec fn rank_after(
    users: Seq<User>,
    players: Seq<usize>,
    k: int,
    half: int,
    m: int,
    delta_a: int,
    a_won: bool,
    x: int,
) -> Seq<ScoreInfo>
    decreases k,
{
    if k <= 0 {
        users[x].rank@
    } else {
        let earlier = rank_after(users, players, k - 1, half, m, delta_a, a_won, x);
        if players[k - 1] == x {
            earlier.update(
                m,
                earlier[m].after_game(
                    if k - 1 < half {
                        delta_a
                    } else {
                        -delta_a
                    },
                    (k - 1 < half) == a_won,
                ),
            )
        } else {
            earlier
        }
    }
}

/// Whether `after` are the users `before` once the first `k` seats of a
/// finished game have been settled: standings change, nothing else does.
pub open spec fn settled(
    before: Seq<User>,
    after: Seq<User>,
    players: Seq<usize>,
    k: int,
    half: int,
    m: int,
    delta_a: int,
    a_won: bool,
) -> bool {
    &&& after.len() == before.len()
    &&& forall|x: int|
        0 <= x < before.len() ==> {
            &&& (#[trigger] after[x]).id == before[x].id
            &&& after[x].hero == before[x].hero
            &&& after[x].honor == before[x].honor
            &&& after[x].online == before[x].online
            &&& after[x].room == before[x].room
            &&& after[x].black_list == before[x].black_list
            &&& after[x].rank@ == rank_after(before, players, k, half, m, delta_a, a_won, x)
        }
}

/// Settling a game keeps the number of standings of every user, touches the
/// standing in the game's mode only, and leaves the standings of a user who
/// did not play as they were.
pub proof fn lemma_rank_after(
    users: Seq<User>,
    players: Seq<usize>,
    k: int,
    half: int,
    m: int,
    delta_a: int,
    a_won: bool,
    x: int,
)
    requires
        0 <= k <= players.len(),
        0 <= m < users[x].rank@.len(),
    ensures
        rank_after(users, players, k, half, m, delta_a, a_won, x).len() == users[x].rank@.len(),
        forall|other: int|
            0 <= other < users[x].rank@.len() && other != m ==> rank_after(
                users,
                players,
                k,
                half,
                m,
                delta_a,
                a_won,
                x,
            )[other] == users[x].rank@[other],
        !holds(players.take(k), x) ==> rank_after(users, players, k, half, m, delta_a, a_won, x)
            == users[x].rank@,
    decreases k,
{
    if k > 0 {
        lemma_rank_after(users, players, k - 1, half, m, delta_a, a_won, x);
        assert(players.take(k)[k - 1] == players[k - 1]);
        if !holds(players.take(k), x) {
            if holds(players.take(k - 1), x) {
                let shorter = players.take(k - 1);
                let j = choose|j: int| 0 <= j < shorter.len() && #[trigger] shorter[j] == x;
                assert(players.take(k)[j] == x);
            }
        }
    }
}

/// The standings of a user who holds one seat and no other, once the first
/// `n` seats are settled: the outcome of that seat is recorded, once.
pub proof fn lemma_rank_single(
    users: Seq<User>,
    players: Seq<usize>,
    n: int,
    half: int,
    m: int,
    delta_a: int,
    a_won: bool,
    x: int,
    k: int,
)
    requires
        0 <= k < n <= players.len(),
        players[k] == x,
        forall|j: int| 0 <= j < n && j != k ==> #[trigger] players[j] != x,
        0 <= m < users[x].rank@.len(),
    ensures
        rank_after(users, players, n, half, m, delta_a, a_won, x) == users[x].rank@.update(
            m,
            users[x].rank@[m].after_game(
                if k < half {
                    delta_a
                } else {
                    -delta_a
                },
                (k < half) == a_won,
            ),
        ),
    decreases n,
{
    if n - 1 == k {
        lemma_rank_after(users, players, k, half, m, delta_a, a_won, x);
        if holds(players.take(k), x) {
            let shorter = players.take(k);
            let j = choose|j: int| 0 <= j < shorter.len() && #[trigger] shorter[j] == x;
            assert(players[j] == x);
        }
    } else {
        lemma_rank_single(users, players, n - 1, half, m, delta_a, a_won, x, k);
    }
}

/// Why the game at `g` may not be finished, if so.
pub open spec fn finish_refusal(w: &World, g: int) -> Option<ErrorKind> {
    if !w.games@[g].started {
        Some(ErrorKind::StateViolation)
    } else if w.games@[g].result is Some {
        Some(ErrorKind::Conflict)
    } else {
        None
    }
}

/// The change of rating of each player of the first team of the game at
/// `g`, should the first team have won or not. Games of a mode that is not
/// ranked change nothing.
pub open spec fn game_delta(w: &World, g: int, a_won: bool) -> int {
    let game = w.games@[g];
    let m = game.mode as int;
    let n = game.players@.len() as int;
    if w.modes@[m].ranked {
        crate::rating::delta_a(
            seat_scores(w.users@, game.players@, m, 0, n / 2),
            seat_scores(w.users@, game.players@, m, n / 2, n),
            a_won,
        )
    } else {
        0
    }
}

/// The number of seats of the game at `g` whose standings change when the
/// game is over: all of them if the mode is ranked, none otherwise.
pub open spec fn settled_seats(w: &World, g: int) -> int {
    if w.modes@[w.games@[g].mode as int].ranked {
        w.games@[g].players@.len() as int
    } else {
        0
    }
}

/// Whether the room belongs to the running game with id `id`.
pub open spec fn plays(room: Room, id: u64) -> bool {
    room.state == RoomState::InGame && room.game == id
}

/// Whether the user in slot `x` is a member of a room that belongs to the
/// running game with id `id`.
pub open spec fn plays_in(rooms: Seq<Room>, id: u64, x: int) -> bool {
    plays_among(rooms, rooms.len() as int, id, x)
}

/// Whether the user in slot `x` is a member of one of the first `k` rooms
/// that belongs to the running game with id `id`.
pub open spec fn plays_among(rooms: Seq<Room>, k: int, id: u64, x: int) -> bool {
    exists|i: int| 0 <= i < k && plays(#[trigger] rooms[i], id) && holds(rooms[i].members@, x)
}

/// Whether `after` is `before` once the game at `g` is over: the standings
/// of its players in the game's mode record the outcome (if the mode is
/// ranked), the result is on the game, and the rooms of the game are closed
/// with their members let go.
pub open spec fn finished(before: &World, after: &World, g: int, a_won: bool) -> bool {
    let game = before.games@[g];
    let delta = game_delta(before, g, a_won);
    &&& after.modes == before.modes
    &&& after.queue == before.queue
    &&& after.seen == before.seen
    &&& after.next_room == before.next_room
    &&& after.next_game == before.next_game
    &&& after.games@.len() == before.games@.len()
    &&& forall|j: int|
        0 <= j < before.games@.len() && j != g ==> #[trigger] after.games@[j] == before.games@[j]
    &&& after.games@[g].id == game.id
    &&& after.games@[g].mode == game.mode
    &&& after.games@[g].players == game.players
    &&& after.games@[g].acks == game.acks
    &&& after.games@[g].started
    &&& after.games@[g].started_at == game.started_at
    &&& after.games@[g].deadline == game.deadline
    &&& after.games@[g].result == Some(a_won)
    &&& after.users@.len() == before.users@.len()
    &&& forall|x: int|
        0 <= x < before.users@.len() ==> {
            &&& (#[trigger] after.users@[x]).id == before.users@[x].id
            &&& after.users@[x].hero == before.users@[x].hero
            &&& after.users@[x].honor == before.users@[x].honor
            &&& after.users@[x].online == before.users@[x].online
            &&& after.users@[x].black_list == before.users@[x].black_list
            &&& after.users@[x].room == if plays_in(before.rooms@, game.id, x) {
                None
            } else {
                before.users@[x].room
            }
            &&& after.users@[x].rank@ == rank_after(
                before.users@,
                game.players@,
                settled_seats(before, g),
                game.players@.len() as int / 2,
                game.mode as int,
                delta,
                a_won,
                x,
            )
        }
    &&& forall|i: int|
        0 <= i < after.rooms@.len() ==> before.rooms@.contains(#[trigger] after.rooms@[i]) && !plays(
            after.rooms@[i],
            game.id,
        )
    &&& forall|i: int|
        0 <= i < before.rooms@.len() && !plays(#[trigger] before.rooms@[i], game.id)
            ==> after.rooms@.contains(before.rooms@[i])
}

impl World {
    /// The ratings in mode `m` of the players seated from `from` up to `to`.
    pub(crate) fn scores_of(&self, g: usize, from: usize, to: usize) -> (scores: Vec<u32>)
        requires
            self.wf(),
            g < self.games@.len(),
            from <= to <= self.games@[g as int].players@.len(),
        ensures
            scores@ == seat_scores(
                self.users@,
                self.games@[g as int].players@,
                self.games@[g as int].mode as int,
                from as int,
                to as int,
            ),
    {
        let game = &self.games[g];
        let m = game.mode;
        assert(game_wf(
            self.games@[g as int],
            self.users@.len() as int,
            self.next_game,
            self.modes@.len() as int,
        ));
        let mut scores: Vec<u32> = Vec::new();
        let mut k: usize = from;
        while k < to
            invariant
                self.wf(),
                g < self.games@.len(),
                *game == self.games@[g as int],
                m == game.mode,
                m < self.modes@.len(),
                from <= k <= to,
                to <= game.players@.len(),
                forall|i: int| 0 <= i < game.players@.len() ==> (#[trigger] game.players@[i]) < self.users@.len(),
                scores@ == Seq::new(
                    (k - from) as nat,
                    |j: int| self.users@[game.players@[from + j] as int].rank@[m as int].score,
                ),
            decreases to - k,
        {
            let p = game.players[k];
            assert(self.users@[p as int].rank@.len() == self.modes@.len());
            scores.push(self.users[p].rank[m].score);
            k = k + 1;
            assert(scores@ =~= Seq::new(
                (k - from) as nat,
                |j: int| self.users@[game.players@[from + j] as int].rank@[m as int].score,
            ));
        }
        scores
    }

    /// Records the outcome of the game at `g` in the standings of its players.
    pub(crate) fn rate_players(&mut self, g: usize, delta_a: i64, a_won: bool)
        requires
            old(self).wf(),
            g < old(self).games@.len(),
            -32 <= delta_a <= 32,
        ensures
            final(self).wf(),
            final(self).same_but_users(old(self)),
            settled(
                old(self).users@,
                final(self).users@,
                old(self).games@[g as int].players@,
                old(self).games@[g as int].players@.len() as int,
                old(self).games@[g as int].players@.len() as int / 2,
                old(self).games@[g as int].mode as int,
                delta_a as int,
                a_won,
            ),
    {
        let n = self.games[g].players.len();
        let half = n / 2;
        let m = self.games[g].mode;
        let ghost players = self.games@[g as int].players@;
        assert(game_wf(
            self.games@[g as int],
            self.users@.len() as int,
            self.next_game,
            self.modes@.len() as int,
        ));
        let mut k: usize = 0;
        while k < n
            invariant
                self.wf(),
                old(self).wf(),
                self.same_but_users(old(self)),
                g < self.games@.len(),
                players == self.games@[g as int].players@,
                n == players.len(),
                half == n / 2,
                m == self.games@[g as int].mode,
                m < self.modes@.len(),
                k <= n,
                forall|i: int| 0 <= i < players.len() ==> (#[trigger] players[i]) < self.users@.len(),
                -32 <= delta_a <= 32,
                settled(
                    old(self).users@,
                    self.users@,
                    players,
                    k as int,
                    half as int,
                    m as int,
                    delta_a as int,
                    a_won,
                ),
            decreases n - k,
        {
            let p = self.games[g].players[k];
            let ghost mid = *self;
            assert(self.users@[p as int].rank@.len() == self.modes@.len());
            let delta = if k < half {
                delta_a
            } else {
                -delta_a
            };
            let won = (k < half) == a_won;
            let standing = self.users[p].rank[m].settle(delta, won);
            self.users[p].rank[m] = standing;
            proof {
                lemma_users_changed(&mid, self);
                assert forall|x: int| 0 <= x < old(self).users@.len() implies (
                #[trigger] self.users@[x]).rank@ == rank_after(
                    old(self).users@,
                    players,
                    k + 1,
                    half as int,
                    m as int,
                    delta_a as int,
                    a_won,
                    x,
                ) by {
                    assert(mid.users@[x].rank@ == rank_after(
                        old(self).users@,
                        players,
                        k as int,
                        half as int,
                        m as int,
                        delta_a as int,
                        a_won,
                        x,
                    ));
                    if x != p {
                        assert(self.users@[x] == mid.users@[x]);
                    }
                }
            }
            k = k + 1;
        }
    }
}

/// Whether `after` and `reply` are what the end of a game makes of `before`.
pub open spec fn game_over_post(before: &World, after: &World, game: u64, team_a_won: bool, reply: Reply) -> bool {
    match before.game_at(game) {
        None => reply == Reply::Failed(ErrorKind::NotFound) && *after == *before,
        Some(g) => match finish_refusal(before, g) {
            Some(e) => reply == Reply::Failed(e) && *after == *before,
            None => {
                &&& reply == (Reply::Settled {
                    game,
                    delta_a: game_delta(before, g, team_a_won) as i64,
                    delta_b: (-game_delta(before, g, team_a_won)) as i64,
                })
                &&& -32 <= game_delta(before, g, team_a_won) <= 32
                &&& finished(before, after, g, team_a_won)
            },
        },
    }
}

/// Whether `after` and `reply` are what the archiving of a game makes of
/// `before`.
pub open spec fn archive_post(before: &World, after: &World, game: u64, reply: Reply) -> bool {
    match before.game_at(game) {
        None => reply == Reply::Failed(ErrorKind::NotFound) && *after == *before,
        Some(g) => if before.games@[g].result is None {
            reply == Reply::Failed(ErrorKind::StateViolation) && *after == *before
        } else {
            &&& reply == Reply::Done
            &&& after.games@ == before.games@.remove(g)
            &&& after.modes == before.modes
            &&& after.users == before.users
            &&& after.rooms == before.rooms
            &&& after.queue == before.queue
            &&& after.seen == before.seen
            &&& after.next_room == before.next_room
            &&& after.next_game == before.next_game
        },
    }
}

impl World {
    /// Closes every room that belongs to the running game with id `id`.
    pub(crate) fn close_rooms(&mut self, id: u64)
        requires
            old(self).wf(),
        ensures
            final(self).wf(),
            final(self).same_but_rooms(old(self)),
            final(self).queue == old(self).queue,
            final(self).users@.len() == old(self).users@.len(),
            forall|x: int|
                0 <= x < old(self).users@.len() ==> #[trigger] final(self).users@[x] == if plays_in(
                    old(self).rooms@,
                    id,
                    x,
                ) {
                    (User { room: None, ..old(self).users@[x] })
                } else {
                    old(self).users@[x]
                },
            forall|i: int|
                0 <= i < final(self).rooms@.len() ==> old(self).rooms@.contains(
                    #[trigger] final(self).rooms@[i],
                ) && !plays(final(self).rooms@[i], id),
            forall|i: int|
                0 <= i < old(self).rooms@.len() && !plays(#[trigger] old(self).rooms@[i], id)
                    ==> final(self).rooms@.contains(old(self).rooms@[i]),
    {
        let mut i: usize = 0;
        let ghost mut done: int = 0;
        assert(self.rooms@.skip(0) =~= old(self).rooms@.skip(0));
        while i < self.rooms.len()
            invariant
                self.wf(),
                self.same_but_rooms(old(self)),
                self.queue == old(self).queue,
                self.users@.len() == old(self).users@.len(),
                0 <= done <= old(self).rooms@.len(),
                i <= self.rooms@.len(),
                self.rooms@.len() - i == old(self).rooms@.len() - done,
                self.rooms@.skip(i as int) == old(self).rooms@.skip(done),
                forall|x: int|
                    0 <= x < old(self).users@.len() ==> #[trigger] self.users@[x] == if plays_among(
                        old(self).rooms@,
                        done,
                        id,
                        x,
                    ) {
                        (User { room: None, ..old(self).users@[x] })
                    } else {
                        old(self).users@[x]
                    },
                forall|y: int|
                    0 <= y < i ==> old(self).rooms@.contains(#[trigger] self.rooms@[y]) && !plays(
                        self.rooms@[y],
                        id,
                    ),
                forall|j: int|
                    0 <= j < done && !plays(#[trigger] old(self).rooms@[j], id) ==> self.rooms@.take(
                        i as int,
                    ).contains(old(self).rooms@[j]),
            decreases self.rooms@.len() - i,
        {
            let ghost mid = *self;
            let ghost kept = self.rooms@.take(i as int);
            proof {
                assert(self.rooms@.skip(i as int)[0] == self.rooms@[i as int]);
                assert(old(self).rooms@.skip(done)[0] == old(self).rooms@[done]);
                assert(self.rooms@[i as int] == old(self).rooms@[done]);
            }
            let over = match self.rooms[i].state {
                RoomState::InGame => self.rooms[i].game == id,
                _ => false,
            };
            if over {
                self.dissolve(i);
                proof {
                    let gone = old(self).rooms@[done];
                    assert forall|y: int| 0 <= y < self.rooms@.len() - i implies self.rooms@.skip(
                        i as int,
                    )[y] == old(self).rooms@.skip(done + 1)[y] by {
                        assert(self.rooms@[i + y] == mid.rooms@[i + y + 1]);
                        assert(mid.rooms@.skip(i as int)[y + 1] == mid.rooms@[i + y + 1]);
                        assert(old(self).rooms@.skip(done)[y + 1] == old(self).rooms@[done + y + 1]);
                    }
                    assert(self.rooms@.skip(i as int) =~= old(self).rooms@.skip(done + 1));
                    assert(self.rooms@.take(i as int) =~= kept);
                    assert forall|x: int| 0 <= x < old(self).users@.len() implies #[trigger] self.users@[x]
                        == if plays_among(old(self).rooms@, done + 1, id, x) {
                        (User { room: None, ..old(self).users@[x] })
                    } else {
                        old(self).users@[x]
                    } by {
                        if plays_among(old(self).rooms@, done, id, x) {
                            let r = choose|r: int|
                                0 <= r < done && plays(#[trigger] old(self).rooms@[r], id) && holds(
                                    old(self).rooms@[r].members@,
                                    x,
                                );
                            assert(plays_among(old(self).rooms@, done + 1, id, x));
                        } else if holds(gone.members@, x) {
                            assert(plays_among(old(self).rooms@, done + 1, id, x));
                        } else {
                            if plays_among(old(self).rooms@, done + 1, id, x) {
                                let r = choose|r: int|
                                    0 <= r < done + 1 && plays(#[trigger] old(self).rooms@[r], id)
                                        && holds(old(self).rooms@[r].members@, x);
                                assert(r < done);
                            }
                        }
                    }
                    assert forall|y: int| 0 <= y < i implies old(self).rooms@.contains(
                        #[trigger] self.rooms@[y],
                    ) && !plays(self.rooms@[y], id) by {
                        assert(self.rooms@[y] == mid.rooms@[y]);
                    }
                    done = done + 1;
                }
            } else {
                i = i + 1;
                proof {
                    assert forall|y: int| 0 <= y < self.rooms@.len() - i implies self.rooms@.skip(
                        i as int,
                    )[y] == old(self).rooms@.skip(done + 1)[y] by {
                        assert(self.rooms@.skip(i - 1)[y + 1] == self.rooms@[i + y]);
                        assert(old(self).rooms@.skip(done)[y + 1] == old(self).rooms@[done + y + 1]);
                    }
                    assert(self.rooms@.skip(i as int) =~= old(self).rooms@.skip(done + 1));
                    assert forall|x: int| 0 <= x < old(self).users@.len() implies #[trigger] self.users@[x]
                        == if plays_among(old(self).rooms@, done + 1, id, x) {
                        (User { room: None, ..old(self).users@[x] })
                    } else {
                        old(self).users@[x]
                    } by {
                        if plays_among(old(self).rooms@, done + 1, id, x) {
                            let r = choose|r: int|
                                0 <= r < done + 1 && plays(#[trigger] old(self).rooms@[r], id) && holds(
                                    old(self).rooms@[r].members@,
                                    x,
                                );
                            assert(r < done);
                            assert(plays_among(old(self).rooms@, done, id, x));
                        }
                        if plays_among(old(self).rooms@, done, id, x) {
                            let r = choose|r: int|
                                0 <= r < done && plays(#[trigger] old(self).rooms@[r], id) && holds(
                                    old(self).rooms@[r].members@,
                                    x,
                                );
                            assert(plays_among(old(self).rooms@, done + 1, id, x));
                        }
                    }
                    assert(old(self).rooms@.contains(old(self).rooms@[done]));
                    assert forall|j: int|
                        0 <= j < done + 1 && !plays(
                            #[trigger] old(self).rooms@[j],
                            id,
                        ) implies self.rooms@.take(i as int).contains(old(self).rooms@[j]) by {
                        if j < done {
                            let y = choose|y: int| 0 <= y < kept.len() && kept[y] == old(self).rooms@[j];
                            assert(self.rooms@.take(i as int)[y] == kept[y]);
                        } else {
                            assert(self.rooms@.take(i as int)[i - 1] == old(self).rooms@[j]);
                        }
                    }
                    done = done + 1;
                }
            }
        }
        proof {
            assert(self.rooms@.take(i as int) =~= self.rooms@);
        }
    }

    /// A running game ends. The outcome is recorded in the standings of the
    /// players, once; the rooms of the game are closed; the record of the
    /// game stays until it is archived.
    pub fn game_over(&mut self, game: u64, team_a_won: bool) -> (reply: Reply)
        requires
            old(self).wf(),
        ensures
            final(self).wf(),
            game_over_post(old(self), final(self), game, team_a_won, reply),
    {
        let g = match self.find_game(game) {
            Some(g) => g,
            None => {
                return Reply::Failed(ErrorKind::NotFound);
            },
        };
        if !self.games[g].started {
            return Reply::Failed(ErrorKind::StateViolation);
        }
        if self.games[g].result.is_some() {
            return Reply::Failed(ErrorKind::Conflict);
        }
        assert(game_wf(
            self.games@[g as int],
            self.users@.len() as int,
            self.next_game,
            self.modes@.len() as int,
        ));
        let n = self.games[g].players.len();
        let m = self.games[g].mode;
        let ranked = self.modes[m].ranked;
        let delta: i64 = if ranked {
            let scores_a = self.scores_of(g, 0, n / 2);
            let scores_b = self.scores_of(g, n / 2, n);
            crate::rating::team_delta(&scores_a, &scores_b, team_a_won)
        } else {
            0
        };
        if ranked {
            self.rate_players(g, delta, team_a_won);
        }
        let ghost rated = *self;
        self.games[g].result = Some(team_a_won);
        proof {
            let users = self.users@.len() as int;
            let modes = self.modes@.len() as int;
            assert forall|i: int| 0 <= i < self.games@.len() implies game_wf(
                #[trigger] self.games@[i],
                users,
                self.next_game,
                modes,
            ) by {
                assert(game_wf(rated.games@[i], users, rated.next_game, modes));
            }
            assert forall|i: int, j: int|
                0 <= i < self.games@.len() && 0 <= j < self.games@.len() && i != j implies (
            #[trigger] self.games@[i]).id != (#[trigger] self.games@[j]).id by {
                assert(self.games@[i].id == rated.games@[i].id);
                assert(self.games@[j].id == rated.games@[j].id);
            }
        }
        let ghost marked = *self;
        self.close_rooms(game);
        proof {
            let was = old(self).games@[g as int];
            assert(was.id == game);
            assert(delta == game_delta(old(self), g as int, team_a_won));
            assert(rated.rooms == old(self).rooms);
            assert(marked.users == rated.users);
            assert(settled(
                old(self).users@,
                rated.users@,
                was.players@,
                settled_seats(old(self), g as int),
                was.players@.len() as int / 2,
                was.mode as int,
                delta as int,
                team_a_won,
            ));
            assert forall|x: int| 0 <= x < old(self).users@.len() implies {
                &&& (#[trigger] self.users@[x]).id == old(self).users@[x].id
                &&& self.users@[x].hero == old(self).users@[x].hero
                &&& self.users@[x].honor == old(self).users@[x].honor
                &&& self.users@[x].online == old(self).users@[x].online
                &&& self.users@[x].black_list == old(self).users@[x].black_list
                &&& self.users@[x].room == if plays_in(old(self).rooms@, was.id, x) {
                    None
                } else {
                    old(self).users@[x].room
                }
                &&& self.users@[x].rank@ == rank_after(
                    old(self).users@,
                    was.players@,
                    settled_seats(old(self), g as int),
                    was.players@.len() as int / 2,
                    was.mode as int,
                    delta as int,
                    team_a_won,
                    x,
                )
            } by {
                assert(rated.users@[x].id == old(self).users@[x].id);
                assert(self.users@[x] == if plays_in(marked.rooms@, game, x) {
                    (User { room: None, ..marked.users@[x] })
                } else {
                    marked.users@[x]
                });
            }
            assert forall|j: int| 0 <= j < old(self).games@.len() && j != g implies #[trigger] self.games@[j]
                == old(self).games@[j] by {
                assert(marked.games@[j] == rated.games@[j]);
            }
        }
        Reply::Settled { game, delta_a: delta, delta_b: -delta }
    }

    /// Takes the record of a finished game away.
    pub fn archive(&mut self, game: u64) -> (reply: Reply)
        requires
            old(self).wf(),
        ensures
            final(self).wf(),
            archive_post(old(self), final(self), game, reply),
    {
        let g = match self.find_game(game) {
            Some(g) => g,
            None => {
                return Reply::Failed(ErrorKind::NotFound);
            },
        };
        if self.games[g].result.is_none() {
            return Reply::Failed(ErrorKind::StateViolation);
        }
        self.games.remove(g);
        proof {
            lemma_games_without(
                old(self).games@,
                g as int,
                self.users@.len() as int,
                self.next_game,
                self.modes@.len() as int,
            );
        }
        Reply::Done
    }
}

} // verus!
