//! What holds of every request the engine handles.

use crate::engine::{
    answers, dispatched, handled, lemma_recalled_later, lemma_recalled_push, repeat_of, Event, Reply, Request,
};
use crate::members::{distinct_names, leaves_on_logout, lemma_all_distinct, logged_out};
use crate::rooms::{leave_refusal, slot_pos};
use crate::world::{entry_of, has_room, in_queue};
use crate::model::{holds, Mode, RoomState};
use crate::prestart::{accepted, declined, seat};
use crate::scoring::{
    finished, finish_refusal, lemma_rank_after, lemma_rank_single, settled_seats,
};
use crate::world::{game_wf, World, DEDUP_WINDOW_MS};
use vstd::prelude::*;

verus! {

/// The names of the modes, in order.
pub open spec fn mode_names(modes: Seq<Mode>) -> Seq<String> {
    Seq::new(modes.len(), |i: int| modes[i].name)
}

/// Every user has one standing for each different name of a mode, no more
/// and no fewer.
pub proof fn one_standing_per_mode_name(w: World, x: int)
    requires
        w.wf(),
        0 <= x < w.users@.len(),
    ensures
        w.users@[x].rank@.len() == distinct_names(mode_names(w.modes@), w.modes@.len() as int),
{
    let names = mode_names(w.modes@);
    assert forall|i: int, j: int|
        0 <= i < names.len() && 0 <= j < names.len() && i != j implies (#[trigger] names[i])@ != (
    #[trigger] names[j])@ by {
        assert(w.modes@[i].name@ != w.modes@[j].name@);
    }
    lemma_all_distinct(names, names.len() as int);
}

/// Handling a request never takes a user away, and never changes the
/// identifier of one.
pub proof fn users_stay(before: World, req: Request, after: World, reply: Reply, x: int)
    requires
        before.wf(),
        handled(&before, &req, &after, reply),
        0 <= x < before.users@.len(),
    ensures
        x < after.users@.len(),
        after.users@[x].id == before.users@[x].id,
        after.users@[x].rank@.len() == before.users@[x].rank@.len(),
{
    if repeat_of(&before, &req) is None && !(req.event is Reset) {
        let shown = World { seen: before.seen, ..after };
        assert(dispatched(&before, &req, &shown, reply));
        match req.event {
            Event::GameOver { game, team_a_won } => {
                if before.game_at(game) is Some && finish_refusal(
                    &before,
                    before.game_at(game)->0,
                ) is None {
                    let g = before.game_at(game)->0;
                    assert(finished(&before, &shown, g, team_a_won));
                    assert(game_wf(
                        before.games@[g],
                        before.users@.len() as int,
                        before.next_game,
                        before.modes@.len() as int,
                    ));
                    lemma_rank_after(
                        before.users@,
                        before.games@[g].players@,
                        settled_seats(&before, g),
                        before.games@[g].players@.len() as int / 2,
                        before.games@[g].mode as int,
                        crate::scoring::game_delta(&before, g, team_a_won),
                        team_a_won,
                        x,
                    );
                }
            },
            _ => {},
        }
    }
}

/// The rating of a user changes only when a game is over in which the user
/// played, and then only in the mode of that game.
pub proof fn rating_changes_only_for_players(
    before: World,
    req: Request,
    after: World,
    reply: Reply,
    x: int,
    m: int,
)
    requires
        before.wf(),
        handled(&before, &req, &after, reply),
        0 <= x < before.users@.len(),
        0 <= m < before.modes@.len(),
        x < after.users@.len(),
        after.users@[x].rank@[m] != before.users@[x].rank@[m],
    ensures
        req.event is GameOver,
        before.game_at(req.event->GameOver_game) is Some,
        holds(before.games@[before.game_at(req.event->GameOver_game)->0].players@, x),
        before.games@[before.game_at(req.event->GameOver_game)->0].mode == m,
{
    assert(repeat_of(&before, &req) is None);
    assert(!(req.event is Reset));
    let shown = World { seen: before.seen, ..after };
    assert(dispatched(&before, &req, &shown, reply));
    assert(shown.users == after.users);
    assert(before.users@[x].rank@.len() == before.modes@.len());
    match req.event {
        Event::GameOver { game, team_a_won } => {
            assert(before.game_at(game) is Some);
            let g = before.game_at(game)->0;
            assert(finish_refusal(&before, g) is None);
            assert(finished(&before, &shown, g, team_a_won));
            let players = before.games@[g].players@;
            assert(game_wf(
                before.games@[g],
                before.users@.len() as int,
                before.next_game,
                before.modes@.len() as int,
            ));
            lemma_rank_after(
                before.users@,
                players,
                settled_seats(&before, g),
                players.len() as int / 2,
                before.games@[g].mode as int,
                crate::scoring::game_delta(&before, g, team_a_won),
                team_a_won,
                x,
            );
            let k = settled_seats(&before, g);
            if !holds(players, x) {
                if holds(players.take(k), x) {
                    let j = choose|j: int| 0 <= j < players.take(k).len() && players.take(k)[j] == x;
                    assert(players[j] == x);
                }
            }
        },
        _ => {},
    }
}

/// When a user who is online logs out of a room that is idle or queued, the
/// user is in no room afterwards and offline, the room keeps its other
/// members in their order or is closed if there is none, no other user
/// moves, and the queue holds no entry of the room.
pub proof fn logout_takes_the_user_out_of_its_room(
    before: World,
    req: Request,
    after: World,
    reply: Reply,
    u: int,
    r: int,
)
    requires
        before.wf(),
        after.wf(),
        handled(&before, &req, &after, reply),
        repeat_of(&before, &req) is None,
        req.event is Logout,
        before.slot_of(req.user@) == Some(u),
        before.users@[u].online,
        before.users@[u].room is Some,
        before.room_at(before.users@[u].room->0) == Some(r),
        before.rooms@[r].state == RoomState::Idle || before.rooms@[r].state == RoomState::Queued,
    ensures
        reply == Reply::Done,
        after.users@.len() == before.users@.len(),
        after.users@[u].room is None,
        !after.users@[u].online,
        forall|x: int| 0 <= x < before.users@.len() && x != u ==> #[trigger] after.users@[x] == before.users@[x],
        !in_queue(after.queue@, before.rooms@[r].id),
        after.room_at(before.rooms@[r].id) is Some ==> before.rooms@[r].members@.len() > 1,
        if before.rooms@[r].members@.len() == 1 {
            after.rooms@ == before.rooms@.remove(r)
        } else {
            &&& after.rooms@.len() == before.rooms@.len()
            &&& forall|i: int|
                0 <= i < before.rooms@.len() && i != r ==> #[trigger] after.rooms@[i] == before.rooms@[i]
            &&& after.rooms@[r].id == before.rooms@[r].id
            &&& after.rooms@[r].state == RoomState::Idle
            &&& after.rooms@[r].members@ == before.rooms@[r].members@.remove(
                slot_pos(before.rooms@[r].members@, u),
            )
        },
{
    let shown = World { seen: before.seen, ..after };
    assert(dispatched(&before, &req, &shown, reply));
    assert(leave_refusal(&before, r) is None);
    assert(leaves_on_logout(&before, u));
    assert(logged_out(&before, &shown, u));
    let id = before.rooms@[r].id;
    assert(id == before.users@[u].room->0);
    if before.rooms@[r].members@.len() == 1 {
        if after.room_at(id) is Some {
            let c = choose|c: int| 0 <= c < after.rooms@.len() && (#[trigger] after.rooms@[c]).id == id;
            let o = if c < r {
                c
            } else {
                c + 1
            };
            assert(after.rooms@[c] == before.rooms@[o]);
            assert(before.rooms@[o].id == before.rooms@[r].id);
        }
        if in_queue(after.queue@, id) {
            let q = choose|q: int| 0 <= q < after.queue@.len() && (#[trigger] after.queue@[q]).room_id == id;
            assert(has_room(after.queue@[q], after.rooms@));
            let c = choose|c: int| 0 <= c < after.rooms@.len() && entry_of(after.queue@[q], #[trigger] after.rooms@[c]);
            assert(after.rooms@[c].id == id);
            let o = if c < r {
                c
            } else {
                c + 1
            };
            assert(after.rooms@[c] == before.rooms@[o]);
            assert(before.rooms@[o].id == before.rooms@[r].id);
        }
    } else {
        crate::world::queued_once(after, r);
    }
}

/// A login leaves the standings of a user who is known as they are: what
/// was brought back from the store is not set back to the start.
pub proof fn login_keeps_standings(before: World, req: Request, after: World, reply: Reply, u: int)
    requires
        before.wf(),
        handled(&before, &req, &after, reply),
        req.event is Login,
        before.slot_of(req.user@) == Some(u),
    ensures
        u < after.users@.len(),
        after.users@[u].rank == before.users@[u].rank,
        repeat_of(&before, &req) is None ==> after.users@[u].online,
{
    if repeat_of(&before, &req) is None {
        let shown = World { seen: before.seen, ..after };
        assert(dispatched(&before, &req, &shown, reply));
    }
}

/// When a game of a ranked mode is over, the standing of a player in the
/// mode of the game records the outcome of its seat, once: the rating moves
/// by the change of its team and stays at zero or above, and the wins or
/// the losses grow by one.
pub proof fn player_standing_after_game(
    before: World,
    req: Request,
    after: World,
    reply: Reply,
    k: int,
)
    requires
        before.wf(),
        handled(&before, &req, &after, reply),
        repeat_of(&before, &req) is None,
        req.event is GameOver,
        reply is Settled,
        before.game_at(req.event->GameOver_game) is Some,
        ({
            let game = before.games@[before.game_at(req.event->GameOver_game)->0];
            &&& before.modes@[game.mode as int].ranked
            &&& 0 <= k < game.players@.len()
        }),
    ensures
        ({
            let game = before.games@[before.game_at(req.event->GameOver_game)->0];
            let x = game.players@[k] as int;
            let m = game.mode as int;
            let first = k < game.players@.len() as int / 2;
            &&& x < after.users@.len()
            &&& after.users@[x].rank@[m] == before.users@[x].rank@[m].after_game(
                if first {
                    reply->Settled_delta_a as int
                } else {
                    reply->Settled_delta_b as int
                },
                first == req.event->GameOver_team_a_won,
            )
        }),
{
    let shown = World { seen: before.seen, ..after };
    assert(dispatched(&before, &req, &shown, reply));
    let g = before.game_at(req.event->GameOver_game)->0;
    let game = before.games@[g];
    assert(finish_refusal(&before, g) is None);
    assert(finished(&before, &shown, g, req.event->GameOver_team_a_won));
    assert(game_wf(game, before.users@.len() as int, before.next_game, before.modes@.len() as int));
    let x = game.players@[k] as int;
    assert(before.users@[x].rank@.len() == before.modes@.len());
    assert forall|j: int| 0 <= j < game.players@.len() && j != k implies #[trigger] game.players@[j]
        != x by {
        assert(game.players@[j] != game.players@[k]);
    }
    lemma_rank_single(
        before.users@,
        game.players@,
        game.players@.len() as int,
        game.players@.len() as int / 2,
        game.mode as int,
        crate::scoring::game_delta(&before, g, req.event->GameOver_team_a_won),
        req.event->GameOver_team_a_won,
        x,
        k,
    );
}

/// The rating changes of a finished game add up to zero over its players.
pub proof fn game_deltas_sum_to_zero(
    before: World,
    req: Request,
    after: World,
    reply: Reply,
)
    requires
        before.wf(),
        handled(&before, &req, &after, reply),
        repeat_of(&before, &req) is None,
        req.event is GameOver,
        reply is Settled,
    ensures
        before.game_at(req.event->GameOver_game) is Some,
        ({
            let game = before.games@[before.game_at(req.event->GameOver_game)->0];
            let half = game.players@.len() as int / 2;
            &&& game.team_a().len() == half
            &&& game.team_b().len() == half
            &&& half * reply->Settled_delta_a + half * reply->Settled_delta_b == 0
        }),
{
    let shown = World { seen: before.seen, ..after };
    assert(dispatched(&before, &req, &shown, reply));
    let g = before.game_at(req.event->GameOver_game)->0;
    let game = before.games@[g];
    assert(game_wf(
        game,
        before.users@.len() as int,
        before.next_game,
        before.modes@.len() as int,
    ));
    let half = game.players@.len() as int / 2;
    let a = reply->Settled_delta_a as int;
    let b = reply->Settled_delta_b as int;
    assert(b == -a);
    assert(half * a + half * b == 0) by (nonlinear_arith)
        requires
            b == -a,
    ;
}

/// A request that is delivered again within the window changes nothing and
/// gets the answer it got the first time.
pub proof fn replay_changes_nothing(
    before: World,
    req: Request,
    after: World,
    reply: Reply,
    again: Request,
    last: World,
    answer: Reply,
)
    requires
        before.wf(),
        req.request is Some,
        !(req.event is Reset),
        repeat_of(&before, &req) is None,
        handled(&before, &req, &after, reply),
        again.user@ == req.user@,
        again.verb == req.verb,
        again.request == req.request,
        req.now <= again.now <= req.now + DEDUP_WINDOW_MS,
        handled(&after, &again, &last, answer),
    ensures
        last == after,
        answer == reply,
{
    let id = req.request->0;
    let record = after.seen@.last();
    assert(after.seen@ =~= before.seen@.push(record));
    lemma_recalled_later(before.seen@, req.user@, req.verb, id, req.now, again.now);
    lemma_recalled_push(before.seen@, record, req.user@, req.verb, id, again.now);
    assert(answers(record, req.user@, req.verb, id, again.now));
}

/// In the side of the seed, the party that has waited longer joins no later
/// than a younger one: of two parties that wait for the mode and are rated
/// within the seed's window, if the younger joins the seed and the older is
/// no larger, the older joins too.
pub proof fn older_party_joins_first(w: World, m: int, s: int, now: u64, i: int, j: int)
    requires
        w.wf(),
        0 <= m < w.modes@.len(),
        0 <= s < w.queue@.len(),
        w.queue@[s].party_size <= w.modes@[m].team_size,
        0 <= i < j < w.queue@.len(),
        i != s,
        w.near(m, s, now, i),
        w.queue@[i].party_size <= w.queue@[j].party_size,
        w.joiners(m, s, now)[j],
    ensures
        w.joiners(m, s, now)[i],
        w.queue@[i].before(w.queue@[j]),
{
    crate::matchmaking::older_party_first(
        w.sizes(),
        w.eligible_a(m, s, now),
        w.places_left(m, s),
        i,
        j,
    );
}

/// On the other side too, the party that has waited longer stands no later
/// than a younger one: of two parties that may oppose the seed's side, if
/// the younger is chosen and the older is no larger, the older is chosen too.
pub proof fn older_party_opposes_first(w: World, m: int, s: int, now: u64, i: int, j: int)
    requires
        w.wf(),
        0 <= m < w.modes@.len(),
        0 <= s < w.queue@.len(),
        0 <= i < j < w.queue@.len(),
        w.eligible_b(m, s, now)[i],
        w.queue@[i].party_size <= w.queue@[j].party_size,
        w.side_b(m, s, now)[j],
    ensures
        w.side_b(m, s, now)[i],
        w.queue@[i].before(w.queue@[j]),
{
    crate::matchmaking::older_party_first(
        w.sizes(),
        w.eligible_b(m, s, now),
        w.modes@[m].team_size as int,
        i,
        j,
    );
}

/// A room is in game only if it was in game before, or if the request is an
/// acceptance that completed the acknowledgements of the room's game.
pub proof fn in_game_only_after_all_accepted(
    before: World,
    req: Request,
    after: World,
    reply: Reply,
    j: int,
)
    requires
        before.wf(),
        after.wf(),
        handled(&before, &req, &after, reply),
        0 <= j < after.rooms@.len(),
        after.rooms@[j].state == RoomState::InGame,
        forall|i: int|
            0 <= i < before.rooms@.len() && (#[trigger] before.rooms@[i]).id == after.rooms@[j].id
                ==> before.rooms@[i].state != RoomState::InGame,
    ensures
        req.event == (Event::Prestart { accept: true }),
        after.game_at(after.rooms@[j].game) is Some,
        after.games@[after.game_at(after.rooms@[j].game)->0].started,
        after.games@[after.game_at(after.rooms@[j].game)->0].unanimous(),
{
    assert(repeat_of(&before, &req) is None) by {
        if repeat_of(&before, &req) is Some {
            assert(before.rooms@[j] == after.rooms@[j]);
        }
    }
    let shown = World { seen: before.seen, ..after };
    assert(shown.rooms == after.rooms);
    assert(shown.games == after.games);
    let room = after.rooms@[j];
    match req.event {
        Event::Reset => {},
        Event::Prestart { accept } => {
            assert(dispatched(&before, &req, &shown, reply));
            assert(before.rooms@.len() == after.rooms@.len() ==> before.rooms@[j].id == room.id
                || before.rooms@[j] == room);
            let u = before.slot_of(req.user@)->0;
            let id = before.users@[u].room->0;
            let r = before.room_at(id)->0;
            let g = before.game_at(before.rooms@[r].game)->0;
            assert(accept);
            assert(accepted(&before, &shown, g, seat(before.games@[g].players@, u), req.now));
            assert(after.games@[g].id == room.game);
            assert(game_wf(
                after.games@[g],
                after.users@.len() as int,
                after.next_game,
                after.modes@.len() as int,
            ));
            let c = choose|c: int| 0 <= c < after.games@.len() && (#[trigger] after.games@[c]).id == room.game;
            assert(after.games@[c].id == after.games@[g].id);
        },
        Event::GameOver { game, team_a_won } => {
            assert(dispatched(&before, &req, &shown, reply));
            assert(before.rooms@.contains(room) || before.rooms@ == after.rooms@);
            if before.rooms@.contains(room) {
                let i = choose|i: int| 0 <= i < before.rooms@.len() && before.rooms@[i] == room;
                assert(before.rooms@[i].id == room.id);
            } else {
                assert(before.rooms@[j].id == room.id);
            }
        },
        Event::Leave => {
            assert(dispatched(&before, &req, &shown, reply));
            room_was_there(&before, &after, j);
            let i = choose|i: int| 0 <= i < before.rooms@.len() && before.rooms@[i] == room;
            assert(before.rooms@[i].id == room.id);
        },
        Event::Logout => {
            assert(dispatched(&before, &req, &shown, reply));
            room_was_there(&before, &after, j);
            let i = choose|i: int| 0 <= i < before.rooms@.len() && before.rooms@[i] == room;
            assert(before.rooms@[i].id == room.id);
        },
        Event::Close => {
            assert(dispatched(&before, &req, &shown, reply));
            room_was_there(&before, &after, j);
            let i = choose|i: int| 0 <= i < before.rooms@.len() && before.rooms@[i] == room;
            assert(before.rooms@[i].id == room.id);
        },
        Event::Create => {
            assert(dispatched(&before, &req, &shown, reply));
            if after.rooms@.len() == before.rooms@.len() + 1 {
                if j < before.rooms@.len() {
                    assert(after.rooms@.drop_last()[j] == after.rooms@[j]);
                    assert(before.rooms@[j].id == room.id);
                }
            } else {
                assert(before.rooms@[j].id == room.id);
            }
        },
        _ => {
            assert(dispatched(&before, &req, &shown, reply));
            assert(before.rooms@.len() == after.rooms@.len());
            assert(before.rooms@[j].id == room.id);
        },
    }
}

/// A room of `after` that is in game is a room of `before`, if the rooms of
/// `after` are those of `before` with one taken away or one changed into an
/// idle room.
proof fn room_was_there(before: &World, after: &World, j: int)
    requires
        0 <= j < after.rooms@.len(),
        after.rooms@[j].state == RoomState::InGame,
        ({
            ||| after.rooms@ == before.rooms@
            ||| exists|r: int| 0 <= r < before.rooms@.len() && after.rooms@ == before.rooms@.remove(r)
            ||| exists|r: int|
                0 <= r < before.rooms@.len() && after.same_rooms_but(before, r) && after.rooms@[r].state
                    == RoomState::Idle
        }),
    ensures
        before.rooms@.contains(after.rooms@[j]),
{
    if after.rooms@ == before.rooms@ {
        assert(before.rooms@[j] == after.rooms@[j]);
    } else if exists|r: int| 0 <= r < before.rooms@.len() && after.rooms@ == before.rooms@.remove(r) {
        let r = choose|r: int| 0 <= r < before.rooms@.len() && after.rooms@ == before.rooms@.remove(r);
        let o = if j < r {
            j
        } else {
            j + 1
        };
        assert(after.rooms@[j] == before.rooms@[o]);
    } else {
        let r = choose|r: int|
            0 <= r < before.rooms@.len() && after.same_rooms_but(before, r) && after.rooms@[r].state
                == RoomState::Idle;
        assert(j != r);
        assert(after.rooms@[j] == before.rooms@[j]);
    }
}

/// When a player declines a proposal, every room that was part of the
/// proposal is idle again, at once.
pub proof fn decline_returns_all_to_idle(
    before: World,
    req: Request,
    after: World,
    reply: Reply,
    i: int,
)
    requires
        before.wf(),
        handled(&before, &req, &after, reply),
        repeat_of(&before, &req) is None,
        req.event == (Event::Prestart { accept: false }),
        reply == Reply::Done,
        0 <= i < before.rooms@.len(),
        before.rooms@[i].state == RoomState::Prestart,
        before.slot_of(req.user@) is Some,
        before.users@[before.slot_of(req.user@)->0].room is Some,
        before.rooms@[i].game == before.rooms@[before.room_at(
            before.users@[before.slot_of(req.user@)->0].room->0,
        )->0].game,
    ensures
        after.rooms@.len() == before.rooms@.len(),
        after.rooms@[i].state == RoomState::Idle,
        after.game_at(before.rooms@[i].game) is None,
{
    let shown = World { seen: before.seen, ..after };
    assert(dispatched(&before, &req, &shown, reply));
    let u = before.slot_of(req.user@)->0;
    let id = before.users@[u].room->0;
    let r = before.room_at(id)->0;
    let g = before.game_at(before.rooms@[r].game)->0;
    assert(declined(&before, &shown, g));
    let gid = before.games@[g].id;
    assert(gid == before.rooms@[i].game);
    if after.game_at(gid) is Some {
        let c = choose|c: int| 0 <= c < after.games@.len() && (#[trigger] after.games@[c]).id == gid;
        let o = if c < g {
            c
        } else {
            c + 1
        };
        assert(after.games@[c] == before.games@[o]);
        assert(before.games@[o].id == before.games@[g].id);
    }
}

} // verus!
