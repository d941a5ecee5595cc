//! What the scheduler tick does: proposals that were not accepted in time
//! lapse, and waiting parties are drawn into new proposals.

use crate::matchmaking::load;
use crate::model::{holds, Game, QueueEntry, Room, RoomState};
use crate::prestart::room_moved;
use crate::rooms::{entry_pos, first_entry, lemma_first_entry, without_room};
use crate::world::{entry_of, game_wf, games_wf, has_room, in_queue, room_wf, World, PRESTART_MS};
use vstd::prelude::*;

verus! {

/// The members of the marked parties among the first `k` queue entries, in order.
pub open spec fn gathered(w: &World, mask: Seq<bool>, k: int) -> Seq<usize>
    decreases k,
{
    if k <= 0 {
        Seq::empty()
    } else if mask[k - 1] {
        gathered(w, mask, k - 1) + w.party(k - 1)
    } else {
        gathered(w, mask, k - 1)
    }
}

/// Whether the room with id `id` has a queue entry among the first `k` that
/// `mask` marks.
pub open spec fn marked(queue: Seq<QueueEntry>, mask: Seq<bool>, k: int, id: u64) -> bool {
    exists|q: int| 0 <= q < k && mask[q] && (#[trigger] queue[q]).room_id == id
}

/// Whether `game` is the proposal made at `now` for mode `m` with the given players.
pub open spec fn is_proposal(game: Game, id: u64, m: int, players: Seq<usize>, now: u64) -> bool {
    &&& game.id == id
    &&& game.mode == m
    &&& game.players@ == players
    &&& game.acks@ == Seq::new(players.len(), |i: int| false)
    &&& !game.started
    &&& game.deadline == deadline_of(now)
    &&& game.result is None
}

/// When a proposal made at `now` lapses.
pub open spec fn deadline_of(now: u64) -> u64 {
    if now > u64::MAX - PRESTART_MS {
        u64::MAX
    } else {
        (now + PRESTART_MS) as u64
    }
}

/// Whether `game` is a proposal whose time is up at `now`.
pub open spec fn lapses(game: Game, now: u64) -> bool {
    !game.started && game.deadline <= now
}

/// Whether one of the first `k` games has id `id` and is a proposal whose
/// time is up at `now`.
pub open spec fn lapsed_among(games: Seq<Game>, k: int, id: u64, now: u64) -> bool {
    exists|g: int| 0 <= g < k && (#[trigger] games[g]).id == id && lapses(games[g], now)
}

/// Of the first `k` games, the ids of the proposals whose time is up at `now`.
pub open spec fn lapsing_among(games: Seq<Game>, k: int, now: u64) -> Seq<u64>
    decreases k,
{
    if k <= 0 {
        Seq::empty()
    } else if lapses(games[k - 1], now) {
        lapsing_among(games, k - 1, now).push(games[k - 1].id)
    } else {
        lapsing_among(games, k - 1, now)
    }
}

/// Of the first `k` games, those that are not proposals whose time is up
/// at `now`, in order.
pub open spec fn unlapsed(games: Seq<Game>, k: int, now: u64) -> Seq<Game>
    decreases k,
{
    if k <= 0 {
        Seq::empty()
    } else if lapses(games[k - 1], now) {
        unlapsed(games, k - 1, now)
    } else {
        unlapsed(games, k - 1, now).push(games[k - 1])
    }
}

/// Whether `after` is `before` once the proposals whose time is up at `now`
/// have been withdrawn, with `expired` their ids: these games are gone, the
/// others stay in order, every room that was in the prestart phase of one
/// of them is idle, and nothing else changed.
pub open spec fn expired_to(before: &World, after: &World, now: u64, expired: Seq<u64>) -> bool {
    &&& after.modes == before.modes
    &&& after.users == before.users
    &&& after.queue == before.queue
    &&& after.seen == before.seen
    &&& after.next_room == before.next_room
    &&& after.next_game == before.next_game
    &&& after.games@ == unlapsed(before.games@, before.games@.len() as int, now)
    &&& expired == lapsing_among(before.games@, before.games@.len() as int, now)
    &&& after.rooms@.len() == before.rooms@.len()
    &&& forall|i: int|
        0 <= i < before.rooms@.len() ==> if (#[trigger] before.rooms@[i]).state
            == RoomState::Prestart && lapsed(before.games@, before.rooms@[i].game, now) {
            room_moved(after.rooms@[i], before.rooms@[i], RoomState::Idle, before.rooms@[i].game)
        } else {
            after.rooms@[i] == before.rooms@[i]
        }
}

/// Whether `end` is reached from `start` by drawing matches at `now`, one
/// after the other, with `ids` the ids of the proposals in the order they
/// were made: each draw proposes the first match of some mode that the
/// queue holds at that point, as `drawn_one` says.
pub open spec fn draws(start: &World, end: &World, now: u64, ids: Seq<u64>) -> bool
    decreases ids.len(),
{
    if ids.len() == 0 {
        *end == *start
    } else {
        exists|mid: World, m: int|
            #![trigger drawn_one(&mid, end, m, now, Some(ids.last()))]
            0 <= m < mid.modes@.len() && draws(start, &mid, now, ids.drop_last()) && drawn_one(
                &mid,
                end,
                m,
                now,
                Some(ids.last()),
            )
    }
}

/// Whether `after`, `expired` and `proposed` are what a tick at `now` makes
/// of `before`: first the proposals whose time is up are withdrawn, then
/// matches are drawn one after the other, until no mode has one left.
pub open spec fn ticked(
    before: &World,
    now: u64,
    after: &World,
    expired: Seq<u64>,
    proposed: Seq<u64>,
) -> bool {
    &&& forall|m: int| 0 <= m < after.modes@.len() ==> quiet(after, m, now)
    &&& exists|mid: World|
        expired_to(before, &mid, now, expired) && #[trigger] draws(&mid, after, now, proposed)
}

/// A run of draws that is not empty begins with a draw.
pub proof fn lemma_draws_first(start: &World, end: &World, now: u64, ids: Seq<u64>)
    requires
        draws(start, end, now, ids),
        ids.len() > 0,
    ensures
        exists|next: World, m: int|
            #![trigger drawn_one(start, &next, m, now, Some(ids[0]))]
            0 <= m < start.modes@.len() && drawn_one(start, &next, m, now, Some(ids[0])) && draws(
                &next,
                end,
                now,
                ids.drop_first(),
            ),
    decreases ids.len(),
{
    let (mid, m) = choose|mid: World, m: int|
        #![trigger drawn_one(&mid, end, m, now, Some(ids.last()))]
        0 <= m < mid.modes@.len() && draws(start, &mid, now, ids.drop_last()) && drawn_one(
            &mid,
            end,
            m,
            now,
            Some(ids.last()),
        );
    if ids.len() == 1 {
        assert(ids.drop_last().len() == 0);
        assert(mid == *start);
        assert(ids.drop_first().len() == 0);
        assert(ids.last() == ids[0]);
        assert(draws(end, end, now, ids.drop_first()));
        assert(drawn_one(start, end, m, now, Some(ids[0])));
    } else {
        let shorter = ids.drop_last();
        lemma_draws_first(start, &mid, now, shorter);
        let (next, m1) = choose|next: World, m1: int|
            #![trigger drawn_one(start, &next, m1, now, Some(shorter[0]))]
            0 <= m1 < start.modes@.len() && drawn_one(start, &next, m1, now, Some(shorter[0]))
                && draws(&next, &mid, now, shorter.drop_first());
        assert(shorter[0] == ids[0]);
        lemma_draws_step(&next, &mid, end, m, now, shorter.drop_first(), ids.last());
        assert(shorter.drop_first().push(ids.last()) =~= ids.drop_first());
        assert(drawn_one(start, &next, m1, now, Some(ids[0])));
    }
}

/// From an empty queue no match is drawn.
pub proof fn lemma_no_draw_from_nothing(start: &World, end: &World, now: u64, ids: Seq<u64>)
    requires
        draws(start, end, now, ids),
        start.queue@.len() == 0,
    ensures
        ids.len() == 0,
        *end == *start,
{
    if ids.len() > 0 {
        lemma_draws_first(start, end, now, ids);
        let (next, m) = choose|next: World, m: int|
            #![trigger drawn_one(start, &next, m, now, Some(ids[0]))]
            0 <= m < start.modes@.len() && drawn_one(start, &next, m, now, Some(ids[0])) && draws(
                &next,
                end,
                now,
                ids.drop_first(),
            );
        reveal(drawn_one);
        assert(false);
    }
}

/// One more draw carries on a run of draws.
pub proof fn lemma_draws_step(start: &World, was: &World, cur: &World, m: int, now: u64, ids: Seq<u64>, g: u64)
    requires
        draws(start, was, now, ids),
        0 <= m < was.modes@.len(),
        drawn_one(was, cur, m, now, Some(g)),
    ensures
        draws(start, cur, now, ids.push(g)),
{
    let all = ids.push(g);
    assert(all.drop_last() =~= ids);
    assert(all.last() == g);
    assert(drawn_one(was, cur, m, now, Some(all.last())));
}

/// Whether the game with id `id` is a proposal whose time is up at `now`.
pub open spec fn lapsed(games: Seq<Game>, id: u64, now: u64) -> bool {
    lapsed_among(games, games.len() as int, id, now)
}

/// What a tick may do to a room: nothing, or take it from prestart back to
/// idle, or take it from the queue into the prestart phase of a new game.
pub open spec fn room_ticked(before: Room, after: Room, first_new: u64) -> bool {
    ||| after == before
    ||| before.state == RoomState::Prestart && room_moved(
        after,
        before,
        RoomState::Idle,
        before.game,
    )
    ||| before.state == RoomState::Queued && after.game >= first_new && room_moved(
        after,
        before,
        RoomState::Prestart,
        after.game,
    )
}

/// What a tick did.
pub struct TickReport {
    /// Ids of the proposals that lapsed.
    pub expired: Vec<u64>,
    /// Ids of the proposals that were made.
    pub proposed: Vec<u64>,
}

/// No two queue entries are for the same room.
pub proof fn lemma_entries_distinct(w: &World, p: int, q: int)
    requires
        w.wf(),
        0 <= p < w.queue@.len(),
        0 <= q < w.queue@.len(),
        p != q,
    ensures
        w.queue@[p].room_id != w.queue@[q].room_id,
{
    assert(has_room(w.queue@[p], w.rooms@) && has_room(w.queue@[q], w.rooms@));
    if p < q {
        assert(w.queue@[p].before(w.queue@[q]));
    } else {
        assert(w.queue@[q].before(w.queue@[p]));
    }
}

/// A room stays in the queue when the entry of another room is taken out.
pub proof fn lemma_still_queued(queue: Seq<QueueEntry>, id: u64, other: u64)
    requires
        in_queue(queue, other),
        other != id,
    ensures
        in_queue(without_room(queue, id), other),
{
    let q = choose|q: int| 0 <= q < queue.len() && (#[trigger] queue[q]).room_id == other;
    lemma_first_entry(queue, id);
    match entry_pos(queue, id) {
        Some(x) => {
            let rest = queue.remove(x);
            let n = if q < x {
                q
            } else {
                q - 1
            };
            assert(rest[n] == queue[q]);
        },
        None => {},
    }
}

/// Taking an entry out of the queue makes the queue shorter by one.
pub proof fn lemma_queue_shrinks(queue: Seq<QueueEntry>, id: u64)
    requires
        in_queue(queue, id),
    ensures
        without_room(queue, id).len() == queue.len() - 1,
{
    lemma_first_entry(queue, id);
    let q = choose|q: int| 0 <= q < queue.len() && (#[trigger] queue[q]).room_id == id;
    assert(first_entry(queue, id) <= q);
}

/// Whether the user in slot `x` is a member of a party that `mask` marks
/// among the first `k` queue entries.
pub open spec fn sits(w: &World, mask: Seq<bool>, k: int, x: int) -> bool {
    exists|q: int| 0 <= q < k && #[trigger] mask[q] && holds(w.party(q), x)
}

/// The party of a queue entry is the membership of its room: the room
/// exists, no member stands twice in it, and every member points back at it.
pub proof fn lemma_party(w: &World, q: int)
    requires
        w.wf(),
        0 <= q < w.queue@.len(),
    ensures
        w.room_at(w.queue@[q].room_id) is Some,
        w.party(q).no_duplicates(),
        forall|k: int|
            0 <= k < w.party(q).len() ==> (#[trigger] w.party(q)[k]) < w.users@.len()
                && w.users@[w.party(q)[k] as int].room == Some(w.queue@[q].room_id),
{
    assert(has_room(w.queue@[q], w.rooms@));
    let o = choose|o: int| 0 <= o < w.rooms@.len() && entry_of(w.queue@[q], #[trigger] w.rooms@[o]);
    assert(w.rooms@[o].id == w.queue@[q].room_id);
    let r = w.room_at(w.queue@[q].room_id)->0;
    assert(w.rooms@[r].id == w.rooms@[o].id);
    assert(r == o);
    assert(room_wf(w.rooms@[r], w.users@, w.next_room, w.modes@.len() as int));
}

/// The players gathered from marked parties are members of marked parties,
/// and none is gathered twice.
pub proof fn lemma_gathered(w: &World, mask: Seq<bool>, k: int)
    requires
        w.wf(),
        0 <= k <= w.queue@.len(),
    ensures
        gathered(w, mask, k).no_duplicates(),
        forall|i: int|
            0 <= i < gathered(w, mask, k).len() ==> sits(
                w,
                mask,
                k,
                #[trigger] gathered(w, mask, k)[i] as int,
            ),
    decreases k,
{
    if k > 0 {
        lemma_gathered(w, mask, k - 1);
        let before = gathered(w, mask, k - 1);
        let all = gathered(w, mask, k);
        assert forall|i: int| 0 <= i < before.len() implies sits(w, mask, k, #[trigger] before[i] as int) by {
            assert(sits(w, mask, k - 1, before[i] as int));
            let q = choose|q: int| 0 <= q < k - 1 && #[trigger] mask[q] && holds(w.party(q), before[i] as int);
            assert(mask[q] && holds(w.party(q), before[i] as int));
        }
        if mask[k - 1] {
            let party = w.party(k - 1);
            lemma_party(w, k - 1);
            assert(all == before + party);
            assert forall|i: int| 0 <= i < all.len() implies sits(w, mask, k, #[trigger] all[i] as int) by {
                if i < before.len() {
                    assert(all[i] == before[i]);
                } else {
                    assert(all[i] == party[i - before.len()]);
                    assert(holds(party, all[i] as int));
                    assert(mask[k - 1]);
                }
            }
            assert forall|i: int, j: int| 0 <= i < all.len() && 0 <= j < all.len() && i != j implies all[i]
                != all[j] by {
                if i < before.len() && j < before.len() {
                    assert(all[i] == before[i] && all[j] == before[j]);
                } else if i >= before.len() && j >= before.len() {
                    assert(all[i] == party[i - before.len()] && all[j] == party[j - before.len()]);
                } else {
                    let (old_i, new_j) = if i < before.len() {
                        (i, j)
                    } else {
                        (j, i)
                    };
                    let x = before[old_i];
                    let y = party[new_j - before.len()];
                    assert(all[old_i] == x && all[new_j] == y);
                    if x == y {
                        assert(sits(w, mask, k - 1, x as int));
                        let p = choose|p: int|
                            0 <= p < k - 1 && #[trigger] mask[p] && holds(w.party(p), x as int);
                        lemma_party(w, p);
                        let kp = choose|kp: int| 0 <= kp < w.party(p).len() && w.party(p)[kp] == x as int;
                        assert(w.users@[w.party(p)[kp] as int].room == Some(w.queue@[p].room_id));
                        assert(w.users@[party[new_j - before.len()] as int].room == Some(
                            w.queue@[k - 1].room_id,
                        ));
                        lemma_entries_distinct(w, p, k - 1);
                    }
                }
            }
        }
    }
}

/// The players gathered for two sides that share no party are all different.
pub proof fn lemma_sides_apart(w: &World, a: Seq<bool>, b: Seq<bool>)
    requires
        w.wf(),
        a.len() == w.queue@.len(),
        b.len() == w.queue@.len(),
        forall|q: int| 0 <= q < a.len() ==> !(#[trigger] a[q] && b[q]),
    ensures
        (gathered(w, a, w.queue@.len() as int) + gathered(w, b, w.queue@.len() as int)).no_duplicates(),
{
    let n = w.queue@.len() as int;
    let ga = gathered(w, a, n);
    let gb = gathered(w, b, n);
    let all = ga + gb;
    lemma_gathered(w, a, n);
    lemma_gathered(w, b, n);
    assert forall|i: int, j: int| 0 <= i < all.len() && 0 <= j < all.len() && i != j implies all[i]
        != all[j] by {
        if i < ga.len() && j < ga.len() {
            assert(all[i] == ga[i] && all[j] == ga[j]);
        } else if i >= ga.len() && j >= ga.len() {
            assert(all[i] == gb[i - ga.len()] && all[j] == gb[j - ga.len()]);
        } else {
            let (ia, jb) = if i < ga.len() {
                (i, j)
            } else {
                (j, i)
            };
            let x = ga[ia];
            let y = gb[jb - ga.len()];
            assert(all[ia] == x && all[jb] == y);
            if x == y {
                assert(sits(w, a, n, x as int));
                assert(sits(w, b, n, y as int));
                let p = choose|p: int| 0 <= p < n && #[trigger] a[p] && holds(w.party(p), x as int);
                let q = choose|q: int| 0 <= q < n && #[trigger] b[q] && holds(w.party(q), y as int);
                assert(!(a[p] && b[p]));
                assert(p != q);
                lemma_party(w, p);
                lemma_party(w, q);
                let kp = choose|kp: int| 0 <= kp < w.party(p).len() && w.party(p)[kp] == x as int;
                let kq = choose|kq: int| 0 <= kq < w.party(q).len() && w.party(q)[kq] == y as int;
                assert(w.users@[w.party(p)[kp] as int].room == Some(w.queue@[p].room_id));
                assert(w.users@[w.party(q)[kq] as int].room == Some(w.queue@[q].room_id));
                lemma_entries_distinct(w, p, q);
            }
        }
    }
}

impl World {
    /// The members of the parties marked by `mask`, in queue order, with the
    /// ids of their rooms.
    pub(crate) fn gather(&self, mask: &Vec<bool>, rooms_of: &Vec<usize>) -> (r: (Vec<usize>, Vec<u64>))
        requires
            self.wf(),
            mask@.len() == self.queue@.len(),
            rooms_of@.len() == self.queue@.len(),
            forall|p: int|
                0 <= p < rooms_of@.len() ==> {
                    &&& (#[trigger] rooms_of@[p]) < self.rooms@.len()
                    &&& self.room_at(self.queue@[p].room_id) == Some(rooms_of@[p] as int)
                    &&& entry_of(self.queue@[p], self.rooms@[rooms_of@[p] as int])
                },
        ensures
            r.0@ == gathered(self, mask@, self.queue@.len() as int),
            r.0@.len() == load(self.sizes(), mask@, self.queue@.len() as int),
            forall|k: int| 0 <= k < r.0@.len() ==> (#[trigger] r.0@[k]) < self.users@.len(),
            forall|j: int|
                0 <= j < r.1@.len() ==> marked(
                    self.queue@,
                    mask@,
                    self.queue@.len() as int,
                    #[trigger] r.1@[j],
                ),
            forall|q: int|
                0 <= q < self.queue@.len() && mask@[q] ==> r.1@.contains(
                    (#[trigger] self.queue@[q]).room_id,
                ),
            forall|i: int, j: int| 0 <= i < j < r.1@.len() ==> r.1@[i] != r.1@[j],
    {
        let n = self.queue.len();
        let mut players: Vec<usize> = Vec::new();
        let mut ids: Vec<u64> = Vec::new();
        let mut q: usize = 0;
        while q < n
            invariant
                self.wf(),
                n == self.queue@.len(),
                mask@.len() == n,
                rooms_of@.len() == n,
                q <= n,
                forall|p: int|
                    0 <= p < rooms_of@.len() ==> {
                        &&& (#[trigger] rooms_of@[p]) < self.rooms@.len()
                        &&& self.room_at(self.queue@[p].room_id) == Some(rooms_of@[p] as int)
                        &&& entry_of(self.queue@[p], self.rooms@[rooms_of@[p] as int])
                    },
                players@ == gathered(self, mask@, q as int),
                players@.len() == load(self.sizes(), mask@, q as int),
                forall|k: int| 0 <= k < players@.len() ==> (#[trigger] players@[k]) < self.users@.len(),
                forall|j: int|
                    0 <= j < ids@.len() ==> marked(self.queue@, mask@, q as int, #[trigger] ids@[j]),
                forall|p: int|
                    0 <= p < q && mask@[p] ==> ids@.contains((#[trigger] self.queue@[p]).room_id),
                forall|i: int, j: int| 0 <= i < j < ids@.len() ==> ids@[i] != ids@[j],
            decreases n - q,
        {
            if mask[q] {
                let r = rooms_of[q];
                let members = &self.rooms[r].members;
                let ghost before = players@;
                let ghost ids_before = ids@;
                assert(room_wf(
                    self.rooms@[r as int],
                    self.users@,
                    self.next_room,
                    self.modes@.len() as int,
                ));
                assert(self.party(q as int) == members@);
                let mut k: usize = 0;
                while k < members.len()
                    invariant
                        k <= members@.len(),
                        players@ == before + members@.take(k as int),
                        forall|x: int| 0 <= x < members@.len() ==> (#[trigger] members@[x]) < self.users@.len(),
                        forall|x: int| 0 <= x < before.len() ==> (#[trigger] before[x]) < self.users@.len(),
                    decreases members@.len() - k,
                {
                    players.push(members[k]);
                    k = k + 1;
                    assert(players@ =~= before + members@.take(k as int));
                }
                assert(members@.take(members@.len() as int) =~= members@);
                ids.push(self.queue[q].room_id);
                proof {
                    assert(ids@[ids_before.len() as int] == self.queue@[q as int].room_id);
                    assert forall|i: int, j: int| 0 <= i < j < ids@.len() implies ids@[i] != ids@[j] by {
                        assert(ids@[i] == ids_before[i]);
                        if j < ids_before.len() {
                            assert(ids@[j] == ids_before[j]);
                        } else {
                            assert(marked(self.queue@, mask@, q as int, ids_before[i]));
                            let p = choose|p: int|
                                0 <= p < q && mask@[p] && (#[trigger] self.queue@[p]).room_id
                                    == ids_before[i];
                            lemma_entries_distinct(self, p, q as int);
                        }
                    }
                    assert forall|j: int| 0 <= j < ids@.len() implies marked(
                        self.queue@,
                        mask@,
                        q + 1,
                        #[trigger] ids@[j],
                    ) by {
                        if j < ids_before.len() {
                            assert(ids@[j] == ids_before[j]);
                            assert(marked(self.queue@, mask@, q as int, ids_before[j]));
                            let p = choose|p: int|
                                0 <= p < q && mask@[p] && (#[trigger] self.queue@[p]).room_id
                                    == ids_before[j];
                            assert(self.queue@[p].room_id == ids@[j]);
                        } else {
                            assert(self.queue@[q as int].room_id == ids@[j]);
                        }
                    }
                    assert forall|p: int| 0 <= p < q + 1 && mask@[p] implies ids@.contains(
                        (#[trigger] self.queue@[p]).room_id,
                    ) by {
                        if p < q {
                            let j = choose|j: int|
                                0 <= j < ids_before.len() && ids_before[j] == self.queue@[p].room_id;
                            assert(ids@[j] == ids_before[j]);
                        }
                    }
                }
            }
            proof {
                assert forall|j: int| 0 <= j < ids@.len() implies marked(
                    self.queue@,
                    mask@,
                    q + 1,
                    #[trigger] ids@[j],
                ) by {
                    if !mask@[q as int] {
                        assert(marked(self.queue@, mask@, q as int, ids@[j]));
                        let p = choose|p: int|
                            0 <= p < q && mask@[p] && (#[trigger] self.queue@[p]).room_id == ids@[j];
                        assert(self.queue@[p].room_id == ids@[j]);
                    }
                }
            }
            q = q + 1;
        }
        (players, ids)
    }

    /// Moves the queued rooms with the given ids into the prestart phase of
    /// game `game`.
    pub(crate) fn promote_all(&mut self, ids: &Vec<u64>, game: u64)
        requires
            old(self).wf(),
            forall|j: int| 0 <= j < ids@.len() ==> in_queue(old(self).queue@, #[trigger] ids@[j]),
            forall|i: int, j: int| 0 <= i < j < ids@.len() ==> ids@[i] != ids@[j],
        ensures
            final(self).wf(),
            final(self).same_but_states(old(self)),
            final(self).rooms@.len() == old(self).rooms@.len(),
            final(self).queue@.len() == old(self).queue@.len() - ids@.len(),
            forall|i: int|
                0 <= i < old(self).rooms@.len() ==> if ids@.contains(
                    (#[trigger] old(self).rooms@[i]).id,
                ) {
                    room_moved(final(self).rooms@[i], old(self).rooms@[i], RoomState::Prestart, game)
                } else {
                    final(self).rooms@[i] == old(self).rooms@[i]
                },
            forall|id: u64|
                in_queue(final(self).queue@, id) <==> in_queue(old(self).queue@, id) && !ids@.contains(
                    id,
                ),
            forall|q: int|
                0 <= q < final(self).queue@.len() ==> old(self).queue@.contains(
                    #[trigger] final(self).queue@[q],
                ),
    {
        let mut k: usize = 0;
        while k < ids.len()
            invariant
                self.wf(),
                old(self).wf(),
                self.same_but_states(old(self)),
                self.rooms@.len() == old(self).rooms@.len(),
                k <= ids@.len(),
                self.queue@.len() == old(self).queue@.len() - k,
                forall|j: int| k <= j < ids@.len() ==> in_queue(self.queue@, #[trigger] ids@[j]),
                forall|i: int, j: int| 0 <= i < j < ids@.len() ==> ids@[i] != ids@[j],
                forall|i: int|
                    0 <= i < old(self).rooms@.len() ==> if ids@.take(k as int).contains(
                        (#[trigger] old(self).rooms@[i]).id,
                    ) {
                        room_moved(
                            self.rooms@[i],
                            old(self).rooms@[i],
                            RoomState::Prestart,
                            game,
                        )
                    } else {
                        self.rooms@[i] == old(self).rooms@[i]
                    },
                forall|id: u64|
                    in_queue(self.queue@, id) <==> in_queue(old(self).queue@, id) && !ids@.take(
                        k as int,
                    ).contains(id),
                forall|q: int|
                    0 <= q < self.queue@.len() ==> old(self).queue@.contains(#[trigger] self.queue@[q]),
            decreases ids@.len() - k,
        {
            let id = ids[k];
            let ghost mid = *self;
            proof {
                assert(in_queue(self.queue@, ids@[k as int]));
                let q = choose|q: int| 0 <= q < self.queue@.len() && (#[trigger] self.queue@[q]).room_id == id;
                assert(has_room(self.queue@[q], self.rooms@));
                let o = choose|o: int|
                    0 <= o < self.rooms@.len() && entry_of(self.queue@[q], #[trigger] self.rooms@[o]);
                assert(self.rooms@[o].id == id);
            }
            let r = match self.find_room(id) {
                Some(r) => r,
                None => 0,
            };
            proof {
                let q = choose|q: int| 0 <= q < self.queue@.len() && (#[trigger] self.queue@[q]).room_id == id;
                let o = choose|o: int|
                    0 <= o < self.rooms@.len() && entry_of(self.queue@[q], #[trigger] self.rooms@[o]);
                assert(o == r);
                assert(self.rooms@[r as int].state == RoomState::Queued);
            }
            self.promote(r, game);
            proof {
                let done = ids@.take(k as int);
                let next = ids@.take(k + 1);
                assert(next[k as int] == id);
                assert(!done.contains(id)) by {
                    if done.contains(id) {
                        let j = choose|j: int| 0 <= j < done.len() && done[j] == id;
                        assert(ids@[j] == ids@[k as int]);
                    }
                }
                lemma_queue_shrinks(mid.queue@, id);
                assert forall|q: int| 0 <= q < self.queue@.len() implies old(self).queue@.contains(
                    #[trigger] self.queue@[q],
                ) by {
                    lemma_first_entry(mid.queue@, id);
                    let p = first_entry(mid.queue@, id);
                    let o = if q < p {
                        q
                    } else {
                        q + 1
                    };
                    assert(self.queue@[q] == mid.queue@[o]);
                    assert(old(self).queue@.contains(mid.queue@[o]));
                }
                assert forall|j: int| k + 1 <= j < ids@.len() implies in_queue(
                    self.queue@,
                    #[trigger] ids@[j],
                ) by {
                    lemma_still_queued(mid.queue@, id, ids@[j]);
                }
                assert(old(self).rooms@[r as int].id == id) by {
                    if done.contains(old(self).rooms@[r as int].id) {
                    }
                }
                assert forall|i: int| 0 <= i < old(self).rooms@.len() implies if next.contains(
                    (#[trigger] old(self).rooms@[i]).id,
                ) {
                    room_moved(self.rooms@[i], old(self).rooms@[i], RoomState::Prestart, game)
                } else {
                    self.rooms@[i] == old(self).rooms@[i]
                } by {
                    let rid = old(self).rooms@[i].id;
                    assert(mid.rooms@[i].id == rid);
                    if done.contains(rid) {
                        let j = choose|j: int| 0 <= j < done.len() && done[j] == rid;
                        assert(next[j] == rid);
                        assert(i != r);
                    } else if i == r {
                    } else {
                        assert(mid.rooms@[i].id != mid.rooms@[r as int].id);
                        if next.contains(rid) {
                            let j = choose|j: int| 0 <= j < next.len() && next[j] == rid;
                            assert(j != k);
                            assert(done[j] == rid);
                        }
                    }
                }
                assert forall|x: u64| in_queue(self.queue@, x) <==> in_queue(old(self).queue@, x)
                    && !next.contains(x) by {
                    if x == id {
                        if in_queue(self.queue@, x) {
                            let q = choose|q: int|
                                0 <= q < self.queue@.len() && (#[trigger] self.queue@[q]).room_id == x;
                            assert(has_room(self.queue@[q], self.rooms@));
                            let o = choose|o: int|
                                0 <= o < self.rooms@.len() && entry_of(
                                    self.queue@[q],
                                    #[trigger] self.rooms@[o],
                                );
                            assert(o == r);
                        }
                    } else {
                        if in_queue(mid.queue@, x) {
                            lemma_still_queued(mid.queue@, id, x);
                        }
                        if in_queue(self.queue@, x) {
                            let q = choose|q: int|
                                0 <= q < self.queue@.len() && (#[trigger] self.queue@[q]).room_id == x;
                            lemma_first_entry(mid.queue@, id);
                            match entry_pos(mid.queue@, id) {
                                Some(p) => {
                                    let o = if q < p {
                                        q
                                    } else {
                                        q + 1
                                    };
                                    assert(mid.queue@[o] == self.queue@[q]);
                                },
                                None => {},
                            }
                            assert(in_queue(mid.queue@, x));
                        }
                        if done.contains(x) {
                            let j = choose|j: int| 0 <= j < done.len() && done[j] == x;
                            assert(next[j] == x);
                        }
                        if next.contains(x) {
                            let j = choose|j: int| 0 <= j < next.len() && next[j] == x;
                            assert(j != k);
                            assert(done[j] == x);
                        }
                    }
                }
            }
            k = k + 1;
        }
        proof {
            assert(ids@.take(ids@.len() as int) =~= ids@);
        }
    }
}

/// A list of `n` times `false`.
pub(crate) fn all_false(n: usize) -> (v: Vec<bool>)
    ensures
        v@ == Seq::new(n as nat, |i: int| false),
{
    let mut v: Vec<bool> = Vec::new();
    let mut i: usize = 0;
    while i < n
        invariant
            i <= n,
            v@ == Seq::new(i as nat, |j: int| false),
        decreases n - i,
    {
        v.push(false);
        i = i + 1;
        assert(v@ =~= Seq::new(i as nat, |j: int| false));
    }
    v
}

/// Taking a game away keeps the games sound.
pub proof fn lemma_games_without(games: Seq<Game>, g: int, users: int, next_game: u64, modes: int)
    requires
        games_wf(games, users, next_game, modes),
        0 <= g < games.len(),
    ensures
        games_wf(games.remove(g), users, next_game, modes),
{
    let rest = games.remove(g);
    assert forall|i: int| 0 <= i < rest.len() implies game_wf(
        #[trigger] rest[i],
        users,
        next_game,
        modes,
    ) by {
        let o = if i < g {
            i
        } else {
            i + 1
        };
        assert(rest[i] == games[o]);
    }
    assert forall|i: int, j: int|
        0 <= i < rest.len() && 0 <= j < rest.len() && i != j implies (#[trigger] rest[i]).id != (
    #[trigger] rest[j]).id by {
        let oi = if i < g {
            i
        } else {
            i + 1
        };
        let oj = if j < g {
            j
        } else {
            j + 1
        };
        assert(rest[i] == games[oi] && rest[j] == games[oj]);
    }
}

impl World {
    /// Whether `self` is `other` but for the rooms.
    pub open spec fn same_but_room_states(&self, other: &World) -> bool {
        &&& self.same_but_states(other)
        &&& self.queue == other.queue
        &&& self.rooms@.len() == other.rooms@.len()
    }

    /// Moves every room that is in state `from` for game `game` to state `to`.
    pub(crate) fn move_rooms(&mut self, game: u64, from: RoomState, to: RoomState)
        requires
            old(self).wf(),
            from == RoomState::Prestart || from == RoomState::InGame,
            to == RoomState::Idle || to == RoomState::Prestart || to == RoomState::InGame,
        ensures
            final(self).wf(),
            final(self).same_but_room_states(old(self)),
            forall|i: int|
                0 <= i < old(self).rooms@.len() ==> if (#[trigger] old(self).rooms@[i]).state == from
                    && old(self).rooms@[i].game == game {
                    room_moved(final(self).rooms@[i], old(self).rooms@[i], to, game)
                } else {
                    final(self).rooms@[i] == old(self).rooms@[i]
                },
    {
        let mut i: usize = 0;
        while i < self.rooms.len()
            invariant
                self.wf(),
                self.same_but_room_states(old(self)),
                from == RoomState::Prestart || from == RoomState::InGame,
                to == RoomState::Idle || to == RoomState::Prestart || to == RoomState::InGame,
                i <= self.rooms@.len(),
                forall|j: int|
                    0 <= j < i ==> if (#[trigger] old(self).rooms@[j]).state == from && old(
                        self,
                    ).rooms@[j].game == game {
                        room_moved(self.rooms@[j], old(self).rooms@[j], to, game)
                    } else {
                        self.rooms@[j] == old(self).rooms@[j]
                    },
                forall|j: int|
                    i <= j < self.rooms@.len() ==> #[trigger] self.rooms@[j] == old(self).rooms@[j],
            decreases self.rooms@.len() - i,
        {
            if self.rooms[i].state == from && self.rooms[i].game == game {
                self.set_state(i, to);
            }
            i = i + 1;
        }
    }

    /// Withdraws the proposal at position `g`: its rooms go back to idle and
    /// the game is no more.
    pub(crate) fn abort_game(&mut self, g: usize)
        requires
            old(self).wf(),
            g < old(self).games@.len(),
        ensures
            final(self).wf(),
            final(self).modes == old(self).modes,
            final(self).users == old(self).users,
            final(self).queue == old(self).queue,
            final(self).seen == old(self).seen,
            final(self).next_room == old(self).next_room,
            final(self).next_game == old(self).next_game,
            final(self).games@ == old(self).games@.remove(g as int),
            final(self).rooms@.len() == old(self).rooms@.len(),
            forall|i: int|
                0 <= i < old(self).rooms@.len() ==> if (#[trigger] old(self).rooms@[i]).state
                    == RoomState::Prestart && old(self).rooms@[i].game == old(self).games@[g as int].id {
                    room_moved(
                        final(self).rooms@[i],
                        old(self).rooms@[i],
                        RoomState::Idle,
                        old(self).rooms@[i].game,
                    )
                } else {
                    final(self).rooms@[i] == old(self).rooms@[i]
                },
    {
        let id = self.games[g].id;
        self.move_rooms(id, RoomState::Prestart, RoomState::Idle);
        self.games.remove(g);
        proof {
            lemma_games_without(
                old(self).games@,
                g as int,
                self.users@.len() as int,
                self.next_game,
                self.modes@.len() as int,
            );
        }
    }

    /// Makes a proposal out of two sides of the queue: the parties marked by
    /// `a` against the parties marked by `b`. Nothing happens if the sides
    /// are empty or do not have the same number of players, or if no game id
    /// is left.
    pub(crate) fn propose(&mut self, m: usize, a: &Vec<bool>, b: &Vec<bool>, now: u64) -> (r: Option<u64>)
        requires
            old(self).wf(),
            m < old(self).modes@.len(),
            a@.len() == old(self).queue@.len(),
            b@.len() == old(self).queue@.len(),
            forall|q: int| 0 <= q < a@.len() ==> !(#[trigger] a@[q] && b@[q]),
        ensures
            final(self).wf(),
            final(self).modes == old(self).modes,
            final(self).users == old(self).users,
            final(self).seen == old(self).seen,
            final(self).next_room == old(self).next_room,
            ({
                let n = old(self).queue@.len() as int;
                let places_a = load(old(self).sizes(), a@, n);
                let places_b = load(old(self).sizes(), b@, n);
                match r {
                    None => {
                        &&& *final(self) == *old(self)
                        &&& (old(self).next_game == u64::MAX || places_a != places_b || places_a
                            == 0)
                    },
                    Some(g) => {
                        &&& g == old(self).next_game
                        &&& final(self).next_game == g + 1
                        &&& places_a == places_b
                        &&& places_a > 0
                        &&& final(self).games@.len() == old(self).games@.len() + 1
                        &&& final(self).games@.drop_last() == old(self).games@
                        &&& is_proposal(
                            final(self).games@.last(),
                            g,
                            m as int,
                            gathered(old(self), a@, n) + gathered(old(self), b@, n),
                            now,
                        )
                        &&& final(self).rooms@.len() == old(self).rooms@.len()
                        &&& forall|i: int|
                            0 <= i < old(self).rooms@.len() ==> if marked(
                                old(self).queue@,
                                a@,
                                n,
                                (#[trigger] old(self).rooms@[i]).id,
                            ) || marked(old(self).queue@, b@, n, old(self).rooms@[i].id) {
                                room_moved(
                                    final(self).rooms@[i],
                                    old(self).rooms@[i],
                                    RoomState::Prestart,
                                    g,
                                )
                            } else {
                                final(self).rooms@[i] == old(self).rooms@[i]
                            }
                        &&& forall|id: u64|
                            in_queue(final(self).queue@, id) <==> in_queue(old(self).queue@, id)
                                && !marked(old(self).queue@, a@, n, id) && !marked(
                                old(self).queue@,
                                b@,
                                n,
                                id,
                            )
                        &&& final(self).queue@.len() < old(self).queue@.len()
                        &&& forall|q: int|
                            0 <= q < final(self).queue@.len() ==> old(self).queue@.contains(
                                #[trigger] final(self).queue@[q],
                            )
                    },
                }
            }),
    {
        if self.next_game == u64::MAX {
            return None;
        }
        let g = self.next_game;
        let rooms_of = self.entry_rooms();
        let (mut players, mut ids) = self.gather(a, &rooms_of);
        let (players_b, ids_b) = self.gather(b, &rooms_of);
        if players.len() != players_b.len() || players.len() == 0 {
            return None;
        }
        let ghost n = self.queue@.len() as int;
        let ghost ids_a = ids@;
        let ghost players_a = players@;
        proof {
            lemma_sides_apart(self, a@, b@);
        }
        let mut k: usize = 0;
        while k < ids_b.len()
            invariant
                k <= ids_b@.len(),
                ids@ == ids_a + ids_b@.take(k as int),
            decreases ids_b@.len() - k,
        {
            ids.push(ids_b[k]);
            k = k + 1;
            assert(ids@ =~= ids_a + ids_b@.take(k as int));
        }
        let mut k: usize = 0;
        while k < players_b.len()
            invariant
                k <= players_b@.len(),
                players@ == players_a + players_b@.take(k as int),
            decreases players_b@.len() - k,
        {
            players.push(players_b[k]);
            k = k + 1;
            assert(players@ =~= players_a + players_b@.take(k as int));
        }
        proof {
            assert(ids_b@.take(ids_b@.len() as int) =~= ids_b@);
            assert(players_b@.take(players_b@.len() as int) =~= players_b@);
            assert forall|j: int| 0 <= j < ids@.len() implies in_queue(
                self.queue@,
                #[trigger] ids@[j],
            ) by {
                if j < ids_a.len() {
                    assert(ids@[j] == ids_a[j]);
                    assert(marked(self.queue@, a@, n, ids_a[j]));
                } else {
                    assert(ids@[j] == ids_b@[j - ids_a.len()]);
                    assert(marked(self.queue@, b@, n, ids_b@[j - ids_a.len()]));
                }
            }
            assert forall|i: int, j: int| 0 <= i < j < ids@.len() implies ids@[i] != ids@[j] by {
                if j < ids_a.len() {
                    assert(ids@[i] == ids_a[i] && ids@[j] == ids_a[j]);
                } else if i >= ids_a.len() {
                    assert(ids@[i] == ids_b@[i - ids_a.len()] && ids@[j] == ids_b@[j - ids_a.len()]);
                } else {
                    assert(ids@[i] == ids_a[i] && ids@[j] == ids_b@[j - ids_a.len()]);
                    assert(marked(self.queue@, a@, n, ids_a[i]));
                    assert(marked(self.queue@, b@, n, ids_b@[j - ids_a.len()]));
                    let p = choose|p: int|
                        0 <= p < n && a@[p] && (#[trigger] self.queue@[p]).room_id == ids_a[i];
                    let q = choose|q: int|
                        0 <= q < n && b@[q] && (#[trigger] self.queue@[q]).room_id == ids_b@[j
                            - ids_a.len()];
                    if p != q {
                        lemma_entries_distinct(self, p, q);
                    } else {
                        assert(a@[p] && b@[p]);
                    }
                }
            }
        }
        self.promote_all(&ids, g);
        let deadline = if now > u64::MAX - PRESTART_MS {
            u64::MAX
        } else {
            now + PRESTART_MS
        };
        let count = players.len();
        let game = Game {
            id: g,
            mode: m,
            players,
            acks: all_false(count),
            started: false,
            deadline,
            started_at: 0,
            result: None,
        };
        self.games.push(game);
        self.next_game = g + 1;
        proof {
            assert(self.games@.drop_last() =~= old(self).games@);
            let modes = self.modes@.len() as int;
            let users = self.users@.len() as int;
            assert forall|i: int| 0 <= i < self.games@.len() implies game_wf(
                #[trigger] self.games@[i],
                users,
                self.next_game,
                modes,
            ) by {
                if i < old(self).games@.len() {
                    assert(game_wf(old(self).games@[i], users, old(self).next_game, modes));
                } else {
                    let last = self.games@[i];
                    assert forall|x: int| 0 <= x < last.players@.len() implies (
                    #[trigger] last.players@[x]) < users by {
                        if x < players_a.len() {
                            assert(last.players@[x] == players_a[x]);
                        } else {
                            assert(last.players@[x] == players_b@[x - players_a.len()]);
                        }
                    }
                }
            }
            assert forall|i: int, j: int|
                0 <= i < self.games@.len() && 0 <= j < self.games@.len() && i != j implies (
            #[trigger] self.games@[i]).id != (#[trigger] self.games@[j]).id by {
                if i < old(self).games@.len() {
                    assert(game_wf(old(self).games@[i], users, old(self).next_game, modes));
                }
                if j < old(self).games@.len() {
                    assert(game_wf(old(self).games@[j], users, old(self).next_game, modes));
                }
            }
            assert forall|id: u64| ids@.contains(id) <==> marked(old(self).queue@, a@, n, id)
                || marked(old(self).queue@, b@, n, id) by {
                if ids@.contains(id) {
                    let j = choose|j: int| 0 <= j < ids@.len() && ids@[j] == id;
                    if j < ids_a.len() {
                        assert(ids@[j] == ids_a[j]);
                        assert(marked(old(self).queue@, a@, n, ids_a[j]));
                    } else {
                        assert(ids@[j] == ids_b@[j - ids_a.len()]);
                        assert(marked(old(self).queue@, b@, n, ids_b@[j - ids_a.len()]));
                    }
                }
                if marked(old(self).queue@, a@, n, id) {
                    let q = choose|q: int|
                        0 <= q < n && a@[q] && (#[trigger] old(self).queue@[q]).room_id == id;
                    assert(ids_a.contains(old(self).queue@[q].room_id));
                    let j = choose|j: int| 0 <= j < ids_a.len() && ids_a[j] == id;
                    assert(ids@[j] == id);
                }
                if marked(old(self).queue@, b@, n, id) {
                    let q = choose|q: int|
                        0 <= q < n && b@[q] && (#[trigger] old(self).queue@[q]).room_id == id;
                    assert(ids_b@.contains(old(self).queue@[q].room_id));
                    let j = choose|j: int| 0 <= j < ids_b@.len() && ids_b@[j] == id;
                    assert(ids@[ids_a.len() + j] == id);
                }
            }
            assert forall|id: u64|
                in_queue(self.queue@, id) <==> in_queue(old(self).queue@, id) && !marked(
                    old(self).queue@,
                    a@,
                    n,
                    id,
                ) && !marked(old(self).queue@, b@, n, id) by {
                assert(ids@.contains(id) <==> marked(old(self).queue@, a@, n, id) || marked(
                    old(self).queue@,
                    b@,
                    n,
                    id,
                ));
                assert(in_queue(self.queue@, id) <==> in_queue(old(self).queue@, id)
                    && !ids@.contains(id));
            }
            assert forall|i: int| 0 <= i < old(self).rooms@.len() implies if marked(
                old(self).queue@,
                a@,
                n,
                (#[trigger] old(self).rooms@[i]).id,
            ) || marked(old(self).queue@, b@, n, old(self).rooms@[i].id) {
                room_moved(self.rooms@[i], old(self).rooms@[i], RoomState::Prestart, g)
            } else {
                self.rooms@[i] == old(self).rooms@[i]
            } by {
                let id = old(self).rooms@[i].id;
                assert(ids@.contains(id) <==> marked(old(self).queue@, a@, n, id) || marked(
                    old(self).queue@,
                    b@,
                    n,
                    id,
                ));
            }
            assert(ids@.len() > 0) by {
                if ids@.len() == 0 {
                    assert forall|q: int| 0 <= q < n implies !#[trigger] a@[q] by {
                        if a@[q] {
                            assert(ids_a.contains(old(self).queue@[q].room_id));
                        }
                    }
                    lemma_load_unmarked(old(self), a@, n);
                }
            }
        }
        Some(g)
    }
}

/// A mask that marks no entry of a room gathers no places.
pub proof fn lemma_load_unmarked(w: &World, mask: Seq<bool>, k: int)
    requires
        0 <= k <= w.queue@.len(),
        forall|q: int| 0 <= q < k ==> !#[trigger] mask[q],
    ensures
        load(w.sizes(), mask, k) == 0,
    decreases k,
{
    if k > 0 {
        lemma_load_unmarked(w, mask, k - 1);
    }
}

/// A party that is chosen for a side was eligible for it.
pub proof fn lemma_chosen_was_eligible(
    sizes: Seq<usize>,
    eligible: Seq<bool>,
    capacity: int,
    i: int,
)
    requires
        0 <= capacity,
        0 <= i < sizes.len(),
        crate::matchmaking::greedy(sizes, eligible, capacity, sizes.len() as int)[i],
    ensures
        eligible[i],
{
    let n = sizes.len() as int;
    let all = crate::matchmaking::greedy(sizes, eligible, capacity, n);
    crate::matchmaking::lemma_greedy(sizes, eligible, capacity, n);
    crate::matchmaking::lemma_greedy(sizes, eligible, capacity, i + 1);
    assert(crate::matchmaking::greedy(sizes, eligible, capacity, i + 1) == all.take(i + 1));
    assert(all.take(i + 1)[i] == all[i]);
}

/// A room whose queue entry is marked is queued.
pub proof fn lemma_marked_is_queued(w: &World, mask: Seq<bool>, i: int)
    requires
        w.wf(),
        0 <= i < w.rooms@.len(),
        marked(w.queue@, mask, w.queue@.len() as int, w.rooms@[i].id),
    ensures
        w.rooms@[i].state == RoomState::Queued,
{
    let q = choose|q: int|
        0 <= q < w.queue@.len() && mask[q] && (#[trigger] w.queue@[q]).room_id == w.rooms@[i].id;
    assert(has_room(w.queue@[q], w.rooms@));
    let o = choose|o: int| 0 <= o < w.rooms@.len() && entry_of(w.queue@[q], #[trigger] w.rooms@[o]);
    assert(o == i);
}

impl World {
    /// Withdraws every proposal whose time is up.
    pub fn expire(&mut self, now: u64) -> (expired: Vec<u64>)
        requires
            old(self).wf(),
        ensures
            final(self).wf(),
            final(self).modes == old(self).modes,
            final(self).users == old(self).users,
            final(self).queue == old(self).queue,
            final(self).seen == old(self).seen,
            final(self).next_room == old(self).next_room,
            final(self).next_game == old(self).next_game,
            final(self).rooms@.len() == old(self).rooms@.len(),
            forall|i: int|
                0 <= i < old(self).rooms@.len() ==> if (#[trigger] old(self).rooms@[i]).state
                    == RoomState::Prestart && lapsed(old(self).games@, old(self).rooms@[i].game, now) {
                    room_moved(
                        final(self).rooms@[i],
                        old(self).rooms@[i],
                        RoomState::Idle,
                        old(self).rooms@[i].game,
                    )
                } else {
                    final(self).rooms@[i] == old(self).rooms@[i]
                },
            forall|x: int|
                0 <= x < final(self).games@.len() ==> old(self).games@.contains(
                    #[trigger] final(self).games@[x],
                ) && !lapses(final(self).games@[x], now),
            forall|j: int|
                0 <= j < old(self).games@.len() && !lapses(#[trigger] old(self).games@[j], now)
                    ==> final(self).games@.contains(old(self).games@[j]),
            forall|k: int|
                0 <= k < expired@.len() ==> lapsed(old(self).games@, #[trigger] expired@[k], now),
            forall|j: int|
                0 <= j < old(self).games@.len() && lapses(#[trigger] old(self).games@[j], now)
                    ==> expired@.contains(old(self).games@[j].id),
            expired_to(old(self), final(self), now, expired@),
    {
        let mut expired: Vec<u64> = Vec::new();
        let mut i: usize = 0;
        let ghost mut done: int = 0;
        assert(self.games@.skip(0) =~= old(self).games@.skip(0));
        while i < self.games.len()
            invariant
                self.wf(),
                self.modes == old(self).modes,
                self.users == old(self).users,
                self.queue == old(self).queue,
                self.seen == old(self).seen,
                self.next_room == old(self).next_room,
                self.next_game == old(self).next_game,
                self.rooms@.len() == old(self).rooms@.len(),
                0 <= done <= old(self).games@.len(),
                i <= self.games@.len(),
                self.games@.len() - i == old(self).games@.len() - done,
                self.games@.skip(i as int) == old(self).games@.skip(done),
                self.games@.take(i as int) == unlapsed(old(self).games@, done, now),
                expired@ == lapsing_among(old(self).games@, done, now),
                forall|r: int|
                    0 <= r < old(self).rooms@.len() ==> if (#[trigger] old(self).rooms@[r]).state
                        == RoomState::Prestart && lapsed_among(
                        old(self).games@,
                        done,
                        old(self).rooms@[r].game,
                        now,
                    ) {
                        room_moved(
                            self.rooms@[r],
                            old(self).rooms@[r],
                            RoomState::Idle,
                            old(self).rooms@[r].game,
                        )
                    } else {
                        self.rooms@[r] == old(self).rooms@[r]
                    },
                forall|x: int|
                    0 <= x < i ==> old(self).games@.contains(#[trigger] self.games@[x]) && !lapses(
                        self.games@[x],
                        now,
                    ),
                forall|j: int|
                    0 <= j < done && !lapses(#[trigger] old(self).games@[j], now)
                        ==> self.games@.take(i as int).contains(old(self).games@[j]),
                forall|k: int|
                    0 <= k < expired@.len() ==> lapsed(old(self).games@, #[trigger] expired@[k], now),
                forall|j: int|
                    0 <= j < done && lapses(#[trigger] old(self).games@[j], now)
                        ==> expired@.contains(old(self).games@[j].id),
            decreases self.games@.len() - i,
        {
            let ghost mid = *self;
            let ghost kept = self.games@.take(i as int);
            let ghost listed = expired@;
            proof {
                assert(self.games@.skip(i as int)[0] == self.games@[i as int]);
                assert(old(self).games@.skip(done)[0] == old(self).games@[done]);
                assert(self.games@[i as int] == old(self).games@[done]);
            }
            let up = !self.games[i].started && self.games[i].deadline <= now;
            if up {
                let id = self.games[i].id;
                expired.push(id);
                self.abort_game(i);
                proof {
                    assert forall|x: int| 0 <= x < self.games@.len() - i implies self.games@.skip(
                        i as int,
                    )[x] == old(self).games@.skip(done + 1)[x] by {
                        assert(self.games@[i + x] == mid.games@[i + x + 1]);
                        assert(mid.games@.skip(i as int)[x + 1] == mid.games@[i + x + 1]);
                        assert(old(self).games@.skip(done)[x + 1] == old(self).games@[done + x + 1]);
                    }
                    assert(self.games@.skip(i as int) =~= old(self).games@.skip(done + 1));
                    assert(self.games@.take(i as int) =~= kept);
                    assert(expired@ =~= listed.push(id));
                    assert(lapsed_among(old(self).games@, old(self).games@.len() as int, id, now));
                    assert forall|r: int| 0 <= r < old(self).rooms@.len() implies if (
                    #[trigger] old(self).rooms@[r]).state == RoomState::Prestart && lapsed_among(
                        old(self).games@,
                        done + 1,
                        old(self).rooms@[r].game,
                        now,
                    ) {
                        room_moved(
                            self.rooms@[r],
                            old(self).rooms@[r],
                            RoomState::Idle,
                            old(self).rooms@[r].game,
                        )
                    } else {
                        self.rooms@[r] == old(self).rooms@[r]
                    } by {
                        let was = old(self).rooms@[r];
                        if was.state == RoomState::Prestart && lapsed_among(
                            old(self).games@,
                            done,
                            was.game,
                            now,
                        ) {
                            let g = choose|g: int|
                                0 <= g < done && (#[trigger] old(self).games@[g]).id == was.game
                                    && lapses(old(self).games@[g], now);
                            assert(lapsed_among(old(self).games@, done + 1, was.game, now));
                        } else if was.state == RoomState::Prestart && was.game == id {
                            assert(lapsed_among(old(self).games@, done + 1, was.game, now));
                        } else if was.state == RoomState::Prestart {
                            if lapsed_among(old(self).games@, done + 1, was.game, now) {
                                let g = choose|g: int|
                                    0 <= g < done + 1 && (#[trigger] old(self).games@[g]).id
                                        == was.game && lapses(old(self).games@[g], now);
                                assert(g < done);
                            }
                        } else {
                            assert(mid.rooms@[r] == was);
                        }
                    }
                    assert forall|x: int| 0 <= x < i implies old(self).games@.contains(
                        #[trigger] self.games@[x],
                    ) && !lapses(self.games@[x], now) by {
                        assert(self.games@[x] == mid.games@[x]);
                    }
                    assert forall|k: int| 0 <= k < expired@.len() implies lapsed(
                        old(self).games@,
                        #[trigger] expired@[k],
                        now,
                    ) by {
                        if k < listed.len() {
                            assert(expired@[k] == listed[k]);
                        }
                    }
                    assert forall|j: int|
                        0 <= j < done + 1 && lapses(
                            #[trigger] old(self).games@[j],
                            now,
                        ) implies expired@.contains(old(self).games@[j].id) by {
                        if j < done {
                            let k = choose|k: int|
                                0 <= k < listed.len() && listed[k] == old(self).games@[j].id;
                            assert(expired@[k] == listed[k]);
                        } else {
                            assert(expired@[listed.len() as int] == id);
                        }
                    }
                    done = done + 1;
                }
            } else {
                i = i + 1;
                proof {
                    assert(self.games@.take(i as int) =~= kept.push(old(self).games@[done]));
                    assert forall|x: int| 0 <= x < self.games@.len() - i implies self.games@.skip(
                        i as int,
                    )[x] == old(self).games@.skip(done + 1)[x] by {
                        assert(self.games@.skip(i - 1)[x + 1] == self.games@[i + x]);
                        assert(old(self).games@.skip(done)[x + 1] == old(self).games@[done + x + 1]);
                    }
                    assert(self.games@.skip(i as int) =~= old(self).games@.skip(done + 1));
                    assert forall|r: int| 0 <= r < old(self).rooms@.len() implies if (
                    #[trigger] old(self).rooms@[r]).state == RoomState::Prestart && lapsed_among(
                        old(self).games@,
                        done + 1,
                        old(self).rooms@[r].game,
                        now,
                    ) {
                        room_moved(
                            self.rooms@[r],
                            old(self).rooms@[r],
                            RoomState::Idle,
                            old(self).rooms@[r].game,
                        )
                    } else {
                        self.rooms@[r] == old(self).rooms@[r]
                    } by {
                        let was = old(self).rooms@[r];
                        if lapsed_among(old(self).games@, done + 1, was.game, now) {
                            let g = choose|g: int|
                                0 <= g < done + 1 && (#[trigger] old(self).games@[g]).id == was.game
                                    && lapses(old(self).games@[g], now);
                            assert(g < done);
                            assert(lapsed_among(old(self).games@, done, was.game, now));
                        }
                        if lapsed_among(old(self).games@, done, was.game, now) {
                            let g = choose|g: int|
                                0 <= g < done && (#[trigger] old(self).games@[g]).id == was.game
                                    && lapses(old(self).games@[g], now);
                            assert(lapsed_among(old(self).games@, done + 1, was.game, now));
                        }
                    }
                    assert forall|j: int|
                        0 <= j < done + 1 && !lapses(
                            #[trigger] old(self).games@[j],
                            now,
                        ) implies self.games@.take(i as int).contains(old(self).games@[j]) by {
                        if j < done {
                            let x = choose|x: int| 0 <= x < kept.len() && kept[x] == old(self).games@[j];
                            assert(self.games@.take(i as int)[x] == kept[x]);
                        } else {
                            assert(self.games@.take(i as int)[i - 1] == old(self).games@[j]);
                        }
                    }
                    done = done + 1;
                }
            }
        }
        proof {
            assert(self.games@.take(i as int) =~= self.games@);
        }
        expired
    }
}

/// What drawing matches may do to a room: nothing, or take it from the
/// queue into the prestart phase of a new game.
pub open spec fn room_drawn(before: Room, after: Room, first_new: u64) -> bool {
    ||| after == before
    ||| before.state == RoomState::Queued && after.game >= first_new && room_moved(
        after,
        before,
        RoomState::Prestart,
        after.game,
    )
}

/// Whether `game` is a proposal made at `now` with an id from `first_new` on.
pub open spec fn is_fresh(game: Game, first_new: u64, now: u64) -> bool {
    &&& game.id >= first_new
    &&& !game.started
    &&& game.result is None
    &&& game.deadline == deadline_of(now)
    &&& game.acks@ == Seq::new(game.players@.len(), |i: int| false)
}

/// Whether one of `games` is a proposal made at `now` with id `id`.
pub open spec fn has_fresh(games: Seq<Game>, id: u64, first_new: u64, now: u64) -> bool {
    exists|x: int|
        0 <= x < games.len() && (#[trigger] games[x]).id == id && is_fresh(games[x], first_new, now)
}

/// Whether no match of mode `m` is left to draw at `now`: no party of the
/// queue seeds one, or no game id is left.
pub open spec fn quiet(w: &World, m: int, now: u64) -> bool {
    w.next_game == u64::MAX || forall|t: int|
        0 <= t < w.queue@.len() ==> !w.seed_matches(m, t, now)
}

/// Whether `cur` is `start` after matches were drawn at `now`, with
/// `proposed` the ids of the proposals in the order they were made: users
/// and modes are as they were, rooms either are as they were or went from
/// the queue into the prestart phase of a new game, the new games stand
/// after the old ones, and the queue holds no entry that it did not hold.
pub open spec fn drawn(start: &World, cur: &World, proposed: Seq<u64>, now: u64) -> bool {
    &&& cur.modes == start.modes
    &&& cur.users == start.users
    &&& cur.seen == start.seen
    &&& cur.next_room == start.next_room
    &&& cur.next_game >= start.next_game
    &&& cur.rooms@.len() == start.rooms@.len()
    &&& forall|i: int|
        0 <= i < start.rooms@.len() ==> room_drawn(
            #[trigger] start.rooms@[i],
            cur.rooms@[i],
            start.next_game,
        )
    &&& cur.games@.len() >= start.games@.len()
    &&& cur.games@.take(start.games@.len() as int) == start.games@
    &&& forall|x: int|
        start.games@.len() <= x < cur.games@.len() ==> is_fresh(
            #[trigger] cur.games@[x],
            start.next_game,
            now,
        )
    &&& proposed.len() == cur.games@.len() - start.games@.len()
    &&& forall|k: int|
        0 <= k < proposed.len() ==> proposed[k] == (#[trigger] cur.games@[start.games@.len() + k]).id
    &&& forall|q: int| 0 <= q < cur.queue@.len() ==> start.queue@.contains(#[trigger] cur.queue@[q])
}

/// One more proposal keeps what was drawn drawn.
pub proof fn lemma_drawn_step(
    start: &World,
    was: &World,
    cur: &World,
    proposed: Seq<u64>,
    g: u64,
    now: u64,
)
    requires
        drawn(start, was, proposed, now),
        cur.modes == was.modes,
        cur.users == was.users,
        cur.seen == was.seen,
        cur.next_room == was.next_room,
        cur.rooms@.len() == was.rooms@.len(),
        forall|i: int|
            0 <= i < was.rooms@.len() ==> room_drawn(
                #[trigger] was.rooms@[i],
                cur.rooms@[i],
                was.next_game,
            ),
        forall|q: int| 0 <= q < cur.queue@.len() ==> was.queue@.contains(#[trigger] cur.queue@[q]),
        g == was.next_game,
        cur.next_game == g + 1,
        cur.games@.len() == was.games@.len() + 1,
        cur.games@.drop_last() == was.games@,
        cur.games@.last().id == g,
        is_fresh(cur.games@.last(), g, now),
    ensures
        drawn(start, cur, proposed.push(g), now),
{
    let base = start.games@.len() as int;
    let step = was.games@.len() as int;
    let all = proposed.push(g);
    assert forall|i: int| 0 <= i < start.rooms@.len() implies room_drawn(
        #[trigger] start.rooms@[i],
        cur.rooms@[i],
        start.next_game,
    ) by {
        assert(room_drawn(start.rooms@[i], was.rooms@[i], start.next_game));
        assert(room_drawn(was.rooms@[i], cur.rooms@[i], was.next_game));
    }
    assert(cur.games@.take(base) =~= start.games@) by {
        assert forall|x: int| 0 <= x < base implies cur.games@.take(base)[x] == start.games@[x] by {
            assert(cur.games@.drop_last()[x] == cur.games@[x]);
            assert(was.games@.take(base)[x] == was.games@[x]);
        }
    }
    assert forall|x: int| base <= x < cur.games@.len() implies is_fresh(
        #[trigger] cur.games@[x],
        start.next_game,
        now,
    ) by {
        if x < step {
            assert(cur.games@.drop_last()[x] == cur.games@[x]);
            assert(is_fresh(was.games@[x], start.next_game, now));
        }
    }
    assert forall|k: int| 0 <= k < all.len() implies all[k] == (#[trigger] cur.games@[base + k]).id by {
        if k < proposed.len() {
            assert(cur.games@.drop_last()[base + k] == cur.games@[base + k]);
            assert(proposed[k] == was.games@[base + k].id);
        }
    }
    assert forall|q: int| 0 <= q < cur.queue@.len() implies start.queue@.contains(
        #[trigger] cur.queue@[q],
    ) by {
        assert(was.queue@.contains(cur.queue@[q]));
        let o = choose|o: int| 0 <= o < was.queue@.len() && was.queue@[o] == cur.queue@[q];
        assert(start.queue@.contains(was.queue@[o]));
    }
}

/// Marking one more party adds its size to the load.
pub proof fn lemma_load_update(sizes: Seq<usize>, picked: Seq<bool>, s: int, k: int)
    requires
        0 <= s < picked.len(),
        0 <= k <= picked.len(),
        !picked[s],
    ensures
        load(sizes, picked.update(s, true), k) == load(sizes, picked, k) + if s < k {
            sizes[s] as int
        } else {
            0
        },
    decreases k,
{
    if k > 0 {
        lemma_load_update(sizes, picked, s, k - 1);
    }
}

/// The two sides of a match have as many places as the mode asks for, and
/// no party stands on both.
pub proof fn lemma_sides_balance(w: &World, m: int, s: int, now: u64)
    requires
        w.wf(),
        0 <= m < w.modes@.len(),
        0 <= s < w.queue@.len(),
        w.seed_matches(m, s, now),
    ensures
        load(w.sizes(), w.side_a(m, s, now), w.queue@.len() as int) == w.modes@[m].team_size,
        load(w.sizes(), w.side_b(m, s, now), w.queue@.len() as int) == w.modes@[m].team_size,
        w.modes@[m].team_size > 0,
        w.side_a(m, s, now).len() == w.queue@.len(),
        w.side_b(m, s, now).len() == w.queue@.len(),
        forall|q: int|
            0 <= q < w.queue@.len() ==> !(#[trigger] w.side_a(m, s, now)[q] && w.side_b(m, s, now)[q]),
{
    let n = w.queue@.len() as int;
    let sizes = w.sizes();
    let joiners = w.joiners(m, s, now);
    crate::matchmaking::lemma_greedy(sizes, w.eligible_a(m, s, now), w.places_left(m, s), n);
    crate::matchmaking::lemma_greedy(sizes, w.eligible_b(m, s, now), w.modes@[m].team_size as int, n);
    if joiners[s] {
        lemma_chosen_was_eligible(sizes, w.eligible_a(m, s, now), w.places_left(m, s), s);
    }
    lemma_load_update(sizes, joiners, s, n);
    assert(has_room(w.queue@[s], w.rooms@));
    let o = choose|o: int| 0 <= o < w.rooms@.len() && entry_of(w.queue@[s], #[trigger] w.rooms@[o]);
    assert(room_wf(w.rooms@[o], w.users@, w.next_room, w.modes@.len() as int));
    assert(sizes[s] == w.queue@[s].party_size);
    assert forall|q: int| 0 <= q < n implies !(#[trigger] w.side_a(m, s, now)[q] && w.side_b(
        m,
        s,
        now,
    )[q]) by {
        if w.side_b(m, s, now)[q] {
            lemma_chosen_was_eligible(
                sizes,
                w.eligible_b(m, s, now),
                w.modes@[m].team_size as int,
                q,
            );
        }
    }
}

/// Whether `after` is `before` once the first match of mode `m` that the
/// queue holds at `now` has been proposed, with `r` the id of the proposal:
/// the seed is the first party in the queue that seeds a match, the parties
/// of both sides leave the queue, and their rooms enter the prestart phase
/// of the new game. Nothing happens if no party seeds a match or no game id
/// is left.
#[verifier::opaque]
pub open spec fn drawn_one(before: &World, after: &World, m: int, now: u64, r: Option<u64>) -> bool {
    let n = before.queue@.len() as int;
    if before.next_game == u64::MAX || forall|t: int|
        0 <= t < n ==> !before.seed_matches(m, t, now) {
        r is None && *after == *before
    } else {
        let s = choose|s: int|
            0 <= s < n && before.seed_matches(m, s, now) && forall|t: int|
                0 <= t < s ==> !before.seed_matches(m, t, now);
        let a = before.side_a(m, s, now);
        let b = before.side_b(m, s, now);
        &&& r == Some(before.next_game)
        &&& after.modes == before.modes
        &&& after.users == before.users
        &&& after.seen == before.seen
        &&& after.next_room == before.next_room
        &&& after.next_game == before.next_game + 1
        &&& after.games@.len() == before.games@.len() + 1
        &&& after.games@.drop_last() == before.games@
        &&& is_proposal(
            after.games@.last(),
            before.next_game,
            m,
            gathered(before, a, n) + gathered(before, b, n),
            now,
        )
        &&& after.rooms@.len() == before.rooms@.len()
        &&& forall|i: int|
            0 <= i < before.rooms@.len() ==> if marked(
                before.queue@,
                a,
                n,
                (#[trigger] before.rooms@[i]).id,
            ) || marked(before.queue@, b, n, before.rooms@[i].id) {
                room_moved(after.rooms@[i], before.rooms@[i], RoomState::Prestart, before.next_game)
            } else {
                after.rooms@[i] == before.rooms@[i]
            }
        &&& forall|id: u64|
            in_queue(after.queue@, id) <==> in_queue(before.queue@, id) && !marked(
                before.queue@,
                a,
                n,
                id,
            ) && !marked(before.queue@, b, n, id)
        &&& forall|q: int|
            0 <= q < after.queue@.len() ==> before.queue@.contains(#[trigger] after.queue@[q])
    }
}

impl World {
    /// Proposes the first match of mode `m` that the queue holds.
    pub fn draw_one(&mut self, m: usize, now: u64) -> (r: Option<u64>)
        requires
            old(self).wf(),
            m < old(self).modes@.len(),
        ensures
            final(self).wf(),
            drawn_one(old(self), final(self), m as int, now, r),
            final(self).modes == old(self).modes,
            final(self).users == old(self).users,
            final(self).seen == old(self).seen,
            final(self).next_room == old(self).next_room,
            final(self).rooms@.len() == old(self).rooms@.len(),
            forall|i: int|
                0 <= i < old(self).rooms@.len() ==> room_drawn(
                    #[trigger] old(self).rooms@[i],
                    final(self).rooms@[i],
                    old(self).next_game,
                ),
            forall|q: int|
                0 <= q < final(self).queue@.len() ==> old(self).queue@.contains(
                    #[trigger] final(self).queue@[q],
                ),
            match r {
                None => {
                    &&& *final(self) == *old(self)
                    &&& (old(self).next_game == u64::MAX || forall|t: int|
                        0 <= t < old(self).queue@.len() ==> !old(self).seed_matches(m as int, t, now))
                },
                Some(g) => {
                    &&& g == old(self).next_game
                    &&& final(self).next_game == g + 1
                    &&& final(self).queue@.len() < old(self).queue@.len()
                    &&& final(self).games@.len() == old(self).games@.len() + 1
                    &&& final(self).games@.drop_last() == old(self).games@
                    &&& final(self).games@.last().id == g
                    &&& final(self).games@.last().mode == m
                    &&& is_fresh(final(self).games@.last(), g, now)
                },
            },
    {
        reveal(drawn_one);
        if self.next_game == u64::MAX {
            return None;
        }
        let (s, a, b) = match self.find_match(m, now) {
            Some(found) => found,
            None => {
                return None;
            },
        };
        proof {
            lemma_sides_balance(self, m as int, s as int, now);
            let n = self.queue@.len() as int;
            let c = choose|c: int|
                0 <= c < n && self.seed_matches(m as int, c, now) && forall|t: int|
                    0 <= t < c ==> !self.seed_matches(m as int, t, now);
            assert(c == s);
        }
        let r = self.propose(m, &a, &b, now);
        proof {
            let n = old(self).queue@.len() as int;
            assert forall|i: int| 0 <= i < old(self).rooms@.len() implies room_drawn(
                #[trigger] old(self).rooms@[i],
                self.rooms@[i],
                old(self).next_game,
            ) by {
                let id = old(self).rooms@[i].id;
                if marked(old(self).queue@, a@, n, id) {
                    lemma_marked_is_queued(old(self), a@, i);
                }
                if marked(old(self).queue@, b@, n, id) {
                    lemma_marked_is_queued(old(self), b@, i);
                }
            }
        }
        r
    }

    /// One scheduler tick at time `now`: proposals whose time is up are
    /// withdrawn and their rooms go back to idle, then matches are drawn
    /// from the queue, mode by mode, until no party of any mode seeds one.
    pub fn tick(&mut self, now: u64) -> (report: TickReport)
        requires
            old(self).wf(),
        ensures
            final(self).wf(),
            final(self).modes == old(self).modes,
            final(self).users == old(self).users,
            final(self).seen == old(self).seen,
            final(self).next_room == old(self).next_room,
            final(self).next_game >= old(self).next_game,
            final(self).rooms@.len() == old(self).rooms@.len(),
            forall|i: int|
                0 <= i < old(self).rooms@.len() ==> room_ticked(
                    #[trigger] old(self).rooms@[i],
                    final(self).rooms@[i],
                    old(self).next_game,
                ),
            forall|i: int|
                0 <= i < old(self).rooms@.len() && (#[trigger] old(self).rooms@[i]).state
                    == RoomState::Prestart ==> if lapsed(
                    old(self).games@,
                    old(self).rooms@[i].game,
                    now,
                ) {
                    final(self).rooms@[i].state == RoomState::Idle
                } else {
                    final(self).rooms@[i] == old(self).rooms@[i]
                },
            forall|j: int|
                0 <= j < old(self).games@.len() && !lapses(#[trigger] old(self).games@[j], now)
                    ==> final(self).games@.contains(old(self).games@[j]),
            forall|x: int|
                0 <= x < final(self).games@.len() ==> (old(self).games@.contains(
                    #[trigger] final(self).games@[x],
                ) && !lapses(final(self).games@[x], now)) || is_fresh(
                    final(self).games@[x],
                    old(self).next_game,
                    now,
                ),
            forall|k: int|
                0 <= k < report.expired@.len() ==> lapsed(
                    old(self).games@,
                    #[trigger] report.expired@[k],
                    now,
                ),
            forall|j: int|
                0 <= j < old(self).games@.len() && lapses(#[trigger] old(self).games@[j], now)
                    ==> report.expired@.contains(old(self).games@[j].id),
            forall|k: int|
                0 <= k < report.proposed@.len() ==> has_fresh(
                    final(self).games@,
                    #[trigger] report.proposed@[k],
                    old(self).next_game,
                    now,
                ),
            forall|q: int|
                0 <= q < final(self).queue@.len() ==> old(self).queue@.contains(
                    #[trigger] final(self).queue@[q],
                ),
            forall|m: int| 0 <= m < final(self).modes@.len() ==> quiet(final(self), m, now),
            exists|mid: World|
                expired_to(old(self), &mid, now, report.expired@) && #[trigger] draws(
                    &mid,
                    final(self),
                    now,
                    report.proposed@,
                ),
            ticked(old(self), now, final(self), report.expired@, report.proposed@),
    {
        let expired = self.expire(now);
        let ghost mid = *self;
        let mut proposed: Vec<u64> = Vec::new();
        proof {
            assert(self.games@.take(mid.games@.len() as int) =~= mid.games@);
            assert forall|q: int| 0 <= q < self.queue@.len() implies mid.queue@.contains(
                #[trigger] self.queue@[q],
            ) by {}
        }
        loop
            invariant
                self.wf(),
                mid.wf(),
                drawn(&mid, self, proposed@, now),
                draws(&mid, self, now, proposed@),
            ensures
                self.wf(),
                drawn(&mid, self, proposed@, now),
                draws(&mid, self, now, proposed@),
                forall|m: int| 0 <= m < self.modes@.len() ==> quiet(self, m, now),
            decreases self.queue@.len(),
        {
            let ghost start = *self;
            let mut changed = false;
            let mut m: usize = 0;
            while m < self.modes.len()
                invariant
                    self.wf(),
                    mid.wf(),
                    drawn(&mid, self, proposed@, now),
                    draws(&mid, self, now, proposed@),
                    m <= self.modes@.len(),
                    self.queue@.len() <= start.queue@.len(),
                    changed ==> self.queue@.len() < start.queue@.len(),
                    !changed ==> *self == start,
                    !changed ==> forall|k: int| 0 <= k < m ==> quiet(self, k, now),
                decreases self.queue@.len(), self.modes@.len() - m,
            {
                let ghost was = *self;
                match self.draw_one(m, now) {
                    Some(g) => {
                        proof {
                            lemma_drawn_step(&mid, &was, self, proposed@, g, now);
                            lemma_draws_step(&mid, &was, self, m as int, now, proposed@, g);
                        }
                        proposed.push(g);
                        changed = true;
                    },
                    None => {
                        m = m + 1;
                    },
                }
            }
            if !changed {
                break ;
            }
        }
        proof {
            let base = mid.games@.len() as int;
            assert forall|i: int| 0 <= i < old(self).rooms@.len() implies room_ticked(
                #[trigger] old(self).rooms@[i],
                self.rooms@[i],
                old(self).next_game,
            ) by {
                assert(room_drawn(mid.rooms@[i], self.rooms@[i], mid.next_game));
            }
            assert forall|i: int|
                0 <= i < old(self).rooms@.len() && (#[trigger] old(self).rooms@[i]).state
                    == RoomState::Prestart implies if lapsed(
                old(self).games@,
                old(self).rooms@[i].game,
                now,
            ) {
                self.rooms@[i].state == RoomState::Idle
            } else {
                self.rooms@[i] == old(self).rooms@[i]
            } by {
                assert(room_drawn(mid.rooms@[i], self.rooms@[i], mid.next_game));
            }
            assert forall|j: int|
                0 <= j < old(self).games@.len() && !lapses(
                    #[trigger] old(self).games@[j],
                    now,
                ) implies self.games@.contains(old(self).games@[j]) by {
                assert(mid.games@.contains(old(self).games@[j]));
                let x = choose|x: int| 0 <= x < mid.games@.len() && mid.games@[x] == old(self).games@[j];
                assert(self.games@.take(base)[x] == self.games@[x]);
            }
            assert forall|x: int| 0 <= x < self.games@.len() implies (old(self).games@.contains(
                #[trigger] self.games@[x],
            ) && !lapses(self.games@[x], now)) || is_fresh(
                self.games@[x],
                old(self).next_game,
                now,
            ) by {
                if x < base {
                    assert(self.games@.take(base)[x] == self.games@[x]);
                    assert(old(self).games@.contains(mid.games@[x]));
                }
            }
            assert forall|k: int| 0 <= k < proposed@.len() implies has_fresh(
                self.games@,
                #[trigger] proposed@[k],
                old(self).next_game,
                now,
            ) by {
                assert(self.games@[base + k].id == proposed@[k]);
                assert(is_fresh(self.games@[base + k], old(self).next_game, now));
            }
            assert forall|q: int| 0 <= q < self.queue@.len() implies old(self).queue@.contains(
                #[trigger] self.queue@[q],
            ) by {
                assert(mid.queue@.contains(self.queue@[q]));
            }
        }
        let report = TickReport { expired, proposed };
        proof {
            assert(expired_to(old(self), &mid, now, report.expired@));
            assert(draws(&mid, self, now, report.proposed@));
        }
        report
    }
}

} // verus!
