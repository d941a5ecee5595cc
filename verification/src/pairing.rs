//! The simplest match there is: two parties of one, alone in the queue of a
//! mode that is played one against one.

use crate::matchmaking::{distance, greedy, load, tolerance_of};
use crate::model::RoomState;
use crate::seeding::{parties_clash, waited};
use crate::ticking::{
    draws, drawn_one, expired_to, gathered, is_proposal, lemma_draws_first,
    lemma_no_draw_from_nothing, marked, quiet, ticked,
};
use crate::world::{in_queue, World};
use vstd::prelude::*;

verus! {

/// Whether the queue of `w` holds two parties and nothing else, both of one
/// player and both waiting for mode `m`, which is played one against one;
/// the younger is rated within the window of the older at `now`, and no
/// member of one has a quarrel with a member of the other.
pub open spec fn is_pair(w: &World, m: int, now: u64) -> bool {
    &&& w.queue@.len() == 2
    &&& 0 <= m < w.modes@.len()
    &&& w.modes@[m].team_size == 1
    &&& w.queue@[0].mode == m
    &&& w.queue@[1].mode == m
    &&& w.queue@[0].party_size == 1
    &&& w.queue@[1].party_size == 1
    &&& distance(w.queue@[1].team_score_avg, w.queue@[0].team_score_avg) <= tolerance_of(
        waited(now, w.queue@[0].entered_at),
    )
    &&& !parties_clash(w.users@, w.party(0), w.party(1))
}

/// In a pair the older party seeds a match: it stands alone on its side and
/// the younger party stands alone on the other.
pub proof fn lemma_pair_seeds(w: &World, m: int, now: u64)
    requires
        is_pair(w, m, now),
    ensures
        w.seed_matches(m, 0, now),
        w.side_a(m, 0, now) == seq![true, false],
        w.side_b(m, 0, now) == seq![false, true],
{
    let sizes = w.sizes();
    assert(sizes[0] == 1 && sizes[1] == 1);
    let el_a = w.eligible_a(m, 0, now);
    assert(!el_a[0]);
    let left = w.places_left(m, 0);
    assert(left == 0);
    reveal_with_fuel(greedy, 3);
    reveal_with_fuel(load, 3);
    let j1 = greedy(sizes, el_a, left, 1);
    assert(j1 =~= seq![false]);
    let joiners = w.joiners(m, 0, now);
    assert(joiners =~= seq![false, false]);
    assert(load(sizes, joiners, 2) == 0);
    let side_a = w.side_a(m, 0, now);
    assert(side_a =~= seq![true, false]);
    assert(!w.blocked(side_a, 1)) by {
        if w.blocked(side_a, 1) {
            let a = choose|a: int|
                0 <= a < side_a.len() && #[trigger] side_a[a] && parties_clash(
                    w.users@,
                    w.party(a),
                    w.party(1),
                );
            assert(a == 0);
        }
    }
    assert(w.near(m, 0, now, 1));
    let el_b = w.eligible_b(m, 0, now);
    assert(!el_b[0]);
    assert(el_b[1]);
    let b1 = greedy(sizes, el_b, 1, 1);
    assert(b1 =~= seq![false]);
    let side_b = w.side_b(m, 0, now);
    assert(side_b =~= seq![false, true]);
    assert(load(sizes, side_b, 2) == 1);
}

/// Whether `after` is `before` with the pair drawn into one proposal under
/// the id `id`: the queue is empty, the last game is the proposal of the
/// member of the older party against the member of the younger, and the
/// rooms of both are in the prestart phase of that game.
pub open spec fn pair_drawn(before: &World, after: &World, m: int, now: u64, id: u64) -> bool {
    &&& after.queue@.len() == 0
    &&& after.games@.len() > 0
    &&& is_proposal(after.games@.last(), id, m, before.party(0) + before.party(1), now)
    &&& after.rooms@.len() == before.rooms@.len()
    &&& forall|i: int|
        0 <= i < before.rooms@.len() && ((#[trigger] before.rooms@[i]).id
            == before.queue@[0].room_id || before.rooms@[i].id == before.queue@[1].room_id) ==> {
            &&& after.rooms@[i].id == before.rooms@[i].id
            &&& after.rooms@[i].members == before.rooms@[i].members
            &&& after.rooms@[i].state == RoomState::Prestart
            &&& after.rooms@[i].game == id
        }
}

/// The withdrawal of lapsed proposals leaves a pair a pair, with the same
/// parties.
pub proof fn lemma_pair_outlasts_expiry(before: &World, mid: &World, m: int, now: u64, expired: Seq<u64>)
    requires
        before.wf(),
        expired_to(before, mid, now, expired),
        is_pair(before, m, now),
    ensures
        is_pair(mid, m, now),
        mid.party(0) == before.party(0),
        mid.party(1) == before.party(1),
        mid.queue == before.queue,
        mid.next_game == before.next_game,
        mid.rooms@.len() == before.rooms@.len(),
        forall|i: int|
            0 <= i < before.rooms@.len() ==> (#[trigger] mid.rooms@[i]).id == before.rooms@[i].id,
        forall|i: int|
            0 <= i < before.rooms@.len() && (#[trigger] before.rooms@[i]).state == RoomState::Queued
                ==> mid.rooms@[i] == before.rooms@[i],
{
    let q0 = before.queue@[0];
    let q1 = before.queue@[1];
    lemma_room_of_entry(before, 0);
    lemma_room_of_entry(before, 1);
    let r0 = before.room_at(q0.room_id)->0;
    let r1 = before.room_at(q1.room_id)->0;
    assert(mid.rooms@[r0] == before.rooms@[r0]);
    assert(mid.rooms@[r1] == before.rooms@[r1]);
    assert forall|i: int| 0 <= i < before.rooms@.len() implies (#[trigger] mid.rooms@[i]).id
        == before.rooms@[i].id by {
        assert(before.rooms@[i].id == before.rooms@[i].id);
    }
    lemma_same_room_at(before, mid, q0.room_id);
    lemma_same_room_at(before, mid, q1.room_id);
}

/// The first draw from a pair draws the pair.
pub proof fn lemma_pair_is_drawn(mid: &World, next: &World, m: int, m1: int, now: u64, id: u64)
    requires
        is_pair(mid, m, now),
        0 <= m1 < mid.modes@.len(),
        drawn_one(mid, next, m1, now, Some(id)),
    ensures
        id == mid.next_game,
        pair_drawn(mid, next, m, now, id),
{
    lemma_pair_seeds(mid, m, now);
    reveal(drawn_one);
    assert(m1 == m) by {
        let t = choose|t: int| 0 <= t < 2 && mid.seed_matches(m1, t, now);
        assert(mid.queue@[t].mode == m);
    }
    let s = choose|s: int|
        0 <= s < 2 && mid.seed_matches(m, s, now) && forall|t: int|
            0 <= t < s ==> !mid.seed_matches(m, t, now);
    assert(s == 0);
    let a = mid.side_a(m, 0, now);
    let b = mid.side_b(m, 0, now);
    assert(a[0] && b[1]);
    let q0 = mid.queue@[0];
    let q1 = mid.queue@[1];
    assert(marked(mid.queue@, a, 2, q0.room_id));
    assert(marked(mid.queue@, b, 2, q1.room_id));
    lemma_queue_is_drained(mid, next, a, b);
    reveal_with_fuel(gathered, 3);
    assert(gathered(mid, a, 2) =~= mid.party(0));
    assert(gathered(mid, b, 2) =~= mid.party(1));
}

/// A queue of two entries that are both marked is empty once the marked
/// entries are out and nothing new is in.
pub proof fn lemma_queue_is_drained(mid: &World, next: &World, a: Seq<bool>, b: Seq<bool>)
    requires
        mid.queue@.len() == 2,
        marked(mid.queue@, a, 2, mid.queue@[0].room_id),
        marked(mid.queue@, b, 2, mid.queue@[1].room_id),
        forall|id: u64|
            in_queue(next.queue@, id) <==> in_queue(mid.queue@, id) && !marked(
                mid.queue@,
                a,
                2,
                id,
            ) && !marked(mid.queue@, b, 2, id),
        forall|q: int| 0 <= q < next.queue@.len() ==> mid.queue@.contains(#[trigger] next.queue@[q]),
    ensures
        next.queue@.len() == 0,
{
    if next.queue@.len() > 0 {
        let e = next.queue@[0];
        assert(mid.queue@.contains(e));
        let o = choose|o: int| 0 <= o < mid.queue@.len() && mid.queue@[o] == e;
        assert(in_queue(next.queue@, e.room_id));
        assert(o == 0 || o == 1);
    }
}

/// A tick draws a pair into one proposal: when the queue holds a pair and a
/// game id is left, the tick makes exactly one proposal, under the next
/// game id and for the mode of the pair; its players are the member of the
/// older party and then the member of the younger; the queue is empty
/// afterwards, and both rooms, queued before, are in the prestart phase of
/// that game.
pub proof fn tick_draws_a_pair_together(
    before: World,
    now: u64,
    after: World,
    expired: Seq<u64>,
    proposed: Seq<u64>,
    m: int,
)
    requires
        before.wf(),
        ticked(&before, now, &after, expired, proposed),
        is_pair(&before, m, now),
        before.next_game < u64::MAX,
    ensures
        proposed == seq![before.next_game],
        pair_drawn(&before, &after, m, now, before.next_game),
        forall|i: int|
            0 <= i < before.rooms@.len() && ((#[trigger] before.rooms@[i]).id
                == before.queue@[0].room_id || before.rooms@[i].id == before.queue@[1].room_id)
                ==> before.rooms@[i].state == RoomState::Queued,
{
    let mid = choose|mid: World|
        expired_to(&before, &mid, now, expired) && #[trigger] draws(&mid, &after, now, proposed);
    lemma_pair_outlasts_expiry(&before, &mid, m, now, expired);
    lemma_room_of_entry(&before, 0);
    lemma_room_of_entry(&before, 1);
    if proposed.len() == 0 {
        lemma_pair_seeds(&mid, m, now);
        assert(after == mid);
        assert(quiet(&after, m, now));
        assert(mid.seed_matches(m, 0, now));
    } else {
        lemma_draws_first(&mid, &after, now, proposed);
        let (next, m1) = choose|next: World, m1: int|
            #![trigger drawn_one(&mid, &next, m1, now, Some(proposed[0]))]
            0 <= m1 < mid.modes@.len() && drawn_one(&mid, &next, m1, now, Some(proposed[0]))
                && draws(&next, &after, now, proposed.drop_first());
        lemma_pair_is_drawn(&mid, &next, m, m1, now, proposed[0]);
        lemma_no_draw_from_nothing(&next, &after, now, proposed.drop_first());
        assert(after == next);
        assert(proposed =~= seq![before.next_game]);
        assert(pair_drawn(&mid, &after, m, now, before.next_game));
        assert forall|i: int|
            0 <= i < before.rooms@.len() && ((#[trigger] before.rooms@[i]).id
                == before.queue@[0].room_id || before.rooms@[i].id == before.queue@[1].room_id) implies {
            &&& after.rooms@[i].id == before.rooms@[i].id
            &&& after.rooms@[i].members == before.rooms@[i].members
            &&& after.rooms@[i].state == RoomState::Prestart
            &&& after.rooms@[i].game == before.next_game
        } by {
            assert(mid.rooms@[i].id == before.rooms@[i].id);
            assert(before.rooms@[i].state == RoomState::Queued);
            assert(mid.rooms@[i] == before.rooms@[i]);
        }
    }
}

/// Whether the queue of `w` holds two parties and nothing else, both of one
/// player and both waiting for mode `m`, which is played one against one,
/// and a member of one has black-listed a member of the other.
pub open spec fn is_feud(w: &World, m: int) -> bool {
    &&& w.queue@.len() == 2
    &&& 0 <= m < w.modes@.len()
    &&& w.modes@[m].team_size == 1
    &&& w.queue@[0].mode == m
    &&& w.queue@[1].mode == m
    &&& w.queue@[0].party_size == 1
    &&& w.queue@[1].party_size == 1
    &&& parties_clash(w.users@, w.party(0), w.party(1))
}

/// A quarrel between two parties is a quarrel either way round.
pub proof fn lemma_clash_is_mutual(w: &World, p: int, q: int)
    requires
        parties_clash(w.users@, w.party(p), w.party(q)),
    ensures
        parties_clash(w.users@, w.party(q), w.party(p)),
{
    let a = w.party(p);
    let b = w.party(q);
    let (i, j) = choose|i: int, j: int|
        #![trigger a[i], b[j]]
        0 <= i < a.len() && 0 <= j < b.len() && crate::seeding::users_clash(
            w.users@,
            a[i] as int,
            b[j] as int,
        );
    assert(crate::seeding::users_clash(w.users@, b[j] as int, a[i] as int));
}

/// In a feud no party seeds a match, in any mode and however long it waits.
pub proof fn lemma_feud_seeds_nothing(w: &World, m: int, m1: int, t: int, now: u64)
    requires
        is_feud(w, m),
        0 <= t < 2,
    ensures
        !w.seed_matches(m1, t, now),
{
    if m1 == m {
        let sizes = w.sizes();
        assert(sizes[0] == 1 && sizes[1] == 1);
        let left = w.places_left(m, t);
        assert(left == 0);
        reveal_with_fuel(greedy, 3);
        reveal_with_fuel(load, 3);
        let el_a = w.eligible_a(m, t, now);
        let j1 = greedy(sizes, el_a, left, 1);
        assert(j1 =~= seq![false]);
        let joiners = w.joiners(m, t, now);
        assert(joiners =~= seq![false, false]);
        let side_a = w.side_a(m, t, now);
        assert(side_a[t]);
        let other = 1 - t;
        assert(!side_a[other]);
        if t == 0 {
            assert(parties_clash(w.users@, w.party(t), w.party(other)));
        } else {
            lemma_clash_is_mutual(w, 0, 1);
        }
        assert(w.blocked(side_a, other));
        let el_b = w.eligible_b(m, t, now);
        assert(!el_b[0] && !el_b[1]);
        let b1 = greedy(sizes, el_b, 1, 1);
        assert(b1 =~= seq![false]);
        let side_b = w.side_b(m, t, now);
        assert(side_b =~= seq![false, false]);
        assert(load(sizes, side_b, 2) == 0);
    }
}

/// A tick never pairs a feud: when the queue holds two parties of one that
/// have a quarrel, and nothing else, the tick proposes nothing, both
/// parties stay in the queue and their rooms stay queued, whatever the time.
pub proof fn tick_never_pairs_a_feud(
    before: World,
    now: u64,
    after: World,
    expired: Seq<u64>,
    proposed: Seq<u64>,
    m: int,
)
    requires
        before.wf(),
        ticked(&before, now, &after, expired, proposed),
        is_feud(&before, m),
    ensures
        proposed.len() == 0,
        after.queue == before.queue,
        after.rooms@.len() == before.rooms@.len(),
        forall|i: int|
            0 <= i < before.rooms@.len() && (#[trigger] before.rooms@[i]).state == RoomState::Queued
                ==> after.rooms@[i] == before.rooms@[i],
        is_feud(&after, m),
{
    let mid = choose|mid: World|
        expired_to(&before, &mid, now, expired) && #[trigger] draws(&mid, &after, now, proposed);
    lemma_room_of_entry(&before, 0);
    lemma_room_of_entry(&before, 1);
    let q0 = before.queue@[0];
    let q1 = before.queue@[1];
    let r0 = before.room_at(q0.room_id)->0;
    let r1 = before.room_at(q1.room_id)->0;
    assert(mid.rooms@[r0] == before.rooms@[r0]);
    assert(mid.rooms@[r1] == before.rooms@[r1]);
    lemma_same_room_at(&before, &mid, q0.room_id);
    lemma_same_room_at(&before, &mid, q1.room_id);
    assert(is_feud(&mid, m));
    if proposed.len() > 0 {
        lemma_draws_first(&mid, &after, now, proposed);
        let (next, m1) = choose|next: World, m1: int|
            #![trigger drawn_one(&mid, &next, m1, now, Some(proposed[0]))]
            0 <= m1 < mid.modes@.len() && drawn_one(&mid, &next, m1, now, Some(proposed[0]))
                && draws(&next, &after, now, proposed.drop_first());
        lemma_feud_draws_nothing(&mid, &next, m, m1, now, proposed[0]);
    }
}

/// From a feud no match is drawn.
pub proof fn lemma_feud_draws_nothing(mid: &World, next: &World, m: int, m1: int, now: u64, id: u64)
    requires
        is_feud(mid, m),
    ensures
        !drawn_one(mid, next, m1, now, Some(id)),
{
    reveal(drawn_one);
    assert forall|t: int| 0 <= t < mid.queue@.len() implies !mid.seed_matches(m1, t, now) by {
        lemma_feud_seeds_nothing(mid, m, m1, t, now);
    }
}

/// The room of a queue entry is queued, and it is the one room with the
/// entry's room id.
pub proof fn lemma_room_of_entry(w: &World, q: int)
    requires
        w.wf(),
        0 <= q < w.queue@.len(),
    ensures
        w.room_at(w.queue@[q].room_id) is Some,
        0 <= w.room_at(w.queue@[q].room_id)->0 < w.rooms@.len(),
        w.rooms@[w.room_at(w.queue@[q].room_id)->0].id == w.queue@[q].room_id,
        w.rooms@[w.room_at(w.queue@[q].room_id)->0].state == RoomState::Queued,
        forall|i: int|
            0 <= i < w.rooms@.len() && (#[trigger] w.rooms@[i]).id == w.queue@[q].room_id ==> i
                == w.room_at(w.queue@[q].room_id)->0,
{
    assert(crate::world::has_room(w.queue@[q], w.rooms@));
    let o = choose|o: int|
        0 <= o < w.rooms@.len() && crate::world::entry_of(w.queue@[q], #[trigger] w.rooms@[o]);
    assert(w.rooms@[o].id == w.queue@[q].room_id);
    let r = w.room_at(w.queue@[q].room_id)->0;
    assert(w.rooms@[r].id == w.rooms@[o].id);
}

/// Two lists of rooms that carry the same ids place for place, the first
/// without an id twice, find a room of a given id at the same place.
pub proof fn lemma_same_room_at(w: &World, v: &World, id: u64)
    requires
        w.wf(),
        v.rooms@.len() == w.rooms@.len(),
        forall|i: int| 0 <= i < w.rooms@.len() ==> (#[trigger] v.rooms@[i]).id == w.rooms@[i].id,
        w.room_at(id) is Some,
    ensures
        v.room_at(id) == w.room_at(id),
{
    let r = w.room_at(id)->0;
    assert(v.rooms@[r].id == id);
    let c = v.room_at(id)->0;
    assert(v.rooms@[c].id == id);
    assert(w.rooms@[c].id == v.rooms@[c].id);
}

} // verus!
