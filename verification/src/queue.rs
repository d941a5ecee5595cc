//! Requests that put a room into the queue of a mode and take it out again.

use crate::engine::{ErrorKind, Reply};
use crate::model::{holds, Mode, QueueEntry, RoomState, User};
use crate::rooms::{room_with, without_room};
use crate::world::{entry_of, has_room, in_queue, room_wf, World};
use vstd::prelude::*;
use vstd::string::*;

verus! {

/// The position of the first mode called `name`.
pub open spec fn mode_pos(modes: Seq<Mode>, name: Seq<char>) -> Option<int> {
    if exists|m: int| 0 <= m < modes.len() && (#[trigger] modes[m]).name@ == name {
        Some(
            choose|m: int|
                0 <= m < modes.len() && (#[trigger] modes[m]).name@ == name && forall|p: int|
                    0 <= p < m ==> (#[trigger] modes[p]).name@ != name,
        )
    } else {
        None
    }
}

/// The ratings of a party in mode `m`, member by member.
pub open spec fn party_scores(users: Seq<User>, members: Seq<usize>, m: int) -> Seq<u32> {
    Seq::new(members.len(), |k: int| users[members[k] as int].rank@[m].score)
}

/// Where a new entry goes: before the first entry that it comes before.
pub open spec fn insert_pos(queue: Seq<QueueEntry>, entry: QueueEntry) -> int
    decreases queue.len(),
{
    if queue.len() == 0 {
        0
    } else if entry.before(queue[0]) {
        0
    } else {
        1 + insert_pos(queue.drop_first(), entry)
    }
}

/// Why the room at `r` may not enter the queue of mode `m` at the request of
/// the user in slot `u`, if so.
pub open spec fn queue_refusal(w: &World, u: int, r: int, m: int) -> Option<ErrorKind> {
    let room = w.rooms@[r];
    if room.members@[0] != u {
        Some(ErrorKind::Conflict)
    } else if room.state == RoomState::Queued {
        Some(ErrorKind::Conflict)
    } else if room.state != RoomState::Idle {
        Some(ErrorKind::StateViolation)
    } else if room.members@.len() > w.modes@[m].team_size {
        Some(ErrorKind::Conflict)
    } else {
        None
    }
}

/// The entry of the room at `r` when it enters the queue of mode `m` at time `now`.
pub open spec fn entry_for(w: &World, r: int, m: int, now: u64) -> QueueEntry {
    let room = w.rooms@[r];
    QueueEntry {
        room_id: room.id,
        mode: m as usize,
        party_size: room.members@.len() as usize,
        team_score_avg: crate::rating::mean(party_scores(w.users@, room.members@, m)) as u32,
        entered_at: now,
    }
}

/// Whether `after` is `before` once the room at `r` has entered the queue of
/// mode `m` at time `now`.
pub open spec fn queued(before: &World, after: &World, r: int, m: int, now: u64) -> bool {
    let room = before.rooms@[r];
    let entry = entry_for(before, r, m, now);
    &&& after.same_but_rooms(before)
    &&& after.users == before.users
    &&& after.same_rooms_but(before, r)
    &&& after.rooms@[r].id == room.id
    &&& after.rooms@[r].members == room.members
    &&& after.rooms@[r].state == RoomState::Queued
    &&& after.rooms@[r].mode == m
    &&& after.rooms@[r].queued_at == now
    &&& after.rooms@[r].created_at == room.created_at
    &&& after.rooms@[r].game == room.game
    &&& after.queue@ == before.queue@.insert(insert_pos(before.queue@, entry), entry)
}

/// What `insert_pos` finds: everything before it does not come after the
/// entry, and the entry comes before what stands there.
pub proof fn lemma_insert_pos(queue: Seq<QueueEntry>, entry: QueueEntry)
    ensures
        0 <= insert_pos(queue, entry) <= queue.len(),
        forall|i: int| 0 <= i < insert_pos(queue, entry) ==> !entry.before(#[trigger] queue[i]),
        insert_pos(queue, entry) < queue.len() ==> entry.before(queue[insert_pos(queue, entry)]),
    decreases queue.len(),
{
    if queue.len() > 0 && !entry.before(queue[0]) {
        let rest = queue.drop_first();
        lemma_insert_pos(rest, entry);
        assert forall|i: int| 0 <= i < insert_pos(queue, entry) implies !entry.before(
            #[trigger] queue[i],
        ) by {
            if i > 0 {
                assert(queue[i] == rest[i - 1]);
            }
        }
    }
}

/// Puts an entry in its place in the queue.
pub(crate) fn insert_entry(queue: &mut Vec<QueueEntry>, entry: QueueEntry)
    ensures
        final(queue)@ == old(queue)@.insert(insert_pos(old(queue)@, entry), entry),
{
    let mut p: usize = 0;
    assert(queue@.skip(0) =~= queue@);
    while p < queue.len() && !entry.comes_before(queue[p])
        invariant
            *queue == *old(queue),
            p <= queue@.len(),
            insert_pos(queue@, entry) == p + insert_pos(queue@.skip(p as int), entry),
        decreases queue@.len() - p,
    {
        proof {
            let rest = queue@.skip(p as int);
            assert(rest[0] == queue@[p as int]);
            assert(rest.drop_first() =~= queue@.skip(p + 1));
        }
        p = p + 1;
    }
    proof {
        let rest = queue@.skip(p as int);
        if p < queue@.len() {
            assert(rest[0] == queue@[p as int]);
        }
    }
    queue.insert(p, entry);
}

/// Whether `after` and `reply` are what a request to queue makes of `before`.
pub open spec fn start_queue_post(before: &World, after: &World, now: u64, user: Seq<char>, mode: Seq<char>, reply: Reply) -> bool {
    match before.slot_of(user) {
        None => reply == Reply::Failed(ErrorKind::NotFound) && *after == *before,
        Some(u) => match (before.users@[u].room, mode_pos(before.modes@, mode)) {
            (Some(id), Some(m)) => {
                &&& before.room_at(id) is Some
                &&& match queue_refusal(before, u, before.room_at(id)->0, m) {
                    Some(e) => reply == Reply::Failed(e) && *after == *before,
                    None => reply == Reply::Done && queued(
                        before,
                        after,
                        before.room_at(id)->0,
                        m,
                        now,
                    ),
                }
            },
            _ => reply == Reply::Failed(ErrorKind::NotFound) && *after == *before,
        },
    }
}

/// Whether `after` and `reply` are what a request to leave the queue makes of
/// `before`.
pub open spec fn cancel_queue_post(before: &World, after: &World, user: Seq<char>, reply: Reply) -> bool {
    match before.slot_of(user) {
        None => reply == Reply::Failed(ErrorKind::NotFound) && *after == *before,
        Some(u) => match before.users@[u].room {
            None => reply == Reply::Failed(ErrorKind::NotFound) && *after == *before,
            Some(id) => {
                let r = before.room_at(id)->0;
                &&& before.room_at(id) is Some
                &&& if before.rooms@[r].members@[0] != u {
                    reply == Reply::Failed(ErrorKind::Conflict) && *after == *before
                } else if before.rooms@[r].state != RoomState::Queued {
                    reply == Reply::Failed(ErrorKind::StateViolation) && *after == *before
                } else {
                    &&& reply == Reply::Done
                    &&& after.same_but_rooms(before)
                    &&& after.users == before.users
                    &&& after.same_rooms_but(before, r)
                    &&& room_with(
                        after.rooms@[r],
                        before.rooms@[r],
                        before.rooms@[r].members@,
                        RoomState::Idle,
                    )
                    &&& after.queue@ == without_room(before.queue@, id)
                }
            },
        },
    }
}

impl World {
    /// Finds a mode by name.
    pub fn find_mode(&self, name: &str) -> (r: Option<usize>)
        ensures
            r matches Some(m) ==> m < self.modes@.len(),
            mode_pos(self.modes@, name@) == (match r {
                Some(m) => Some(m as int),
                None => None,
            }),
    {
        let wanted = String::from_str(name);
        let mut m: usize = 0;
        while m < self.modes.len()
            invariant
                m <= self.modes@.len(),
                wanted@ == name@,
                forall|p: int| 0 <= p < m ==> (#[trigger] self.modes@[p]).name@ != name@,
            decreases self.modes@.len() - m,
        {
            if self.modes[m].name == wanted {
                proof {
                    let c = choose|c: int|
                        0 <= c < self.modes@.len() && (#[trigger] self.modes@[c]).name@ == name@
                            && forall|p: int| 0 <= p < c ==> (#[trigger] self.modes@[p]).name@ != name@;
                    assert(c == m);
                }
                return Some(m);
            }
            m = m + 1;
        }
        None
    }

    /// The mean rating of the party of the room at `r` in mode `m`.
    pub fn party_mean(&self, r: usize, m: usize) -> (avg: u32)
        requires
            self.wf(),
            r < self.rooms@.len(),
            m < self.modes@.len(),
        ensures
            avg == crate::rating::mean(party_scores(self.users@, self.rooms@[r as int].members@, m as int)),
    {
        let members = &self.rooms[r].members;
        let ghost modes = self.modes@.len() as int;
        assert(room_wf(self.rooms@[r as int], self.users@, self.next_room, modes));
        let mut scores: Vec<u32> = Vec::new();
        let mut k: usize = 0;
        while k < members.len()
            invariant
                self.wf(),
                r < self.rooms@.len(),
                m < self.modes@.len(),
                members@ == self.rooms@[r as int].members@,
                k <= members@.len(),
                forall|j: int| 0 <= j < members@.len() ==> (#[trigger] members@[j]) < self.users@.len(),
                scores@ == Seq::new(
                    k as nat,
                    |j: int| self.users@[members@[j] as int].rank@[m as int].score,
                ),
            decreases members@.len() - k,
        {
            let u = members[k];
            assert(self.users@[u as int].rank@.len() == self.modes@.len());
            scores.push(self.users[u].rank[m].score);
            k = k + 1;
            assert(scores@ =~= Seq::new(
                k as nat,
                |j: int| self.users@[members@[j] as int].rank@[m as int].score,
            ));
        }
        assert(scores@ =~= party_scores(self.users@, self.rooms@[r as int].members@, m as int));
        crate::rating::team_mean(&scores)
    }

    /// The master puts its idle room into the queue of a mode that has room
    /// for the party.
    pub fn start_queue(&mut self, now: u64, user: &str, mode: &str) -> (reply: Reply)
        requires
            old(self).wf(),
        ensures
            final(self).wf(),
            start_queue_post(old(self), final(self), now, user@, mode@, reply),
    {
        let u = match self.find_user(user) {
            Some(u) => u,
            None => {
                return Reply::Failed(ErrorKind::NotFound);
            },
        };
        let id = match self.users[u].room {
            Some(id) => id,
            None => {
                return Reply::Failed(ErrorKind::NotFound);
            },
        };
        let m = match self.find_mode(mode) {
            Some(m) => m,
            None => {
                return Reply::Failed(ErrorKind::NotFound);
            },
        };
        let ghost modes = self.modes@.len() as int;
        proof {
            let o = choose|o: int|
                0 <= o < self.rooms@.len() && (#[trigger] self.rooms@[o]).id == id && holds(
                    self.rooms@[o].members@,
                    u as int,
                );
            assert(self.rooms@[o].id == id);
        }
        let r = match self.find_room(id) {
            Some(r) => r,
            None => {
                return Reply::Failed(ErrorKind::NotFound);
            },
        };
        assert(room_wf(self.rooms@[r as int], self.users@, self.next_room, modes));
        if self.rooms[r].members[0] != u {
            return Reply::Failed(ErrorKind::Conflict);
        }
        match self.rooms[r].state {
            RoomState::Idle => {},
            RoomState::Queued => {
                return Reply::Failed(ErrorKind::Conflict);
            },
            _ => {
                return Reply::Failed(ErrorKind::StateViolation);
            },
        }
        if self.rooms[r].members.len() > self.modes[m].team_size {
            return Reply::Failed(ErrorKind::Conflict);
        }
        let entry = QueueEntry {
            room_id: id,
            mode: m,
            party_size: self.rooms[r].members.len(),
            team_score_avg: self.party_mean(r, m),
            entered_at: now,
        };
        self.rooms[r].state = RoomState::Queued;
        self.rooms[r].mode = m;
        self.rooms[r].queued_at = now;
        insert_entry(&mut self.queue, entry);
        proof {
            let was = old(self).queue@;
            let p = insert_pos(was, entry);
            lemma_insert_pos(was, entry);
            assert(!in_queue(was, id)) by {
                if in_queue(was, id) {
                    let q = choose|q: int| 0 <= q < was.len() && (#[trigger] was[q]).room_id == id;
                    assert(has_room(was[q], old(self).rooms@));
                    let o = choose|o: int|
                        0 <= o < old(self).rooms@.len() && entry_of(
                            was[q],
                            #[trigger] old(self).rooms@[o],
                        );
                    assert(o == r);
                }
            }
            assert forall|i: int, j: int| 0 <= i < j < self.queue@.len() implies (
            #[trigger] self.queue@[i]).before(#[trigger] self.queue@[j]) by {
                let oi = if i < p {
                    i
                } else {
                    i - 1
                };
                let oj = if j < p {
                    j
                } else {
                    j - 1
                };
                if i == p {
                    assert(self.queue@[j] == was[oj]);
                    if p < oj {
                        assert(was[p].before(was[oj]));
                    }
                } else if j == p {
                    assert(self.queue@[i] == was[oi]);
                    assert(!entry.before(was[oi]));
                    assert(was[oi].room_id != id) by {
                        if was[oi].room_id == id {
                            assert(in_queue(was, id));
                        }
                    }
                } else {
                    assert(self.queue@[i] == was[oi] && self.queue@[j] == was[oj]);
                }
            }
            assert forall|q: int| 0 <= q < self.queue@.len() implies has_room(
                #[trigger] self.queue@[q],
                self.rooms@,
            ) by {
                if q == p {
                    assert(entry_of(self.queue@[q], self.rooms@[r as int]));
                } else {
                    let oq = if q < p {
                        q
                    } else {
                        q - 1
                    };
                    assert(self.queue@[q] == was[oq]);
                    assert(has_room(was[oq], old(self).rooms@));
                    let o = choose|o: int|
                        0 <= o < old(self).rooms@.len() && entry_of(
                            was[oq],
                            #[trigger] old(self).rooms@[o],
                        );
                    assert(o != r);
                    assert(entry_of(self.queue@[q], self.rooms@[o]));
                }
            }
            assert forall|i: int|
                0 <= i < self.rooms@.len() && (#[trigger] self.rooms@[i]).state
                    == RoomState::Queued implies in_queue(self.queue@, self.rooms@[i].id) by {
                if i == r {
                    assert(self.queue@[p].room_id == id);
                } else {
                    assert(self.rooms@[i] == old(self).rooms@[i]);
                    let oq = choose|oq: int|
                        0 <= oq < was.len() && (#[trigger] was[oq]).room_id == self.rooms@[i].id;
                    let q = if oq < p {
                        oq
                    } else {
                        oq + 1
                    };
                    assert(self.queue@[q] == was[oq]);
                }
            }
            assert forall|i: int| 0 <= i < self.rooms@.len() implies room_wf(
                #[trigger] self.rooms@[i],
                self.users@,
                self.next_room,
                modes,
            ) by {
                assert(room_wf(old(self).rooms@[i], old(self).users@, old(self).next_room, modes));
            }
            assert forall|v: int|
                0 <= v < self.users@.len() && (#[trigger] self.users@[v]).room is Some implies crate::world::has_member(
                self.rooms@,
                self.users@[v].room->0,
                v,
            ) by {
                let o = choose|o: int|
                    0 <= o < old(self).rooms@.len() && (#[trigger] old(self).rooms@[o]).id == old(
                        self,
                    ).users@[v].room->0 && holds(old(self).rooms@[o].members@, v);
                assert(self.rooms@[o].id == old(self).rooms@[o].id);
                assert(self.rooms@[o].members@ == old(self).rooms@[o].members@);
            }
        }
        Reply::Done
    }

    /// The master takes its room out of the queue.
    pub fn cancel_queue(&mut self, user: &str) -> (reply: Reply)
        requires
            old(self).wf(),
        ensures
            final(self).wf(),
            cancel_queue_post(old(self), final(self), user@, reply),
    {
        let u = match self.find_user(user) {
            Some(u) => u,
            None => {
                return Reply::Failed(ErrorKind::NotFound);
            },
        };
        let id = match self.users[u].room {
            Some(id) => id,
            None => {
                return Reply::Failed(ErrorKind::NotFound);
            },
        };
        let ghost modes = self.modes@.len() as int;
        proof {
            let o = choose|o: int|
                0 <= o < self.rooms@.len() && (#[trigger] self.rooms@[o]).id == id && holds(
                    self.rooms@[o].members@,
                    u as int,
                );
            assert(self.rooms@[o].id == id);
        }
        let r = match self.find_room(id) {
            Some(r) => r,
            None => {
                return Reply::Failed(ErrorKind::NotFound);
            },
        };
        assert(room_wf(self.rooms@[r as int], self.users@, self.next_room, modes));
        if self.rooms[r].members[0] != u {
            return Reply::Failed(ErrorKind::Conflict);
        }
        match self.rooms[r].state {
            RoomState::Queued => {},
            _ => {
                return Reply::Failed(ErrorKind::StateViolation);
            },
        }
        self.make_idle(r);
        Reply::Done
    }
}

} // verus!
