//! Requests that make, fill, empty and close rooms.

use crate::engine::{ErrorKind, Reply};
use crate::model::{holds, Mode, QueueEntry, Room, RoomState, User};
use crate::world::{World};
use vstd::prelude::*;
use vstd::string::*;

verus! {

/// The largest team size of any mode: no room holds more members.
pub open spec fn capacity(modes: Seq<Mode>) -> int
    decreases modes.len(),
{
    if modes.len() == 0 {
        0
    } else if modes.last().team_size > capacity(modes.drop_last()) {
        modes.last().team_size as int
    } else {
        capacity(modes.drop_last())
    }
}

/// Whether the black list of `owner` names the identifier `id`.
pub open spec fn lists(owner: User, id: Seq<char>) -> bool {
    exists|k: int| 0 <= k < owner.black_list@.len() && (#[trigger] owner.black_list@[k])@ == id
}

/// Whether `room` is what `create` makes for the user in slot `u`.
pub open spec fn is_new_room(room: Room, id: u64, u: int, now: u64) -> bool {
    &&& room.id == id
    &&& room.members@ == seq![u as usize]
    &&& room.state == RoomState::Idle
    &&& room.created_at == now
}

/// Whether `after` is `before` with other members and another state, and
/// nothing else changed.
pub open spec fn room_with(after: Room, before: Room, members: Seq<usize>, state: RoomState) -> bool {
    &&& after.id == before.id
    &&& after.members@ == members
    &&& after.state == state
    &&& after.mode == before.mode
    &&& after.game == before.game
    &&& after.created_at == before.created_at
    &&& after.queued_at == before.queued_at
}

/// The position of the first queue entry of the room with id `id`, or the
/// length of the queue if there is none.
pub open spec fn first_entry(queue: Seq<QueueEntry>, id: u64) -> int
    decreases queue.len(),
{
    if queue.len() == 0 {
        0
    } else if queue[0].room_id == id {
        0
    } else {
        1 + first_entry(queue.drop_first(), id)
    }
}

/// The position of the first queue entry of the room with id `id`.
pub open spec fn entry_pos(queue: Seq<QueueEntry>, id: u64) -> Option<int> {
    if first_entry(queue, id) < queue.len() {
        Some(first_entry(queue, id))
    } else {
        None
    }
}

/// What `first_entry` finds: an entry of the room, with none before it.
pub proof fn lemma_first_entry(queue: Seq<QueueEntry>, id: u64)
    ensures
        0 <= first_entry(queue, id) <= queue.len(),
        first_entry(queue, id) < queue.len() ==> queue[first_entry(queue, id)].room_id == id,
        forall|p: int| 0 <= p < first_entry(queue, id) ==> (#[trigger] queue[p]).room_id != id,
    decreases queue.len(),
{
    if queue.len() > 0 && queue[0].room_id != id {
        let rest = queue.drop_first();
        lemma_first_entry(rest, id);
        assert forall|p: int| 0 <= p < first_entry(queue, id) implies (#[trigger] queue[p]).room_id
            != id by {
            if p > 0 {
                assert(queue[p] == rest[p - 1]);
            }
        }
    }
}

/// The queue without the first entry of the room with id `id`.
pub open spec fn without_room(queue: Seq<QueueEntry>, id: u64) -> Seq<QueueEntry> {
    match entry_pos(queue, id) {
        Some(q) => queue.remove(q),
        None => queue,
    }
}

/// Takes the entry of a room out of the queue, if it has one.
pub(crate) fn remove_entry(queue: &mut Vec<QueueEntry>, id: u64)
    ensures
        final(queue)@ == without_room(old(queue)@, id),
{
    let mut q: usize = 0;
    assert(queue@.skip(0) =~= queue@);
    while q < queue.len() && queue[q].room_id != id
        invariant
            *queue == *old(queue),
            q <= queue@.len(),
            first_entry(queue@, id) == q + first_entry(queue@.skip(q as int), id),
        decreases queue@.len() - q,
    {
        proof {
            let rest = queue@.skip(q as int);
            assert(rest[0] == queue@[q as int]);
            assert(rest.drop_first() =~= queue@.skip(q + 1));
        }
        q = q + 1;
    }
    proof {
        let rest = queue@.skip(q as int);
        if q < queue@.len() {
            assert(rest[0] == queue@[q as int]);
        }
    }
    if q < queue.len() {
        queue.remove(q);
    }
}

/// Whether `after` and `reply` are what the creation of a room makes of
/// `before`: a known user who is in no room gets a new idle room with itself
/// as the only member, under the next room id.
pub open spec fn create_post(before: &World, after: &World, now: u64, user: Seq<char>, reply: Reply) -> bool {
    match before.slot_of(user) {
        None => reply == Reply::Failed(ErrorKind::NotFound) && *after == *before,
        Some(u) => if before.users@[u].room is Some {
            reply == Reply::Failed(ErrorKind::Conflict) && *after == *before
        } else if before.next_room == u64::MAX {
            reply == Reply::Failed(ErrorKind::Busy) && *after == *before
        } else {
            &&& reply == Reply::Created { room: before.next_room }
            &&& after.next_room == before.next_room + 1
            &&& after.users@ == before.users@.update(
                u,
                User { room: Some(before.next_room), ..before.users@[u] },
            )
            &&& after.rooms@.len() == before.rooms@.len() + 1
            &&& after.rooms@.drop_last() == before.rooms@
            &&& is_new_room(after.rooms@.last(), before.next_room, u, now)
            &&& after.modes == before.modes
            &&& after.queue == before.queue
            &&& after.games == before.games
            &&& after.seen == before.seen
            &&& after.next_game == before.next_game
        },
    }
}

impl World {
    /// The most members a room may have.
    pub fn room_capacity(&self) -> (c: usize)
        ensures
            c == capacity(self.modes@),
    {
        let mut c: usize = 0;
        let mut i: usize = 0;
        while i < self.modes.len()
            invariant
                i <= self.modes@.len(),
                c == capacity(self.modes@.take(i as int)),
            decreases self.modes@.len() - i,
        {
            proof {
                assert(self.modes@.take(i + 1).drop_last() =~= self.modes@.take(i as int));
            }
            if self.modes[i].team_size > c {
                c = self.modes[i].team_size;
            }
            i = i + 1;
        }
        proof {
            assert(self.modes@.take(self.modes@.len() as int) =~= self.modes@);
        }
        c
    }

    /// Whether the user in slot `owner` has black-listed the identifier `id`.
    pub fn has_listed(&self, owner: usize, id: &String) -> (b: bool)
        requires
            owner < self.users@.len(),
        ensures
            b == lists(self.users@[owner as int], id@),
    {
        let list = &self.users[owner].black_list;
        let mut k: usize = 0;
        while k < list.len()
            invariant
                owner < self.users@.len(),
                list@ == self.users@[owner as int].black_list@,
                k <= list@.len(),
                forall|j: int| 0 <= j < k ==> (#[trigger] list@[j])@ != id@,
            decreases list@.len() - k,
        {
            if list[k] == *id {
                assert(list@[k as int]@ == id@);
                return true;
            }
            k = k + 1;
        }
        false
    }

    /// A user who is in no room opens one and becomes its master.
    pub fn create(&mut self, now: u64, user: &str) -> (r: Reply)
        requires
            old(self).wf(),
        ensures
            final(self).wf(),
            create_post(old(self), final(self), now, user@, r),
    {
        let u = match self.find_user(user) {
            Some(u) => u,
            None => {
                return Reply::Failed(ErrorKind::NotFound);
            },
        };
        if self.users[u].room.is_some() {
            return Reply::Failed(ErrorKind::Conflict);
        }
        if self.next_room == u64::MAX {
            return Reply::Failed(ErrorKind::Busy);
        }
        let id = self.next_room;
        let mut members: Vec<usize> = Vec::new();
        members.push(u);
        let room = Room {
            id,
            members,
            state: RoomState::Idle,
            mode: 0,
            game: 0,
            created_at: now,
            queued_at: 0,
        };
        self.rooms.push(room);
        self.users[u].room = Some(id);
        self.next_room = id + 1;
        proof {
            assert(self.rooms@.drop_last() =~= old(self).rooms@);
            assert(self.rooms@.last().members@ =~= seq![u]);
            let modes = self.modes@.len() as int;
            crate::world::lemma_users_kept(old(self).users@, self.users@, modes);
            let last = self.rooms@.len() - 1;
            assert forall|i: int| 0 <= i < self.rooms@.len() implies crate::world::room_wf(
                #[trigger] self.rooms@[i],
                self.users@,
                self.next_room,
                modes,
            ) by {
                if i < last {
                    let room = old(self).rooms@[i];
                    assert(crate::world::room_wf(room, old(self).users@, old(self).next_room, modes));
                    assert forall|k: int| 0 <= k < room.members@.len() implies (
                    #[trigger] room.members@[k]) < self.users@.len() && self.users@[room.members@[k] as int].room
                        == Some(room.id) by {
                        assert(old(self).users@[room.members@[k] as int].room == Some(room.id));
                    }
                }
            }
            assert forall|v: int|
                0 <= v < self.users@.len() && (#[trigger] self.users@[v]).room is Some implies crate::world::has_member(
                self.rooms@,
                self.users@[v].room->0,
                v,
            ) by {
                if v == u {
                    assert(self.rooms@[last].members@[0] == u);
                    assert(self.rooms@[last].id == id);
                } else {
                    assert(old(self).users@[v].room is Some);
                    let r = choose|r: int|
                        0 <= r < old(self).rooms@.len() && (#[trigger] old(self).rooms@[r]).id == old(
                            self,
                        ).users@[v].room->0 && holds(old(self).rooms@[r].members@, v);
                    assert(self.rooms@[r] == old(self).rooms@[r]);
                }
            }
            assert forall|i: int, j: int|
                0 <= i < self.rooms@.len() && 0 <= j < self.rooms@.len() && i != j implies (
            #[trigger] self.rooms@[i]).id != (#[trigger] self.rooms@[j]).id by {
                if i < last {
                    assert(crate::world::room_wf(
                        old(self).rooms@[i],
                        old(self).users@,
                        old(self).next_room,
                        modes,
                    ));
                }
                if j < last {
                    assert(crate::world::room_wf(
                        old(self).rooms@[j],
                        old(self).users@,
                        old(self).next_room,
                        modes,
                    ));
                }
            }
            assert forall|q: int| 0 <= q < self.queue@.len() implies crate::world::has_room(
                #[trigger] self.queue@[q],
                self.rooms@,
            ) by {
                assert(crate::world::has_room(old(self).queue@[q], old(self).rooms@));
                let r = choose|r: int|
                    0 <= r < old(self).rooms@.len() && crate::world::entry_of(
                        old(self).queue@[q],
                        #[trigger] old(self).rooms@[r],
                    );
                assert(crate::world::entry_of(self.queue@[q], self.rooms@[r]));
            }
        }
        Reply::Created { room: id }
    }
}

/// The users after the members of a room have been let go: each member
/// points at no room, and nothing else changed.
pub open spec fn released(before: Seq<User>, members: Seq<usize>, after: Seq<User>) -> bool {
    &&& after.len() == before.len()
    &&& forall|x: int|
        0 <= x < before.len() ==> #[trigger] after[x] == if holds(members, x) {
            User { room: None, ..before[x] }
        } else {
            before[x]
        }
}

/// Taking a room away, with its members let go, keeps the rooms sound.
pub proof fn lemma_rooms_without(
    rooms: Seq<Room>,
    users: Seq<User>,
    after: Seq<User>,
    r: int,
    next_room: u64,
    modes: int,
)
    requires
        crate::world::rooms_wf(rooms, users, next_room, modes),
        0 <= r < rooms.len(),
        released(users, rooms[r].members@, after),
    ensures
        crate::world::rooms_wf(rooms.remove(r), after, next_room, modes),
{
    let rest = rooms.remove(r);
    let gone = rooms[r];
    assert(crate::world::room_wf(gone, users, next_room, modes));
    assert forall|i: int| 0 <= i < rest.len() implies crate::world::room_wf(
        #[trigger] rest[i],
        after,
        next_room,
        modes,
    ) by {
        let o = if i < r {
            i
        } else {
            i + 1
        };
        let room = rooms[o];
        assert(rest[i] == room);
        assert(crate::world::room_wf(room, users, next_room, modes));
        assert(room.id != gone.id);
        assert forall|k: int| 0 <= k < room.members@.len() implies (#[trigger] room.members@[k])
            < after.len() && after[room.members@[k] as int].room == Some(room.id) by {
            let m = room.members@[k];
            assert(users[m as int].room == Some(room.id));
            if holds(gone.members@, m as int) {
                let k2 = choose|k2: int| 0 <= k2 < gone.members@.len() && gone.members@[k2] == m;
                assert(users[gone.members@[k2] as int].room == Some(gone.id));
            }
        }
    }
    assert forall|i: int, j: int|
        0 <= i < rest.len() && 0 <= j < rest.len() && i != j implies (#[trigger] rest[i]).id != (
    #[trigger] rest[j]).id by {
        let oi = if i < r {
            i
        } else {
            i + 1
        };
        let oj = if j < r {
            j
        } else {
            j + 1
        };
        assert(rest[i] == rooms[oi] && rest[j] == rooms[oj]);
    }
    assert forall|u: int|
        0 <= u < after.len() && (#[trigger] after[u]).room is Some implies crate::world::has_member(
        rest,
        after[u].room->0,
        u,
    ) by {
        assert(!holds(gone.members@, u));
        assert(after[u] == users[u]);
        assert(users[u].room is Some);
        let o = choose|o: int|
            0 <= o < rooms.len() && (#[trigger] rooms[o]).id == users[u].room->0 && holds(
                rooms[o].members@,
                u,
            );
        assert(o != r);
        let i = if o < r {
            o
        } else {
            o - 1
        };
        assert(rest[i] == rooms[o]);
    }
}

/// Taking away a room that is not queued keeps the queue sound.
pub proof fn lemma_queue_without(queue: Seq<QueueEntry>, rooms: Seq<Room>, r: int)
    requires
        crate::world::queue_wf(queue, rooms),
        0 <= r < rooms.len(),
        rooms[r].state != RoomState::Queued,
    ensures
        crate::world::queue_wf(queue, rooms.remove(r)),
{
    let rest = rooms.remove(r);
    assert forall|q: int| 0 <= q < queue.len() implies crate::world::has_room(
        #[trigger] queue[q],
        rest,
    ) by {
        assert(crate::world::has_room(queue[q], rooms));
        let o = choose|o: int|
            0 <= o < rooms.len() && crate::world::entry_of(queue[q], #[trigger] rooms[o]);
        assert(rooms[o].state == RoomState::Queued);
        assert(o != r);
        let i = if o < r {
            o
        } else {
            o - 1
        };
        assert(rest[i] == rooms[o]);
        assert(crate::world::entry_of(queue[q], rest[i]));
    }
    assert forall|i: int|
        0 <= i < rest.len() && (#[trigger] rest[i]).state == RoomState::Queued implies crate::world::in_queue(
        queue,
        rest[i].id,
    ) by {
        let o = if i < r {
            i
        } else {
            i + 1
        };
        assert(rest[i] == rooms[o]);
        assert(rooms[o].state == RoomState::Queued);
        assert(crate::world::in_queue(queue, rooms[o].id));
    }
    assert forall|i: int, j: int| 0 <= i < j < queue.len() implies (#[trigger] queue[i]).before(
        #[trigger] queue[j],
    ) by {}
}

/// Taking the entry of a room out of the queue, once the room is no longer
/// queued, keeps the queue sound.
pub proof fn lemma_entry_removed(queue: Seq<QueueEntry>, before: Seq<Room>, after: Seq<Room>, r: int)
    requires
        crate::world::queue_wf(queue, before),
        0 <= r < before.len(),
        after.len() == before.len(),
        forall|i: int| 0 <= i < before.len() && i != r ==> #[trigger] after[i] == before[i],
        after[r].id == before[r].id,
        after[r].state != RoomState::Queued,
        forall|i: int, j: int|
            0 <= i < before.len() && 0 <= j < before.len() && i != j ==> (#[trigger] before[i]).id
                != (#[trigger] before[j]).id,
    ensures
        crate::world::queue_wf(without_room(queue, before[r].id), after),
{
    let id = before[r].id;
    let rest = without_room(queue, id);
    lemma_first_entry(queue, id);
    assert forall|p: int, q: int|
        0 <= p < queue.len() && 0 <= q < queue.len() && (#[trigger] queue[p]).room_id == id && (
        #[trigger] queue[q]).room_id == id implies p == q by {
        if p < q {
            assert(queue[p].before(queue[q]));
        } else if q < p {
            assert(queue[q].before(queue[p]));
        }
        assert(crate::world::has_room(queue[p], before) && crate::world::has_room(queue[q], before));
    }
    match entry_pos(queue, id) {
        Some(x) => {
            assert forall|q: int| 0 <= q < rest.len() implies crate::world::has_room(
                #[trigger] rest[q],
                after,
            ) by {
                let o = if q < x {
                    q
                } else {
                    q + 1
                };
                assert(rest[q] == queue[o]);
                assert(crate::world::has_room(queue[o], before));
                let i = choose|i: int|
                    0 <= i < before.len() && crate::world::entry_of(queue[o], #[trigger] before[i]);
                assert(queue[o].room_id != id);
                assert(i != r);
                assert(crate::world::entry_of(rest[q], after[i]));
            }
            assert forall|i: int|
                0 <= i < after.len() && (#[trigger] after[i]).state
                    == RoomState::Queued implies crate::world::in_queue(rest, after[i].id) by {
                assert(i != r);
                assert(before[i] == after[i]);
                let o = choose|o: int| 0 <= o < queue.len() && (#[trigger] queue[o]).room_id == before[i].id;
                assert(o != x);
                let q = if o < x {
                    o
                } else {
                    o - 1
                };
                assert(rest[q] == queue[o]);
            }
            assert forall|i: int, j: int| 0 <= i < j < rest.len() implies (#[trigger] rest[i]).before(
                #[trigger] rest[j],
            ) by {
                let oi = if i < x {
                    i
                } else {
                    i + 1
                };
                let oj = if j < x {
                    j
                } else {
                    j + 1
                };
                assert(rest[i] == queue[oi] && rest[j] == queue[oj]);
            }
        },
        None => {
            assert forall|q: int| 0 <= q < rest.len() implies crate::world::has_room(
                #[trigger] rest[q],
                after,
            ) by {
                assert(crate::world::has_room(queue[q], before));
                let i = choose|i: int|
                    0 <= i < before.len() && crate::world::entry_of(queue[q], #[trigger] before[i]);
                assert(i != r);
                assert(crate::world::entry_of(rest[q], after[i]));
            }
            assert forall|i: int|
                0 <= i < after.len() && (#[trigger] after[i]).state
                    == RoomState::Queued implies crate::world::in_queue(rest, after[i].id) by {
                assert(before[i] == after[i]);
            }
        },
    }
}

/// Why the user in slot `u` may not join the room at position `r`, if so.
pub open spec fn join_refusal(w: &World, u: int, r: int) -> Option<ErrorKind> {
    let room = w.rooms@[r];
    if w.users@[u].room is Some {
        Some(ErrorKind::Conflict)
    } else if room.state != RoomState::Idle {
        Some(ErrorKind::StateViolation)
    } else if room.members@.len() >= capacity(w.modes@) {
        Some(ErrorKind::Conflict)
    } else if lists(w.users@[room.members@[0] as int], w.users@[u].id@) {
        Some(ErrorKind::Conflict)
    } else {
        None
    }
}

/// Why the user in slot `u` may not leave or close the room at position `r`, if so.
pub open spec fn leave_refusal(w: &World, r: int) -> Option<ErrorKind> {
    let state = w.rooms@[r].state;
    if state == RoomState::Idle || state == RoomState::Queued {
        None
    } else {
        Some(ErrorKind::StateViolation)
    }
}

/// The position of `u` among `members`.
pub(crate) fn position(members: &Vec<usize>, u: usize) -> (k: usize)
    requires
        members@.contains(u),
    ensures
        k < members@.len(),
        members@[k as int] == u,
{
    let mut k: usize = 0;
    while k < members.len()
        invariant
            k <= members@.len(),
            members@.contains(u),
            forall|j: int| 0 <= j < k ==> members@[j] != u,
        decreases members@.len() - k,
    {
        if members[k] == u {
            return k;
        }
        k = k + 1;
    }
    proof {
        let j = choose|j: int| 0 <= j < members@.len() && members@[j] == u;
        assert(false);
    }
    0
}

impl World {
    /// Whether `self` is `other` but for the users, the rooms and the queue.
    pub open spec fn same_but_rooms(&self, other: &World) -> bool {
        &&& self.modes == other.modes
        &&& self.games == other.games
        &&& self.seen == other.seen
        &&& self.next_room == other.next_room
        &&& self.next_game == other.next_game
    }

    /// Whether the rooms of `self` are those of `other` but for the one at `r`.
    pub open spec fn same_rooms_but(&self, other: &World, r: int) -> bool {
        &&& self.rooms@.len() == other.rooms@.len()
        &&& forall|i: int|
            0 <= i < self.rooms@.len() && i != r ==> #[trigger] self.rooms@[i] == other.rooms@[i]
    }

    /// Takes the room at position `r` out of the queue if it is in it.
    pub(crate) fn make_idle(&mut self, r: usize)
        requires
            old(self).wf(),
            r < old(self).rooms@.len(),
            leave_refusal(old(self), r as int) is None,
        ensures
            final(self).wf(),
            final(self).same_but_rooms(old(self)),
            final(self).users == old(self).users,
            final(self).same_rooms_but(old(self), r as int),
            room_with(
                final(self).rooms@[r as int],
                old(self).rooms@[r as int],
                old(self).rooms@[r as int].members@,
                RoomState::Idle,
            ),
            final(self).queue@ == without_room(old(self).queue@, old(self).rooms@[r as int].id),
    {
        let id = self.rooms[r].id;
        self.rooms[r].state = RoomState::Idle;
        remove_entry(&mut self.queue, id);
        proof {
            lemma_entry_removed(old(self).queue@, old(self).rooms@, self.rooms@, r as int);
            let modes = self.modes@.len() as int;
            assert forall|i: int| 0 <= i < self.rooms@.len() implies crate::world::room_wf(
                #[trigger] self.rooms@[i],
                self.users@,
                self.next_room,
                modes,
            ) by {
                assert(crate::world::room_wf(
                    old(self).rooms@[i],
                    old(self).users@,
                    old(self).next_room,
                    modes,
                ));
            }
            assert forall|v: int|
                0 <= v < self.users@.len() && (#[trigger] self.users@[v]).room is Some implies crate::world::has_member(
                self.rooms@,
                self.users@[v].room->0,
                v,
            ) by {
                let o = choose|o: int|
                    0 <= o < old(self).rooms@.len() && (#[trigger] old(self).rooms@[o]).id == old(
                        self,
                    ).users@[v].room->0 && holds(old(self).rooms@[o].members@, v);
                assert(self.rooms@[o].id == old(self).rooms@[o].id);
                assert(self.rooms@[o].members@ == old(self).rooms@[o].members@);
            }
        }
    }

    /// Closes the idle room at position `r`: its members are let go and the
    /// room is no more.
    pub(crate) fn dissolve(&mut self, r: usize)
        requires
            old(self).wf(),
            r < old(self).rooms@.len(),
            old(self).rooms@[r as int].state != RoomState::Queued,
        ensures
            final(self).wf(),
            final(self).same_but_rooms(old(self)),
            final(self).queue == old(self).queue,
            final(self).rooms@ == old(self).rooms@.remove(r as int),
            released(old(self).users@, old(self).rooms@[r as int].members@, final(self).users@),
    {
        let n = self.rooms[r].members.len();
        let ghost members = self.rooms@[r as int].members@;
        let ghost modes = self.modes@.len() as int;
        assert(crate::world::room_wf(self.rooms@[r as int], self.users@, self.next_room, modes));
        let mut k: usize = 0;
        while k < n
            invariant
                k <= n,
                n == members.len(),
                r < self.rooms@.len(),
                self.rooms == old(self).rooms,
                self.queue == old(self).queue,
                self.same_but_rooms(old(self)),
                members == old(self).rooms@[r as int].members@,
                members.no_duplicates(),
                forall|j: int| 0 <= j < members.len() ==> (#[trigger] members[j]) < old(self).users@.len(),
                self.users@.len() == old(self).users@.len(),
                forall|x: int|
                    0 <= x < old(self).users@.len() ==> #[trigger] self.users@[x] == if holds(
                        members.subrange(0, k as int),
                        x,
                    ) {
                        (User { room: None, ..old(self).users@[x] })
                    } else {
                        old(self).users@[x]
                    },
            decreases n - k,
        {
            let m = self.rooms[r].members[k];
            let ghost before = self.users@;
            self.users[m].room = None;
            proof {
                let done = members.subrange(0, k as int);
                let next = members.subrange(0, k + 1);
                assert(!holds(done, m as int)) by {
                    if holds(done, m as int) {
                        let j = choose|j: int| 0 <= j < done.len() && done[j] == m;
                        assert(members[j] == members[k as int]);
                    }
                }
                assert forall|x: int| 0 <= x < old(self).users@.len() implies #[trigger] self.users@[x]
                    == if holds(next, x) {
                    (User { room: None, ..old(self).users@[x] })
                } else {
                    old(self).users@[x]
                } by {
                    if x == m {
                        assert(next[k as int] == m);
                    } else {
                        assert(self.users@[x] == before[x]);
                        if holds(done, x) {
                            let j = choose|j: int| 0 <= j < done.len() && done[j] == x;
                            assert(next[j] == x);
                        }
                        if holds(next, x) {
                            let j = choose|j: int| 0 <= j < next.len() && next[j] == x;
                            assert(j != k);
                            assert(done[j] == x);
                        }
                    }
                }
            }
            k = k + 1;
        }
        self.rooms.remove(r);
        proof {
            assert(members.subrange(0, n as int) =~= members);
            crate::world::lemma_users_kept(old(self).users@, self.users@, modes);
            lemma_rooms_without(
                old(self).rooms@,
                old(self).users@,
                self.users@,
                r as int,
                self.next_room,
                modes,
            );
            lemma_queue_without(old(self).queue@, old(self).rooms@, r as int);
        }
    }
}

/// The position of slot `u` among `members`.
pub open spec fn slot_pos(members: Seq<usize>, u: int) -> int {
    choose|k: int| 0 <= k < members.len() && #[trigger] members[k] == u
}

/// Whether `after` is `before` once the user in slot `u` has joined the room at `r`.
pub open spec fn joined(before: &World, after: &World, u: int, r: int) -> bool {
    &&& after.same_but_rooms(before)
    &&& after.queue == before.queue
    &&& after.users@ == before.users@.update(
        u,
        User { room: Some(before.rooms@[r].id), ..before.users@[u] },
    )
    &&& after.same_rooms_but(before, r)
    &&& room_with(
        after.rooms@[r],
        before.rooms@[r],
        before.rooms@[r].members@.push(u as usize),
        RoomState::Idle,
    )
}

/// Whether `after` is `before` once the user in slot `u` has left the room
/// at `r`: the room leaves the queue, loses the member, and is closed if it
/// was the last one.
pub open spec fn left(before: &World, after: &World, u: int, r: int) -> bool {
    &&& left_rooms(before, after, u, r)
    &&& after.users@ == before.users@.update(u, User { room: None, ..before.users@[u] })
}

/// What the leaving of the user in slot `u` does to the room at `r` and to
/// the queue.
pub open spec fn left_rooms(before: &World, after: &World, u: int, r: int) -> bool {
    let room = before.rooms@[r];
    &&& after.same_but_rooms(before)
    &&& after.queue@ == without_room(before.queue@, room.id)
    &&& if room.members@.len() == 1 {
        after.rooms@ == before.rooms@.remove(r)
    } else {
        &&& after.same_rooms_but(before, r)
        &&& room_with(
            after.rooms@[r],
            room,
            room.members@.remove(slot_pos(room.members@, u)),
            RoomState::Idle,
        )
    }
}

/// Whether `after` is `before` once the room at `r` has been closed: the
/// room leaves the queue, its members are let go, and it is no more.
pub open spec fn closed(before: &World, after: &World, r: int) -> bool {
    let room = before.rooms@[r];
    &&& after.same_but_rooms(before)
    &&& after.queue@ == without_room(before.queue@, room.id)
    &&& released(before.users@, room.members@, after.users@)
    &&& after.rooms@ == before.rooms@.remove(r)
}

/// Whether `after` and `reply` are what a request to join makes of `before`.
pub open spec fn join_post(before: &World, after: &World, user: Seq<char>, room: u64, reply: Reply) -> bool {
    match (before.slot_of(user), before.room_at(room)) {
        (Some(u), Some(r)) => match join_refusal(before, u, r) {
            Some(e) => reply == Reply::Failed(e) && *after == *before,
            None => reply == Reply::Done && joined(before, after, u, r),
        },
        _ => reply == Reply::Failed(ErrorKind::NotFound) && *after == *before,
    }
}

/// Whether `after` and `reply` are what a request to leave makes of `before`.
pub open spec fn leave_post(before: &World, after: &World, user: Seq<char>, reply: Reply) -> bool {
    match before.slot_of(user) {
        None => reply == Reply::Failed(ErrorKind::NotFound) && *after == *before,
        Some(u) => match before.users@[u].room {
            None => reply == Reply::Failed(ErrorKind::NotFound) && *after == *before,
            Some(id) => {
                &&& before.room_at(id) is Some
                &&& match leave_refusal(before, before.room_at(id)->0) {
                    Some(e) => reply == Reply::Failed(e) && *after == *before,
                    None => reply == Reply::Done && left(
                        before,
                        after,
                        u,
                        before.room_at(id)->0,
                    ),
                }
            },
        },
    }
}

/// Whether `after` and `reply` are what a request to close makes of `before`.
pub open spec fn close_post(before: &World, after: &World, user: Seq<char>, reply: Reply) -> bool {
    match before.slot_of(user) {
        None => reply == Reply::Failed(ErrorKind::NotFound) && *after == *before,
        Some(u) => match before.users@[u].room {
            None => reply == Reply::Failed(ErrorKind::NotFound) && *after == *before,
            Some(id) => {
                &&& before.room_at(id) is Some
                &&& if before.rooms@[before.room_at(id)->0].members@[0] != u {
                    reply == Reply::Failed(ErrorKind::Conflict) && *after == *before
                } else {
                    match leave_refusal(before, before.room_at(id)->0) {
                        Some(e) => reply == Reply::Failed(e) && *after == *before,
                        None => reply == Reply::Done && closed(
                            before,
                            after,
                            before.room_at(id)->0,
                        ),
                    }
                }
            },
        },
    }
}

impl World {
    /// A user joins an idle room that has a place left and whose master has
    /// not black-listed the user.
    pub fn join(&mut self, user: &str, room: u64) -> (reply: Reply)
        requires
            old(self).wf(),
        ensures
            final(self).wf(),
            join_post(old(self), final(self), user@, room, reply),
    {
        let u = match self.find_user(user) {
            Some(u) => u,
            None => {
                return Reply::Failed(ErrorKind::NotFound);
            },
        };
        let r = match self.find_room(room) {
            Some(r) => r,
            None => {
                return Reply::Failed(ErrorKind::NotFound);
            },
        };
        let ghost modes = self.modes@.len() as int;
        assert(crate::world::room_wf(self.rooms@[r as int], self.users@, self.next_room, modes));
        if self.users[u].room.is_some() {
            return Reply::Failed(ErrorKind::Conflict);
        }
        match self.rooms[r].state {
            RoomState::Idle => {},
            _ => {
                return Reply::Failed(ErrorKind::StateViolation);
            },
        }
        if self.rooms[r].members.len() >= self.room_capacity() {
            return Reply::Failed(ErrorKind::Conflict);
        }
        let master = self.rooms[r].members[0];
        if self.has_listed(master, &self.users[u].id) {
            return Reply::Failed(ErrorKind::Conflict);
        }
        self.rooms[r].members.push(u);
        self.users[u].room = Some(room);
        proof {
            let was = old(self).rooms@[r as int];
            let now = self.rooms@[r as int];
            crate::world::lemma_users_kept(old(self).users@, self.users@, modes);
            assert(!holds(was.members@, u as int)) by {
                if holds(was.members@, u as int) {
                    let k = choose|k: int| 0 <= k < was.members@.len() && was.members@[k] == u;
                    assert(old(self).users@[was.members@[k] as int].room == Some(was.id));
                }
            }
            assert forall|i: int| 0 <= i < self.rooms@.len() implies crate::world::room_wf(
                #[trigger] self.rooms@[i],
                self.users@,
                self.next_room,
                modes,
            ) by {
                let before = old(self).rooms@[i];
                assert(crate::world::room_wf(before, old(self).users@, old(self).next_room, modes));
                if i == r {
                    assert forall|k: int| 0 <= k < now.members@.len() implies (
                    #[trigger] now.members@[k]) < self.users@.len() && self.users@[now.members@[k] as int].room
                        == Some(now.id) by {
                        if k < was.members@.len() {
                            assert(now.members@[k] == was.members@[k]);
                            assert(old(self).users@[was.members@[k] as int].room == Some(was.id));
                        }
                    }
                    assert forall|a: int, b: int|
                        0 <= a < now.members@.len() && 0 <= b < now.members@.len() && a
                            != b implies now.members@[a] != now.members@[b] by {
                        if a < was.members@.len() && b < was.members@.len() {
                            assert(was.members@[a] != was.members@[b]);
                        } else if a < was.members@.len() {
                            assert(was.members@[a] == now.members@[a]);
                        } else if b < was.members@.len() {
                            assert(was.members@[b] == now.members@[b]);
                        }
                    }
                } else {
                    assert forall|k: int| 0 <= k < before.members@.len() implies (
                    #[trigger] before.members@[k]) < self.users@.len() && self.users@[before.members@[k] as int].room
                        == Some(before.id) by {
                        assert(old(self).users@[before.members@[k] as int].room == Some(before.id));
                    }
                }
            }
            assert forall|v: int|
                0 <= v < self.users@.len() && (#[trigger] self.users@[v]).room is Some implies crate::world::has_member(
                self.rooms@,
                self.users@[v].room->0,
                v,
            ) by {
                if v == u {
                    assert(now.members@[was.members@.len() as int] == u);
                    assert(holds(now.members@, v));
                } else {
                    let o = choose|o: int|
                        0 <= o < old(self).rooms@.len() && (#[trigger] old(self).rooms@[o]).id == old(
                            self,
                        ).users@[v].room->0 && holds(old(self).rooms@[o].members@, v);
                    let k = choose|k: int|
                        0 <= k < old(self).rooms@[o].members@.len() && old(self).rooms@[o].members@[k]
                            == v;
                    assert(self.rooms@[o].members@[k] == v);
                    assert(holds(self.rooms@[o].members@, v));
                }
            }
            assert forall|q: int| 0 <= q < self.queue@.len() implies crate::world::has_room(
                #[trigger] self.queue@[q],
                self.rooms@,
            ) by {
                assert(crate::world::has_room(old(self).queue@[q], old(self).rooms@));
                let o = choose|o: int|
                    0 <= o < old(self).rooms@.len() && crate::world::entry_of(
                        old(self).queue@[q],
                        #[trigger] old(self).rooms@[o],
                    );
                assert(o != r);
                assert(crate::world::entry_of(self.queue@[q], self.rooms@[o]));
            }
            assert forall|i: int|
                0 <= i < self.rooms@.len() && (#[trigger] self.rooms@[i]).state
                    == RoomState::Queued implies crate::world::in_queue(self.queue@, self.rooms@[i].id) by {
                assert(i != r);
                assert(self.rooms@[i] == old(self).rooms@[i]);
            }
        }
        Reply::Done
    }

    /// A user leaves the room it is in. A queued room leaves the queue when
    /// its party changes; the next oldest member becomes master if the master
    /// left; the room is closed when its last member leaves.
    pub fn leave(&mut self, user: &str) -> (reply: Reply)
        requires
            old(self).wf(),
        ensures
            final(self).wf(),
            leave_post(old(self), final(self), user@, reply),
    {
        let u = match self.find_user(user) {
            Some(u) => u,
            None => {
                return Reply::Failed(ErrorKind::NotFound);
            },
        };
        let id = match self.users[u].room {
            Some(id) => id,
            None => {
                return Reply::Failed(ErrorKind::NotFound);
            },
        };
        let ghost modes = self.modes@.len() as int;
        proof {
            let o = choose|o: int|
                0 <= o < self.rooms@.len() && (#[trigger] self.rooms@[o]).id == id && holds(
                    self.rooms@[o].members@,
                    u as int,
                );
            assert(self.rooms@[o].id == id);
        }
        let r = match self.find_room(id) {
            Some(r) => r,
            None => {
                return Reply::Failed(ErrorKind::NotFound);
            },
        };
        proof {
            let o = choose|o: int|
                0 <= o < self.rooms@.len() && (#[trigger] self.rooms@[o]).id == id && holds(
                    self.rooms@[o].members@,
                    u as int,
                );
            assert(o == r);
        }
        match self.rooms[r].state {
            RoomState::Idle | RoomState::Queued => {},
            _ => {
                return Reply::Failed(ErrorKind::StateViolation);
            },
        }
        self.make_idle(r);
        assert(crate::world::room_wf(self.rooms@[r as int], self.users@, self.next_room, modes));
        if self.rooms[r].members.len() == 1 {
            let ghost members = self.rooms@[r as int].members@;
            let ghost mid = *self;
            self.dissolve(r);
            proof {
                assert(mid.rooms@.remove(r as int) =~= old(self).rooms@.remove(r as int));
                assert(holds(members, u as int));
                assert(members[0] == u);
                assert forall|x: int| 0 <= x < self.users@.len() implies #[trigger] self.users@[x]
                    == old(self).users@.update(u as int, User { room: None, ..old(self).users@[u as int] })[x] by {
                    if holds(members, x) {
                        let k = choose|k: int| 0 <= k < members.len() && members[k] == x;
                        assert(k == 0);
                    }
                }
                assert(self.users@ =~= old(self).users@.update(
                    u as int,
                    User { room: None, ..old(self).users@[u as int] },
                ));
            }
            return Reply::Done;
        }
        let ghost mid = *self;
        let k = position(&self.rooms[r].members, u);
        self.rooms[r].members.remove(k);
        self.users[u].room = None;
        proof {
            let was = mid.rooms@[r as int];
            let now = self.rooms@[r as int];
            crate::world::lemma_users_kept(old(self).users@, self.users@, modes);
            assert(was.members@.no_duplicates());
            assert(slot_pos(was.members@, u as int) == k);
            assert forall|i: int| 0 <= i < self.rooms@.len() implies crate::world::room_wf(
                #[trigger] self.rooms@[i],
                self.users@,
                self.next_room,
                modes,
            ) by {
                let before = mid.rooms@[i];
                assert(crate::world::room_wf(before, mid.users@, mid.next_room, modes));
                if i == r {
                    assert forall|j: int| 0 <= j < now.members@.len() implies (
                    #[trigger] now.members@[j]) < self.users@.len() && self.users@[now.members@[j] as int].room
                        == Some(now.id) by {
                        let o = if j < k {
                            j
                        } else {
                            j + 1
                        };
                        assert(now.members@[j] == was.members@[o]);
                        assert(mid.users@[was.members@[o] as int].room == Some(was.id));
                    }
                    assert forall|a: int, b: int|
                        0 <= a < now.members@.len() && 0 <= b < now.members@.len() && a
                            != b implies now.members@[a] != now.members@[b] by {
                        let oa = if a < k {
                            a
                        } else {
                            a + 1
                        };
                        let ob = if b < k {
                            b
                        } else {
                            b + 1
                        };
                        assert(now.members@[a] == was.members@[oa] && now.members@[b] == was.members@[ob]);
                    }
                } else {
                    assert forall|j: int| 0 <= j < before.members@.len() implies (
                    #[trigger] before.members@[j]) < self.users@.len() && self.users@[before.members@[j] as int].room
                        == Some(before.id) by {
                        assert(mid.users@[before.members@[j] as int].room == Some(before.id));
                    }
                }
            }
            assert forall|v: int|
                0 <= v < self.users@.len() && (#[trigger] self.users@[v]).room is Some implies crate::world::has_member(
                self.rooms@,
                self.users@[v].room->0,
                v,
            ) by {
                let o = choose|o: int|
                    0 <= o < mid.rooms@.len() && (#[trigger] mid.rooms@[o]).id == mid.users@[v].room->0
                        && holds(mid.rooms@[o].members@, v);
                let j = choose|j: int|
                    0 <= j < mid.rooms@[o].members@.len() && mid.rooms@[o].members@[j] == v;
                if o == r {
                    assert(j != k);
                    let n = if j < k {
                        j
                    } else {
                        j - 1
                    };
                    assert(now.members@[n] == v);
                    assert(holds(now.members@, v));
                } else {
                    assert(self.rooms@[o].members@[j] == v);
                    assert(holds(self.rooms@[o].members@, v));
                }
            }
            assert forall|q: int| 0 <= q < self.queue@.len() implies crate::world::has_room(
                #[trigger] self.queue@[q],
                self.rooms@,
            ) by {
                assert(crate::world::has_room(mid.queue@[q], mid.rooms@));
                let o = choose|o: int|
                    0 <= o < mid.rooms@.len() && crate::world::entry_of(
                        mid.queue@[q],
                        #[trigger] mid.rooms@[o],
                    );
                assert(o != r);
                assert(crate::world::entry_of(self.queue@[q], self.rooms@[o]));
            }
            assert forall|i: int|
                0 <= i < self.rooms@.len() && (#[trigger] self.rooms@[i]).state
                    == RoomState::Queued implies crate::world::in_queue(self.queue@, self.rooms@[i].id) by {
                assert(i != r);
                assert(self.rooms@[i] == mid.rooms@[i]);
            }
        }
        Reply::Done
    }

    /// The master closes its room: the room leaves the queue and its members
    /// are let go.
    pub fn close(&mut self, user: &str) -> (reply: Reply)
        requires
            old(self).wf(),
        ensures
            final(self).wf(),
            close_post(old(self), final(self), user@, reply),
    {
        let u = match self.find_user(user) {
            Some(u) => u,
            None => {
                return Reply::Failed(ErrorKind::NotFound);
            },
        };
        let id = match self.users[u].room {
            Some(id) => id,
            None => {
                return Reply::Failed(ErrorKind::NotFound);
            },
        };
        let ghost modes = self.modes@.len() as int;
        proof {
            let o = choose|o: int|
                0 <= o < self.rooms@.len() && (#[trigger] self.rooms@[o]).id == id && holds(
                    self.rooms@[o].members@,
                    u as int,
                );
            assert(self.rooms@[o].id == id);
        }
        let r = match self.find_room(id) {
            Some(r) => r,
            None => {
                return Reply::Failed(ErrorKind::NotFound);
            },
        };
        assert(crate::world::room_wf(self.rooms@[r as int], self.users@, self.next_room, modes));
        if self.rooms[r].members[0] != u {
            return Reply::Failed(ErrorKind::Conflict);
        }
        match self.rooms[r].state {
            RoomState::Idle | RoomState::Queued => {},
            _ => {
                return Reply::Failed(ErrorKind::StateViolation);
            },
        }
        self.make_idle(r);
        let ghost mid = *self;
        self.dissolve(r);
        proof {
            assert(mid.rooms@.remove(r as int) =~= old(self).rooms@.remove(r as int));
        }
        Reply::Done
    }
}

} // verus!
