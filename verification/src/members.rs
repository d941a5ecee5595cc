//! Requests about a user alone: login, logout, the chosen hero and the
//! black list.

use crate::engine::{ErrorKind, Reply};
use crate::model::{ScoreInfo, User, START_HONOR, START_SCORE};
use crate::rooms::{leave_refusal, left_rooms, lists};
use crate::world::{lemma_users_changed, World};
use vstd::prelude::*;
use vstd::string::*;

verus! {

/// The hero a user has before choosing one.
pub open spec fn default_hero() -> Seq<char> {
    "default name"@
}

/// Whether `user` is what a first login with identifier `id` creates, in a
/// world with `modes` modes.
pub open spec fn is_new_user(user: User, id: Seq<char>, modes: int) -> bool {
    &&& user.id@ == id
    &&& user.hero@ == default_hero()
    &&& user.honor == START_HONOR
    &&& user.online
    &&& user.rank@ == Seq::new(
        modes as nat,
        |i: int| ScoreInfo { score: START_SCORE, wins: 0, losses: 0 },
    )
    &&& user.room is None
    &&& user.black_list@.len() == 0
}

/// Whether the name at position `i` stands at no earlier position.
pub open spec fn is_first_name(names: Seq<String>, i: int) -> bool {
    forall|j: int| 0 <= j < i ==> (#[trigger] names[j])@ != names[i]@
}

/// How many different names stand among the first `k`.
pub open spec fn distinct_names(names: Seq<String>, k: int) -> int
    decreases k,
{
    if k <= 0 {
        0
    } else {
        distinct_names(names, k - 1) + if is_first_name(names, k - 1) {
            1int
        } else {
            0int
        }
    }
}

/// The number of different names is between none and all.
pub proof fn lemma_distinct_names(names: Seq<String>, k: int)
    requires
        0 <= k,
    ensures
        0 <= distinct_names(names, k) <= k,
    decreases k,
{
    if k > 0 {
        lemma_distinct_names(names, k - 1);
    }
}

/// Where no name stands twice, there are as many different names as names.
pub proof fn lemma_all_distinct(names: Seq<String>, k: int)
    requires
        0 <= k <= names.len(),
        forall|i: int, j: int|
            0 <= i < names.len() && 0 <= j < names.len() && i != j ==> (#[trigger] names[i])@ != (
            #[trigger] names[j])@,
    ensures
        distinct_names(names, k) == k,
    decreases k,
{
    if k > 0 {
        lemma_all_distinct(names, k - 1);
        assert(is_first_name(names, k - 1));
    }
}

/// Counts the different names of a list.
pub fn count_names(names: &Vec<String>) -> (n: usize)
    ensures
        n == distinct_names(names@, names@.len() as int),
{
    let mut n: usize = 0;
    let mut k: usize = 0;
    while k < names.len()
        invariant
            k <= names@.len(),
            n == distinct_names(names@, k as int),
            n <= k,
        decreases names@.len() - k,
    {
        let mut j: usize = 0;
        let mut first = true;
        while j < k
            invariant
                j <= k,
                k < names@.len(),
                first == forall|x: int| 0 <= x < j ==> (#[trigger] names@[x])@ != names@[k as int]@,
            decreases k - j,
        {
            if names[j] == names[k] {
                first = false;
            }
            j = j + 1;
        }
        if first {
            n = n + 1;
        }
        k = k + 1;
    }
    n
}

/// A user as a first login creates it.
pub fn new_user(id: &str, modes: usize) -> (user: User)
    ensures
        is_new_user(user, id@, modes as int),
{
    let mut rank: Vec<ScoreInfo> = Vec::new();
    let mut i: usize = 0;
    while i < modes
        invariant
            i <= modes,
            rank@ == Seq::new(i as nat, |j: int| ScoreInfo { score: START_SCORE, wins: 0, losses: 0 }),
        decreases modes - i,
    {
        rank.push(ScoreInfo::fresh());
        i = i + 1;
        assert(rank@ =~= Seq::new(
            i as nat,
            |j: int| ScoreInfo { score: START_SCORE, wins: 0, losses: 0 },
        ));
    }
    User {
        id: String::from_str(id),
        hero: String::from_str("default name"),
        honor: START_HONOR,
        online: true,
        rank,
        room: None,
        black_list: Vec::new(),
    }
}

/// Whether `after` and `reply` are what a login makes of `before`: a user seen
/// for the first time is created online with the starting rating in every
/// mode; a known user keeps everything but the online flag.
pub open spec fn login_post(before: &World, after: &World, id: Seq<char>, reply: Reply) -> bool {
    &&& after.same_but_users(before)
    &&& reply == Reply::Done
    &&& match before.slot_of(id) {
        Some(u) => after.users@ == before.users@.update(
            u,
            User { online: true, ..before.users@[u] },
        ),
        None => {
            &&& after.users@.len() == before.users@.len() + 1
            &&& after.users@.subrange(0, before.users@.len() as int) == before.users@
            &&& is_new_user(after.users@.last(), id, before.modes@.len() as int)
        },
    }
}

/// Whether `user` is what a stored row brings back: the identifier, the
/// hero, the honor and the standings of the row, offline and in no room.
pub open spec fn is_restored(
    user: User,
    id: Seq<char>,
    hero: Seq<char>,
    honor: i64,
    rank: Seq<ScoreInfo>,
) -> bool {
    &&& user.id@ == id
    &&& user.hero@ == hero
    &&& user.honor == honor
    &&& !user.online
    &&& user.rank@ == rank
    &&& user.room is None
    &&& user.black_list@.len() == 0
}

/// Whether `after` and `reply` are what bringing back a stored user makes of
/// `before`: a user who is known already is left as it is, so that a stored
/// row never overwrites a live standing; a row that does not have one
/// standing for each mode is refused; any other row becomes a new user.
pub open spec fn restore_post(
    before: &World,
    after: &World,
    id: Seq<char>,
    hero: Seq<char>,
    honor: i64,
    rank: Seq<ScoreInfo>,
    reply: Reply,
) -> bool {
    if before.slot_of(id) is Some {
        reply == Reply::Failed(ErrorKind::Conflict) && *after == *before
    } else if rank.len() != before.modes@.len() {
        reply == Reply::Failed(ErrorKind::Decode) && *after == *before
    } else {
        &&& reply == Reply::Done
        &&& after.same_but_users(before)
        &&& after.users@.len() == before.users@.len() + 1
        &&& after.users@.drop_last() == before.users@
        &&& is_restored(after.users@.last(), id, hero, honor, rank)
    }
}

impl World {
    /// Brings back a user from what is stored of it: the standings are those
    /// of the store, not the starting ones. The user is offline until it
    /// logs in, and a login leaves the standings as they are.
    pub fn restore(&mut self, id: &str, hero: &str, honor: i64, rank: Vec<ScoreInfo>) -> (reply: Reply)
        requires
            old(self).wf(),
        ensures
            final(self).wf(),
            restore_post(old(self), final(self), id@, hero@, honor, rank@, reply),
    {
        if self.find_user(id).is_some() {
            return Reply::Failed(ErrorKind::Conflict);
        }
        if rank.len() != self.modes.len() {
            return Reply::Failed(ErrorKind::Decode);
        }
        let user = User {
            id: String::from_str(id),
            hero: String::from_str(hero),
            honor,
            online: false,
            rank,
            room: None,
            black_list: Vec::new(),
        };
        self.users.push(user);
        proof {
            assert(self.users@.drop_last() =~= old(self).users@);
            let modes = self.modes@.len() as int;
            assert forall|i: int, j: int|
                0 <= i < self.users@.len() && 0 <= j < self.users@.len() && i != j implies #[trigger] self.users@[i].id@
                != #[trigger] self.users@[j].id@ by {
                if i < old(self).users@.len() && j < old(self).users@.len() {
                    assert(old(self).users@[i].id@ != old(self).users@[j].id@);
                } else if i < old(self).users@.len() {
                    assert(old(self).users@[i].id@ != id@);
                } else {
                    assert(old(self).users@[j].id@ != id@);
                }
            }
            assert forall|i: int| 0 <= i < self.rooms@.len() implies crate::world::room_wf(
                #[trigger] self.rooms@[i],
                self.users@,
                self.next_room,
                modes,
            ) by {
                let room = old(self).rooms@[i];
                assert(crate::world::room_wf(room, old(self).users@, old(self).next_room, modes));
                assert forall|k: int| 0 <= k < room.members@.len() implies (#[trigger] room.members@[k])
                    < self.users@.len() && self.users@[room.members@[k] as int].room == Some(room.id) by {
                    assert(old(self).users@[room.members@[k] as int].room == Some(room.id));
                }
            }
            assert forall|u: int|
                0 <= u < self.users@.len() && (#[trigger] self.users@[u]).room is Some implies crate::world::has_member(
                self.rooms@,
                self.users@[u].room->0,
                u,
            ) by {
                assert(old(self).users@[u].room is Some);
            }
            assert forall|i: int| 0 <= i < self.games@.len() implies crate::world::game_wf(
                #[trigger] self.games@[i],
                self.users@.len() as int,
                self.next_game,
                modes,
            ) by {
                assert(crate::world::game_wf(
                    old(self).games@[i],
                    old(self).users@.len() as int,
                    old(self).next_game,
                    modes,
                ));
            }
        }
        Reply::Done
    }

    /// Whether `self` differs from `other` in its users at most.
    pub open spec fn same_but_users(&self, other: &World) -> bool {
        &&& self.modes == other.modes
        &&& self.rooms == other.rooms
        &&& self.queue == other.queue
        &&& self.games == other.games
        &&& self.seen == other.seen
        &&& self.next_room == other.next_room
        &&& self.next_game == other.next_game
    }

    /// Whether the users of `self` are those of `other` but for the one in slot `u`.
    pub open spec fn same_users_but(&self, other: &World, u: int) -> bool {
        &&& self.users@.len() == other.users@.len()
        &&& forall|i: int|
            0 <= i < self.users@.len() && i != u ==> #[trigger] self.users@[i] == other.users@[i]
    }

    /// A user comes online. A user seen for the first time is created with
    /// the starting rating in every mode; a known user keeps everything but
    /// the online flag.
    pub fn login(&mut self, id: &str) -> (r: Reply)
        requires
            old(self).wf(),
        ensures
            final(self).wf(),
            login_post(old(self), final(self), id@, r),
    {
        match self.find_user(id) {
            Some(u) => {
                self.users[u].online = true;
                proof {
                    crate::world::lemma_users_kept(
                        old(self).users@,
                        self.users@,
                        self.modes@.len() as int,
                    );
                }
            },
            None => {
                let user = new_user(id, self.modes.len());
                self.users.push(user);
                proof {
                    assert(self.users@.subrange(0, old(self).users@.len() as int) =~= old(
                        self,
                    ).users@);
                }
            },
        }
        Reply::Done
    }
}

/// The position of the first entry of a black list that names `id`, or the
/// length of the list if there is none.
pub open spec fn listed_at(list: Seq<String>, id: Seq<char>) -> int
    decreases list.len(),
{
    if list.len() == 0 {
        0
    } else if list[0]@ == id {
        0
    } else {
        1 + listed_at(list.drop_first(), id)
    }
}

/// Whether `after` is `before` but for the hero, the online flag and the
/// black list.
pub open spec fn user_kept(after: User, before: User) -> bool {
    &&& after.id == before.id
    &&& after.honor == before.honor
    &&& after.rank == before.rank
    &&& after.room == before.room
}

/// Whether the user in slot `u` may leave its room on logging out.
pub open spec fn leaves_on_logout(w: &World, u: int) -> bool {
    match w.users@[u].room {
        None => false,
        Some(id) => w.room_at(id) is Some && leave_refusal(w, w.room_at(id)->0) is None,
    }
}

/// Whether `after` is `before` once the user in slot `u` has logged out: the
/// user is offline, and has left its room if the room could be left.
pub open spec fn logged_out(before: &World, after: &World, u: int) -> bool {
    if leaves_on_logout(before, u) {
        &&& left_rooms(before, after, u, before.room_at(before.users@[u].room->0)->0)
        &&& after.users@ == before.users@.update(
            u,
            User { online: false, room: None, ..before.users@[u] },
        )
    } else {
        &&& after.same_but_users(before)
        &&& after.users@ == before.users@.update(u, User { online: false, ..before.users@[u] })
    }
}

/// Whether `after` and `reply` are what a logout makes of `before`: an unknown
/// user is not found, a user who is offline already is refused, and any
/// other user goes offline and leaves its room if the room can be left.
pub open spec fn logout_post(before: &World, after: &World, id: Seq<char>, reply: Reply) -> bool {
    match before.slot_of(id) {
        None => reply == Reply::Failed(ErrorKind::NotFound) && *after == *before,
        Some(u) => if !before.users@[u].online {
            reply == Reply::Failed(ErrorKind::Conflict) && *after == *before
        } else {
            reply == Reply::Done && logged_out(before, after, u)
        },
    }
}

/// Whether `after` and `reply` are what the choice of a hero makes of `before`.
pub open spec fn choose_hero_post(before: &World, after: &World, id: Seq<char>, hero: Seq<char>, reply: Reply) -> bool {
    &&& after.same_but_users(before)
    &&& match before.slot_of(id) {
        None => reply == Reply::Failed(ErrorKind::NotFound) && *after == *before,
        Some(u) => {
            &&& reply == Reply::Done
            &&& after.same_users_but(before, u)
            &&& user_kept(after.users@[u], before.users@[u])
            &&& after.users@[u].online == before.users@[u].online
            &&& after.users@[u].black_list == before.users@[u].black_list
            &&& after.users@[u].hero@ == hero
        },
    }
}

/// Whether `after` and `reply` are what an addition to a black list makes of
/// `before`.
pub open spec fn add_black_list_post(before: &World, after: &World, id: Seq<char>, other: Seq<char>, reply: Reply) -> bool {
    &&& after.same_but_users(before)
    &&& match before.slot_of(id) {
        None => reply == Reply::Failed(ErrorKind::NotFound) && *after == *before,
        Some(u) => {
            &&& reply == Reply::Done
            &&& if lists(before.users@[u], other) {
                *after == *before
            } else {
                let list = after.users@[u].black_list@;
                &&& after.same_users_but(before, u)
                &&& user_kept(after.users@[u], before.users@[u])
                &&& after.users@[u].online == before.users@[u].online
                &&& after.users@[u].hero == before.users@[u].hero
                &&& list.len() == before.users@[u].black_list@.len() + 1
                &&& list.drop_last() == before.users@[u].black_list@
                &&& list.last()@ == other
            }
        },
    }
}

/// Whether `after` and `reply` are what a removal from a black list makes of
/// `before`.
pub open spec fn remove_black_list_post(before: &World, after: &World, id: Seq<char>, other: Seq<char>, reply: Reply) -> bool {
    &&& after.same_but_users(before)
    &&& match before.slot_of(id) {
        None => reply == Reply::Failed(ErrorKind::NotFound) && *after == *before,
        Some(u) => {
            let list = before.users@[u].black_list@;
            &&& reply == Reply::Done
            &&& if listed_at(list, other) >= list.len() {
                *after == *before
            } else {
                &&& after.same_users_but(before, u)
                &&& user_kept(after.users@[u], before.users@[u])
                &&& after.users@[u].online == before.users@[u].online
                &&& after.users@[u].hero == before.users@[u].hero
                &&& after.users@[u].black_list@ == list.remove(listed_at(list, other))
            }
        },
    }
}

/// Whether `after` and `reply` are what a reset makes of `before`.
pub open spec fn reset_post(before: &World, after: &World, reply: Reply) -> bool {
    &&& reply == Reply::Done
    &&& after.modes == before.modes
    &&& after.next_room == before.next_room
    &&& after.next_game == before.next_game
    &&& after.rooms@.len() == 0
    &&& after.queue@.len() == 0
    &&& after.games@.len() == 0
    &&& after.seen@.len() == 0
    &&& after.users@.len() == before.users@.len()
    &&& forall|x: int|
        0 <= x < before.users@.len() ==> #[trigger] after.users@[x] == (User {
            room: None,
            ..before.users@[x]
        })
}

impl World {
    /// A user goes offline, and leaves its room if the room can be left.
    pub fn logout(&mut self, id: &str) -> (reply: Reply)
        requires
            old(self).wf(),
        ensures
            final(self).wf(),
            logout_post(old(self), final(self), id@, reply),
    {
        let u = match self.find_user(id) {
            Some(u) => u,
            None => {
                return Reply::Failed(ErrorKind::NotFound);
            },
        };
        if !self.users[u].online {
            return Reply::Failed(ErrorKind::Conflict);
        }
        self.leave(id);
        let ghost mid = *self;
        self.users[u].online = false;
        proof {
            lemma_users_changed(&mid, self);
            if leaves_on_logout(old(self), u as int) {
                assert(self.users@ =~= old(self).users@.update(
                    u as int,
                    User { online: false, room: None, ..old(self).users@[u as int] },
                ));
            } else {
                assert(mid == *old(self));
            }
        }
        Reply::Done
    }

    /// A user picks its hero.
    pub fn choose_hero(&mut self, id: &str, hero: &str) -> (reply: Reply)
        requires
            old(self).wf(),
        ensures
            final(self).wf(),
            choose_hero_post(old(self), final(self), id@, hero@, reply),
    {
        let u = match self.find_user(id) {
            Some(u) => u,
            None => {
                return Reply::Failed(ErrorKind::NotFound);
            },
        };
        self.users[u].hero = String::from_str(hero);
        proof {
            lemma_users_changed(old(self), self);
        }
        Reply::Done
    }

    /// A user puts another on its black list. Nothing changes if the other
    /// is on it already.
    pub fn add_black_list(&mut self, id: &str, other: &str) -> (reply: Reply)
        requires
            old(self).wf(),
        ensures
            final(self).wf(),
            add_black_list_post(old(self), final(self), id@, other@, reply),
    {
        let u = match self.find_user(id) {
            Some(u) => u,
            None => {
                return Reply::Failed(ErrorKind::NotFound);
            },
        };
        let name = String::from_str(other);
        if self.has_listed(u, &name) {
            return Reply::Done;
        }
        self.users[u].black_list.push(name);
        proof {
            lemma_users_changed(old(self), self);
            assert(self.users@[u as int].black_list@.drop_last() =~= old(self).users@[u as int].black_list@);
        }
        Reply::Done
    }

    /// A user takes another off its black list. Nothing changes if the other
    /// is not on it.
    pub fn remove_black_list(&mut self, id: &str, other: &str) -> (reply: Reply)
        requires
            old(self).wf(),
        ensures
            final(self).wf(),
            remove_black_list_post(old(self), final(self), id@, other@, reply),
    {
        let u = match self.find_user(id) {
            Some(u) => u,
            None => {
                return Reply::Failed(ErrorKind::NotFound);
            },
        };
        let name = String::from_str(other);
        let n = self.users[u].black_list.len();
        let ghost list = self.users@[u as int].black_list@;
        let mut k: usize = 0;
        assert(list.skip(0) =~= list);
        while k < n && !(self.users[u].black_list[k] == name)
            invariant
                *self == *old(self),
                u < self.users@.len(),
                list == self.users@[u as int].black_list@,
                n == list.len(),
                name@ == other@,
                k <= n,
                listed_at(list, other@) == k + listed_at(list.skip(k as int), other@),
            decreases n - k,
        {
            proof {
                let rest = list.skip(k as int);
                assert(rest[0] == list[k as int]);
                assert(rest.drop_first() =~= list.skip(k + 1));
            }
            k = k + 1;
        }
        proof {
            let rest = list.skip(k as int);
            if k < n {
                assert(rest[0] == list[k as int]);
            }
        }
        if k < n {
            self.users[u].black_list.remove(k);
            proof {
                lemma_users_changed(old(self), self);
            }
        }
        Reply::Done
    }

    /// The black list of a user.
    pub fn query_black_list(&self, id: &str) -> (r: Option<Vec<String>>)
        requires
            self.wf(),
        ensures
            match self.slot_of(id@) {
                None => r is None,
                Some(u) => {
                    &&& r is Some
                    &&& r->0@.len() == self.users@[u].black_list@.len()
                    &&& forall|k: int|
                        0 <= k < r->0@.len() ==> (#[trigger] r->0@[k])@ == self.users@[u].black_list@[k]@
                },
            },
    {
        let u = match self.find_user(id) {
            Some(u) => u,
            None => {
                return None;
            },
        };
        let list = &self.users[u].black_list;
        let mut out: Vec<String> = Vec::new();
        let mut k: usize = 0;
        while k < list.len()
            invariant
                k <= list@.len(),
                out@.len() == k,
                forall|j: int| 0 <= j < k ==> (#[trigger] out@[j])@ == list@[j]@,
            decreases list@.len() - k,
        {
            out.push(list[k].clone());
            k = k + 1;
        }
        Some(out)
    }

    /// Wipes everything that does not outlive a restart: rooms, queue, games
    /// and the memory of answered requests. The users stay, in no room.
    pub fn reset(&mut self) -> (reply: Reply)
        requires
            old(self).wf(),
        ensures
            final(self).wf(),
            reset_post(old(self), final(self), reply),
    {
        let n = self.users.len();
        let mut k: usize = 0;
        while k < n
            invariant
                n == self.users@.len(),
                n == old(self).users@.len(),
                k <= n,
                self.modes == old(self).modes,
                self.next_room == old(self).next_room,
                self.next_game == old(self).next_game,
                forall|x: int|
                    0 <= x < k ==> #[trigger] self.users@[x] == (User {
                        room: None,
                        ..old(self).users@[x]
                    }),
                forall|x: int| k <= x < n ==> #[trigger] self.users@[x] == old(self).users@[x],
            decreases n - k,
        {
            self.users[k].room = None;
            k = k + 1;
        }
        self.rooms = Vec::new();
        self.queue = Vec::new();
        self.games = Vec::new();
        self.seen = Vec::new();
        proof {
            crate::world::lemma_users_kept(
                old(self).users@,
                self.users@,
                self.modes@.len() as int,
            );
        }
        Reply::Done
    }
}

} // verus!
