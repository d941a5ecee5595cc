//! Finding a match in the queue: around a seed party, one side is filled
//! with parties near the seed, then the other side with near parties that
//! have no quarrel with the first.

use crate::matchmaking::{distance, greedy, load, pick_side, tolerance, tolerance_of, within};
use crate::model::User;
use crate::rooms::lists;
use crate::world::{entry_of, has_room, room_wf, World};
use vstd::prelude::*;

verus! {

/// Milliseconds from `since` to `now`, none if `since` lies ahead.
pub open spec fn waited(now: u64, since: u64) -> int {
    if now >= since {
        now - since
    } else {
        0
    }
}

/// Whether one of two users has black-listed the other.
pub open spec fn users_clash(users: Seq<User>, u: int, v: int) -> bool {
    lists(users[u], users[v].id@) || lists(users[v], users[u].id@)
}

/// Whether a member of one party and a member of the other clash.
pub open spec fn parties_clash(users: Seq<User>, a: Seq<usize>, b: Seq<usize>) -> bool {
    exists|i: int, j: int|
        #![trigger a[i], b[j]]
        0 <= i < a.len() && 0 <= j < b.len() && users_clash(users, a[i] as int, b[j] as int)
}

impl World {
    /// The party sizes of the queue entries, in order.
    pub open spec fn sizes(&self) -> Seq<usize> {
        Seq::new(self.queue@.len(), |q: int| self.queue@[q].party_size)
    }

    /// The members of the room of the queue entry at `q`.
    pub open spec fn party(&self, q: int) -> Seq<usize> {
        self.rooms@[self.room_at(self.queue@[q].room_id)->0].members@
    }

    /// Whether the party at `q` clashes with a party of `side`.
    pub open spec fn blocked(&self, side: Seq<bool>, q: int) -> bool {
        exists|a: int|
            0 <= a < side.len() && #[trigger] side[a] && parties_clash(
                self.users@,
                self.party(a),
                self.party(q),
            )
    }

    /// Whether the party at `i` waits for mode `m` and is rated within the
    /// tolerance window of the seed at `s`.
    pub open spec fn near(&self, m: int, s: int, now: u64, i: int) -> bool {
        self.queue@[i].mode == m && distance(
            self.queue@[i].team_score_avg,
            self.queue@[s].team_score_avg,
        ) <= tolerance_of(waited(now, self.queue@[s].entered_at))
    }

    /// The places the seed leaves on its side.
    pub open spec fn places_left(&self, m: int, s: int) -> int {
        self.modes@[m].team_size - self.queue@[s].party_size
    }

    /// The parties that may join the seed's side.
    pub open spec fn eligible_a(&self, m: int, s: int, now: u64) -> Seq<bool> {
        Seq::new(self.queue@.len(), |i: int| i != s && self.near(m, s, now, i))
    }

    /// The parties chosen to join the seed.
    pub open spec fn joiners(&self, m: int, s: int, now: u64) -> Seq<bool> {
        greedy(
            self.sizes(),
            self.eligible_a(m, s, now),
            self.places_left(m, s),
            self.queue@.len() as int,
        )
    }

    /// The seed's side: the seed and the parties chosen to join it.
    pub open spec fn side_a(&self, m: int, s: int, now: u64) -> Seq<bool> {
        self.joiners(m, s, now).update(s, true)
    }

    /// The parties that may stand on the other side.
    pub open spec fn eligible_b(&self, m: int, s: int, now: u64) -> Seq<bool> {
        Seq::new(
            self.queue@.len(),
            |i: int|
                self.near(m, s, now, i) && !self.side_a(m, s, now)[i] && !self.blocked(
                    self.side_a(m, s, now),
                    i,
                ),
        )
    }

    /// The other side.
    pub open spec fn side_b(&self, m: int, s: int, now: u64) -> Seq<bool> {
        greedy(
            self.sizes(),
            self.eligible_b(m, s, now),
            self.modes@[m].team_size as int,
            self.queue@.len() as int,
        )
    }

    /// Whether the party at `s` seeds a match of mode `m`: both sides fill up.
    pub open spec fn seed_matches(&self, m: int, s: int, now: u64) -> bool {
        let n = self.queue@.len() as int;
        &&& self.queue@[s].mode == m
        &&& self.queue@[s].party_size <= self.modes@[m].team_size
        &&& load(self.sizes(), self.joiners(m, s, now), n) == self.places_left(m, s)
        &&& load(self.sizes(), self.side_b(m, s, now), n) == self.modes@[m].team_size
    }

    /// Whether one of two users has black-listed the other.
    pub fn clash(&self, u: usize, v: usize) -> (b: bool)
        requires
            u < self.users@.len(),
            v < self.users@.len(),
        ensures
            b == users_clash(self.users@, u as int, v as int),
    {
        self.has_listed(u, &self.users[v].id) || self.has_listed(v, &self.users[u].id)
    }

    /// Whether a member of the room at `ra` and a member of the room at `rb` clash.
    pub fn rooms_clash(&self, ra: usize, rb: usize) -> (b: bool)
        requires
            self.wf(),
            ra < self.rooms@.len(),
            rb < self.rooms@.len(),
        ensures
            b == parties_clash(
                self.users@,
                self.rooms@[ra as int].members@,
                self.rooms@[rb as int].members@,
            ),
    {
        let a = &self.rooms[ra].members;
        let b = &self.rooms[rb].members;
        let ghost modes = self.modes@.len() as int;
        assert(room_wf(self.rooms@[ra as int], self.users@, self.next_room, modes));
        assert(room_wf(self.rooms@[rb as int], self.users@, self.next_room, modes));
        let mut i: usize = 0;
        while i < a.len()
            invariant
                ra < self.rooms@.len(),
                rb < self.rooms@.len(),
                i <= a@.len(),
                a@ == self.rooms@[ra as int].members@,
                b@ == self.rooms@[rb as int].members@,
                forall|x: int| 0 <= x < a@.len() ==> (#[trigger] a@[x]) < self.users@.len(),
                forall|y: int| 0 <= y < b@.len() ==> (#[trigger] b@[y]) < self.users@.len(),
                forall|x: int, y: int|
                    #![trigger a@[x], b@[y]]
                    0 <= x < i && 0 <= y < b@.len() ==> !users_clash(
                        self.users@,
                        a@[x] as int,
                        b@[y] as int,
                    ),
            decreases a@.len() - i,
        {
            let mut j: usize = 0;
            while j < b.len()
                invariant
                    ra < self.rooms@.len(),
                    rb < self.rooms@.len(),
                    a@ == self.rooms@[ra as int].members@,
                    b@ == self.rooms@[rb as int].members@,
                    i < a@.len(),
                    j <= b@.len(),
                    forall|x: int| 0 <= x < a@.len() ==> (#[trigger] a@[x]) < self.users@.len(),
                    forall|y: int| 0 <= y < b@.len() ==> (#[trigger] b@[y]) < self.users@.len(),
                    forall|y: int|
                        0 <= y < j ==> !users_clash(
                            self.users@,
                            a@[i as int] as int,
                            (#[trigger] b@[y]) as int,
                        ),
                decreases b@.len() - j,
            {
                if self.clash(a[i], b[j]) {
                    assert(users_clash(self.users@, a@[i as int] as int, b@[j as int] as int));
                    return true;
                }
                j = j + 1;
            }
            i = i + 1;
        }
        false
    }

    /// The party sizes of the queue entries.
    pub(crate) fn entry_sizes(&self) -> (v: Vec<usize>)
        ensures
            v@ == self.sizes(),
    {
        let mut v: Vec<usize> = Vec::new();
        let mut q: usize = 0;
        while q < self.queue.len()
            invariant
                q <= self.queue@.len(),
                v@ == Seq::new(q as nat, |i: int| self.queue@[i].party_size),
            decreases self.queue@.len() - q,
        {
            v.push(self.queue[q].party_size);
            q = q + 1;
            assert(v@ =~= Seq::new(q as nat, |i: int| self.queue@[i].party_size));
        }
        v
    }

    /// For each queue entry, the position of its room.
    pub(crate) fn entry_rooms(&self) -> (v: Vec<usize>)
        requires
            self.wf(),
        ensures
            v@.len() == self.queue@.len(),
            forall|q: int|
                0 <= q < v@.len() ==> {
                    &&& (#[trigger] v@[q]) < self.rooms@.len()
                    &&& self.room_at(self.queue@[q].room_id) == Some(v@[q] as int)
                    &&& entry_of(self.queue@[q], self.rooms@[v@[q] as int])
                },
    {
        let mut v: Vec<usize> = Vec::new();
        let mut q: usize = 0;
        while q < self.queue.len()
            invariant
                self.wf(),
                q <= self.queue@.len(),
                v@.len() == q,
                forall|p: int|
                    0 <= p < q ==> {
                        &&& (#[trigger] v@[p]) < self.rooms@.len()
                        &&& self.room_at(self.queue@[p].room_id) == Some(v@[p] as int)
                        &&& entry_of(self.queue@[p], self.rooms@[v@[p] as int])
                    },
            decreases self.queue@.len() - q,
        {
            proof {
                assert(has_room(self.queue@[q as int], self.rooms@));
                let o = choose|o: int|
                    0 <= o < self.rooms@.len() && entry_of(
                        self.queue@[q as int],
                        #[trigger] self.rooms@[o],
                    );
                assert(self.rooms@[o].id == self.queue@[q as int].room_id);
            }
            let r = match self.find_room(self.queue[q].room_id) {
                Some(r) => r,
                None => 0,
            };
            proof {
                let o = choose|o: int|
                    0 <= o < self.rooms@.len() && entry_of(
                        self.queue@[q as int],
                        #[trigger] self.rooms@[o],
                    );
                assert(o == r);
            }
            v.push(r);
            q = q + 1;
        }
        v
    }

    /// Whether the party at `q` clashes with a party of `side`.
    pub(crate) fn is_blocked(&self, side: &Vec<bool>, rooms_of: &Vec<usize>, q: usize) -> (b: bool)
        requires
            self.wf(),
            side@.len() == self.queue@.len(),
            rooms_of@.len() == self.queue@.len(),
            q < self.queue@.len(),
            forall|p: int|
                0 <= p < rooms_of@.len() ==> {
                    &&& (#[trigger] rooms_of@[p]) < self.rooms@.len()
                    &&& self.room_at(self.queue@[p].room_id) == Some(rooms_of@[p] as int)
                },
        ensures
            b == self.blocked(side@, q as int),
    {
        let n = side.len();
        let mut a: usize = 0;
        while a < n
            invariant
                self.wf(),
                n == side@.len(),
                side@.len() == self.queue@.len(),
                rooms_of@.len() == self.queue@.len(),
                q < self.queue@.len(),
                a <= n,
                forall|p: int|
                    0 <= p < rooms_of@.len() ==> {
                        &&& (#[trigger] rooms_of@[p]) < self.rooms@.len()
                        &&& self.room_at(self.queue@[p].room_id) == Some(rooms_of@[p] as int)
                    },
                forall|x: int|
                    0 <= x < a ==> !(#[trigger] side@[x] && parties_clash(
                        self.users@,
                        self.party(x),
                        self.party(q as int),
                    )),
            decreases n - a,
        {
            proof {
                assert(rooms_of@[a as int] < self.rooms@.len());
                assert(rooms_of@[q as int] < self.rooms@.len());
            }
            if side[a] && self.rooms_clash(rooms_of[a], rooms_of[q]) {
                return true;
            }
            a = a + 1;
        }
        false
    }

    /// Tries the party at `s` as the seed of a match of mode `m`.
    pub(crate) fn try_seed(
        &self,
        m: usize,
        s: usize,
        now: u64,
        sizes: &Vec<usize>,
        rooms_of: &Vec<usize>,
    ) -> (r: Option<(Vec<bool>, Vec<bool>)>)
        requires
            self.wf(),
            m < self.modes@.len(),
            s < self.queue@.len(),
            sizes@ == self.sizes(),
            rooms_of@.len() == self.queue@.len(),
            forall|p: int|
                0 <= p < rooms_of@.len() ==> {
                    &&& (#[trigger] rooms_of@[p]) < self.rooms@.len()
                    &&& self.room_at(self.queue@[p].room_id) == Some(rooms_of@[p] as int)
                },
        ensures
            r is Some <==> self.seed_matches(m as int, s as int, now),
            r matches Some((a, b)) ==> a@ == self.side_a(m as int, s as int, now) && b@
                == self.side_b(m as int, s as int, now),
    {
        let n = self.queue.len();
        let seed = self.queue[s];
        let team = self.modes[m].team_size;
        if seed.mode != m || seed.party_size > team {
            return None;
        }
        let elapsed = if now >= seed.entered_at {
            now - seed.entered_at
        } else {
            0
        };
        let window = tolerance(elapsed);
        let mut near: Vec<bool> = Vec::new();
        let mut may_join: Vec<bool> = Vec::new();
        let mut i: usize = 0;
        while i < n
            invariant
                n == self.queue@.len(),
                i <= n,
                s < n,
                seed == self.queue@[s as int],
                window == tolerance_of(waited(now, seed.entered_at)),
                near@ == Seq::new(i as nat, |x: int| self.near(m as int, s as int, now, x)),
                may_join@ == Seq::new(
                    i as nat,
                    |x: int| x != s && self.near(m as int, s as int, now, x),
                ),
            decreases n - i,
        {
            let e = self.queue[i];
            let close = e.mode == m && within(e.team_score_avg, seed.team_score_avg, window);
            near.push(close);
            may_join.push(i != s && close);
            i = i + 1;
            assert(near@ =~= Seq::new(i as nat, |x: int| self.near(m as int, s as int, now, x)));
            assert(may_join@ =~= Seq::new(
                i as nat,
                |x: int| x != s && self.near(m as int, s as int, now, x),
            ));
        }
        assert(may_join@ =~= self.eligible_a(m as int, s as int, now));
        let (mut side_a, taken_a) = pick_side(sizes, &may_join, team - seed.party_size);
        proof {
            crate::matchmaking::lemma_greedy(
                self.sizes(),
                self.eligible_a(m as int, s as int, now),
                self.places_left(m as int, s as int),
                n as int,
            );
        }
        if taken_a != team - seed.party_size {
            return None;
        }
        side_a[s] = true;
        assert(side_a@ == self.side_a(m as int, s as int, now));
        let mut may_oppose: Vec<bool> = Vec::new();
        let mut j: usize = 0;
        while j < n
            invariant
                self.wf(),
                n == self.queue@.len(),
                j <= n,
                near@ == Seq::new(n as nat, |x: int| self.near(m as int, s as int, now, x)),
                side_a@ == self.side_a(m as int, s as int, now),
                side_a@.len() == n,
                rooms_of@.len() == self.queue@.len(),
                forall|p: int|
                    0 <= p < rooms_of@.len() ==> {
                        &&& (#[trigger] rooms_of@[p]) < self.rooms@.len()
                        &&& self.room_at(self.queue@[p].room_id) == Some(rooms_of@[p] as int)
                    },
                may_oppose@ == Seq::new(
                    j as nat,
                    |x: int|
                        self.near(m as int, s as int, now, x) && !self.side_a(
                            m as int,
                            s as int,
                            now,
                        )[x] && !self.blocked(self.side_a(m as int, s as int, now), x),
                ),
            decreases n - j,
        {
            let free = near[j] && !side_a[j] && !self.is_blocked(&side_a, rooms_of, j);
            may_oppose.push(free);
            j = j + 1;
            assert(may_oppose@ =~= Seq::new(
                j as nat,
                |x: int|
                    self.near(m as int, s as int, now, x) && !self.side_a(m as int, s as int, now)[x]
                        && !self.blocked(self.side_a(m as int, s as int, now), x),
            ));
        }
        assert(may_oppose@ =~= self.eligible_b(m as int, s as int, now));
        let (side_b, taken_b) = pick_side(sizes, &may_oppose, team);
        if taken_b != team {
            return None;
        }
        Some((side_a, side_b))
    }

    /// The first party of the queue that seeds a match of mode `m`, with the
    /// two sides of the match.
    pub fn find_match(&self, m: usize, now: u64) -> (r: Option<(usize, Vec<bool>, Vec<bool>)>)
        requires
            self.wf(),
            m < self.modes@.len(),
        ensures
            match r {
                Some((s, a, b)) => {
                    &&& s < self.queue@.len()
                    &&& self.seed_matches(m as int, s as int, now)
                    &&& forall|t: int| 0 <= t < s ==> !self.seed_matches(m as int, t, now)
                    &&& a@ == self.side_a(m as int, s as int, now)
                    &&& b@ == self.side_b(m as int, s as int, now)
                },
                None => forall|t: int|
                    0 <= t < self.queue@.len() ==> !self.seed_matches(m as int, t, now),
            },
    {
        let sizes = self.entry_sizes();
        let rooms_of = self.entry_rooms();
        let mut s: usize = 0;
        while s < self.queue.len()
            invariant
                self.wf(),
                m < self.modes@.len(),
                s <= self.queue@.len(),
                sizes@ == self.sizes(),
                rooms_of@.len() == self.queue@.len(),
                forall|p: int|
                    0 <= p < rooms_of@.len() ==> {
                        &&& (#[trigger] rooms_of@[p]) < self.rooms@.len()
                        &&& self.room_at(self.queue@[p].room_id) == Some(rooms_of@[p] as int)
                    },
                forall|t: int| 0 <= t < s ==> !self.seed_matches(m as int, t, now),
            decreases self.queue@.len() - s,
        {
            match self.try_seed(m, s, now, &sizes, &rooms_of) {
                Some((a, b)) => {
                    return Some((s, a, b));
                },
                None => {},
            }
            s = s + 1;
        }
        None
    }
}

} // verus!
