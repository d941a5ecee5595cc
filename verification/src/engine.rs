//! The event engine: one request in, one reply out, the world changed in
//! between.

use crate::members::{
    add_black_list_post, choose_hero_post, login_post, logout_post, remove_black_list_post,
    reset_post,
};
use crate::prestart::prestart_post;
use crate::queue::{cancel_queue_post, start_queue_post};
use crate::rooms::{close_post, create_post, join_post, leave_post};
use crate::scoring::{archive_post, game_over_post};
use crate::topic::EventKind;
use crate::world::{World, DEDUP_WINDOW_MS};
use vstd::prelude::*;

verus! {

/// What went wrong with a request.
#[derive(Clone, Copy, Debug, PartialEq, Eq, Structural)]
pub enum ErrorKind {
    /// The payload could not be read.
    Decode,
    /// The topic names no kind of request.
    UnknownTopic,
    /// The request is not allowed in the state the room is in.
    StateViolation,
    /// The user, room or game is unknown.
    NotFound,
    /// The request contradicts what already holds: the user is in a room
    /// already, the room is queued already.
    Conflict,
    /// A queue is full.
    Busy,
    /// The broker or the database hiccuped.
    Transient,
}

/// The answer to a request.
#[derive(Clone, Copy, Debug, PartialEq, Eq, Structural)]
pub enum Reply {
    /// The request was carried out.
    Done,
    /// A room was created.
    Created { room: u64 },
    /// A game is over and rated: each player of the first team moved by
    /// `delta_a`, each player of the second by `delta_b`.
    Settled { game: u64, delta_a: i64, delta_b: i64 },
    /// The request was refused and nothing changed.
    Failed(ErrorKind),
}

/// A request that was answered, kept to recognise a repeat.
pub struct Seen {
    pub user: String,
    pub verb: crate::topic::EventKind,
    pub request: u64,
    pub at: u64,
    pub reply: Reply,
}

impl ErrorKind {
    /// The number that stands for the error in an error response.
    pub open spec fn code_of(self) -> u32 {
        match self {
            ErrorKind::Decode => 1,
            ErrorKind::UnknownTopic => 2,
            ErrorKind::StateViolation => 3,
            ErrorKind::NotFound => 4,
            ErrorKind::Conflict => 5,
            ErrorKind::Busy => 6,
            ErrorKind::Transient => 7,
        }
    }

    #[verifier::when_used_as_spec(code_of)]
    pub fn code(self) -> (c: u32)
        ensures
            c == self.code_of(),
    {
        match self {
            ErrorKind::Decode => 1,
            ErrorKind::UnknownTopic => 2,
            ErrorKind::StateViolation => 3,
            ErrorKind::NotFound => 4,
            ErrorKind::Conflict => 5,
            ErrorKind::Busy => 6,
            ErrorKind::Transient => 7,
        }
    }

    /// Whether the sender is told of the error: errors of the broker or the
    /// database are retried where they happen and not reported.
    pub fn is_reported(self) -> (b: bool)
        ensures
            b == (self != ErrorKind::Transient),
    {
        match self {
            ErrorKind::Transient => false,
            _ => true,
        }
    }

    /// The word that stands for the error in an error response.
    pub fn name(self) -> (s: &'static str)
        ensures
            s@ == (match self {
                ErrorKind::Decode => "decode"@,
                ErrorKind::UnknownTopic => "unknown_topic"@,
                ErrorKind::StateViolation => "state_violation"@,
                ErrorKind::NotFound => "not_found"@,
                ErrorKind::Conflict => "conflict"@,
                ErrorKind::Busy => "busy"@,
                ErrorKind::Transient => "transient"@,
            }),
    {
        match self {
            ErrorKind::Decode => "decode",
            ErrorKind::UnknownTopic => "unknown_topic",
            ErrorKind::StateViolation => "state_violation",
            ErrorKind::NotFound => "not_found",
            ErrorKind::Conflict => "conflict",
            ErrorKind::Busy => "busy",
            ErrorKind::Transient => "transient",
        }
    }
}

/// What a request asks for.
pub enum Event {
    Login,
    Logout,
    ChooseHero { hero: String },
    AddBlackList { other: String },
    RemoveBlackList { other: String },
    Create,
    Close,
    Join { room: u64 },
    Leave,
    StartQueue { mode: String },
    CancelQueue,
    Prestart { accept: bool },
    GameOver { game: u64, team_a_won: bool },
    GameClose { game: u64 },
    Reset,
    ServerDead,
    /// A request that is routed but does not touch the model.
    Other,
}

/// One inbound message, decoded.
pub struct Request {
    /// The identifier from the topic: who asks.
    pub user: String,
    /// The kind of topic the message came on.
    pub verb: EventKind,
    /// When the message arrived, in milliseconds.
    pub now: u64,
    /// The request id, if the sender gave one. Two messages from one user on
    /// one kind of topic with one request id are the same request.
    pub request: Option<u64>,
    pub event: Event,
}

/// What is done with a message once its topic and payload are read.
#[derive(Clone, Copy, Debug, PartialEq, Eq, Structural)]
pub struct Routing {
    /// The message is the heartbeat of the primary: the supervisor records it.
    pub beat: bool,
    /// The request goes to the engine.
    pub serve: bool,
    /// The message is passed on to the database as it came.
    pub relay: bool,
}

/// What is done with a message of kind `kind` that asks for `event`, on an
/// instance that serves (`active`) or stands by. A heartbeat is recorded and
/// goes no further. A standby drops every request. An instance that serves
/// hands every request to the engine, and passes on to the database the
/// requests to the manager that the engine has no part in.
pub open spec fn routing_of(active: bool, kind: EventKind, event: Event) -> Routing {
    if kind == EventKind::Heartbeat {
        Routing { beat: true, serve: false, relay: false }
    } else if !active {
        Routing { beat: false, serve: false, relay: false }
    } else {
        Routing {
            beat: false,
            serve: true,
            relay: event is Other && kind.category() == crate::topic::Category::Manager,
        }
    }
}

/// Decides what is done with a message.
pub fn route(active: bool, kind: EventKind, event: &Event) -> (r: Routing)
    ensures
        r == routing_of(active, kind, *event),
{
    if kind == EventKind::Heartbeat {
        return Routing { beat: true, serve: false, relay: false };
    }
    if !active {
        return Routing { beat: false, serve: false, relay: false };
    }
    let other = match event {
        Event::Other => true,
        _ => false,
    };
    Routing { beat: false, serve: true, relay: other && kind.category_of() == crate::topic::Category::Manager }
}

/// Whether an answer recorded at `at` still counts at `now`.
pub open spec fn fresh(at: u64, now: u64) -> bool {
    now <= at + DEDUP_WINDOW_MS
}

/// Whether `seen` answers the request of `user` on `verb` with id `request` at `now`.
pub open spec fn answers(seen: Seen, user: Seq<char>, verb: EventKind, request: u64, now: u64) -> bool {
    seen.user@ == user && seen.verb == verb && seen.request == request && fresh(seen.at, now)
}

/// The answer on record for a request, if there is one that still counts:
/// that of the first record that answers it.
pub open spec fn recalled(
    seen: Seq<Seen>,
    user: Seq<char>,
    verb: EventKind,
    request: u64,
    now: u64,
) -> Option<Reply>
    decreases seen.len(),
{
    if seen.len() == 0 {
        None
    } else if answers(seen[0], user, verb, request, now) {
        Some(seen[0].reply)
    } else {
        recalled(seen.drop_first(), user, verb, request, now)
    }
}

/// The answer on record for `req`, if it carries a request id and an answer
/// to it still counts.
pub open spec fn repeat_of(w: &World, req: &Request) -> Option<Reply> {
    match req.request {
        Some(id) => recalled(w.seen@, req.user@, req.verb, id, req.now),
        None => None,
    }
}

/// Whether `after` and `reply` are what carrying out `req` makes of
/// `before`, leaving aside the memory of answered requests.
pub open spec fn dispatched(before: &World, req: &Request, after: &World, reply: Reply) -> bool {
    match req.event {
        Event::Login => login_post(before, after, req.user@, reply),
        Event::Logout => logout_post(before, after, req.user@, reply),
        Event::ChooseHero { hero } => choose_hero_post(before, after, req.user@, hero@, reply),
        Event::AddBlackList { other } => add_black_list_post(
            before,
            after,
            req.user@,
            other@,
            reply,
        ),
        Event::RemoveBlackList { other } => remove_black_list_post(
            before,
            after,
            req.user@,
            other@,
            reply,
        ),
        Event::Create => create_post(before, after, req.now, req.user@, reply),
        Event::Close => close_post(before, after, req.user@, reply),
        Event::Join { room } => join_post(before, after, req.user@, room, reply),
        Event::Leave => leave_post(before, after, req.user@, reply),
        Event::StartQueue { mode } => start_queue_post(
            before,
            after,
            req.now,
            req.user@,
            mode@,
            reply,
        ),
        Event::CancelQueue => cancel_queue_post(before, after, req.user@, reply),
        Event::Prestart { accept } => prestart_post(
            before,
            after,
            req.now,
            req.user@,
            accept,
            reply,
        ),
        Event::GameOver { game, team_a_won } => game_over_post(
            before,
            after,
            game,
            team_a_won,
            reply,
        ),
        Event::GameClose { game } => archive_post(before, after, game, reply),
        Event::Reset => reset_post(before, after, reply),
        Event::ServerDead => reply == Reply::Done && *after == *before,
        Event::Other => reply == Reply::Done && *after == *before,
    }
}

/// Whether `last` is the record of the answer `reply` to `req`.
pub open spec fn records(last: Seen, req: &Request, reply: Reply) -> bool {
    &&& last.user@ == req.user@
    &&& last.verb == req.verb
    &&& Some(last.request) == req.request
    &&& last.at == req.now
    &&& last.reply == reply
}

/// Whether `after` and `reply` are what handling `req` makes of `before`. A
/// request that was answered within the window is answered from the record
/// and changes nothing. Any other request is carried out, and its answer is
/// recorded if it carries a request id. A reset wipes the record too.
pub open spec fn handled(before: &World, req: &Request, after: &World, reply: Reply) -> bool {
    match repeat_of(before, req) {
        Some(r) => reply == r && *after == *before,
        None => if req.event is Reset {
            reset_post(before, after, reply)
        } else {
            &&& dispatched(before, req, &World { seen: before.seen, ..*after }, reply)
            &&& match req.request {
                Some(id) => {
                    &&& after.seen@.len() == before.seen@.len() + 1
                    &&& after.seen@.drop_last() == before.seen@
                    &&& records(after.seen@.last(), req, reply)
                },
                None => after.seen == before.seen,
            }
        },
    }
}

/// A record that comes after the others answers only what they do not.
pub proof fn lemma_recalled_push(
    seen: Seq<Seen>,
    last: Seen,
    user: Seq<char>,
    verb: EventKind,
    request: u64,
    now: u64,
)
    ensures
        recalled(seen.push(last), user, verb, request, now) == match recalled(
            seen,
            user,
            verb,
            request,
            now,
        ) {
            Some(r) => Some(r),
            None => if answers(last, user, verb, request, now) {
                Some(last.reply)
            } else {
                None
            },
        },
    decreases seen.len(),
{
    let all = seen.push(last);
    if seen.len() == 0 {
        assert(all.drop_first() =~= seen);
    } else {
        assert(all[0] == seen[0]);
        assert(all.drop_first() =~= seen.drop_first().push(last));
        lemma_recalled_push(seen.drop_first(), last, user, verb, request, now);
    }
}

/// What is not on record now will not be on record later.
pub proof fn lemma_recalled_later(
    seen: Seq<Seen>,
    user: Seq<char>,
    verb: EventKind,
    request: u64,
    now: u64,
    later: u64,
)
    requires
        now <= later,
        recalled(seen, user, verb, request, now) is None,
    ensures
        recalled(seen, user, verb, request, later) is None,
    decreases seen.len(),
{
    if seen.len() > 0 {
        lemma_recalled_later(seen.drop_first(), user, verb, request, now, later);
    }
}

impl Event {
    /// Whether the event is a reset.
    pub fn is_reset(&self) -> (b: bool)
        ensures
            b == (self is Reset),
    {
        match self {
            Event::Reset => true,
            _ => false,
        }
    }
}

impl World {
    /// The answer on record for a request, if there is one that still counts.
    pub fn recall(&self, user: &str, verb: EventKind, request: u64, now: u64) -> (r: Option<Reply>)
        ensures
            r == recalled(self.seen@, user@, verb, request, now),
    {
        let wanted = String::from_str(user);
        let mut i: usize = 0;
        assert(self.seen@.skip(0) =~= self.seen@);
        while i < self.seen.len()
            invariant
                i <= self.seen@.len(),
                wanted@ == user@,
                recalled(self.seen@, user@, verb, request, now) == recalled(
                    self.seen@.skip(i as int),
                    user@,
                    verb,
                    request,
                    now,
                ),
            decreases self.seen@.len() - i,
        {
            let e = &self.seen[i];
            proof {
                let rest = self.seen@.skip(i as int);
                assert(rest[0] == self.seen@[i as int]);
                assert(rest.drop_first() =~= self.seen@.skip(i + 1));
            }
            let still = now <= e.at || now - e.at <= DEDUP_WINDOW_MS;
            if e.user == wanted && e.verb == verb && e.request == request && still {
                return Some(e.reply);
            }
            i = i + 1;
        }
        None
    }

    /// Carries out a request, whatever is on record.
    pub fn dispatch(&mut self, req: &Request) -> (reply: Reply)
        requires
            old(self).wf(),
        ensures
            final(self).wf(),
            dispatched(old(self), req, final(self), reply),
    {
        let user = req.user.as_str();
        match &req.event {
            Event::Login => self.login(user),
            Event::Logout => self.logout(user),
            Event::ChooseHero { hero } => self.choose_hero(user, hero.as_str()),
            Event::AddBlackList { other } => self.add_black_list(user, other.as_str()),
            Event::RemoveBlackList { other } => self.remove_black_list(user, other.as_str()),
            Event::Create => self.create(req.now, user),
            Event::Close => self.close(user),
            Event::Join { room } => self.join(user, *room),
            Event::Leave => self.leave(user),
            Event::StartQueue { mode } => self.start_queue(req.now, user, mode.as_str()),
            Event::CancelQueue => self.cancel_queue(user),
            Event::Prestart { accept } => self.prestart(req.now, user, *accept),
            Event::GameOver { game, team_a_won } => self.game_over(*game, *team_a_won),
            Event::GameClose { game } => self.archive(*game),
            Event::Reset => self.reset(),
            Event::ServerDead => Reply::Done,
            Event::Other => Reply::Done,
        }
    }

    /// Handles one request: a repeat is answered from the record, anything
    /// else is carried out and recorded.
    pub fn handle(&mut self, req: &Request) -> (reply: Reply)
        requires
            old(self).wf(),
        ensures
            final(self).wf(),
            handled(old(self), req, final(self), reply),
    {
        match req.request {
            Some(id) => {
                match self.recall(req.user.as_str(), req.verb, id, req.now) {
                    Some(r) => {
                        return r;
                    },
                    None => {},
                }
            },
            None => {},
        }
        let reply = self.dispatch(req);
        let ghost mid = *self;
        proof {
            if !(req.event is Reset) {
                lemma_dispatch_keeps_record(old(self), req, &mid, reply);
            }
        }
        if req.event.is_reset() {
            return reply;
        }
        match req.request {
            Some(id) => {
                self.seen.push(
                    Seen { user: req.user.clone(), verb: req.verb, request: id, at: req.now, reply },
                );
                proof {
                    assert(self.seen@.drop_last() =~= old(self).seen@);
                    assert(World { seen: old(self).seen, ..*self } == mid);
                }
            },
            None => {
                proof {
                    assert(World { seen: old(self).seen, ..*self } == mid);
                }
            },
        }
        reply
    }
}

/// Carrying out a request other than a reset leaves the record of answered
/// requests alone.
pub proof fn lemma_dispatch_keeps_record(before: &World, req: &Request, after: &World, reply: Reply)
    requires
        dispatched(before, req, after, reply),
        !(req.event is Reset),
    ensures
        after.seen == before.seen,
{
}

/// A record that no longer counts answers nothing; taking it away changes
/// no answer.
pub proof fn lemma_recalled_without(
    seen: Seq<Seen>,
    i: int,
    user: Seq<char>,
    verb: EventKind,
    request: u64,
    now: u64,
)
    requires
        0 <= i < seen.len(),
        !fresh(seen[i].at, now),
    ensures
        recalled(seen.remove(i), user, verb, request, now) == recalled(
            seen,
            user,
            verb,
            request,
            now,
        ),
    decreases seen.len(),
{
    let rest = seen.remove(i);
    if i == 0 {
        assert(rest =~= seen.drop_first());
    } else {
        assert(rest[0] == seen[0]);
        assert(rest.drop_first() =~= seen.drop_first().remove(i - 1));
        lemma_recalled_without(seen.drop_first(), i - 1, user, verb, request, now);
    }
}

impl World {
    /// Forgets the answers that no longer count at `now`. No request that
    /// arrives at `now` or later is answered differently for it.
    pub fn forget(&mut self, now: u64)
        requires
            old(self).wf(),
        ensures
            final(self).wf(),
            final(self).modes == old(self).modes,
            final(self).users == old(self).users,
            final(self).rooms == old(self).rooms,
            final(self).queue == old(self).queue,
            final(self).games == old(self).games,
            final(self).next_room == old(self).next_room,
            final(self).next_game == old(self).next_game,
            forall|i: int| 0 <= i < final(self).seen@.len() ==> fresh((#[trigger] final(self).seen@[i]).at, now),
            forall|user: Seq<char>, verb: EventKind, request: u64, later: u64|
                later >= now ==> #[trigger] recalled(final(self).seen@, user, verb, request, later)
                    == recalled(old(self).seen@, user, verb, request, later),
    {
        let mut i: usize = 0;
        while i < self.seen.len()
            invariant
                self.wf(),
                self.modes == old(self).modes,
                self.users == old(self).users,
                self.rooms == old(self).rooms,
                self.queue == old(self).queue,
                self.games == old(self).games,
                self.next_room == old(self).next_room,
                self.next_game == old(self).next_game,
                i <= self.seen@.len(),
                forall|j: int| 0 <= j < i ==> fresh((#[trigger] self.seen@[j]).at, now),
                forall|user: Seq<char>, verb: EventKind, request: u64, later: u64|
                    later >= now ==> #[trigger] recalled(self.seen@, user, verb, request, later)
                        == recalled(old(self).seen@, user, verb, request, later),
            decreases self.seen@.len() - i,
        {
            let at = self.seen[i].at;
            let still = now <= at || now - at <= DEDUP_WINDOW_MS;
            if still {
                i = i + 1;
            } else {
                let ghost before = self.seen@;
                self.seen.remove(i);
                proof {
                    assert forall|user: Seq<char>, verb: EventKind, request: u64, later: u64|
                        later >= now implies #[trigger] recalled(
                        self.seen@,
                        user,
                        verb,
                        request,
                        later,
                    ) == recalled(old(self).seen@, user, verb, request, later) by {
                        lemma_recalled_without(before, i as int, user, verb, request, later);
                    }
                    assert forall|j: int| 0 <= j < i implies fresh((#[trigger] self.seen@[j]).at, now) by {
                        assert(self.seen@[j] == before[j]);
                    }
                }
            }
        }
    }
}

} // verus!
