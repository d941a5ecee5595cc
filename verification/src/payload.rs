//! The payload of a message: a JSON object, of which the engine reads a
//! handful of members.
//!
//! Parsing is left to `serde_json`. What a text parses to, and what members
//! the parsed value holds, are named here and not defined: the library
//! states what it does with them, whatever they are.

use crate::engine::{ErrorKind, Event, Request};
use crate::topic::{classify, topic_text, topic_text_injective, valid_id, EventKind};
use vstd::prelude::*;
use vstd::string::*;

verus! {

/// `serde_json::Value`, a parsed JSON document, carried through without
/// looking inside.
#[verifier::external_type_specification]
#[verifier::external_body]
pub struct ExValue(serde_json::Value);

/// What `serde_json::from_str` makes of a text: the document, or nothing if
/// the text is not JSON.
pub uninterp spec fn json_document(text: Seq<char>) -> Option<serde_json::Value>;

/// The members of a JSON object that are strings, by key. A value that is
/// not an object has none.
pub uninterp spec fn json_texts(v: serde_json::Value) -> Map<Seq<char>, Seq<char>>;

/// The members of a JSON object that are booleans, by key.
pub uninterp spec fn json_flags(v: serde_json::Value) -> Map<Seq<char>, bool>;

/// The members of a JSON object that are whole numbers from 0 to 2^64 - 1, by key.
pub uninterp spec fn json_numbers(v: serde_json::Value) -> Map<Seq<char>, u64>;

/// `serde_json::from_str::<Value>`: parses a text. The result depends on the
/// text alone; an error is turned into `None`.
#[verifier::external_body]
pub(crate) fn parse_json(text: &str) -> (r: Option<serde_json::Value>)
    ensures
        r == json_document(text@),
{
    serde_json::from_str::<serde_json::Value>(text).ok()
}

/// `Value::get` with a string key, then `Value::as_str`: the member under
/// `key` if the value is an object and the member is a string.
#[verifier::external_body]
pub(crate) fn text_member(v: &serde_json::Value, key: &str) -> (r: Option<String>)
    ensures
        match r {
            Some(s) => json_texts(*v).contains_key(key@) && json_texts(*v)[key@] == s@,
            None => !json_texts(*v).contains_key(key@),
        },
{
    match v.get(key) {
        Some(member) => match member.as_str() {
            Some(s) => Some(s.to_string()),
            None => None,
        },
        None => None,
    }
}

/// `Value::get` with a string key, then `Value::as_bool`: the member under
/// `key` if the value is an object and the member is a boolean.
#[verifier::external_body]
pub(crate) fn flag_member(v: &serde_json::Value, key: &str) -> (r: Option<bool>)
    ensures
        match r {
            Some(b) => json_flags(*v).contains_key(key@) && json_flags(*v)[key@] == b,
            None => !json_flags(*v).contains_key(key@),
        },
{
    match v.get(key) {
        Some(member) => member.as_bool(),
        None => None,
    }
}

/// `Value::get` with a string key, then `Value::as_u64`: the member under
/// `key` if the value is an object and the member is a whole number that
/// fits 64 bits without a sign.
#[verifier::external_body]
pub(crate) fn number_member(v: &serde_json::Value, key: &str) -> (r: Option<u64>)
    ensures
        match r {
            Some(n) => json_numbers(*v).contains_key(key@) && json_numbers(*v)[key@] == n,
            None => !json_numbers(*v).contains_key(key@),
        },
{
    match v.get(key) {
        Some(member) => member.as_u64(),
        None => None,
    }
}

/// The members of a payload that the engine reads.
pub struct Payload {
    /// `id`: the identifier the sender gives itself.
    pub id: Option<String>,
    /// `hero`: the hero chosen.
    pub hero: Option<String>,
    /// `black`: the user to put on or take off the black list.
    pub black: Option<String>,
    /// `mode`: the mode to queue for.
    pub mode: Option<String>,
    /// `room`: the room to join.
    pub room: Option<u64>,
    /// `game`: the game that is over.
    pub game: Option<u64>,
    /// `accept`: whether the proposal is accepted.
    pub accept: Option<bool>,
    /// `win`: whether the first team won.
    pub win: Option<bool>,
    /// `request`: the request id.
    pub request: Option<u64>,
}

/// The string member of `v` under `key`, as a view.
pub open spec fn text_at(v: serde_json::Value, key: Seq<char>) -> Option<Seq<char>> {
    if json_texts(v).contains_key(key) {
        Some(json_texts(v)[key])
    } else {
        None
    }
}

/// The boolean member of `v` under `key`.
pub open spec fn flag_at(v: serde_json::Value, key: Seq<char>) -> Option<bool> {
    if json_flags(v).contains_key(key) {
        Some(json_flags(v)[key])
    } else {
        None
    }
}

/// The number member of `v` under `key`.
pub open spec fn number_at(v: serde_json::Value, key: Seq<char>) -> Option<u64> {
    if json_numbers(v).contains_key(key) {
        Some(json_numbers(v)[key])
    } else {
        None
    }
}

/// The view of an optional string.
pub open spec fn text_of(s: Option<String>) -> Option<Seq<char>> {
    match s {
        Some(s) => Some(s@),
        None => None,
    }
}

/// Whether `p` holds what the engine reads of the document `v`.
pub open spec fn payload_of(p: Payload, v: serde_json::Value) -> bool {
    &&& text_of(p.id) == text_at(v, "id"@)
    &&& text_of(p.hero) == text_at(v, "hero"@)
    &&& text_of(p.black) == text_at(v, "black"@)
    &&& text_of(p.mode) == text_at(v, "mode"@)
    &&& p.room == number_at(v, "room"@)
    &&& p.game == number_at(v, "game"@)
    &&& p.accept == flag_at(v, "accept"@)
    &&& p.win == flag_at(v, "win"@)
    &&& p.request == number_at(v, "request"@)
}

/// Reads the members of a document that the engine cares for.
pub fn read_payload(v: &serde_json::Value) -> (p: Payload)
    ensures
        payload_of(p, *v),
{
    Payload {
        id: text_member(v, "id"),
        hero: text_member(v, "hero"),
        black: text_member(v, "black"),
        mode: text_member(v, "mode"),
        room: number_member(v, "room"),
        game: number_member(v, "game"),
        accept: flag_member(v, "accept"),
        win: flag_member(v, "win"),
        request: number_member(v, "request"),
    }
}

/// The event that a message of kind `kind` with payload `p` asks for, or
/// nothing if the payload lacks a member that the kind needs. Kinds that the
/// engine has no part in give `Other`.
pub open spec fn event_for(kind: EventKind, p: Payload) -> Option<Event> {
    match kind {
        EventKind::Login => if p.id is Some {
            Some(Event::Login)
        } else {
            None
        },
        EventKind::Logout => if p.id is Some {
            Some(Event::Logout)
        } else {
            None
        },
        EventKind::ChooseHero => match p.hero {
            Some(hero) => Some(Event::ChooseHero { hero }),
            None => None,
        },
        EventKind::AddBlackList => match p.black {
            Some(other) => Some(Event::AddBlackList { other }),
            None => None,
        },
        EventKind::RemoveBlackList => match p.black {
            Some(other) => Some(Event::RemoveBlackList { other }),
            None => None,
        },
        EventKind::Create => Some(Event::Create),
        EventKind::Close => Some(Event::Close),
        EventKind::Join => match p.room {
            Some(room) => Some(Event::Join { room }),
            None => None,
        },
        EventKind::Leave => Some(Event::Leave),
        EventKind::StartQueue => match p.mode {
            Some(mode) => Some(Event::StartQueue { mode }),
            None => None,
        },
        EventKind::CancelQueue => Some(Event::CancelQueue),
        EventKind::Prestart => match p.accept {
            Some(accept) => Some(Event::Prestart { accept }),
            None => None,
        },
        EventKind::GameOver => match (p.game, p.win) {
            (Some(game), Some(team_a_won)) => Some(Event::GameOver { game, team_a_won }),
            _ => None,
        },
        EventKind::GameClose => match p.game {
            Some(game) => Some(Event::GameClose { game }),
            None => None,
        },
        _ => Some(Event::Other),
    }
}

/// Whether `r` is what decoding a message gives: the request for the event
/// that the kind and the payload ask for, or a decode error if the payload
/// lacks a member.
pub open spec fn decoded(
    r: Result<Request, ErrorKind>,
    kind: EventKind,
    user: Seq<char>,
    now: u64,
    p: Payload,
) -> bool {
    match event_for(kind, p) {
        None => r == Err::<Request, ErrorKind>(ErrorKind::Decode),
        Some(event) => {
            &&& r is Ok
            &&& r->Ok_0.user@ == user
            &&& r->Ok_0.verb == kind
            &&& r->Ok_0.now == now
            &&& r->Ok_0.request == p.request
            &&& r->Ok_0.event == event
        },
    }
}

/// Makes the request out of the kind of a message, the identifier from its
/// topic, its time of arrival and the members of its payload.
pub fn decode_payload(kind: EventKind, user: &str, now: u64, p: &Payload) -> (r: Result<
    Request,
    ErrorKind,
>)
    ensures
        decoded(r, kind, user@, now, *p),
{
    let event = match kind {
        EventKind::Login => {
            if p.id.is_none() {
                return Err(ErrorKind::Decode);
            }
            Event::Login
        },
        EventKind::Logout => {
            if p.id.is_none() {
                return Err(ErrorKind::Decode);
            }
            Event::Logout
        },
        EventKind::ChooseHero => match &p.hero {
            Some(hero) => Event::ChooseHero { hero: hero.clone() },
            None => {
                return Err(ErrorKind::Decode);
            },
        },
        EventKind::AddBlackList => match &p.black {
            Some(other) => Event::AddBlackList { other: other.clone() },
            None => {
                return Err(ErrorKind::Decode);
            },
        },
        EventKind::RemoveBlackList => match &p.black {
            Some(other) => Event::RemoveBlackList { other: other.clone() },
            None => {
                return Err(ErrorKind::Decode);
            },
        },
        EventKind::Create => Event::Create,
        EventKind::Close => Event::Close,
        EventKind::Join => match p.room {
            Some(room) => Event::Join { room },
            None => {
                return Err(ErrorKind::Decode);
            },
        },
        EventKind::Leave => Event::Leave,
        EventKind::StartQueue => match &p.mode {
            Some(mode) => Event::StartQueue { mode: mode.clone() },
            None => {
                return Err(ErrorKind::Decode);
            },
        },
        EventKind::CancelQueue => Event::CancelQueue,
        EventKind::Prestart => match p.accept {
            Some(accept) => Event::Prestart { accept },
            None => {
                return Err(ErrorKind::Decode);
            },
        },
        EventKind::GameOver => match (p.game, p.win) {
            (Some(game), Some(team_a_won)) => Event::GameOver { game, team_a_won },
            _ => {
                return Err(ErrorKind::Decode);
            },
        },
        EventKind::GameClose => match p.game {
            Some(game) => Event::GameClose { game },
            None => {
                return Err(ErrorKind::Decode);
            },
        },
        _ => Event::Other,
    };
    Ok(Request { user: String::from_str(user), verb: kind, now, request: p.request, event })
}

/// Decodes a message: the payload is parsed, the members are read, and the
/// request is made. A payload that is not JSON is a decode error.
pub fn decode(kind: EventKind, user: &str, now: u64, text: &str) -> (r: Result<Request, ErrorKind>)
    ensures
        match json_document(text@) {
            None => r == Err::<Request, ErrorKind>(ErrorKind::Decode),
            Some(v) => exists|p: Payload| payload_of(p, v) && #[trigger] decoded(r, kind, user@, now, p),
        },
{
    match parse_json(text) {
        None => Err(ErrorKind::Decode),
        Some(v) => {
            let p = read_payload(&v);
            decode_payload(kind, user, now, &p)
        },
    }
}

/// What reading a message gives when the topic is that of kind `kind` about
/// `id`: what decoding the payload gives.
pub open spec fn read_as(
    r: Result<Request, ErrorKind>,
    kind: EventKind,
    id: Seq<char>,
    now: u64,
    text: Seq<char>,
) -> bool {
    match json_document(text) {
        None => r == Err::<Request, ErrorKind>(ErrorKind::Decode),
        Some(v) => exists|p: Payload| payload_of(p, v) && #[trigger] decoded(r, kind, id, now, p),
    }
}

/// Reads one message: the topic says the kind and the sender, the payload
/// the rest. A topic that is the topic of no kind is an unknown topic; a
/// payload that cannot be read is a decode error.
pub fn read_message(topic: &str, now: u64, text: &str) -> (r: Result<Request, ErrorKind>)
    ensures
        (forall|kind: EventKind, id: Seq<char>| valid_id(id) ==> topic@ != #[trigger] topic_text(kind, id))
            ==> r == Err::<Request, ErrorKind>(ErrorKind::UnknownTopic),
        forall|kind: EventKind, id: Seq<char>|
            valid_id(id) && topic@ == #[trigger] topic_text(kind, id) ==> read_as(
                r,
                kind,
                id,
                now,
                text@,
            ),
{
    match classify(topic) {
        None => Err(ErrorKind::UnknownTopic),
        Some((found, user)) => {
            let r = decode(found, user.as_str(), now, text);
            proof {
                assert forall|kind: EventKind, id: Seq<char>|
                    valid_id(id) && topic@ == #[trigger] topic_text(kind, id) implies read_as(
                    r,
                    kind,
                    id,
                    now,
                    text@,
                ) by {
                    topic_text_injective(found, user@, kind, id);
                }
            }
            r
        },
    }
}

} // verus!
