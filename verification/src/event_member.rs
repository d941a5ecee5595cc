//! The two requests that open and close a session, from payload to event.

use crate::engine::ErrorKind;
use crate::members::{count_names, distinct_names, is_new_user, lemma_distinct_names, new_user};
use crate::model::User;
use crate::payload::{text_at, text_member};
use crate::sqlqueue::SqlOp;
use crate::topic::{is_valid_id, valid_id};
use vstd::prelude::*;

verus! {

/// What a login hands to the engine.
pub struct UserLoginData {
    /// The user as a first login creates it.
    pub u: User,
    /// The identifier the payload gives.
    pub dataid: String,
}

/// What a logout hands to the engine.
pub struct UserLogoutData {
    pub id: String,
}

/// Makes the login event for the user `id` out of the payload of a login
/// message. The payload has to give an `id`; the user gets the starting
/// rating once for each different name among `modes`.
pub fn login(id: String, v: &serde_json::Value, modes: &Vec<String>) -> (r: Result<
    UserLoginData,
    ErrorKind,
>)
    ensures
        match text_at(*v, "id"@) {
            None => r == Err::<UserLoginData, ErrorKind>(ErrorKind::Decode),
            Some(given) => {
                &&& r is Ok
                &&& is_new_user(r->Ok_0.u, id@, distinct_names(modes@, modes@.len() as int))
                &&& r->Ok_0.u.rank@.len() == distinct_names(modes@, modes@.len() as int)
                &&& r->Ok_0.dataid@ == given
            },
        },
{
    let dataid = match text_member(v, "id") {
        Some(d) => d,
        None => {
            return Err(ErrorKind::Decode);
        },
    };
    proof {
        lemma_distinct_names(modes@, modes@.len() as int);
    }
    Ok(UserLoginData { u: new_user(id.as_str(), count_names(modes)), dataid })
}

/// Whether a logout of the user `id` with the payload `v` can be read: the
/// payload gives an `id`, and the user's identifier is one.
pub open spec fn reads_logout(id: Seq<char>, v: serde_json::Value) -> bool {
    text_at(v, "id"@) is Some && valid_id(id)
}

/// Makes the logout event for the user `id` out of the payload of a logout
/// message, together with the write that marks that user as offline. The
/// payload has to give an `id`, and the user's identifier has to be made of
/// letters, digits and single hyphens, as every identifier taken from a
/// topic is; anything else is a decode error and gives no write.
pub fn logout(id: String, v: &serde_json::Value) -> (r: Result<(UserLogoutData, SqlOp), ErrorKind>)
    ensures
        if reads_logout(id@, *v) {
            &&& r is Ok
            &&& r->Ok_0.0.id == id
            &&& r->Ok_0.1 is SetStatus
            &&& r->Ok_0.1->SetStatus_user == id
            &&& !r->Ok_0.1->SetStatus_online
        } else {
            r == Err::<(UserLogoutData, SqlOp), ErrorKind>(ErrorKind::Decode)
        },
{
    if text_member(v, "id").is_none() || !is_valid_id(id.as_str()) {
        return Err(ErrorKind::Decode);
    }
    let user = id.clone();
    Ok((UserLogoutData { id }, SqlOp::SetStatus { user, online: false }))
}

} // verus!
