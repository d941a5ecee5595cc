//! Client identifiers for the publisher connections.

use vstd::prelude::*;
use vstd::string::*;

verus! {

/// A lower-case hexadecimal digit.
pub open spec fn is_hex_char(c: char) -> bool {
    ('0' <= c && c <= '9') || ('a' <= c && c <= 'f')
}

/// Whether a hyphen stands at position `i` of the hyphenated rendering of a UUID.
pub open spec fn is_hyphen_place(i: int) -> bool {
    i == 8 || i == 13 || i == 18 || i == 23
}

/// What every hyphenated lower-case rendering of a UUID looks like: 36
/// characters, hyphens at positions 8, 13, 18 and 23, lower-case
/// hexadecimal digits everywhere else.
pub open spec fn is_uuid_text(s: Seq<char>) -> bool {
    &&& s.len() == 36
    &&& forall|i: int|
        0 <= i < s.len() ==> if is_hyphen_place(i) {
            #[trigger] s[i] == '-'
        } else {
            is_hex_char(s[i])
        }
}

/// `uuid::Uuid::new_v4` rendered by `to_hyphenated().to_string()`: a fresh
/// random UUID as text. The value is random; only its shape is claimed, as
/// the encoder of the hyphenated form lays it out. The call panics if the
/// operating system cannot supply random bytes.
#[verifier::external_body]
fn fresh_uuid_text() -> (s: String)
    ensures
        is_uuid_text(s@),
{
    uuid::Uuid::new_v4().to_hyphenated().to_string()
}

/// The identifier built from a UUID's text: `Elo_Pub_` followed by the first
/// eight characters of the UUID, sixteen characters in all.
pub open spec fn client_id_of(uuid_text: Seq<char>) -> Seq<char> {
    "Elo_Pub_"@ + uuid_text.subrange(0, 8)
}

/// Builds the client identifier from the text of a UUID.
pub fn client_id_from(uuid_text: &str) -> (id: String)
    requires
        is_uuid_text(uuid_text@),
    ensures
        id@ == client_id_of(uuid_text@),
        id@.len() == 16,
{
    proof {
        reveal_strlit("Elo_Pub_");
        assert forall|i: int| 0 <= i < uuid_text@.len() implies (uuid_text@[i] as u32) < 128 by {
            assert(is_hyphen_place(i) || is_hex_char(uuid_text@[i]));
        }
    }
    let head = uuid_text.substring_ascii(0, 8);
    let id = String::from_str("Elo_Pub_").concat(head);
    id
}

/// A fresh client identifier for one publisher connection.
pub fn generate_client_id() -> (id: String)
    ensures
        id@.len() == 16,
        id@.subrange(0, 8) == "Elo_Pub_"@,
        forall|i: int| 8 <= i < 16 ==> is_hex_char(#[trigger] id@[i]),
{
    let text = fresh_uuid_text();
    let id = client_id_from(text.as_str());
    proof {
        reveal_strlit("Elo_Pub_");
        assert(id@.subrange(0, 8) =~= "Elo_Pub_"@);
        assert forall|i: int| 8 <= i < 16 implies is_hex_char(#[trigger] id@[i]) by {
            assert(id@[i] == text@[i - 8]);
            assert(!is_hyphen_place(i - 8));
        }
    }
    id
}

} // verus!
