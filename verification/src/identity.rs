//! Conversation ids: minting them, and the record that keeps one next to a session's history.

use vstd::prelude::*;
use vstd::string::StrSliceExecFns;
use vstd::utf8::{decode_utf8, encode_utf8, valid_utf8};

verus! {

/// The member of the record that holds the id.
pub const ID_MEMBER: &'static str = "conversation_id";

/// The error of `serde_json` for a text that is not JSON.
#[verifier::external_type_specification]
#[verifier::external_body]
pub struct ExJsonError(serde_json::Error);

/// The error of the standard library for bytes that are not UTF-8.
#[verifier::external_type_specification]
#[verifier::external_body]
pub struct ExUtf8Error(core::str::Utf8Error);

/// Trusted: `core::str::from_utf8` accepts exactly the valid UTF-8 byte strings, and hands the
/// same bytes out as a string slice.
pub assume_specification<'a>[ core::str::from_utf8 ](v: &'a [u8]) -> (text: Result<
    &'a str,
    core::str::Utf8Error,
>)
    ensures
        text is Ok <==> valid_utf8(v@),
        text matches Ok(s) ==> encode_utf8(s@) == v@,
;

/// Whether the character is a lower-case hexadecimal digit.
pub open spec fn is_lower_hex(c: char) -> bool {
    '0' <= c <= '9' || 'a' <= c <= 'f'
}

/// Whether the text is a random (version 4) UUID, hyphenated and in lower case.
pub open spec fn is_uuid_v4(s: Seq<char>) -> bool {
    &&& s.len() == 36
    &&& s[8] == '-' && s[13] == '-' && s[18] == '-' && s[23] == '-'
    &&& forall|i: int|
        0 <= i < 36 && i != 8 && i != 13 && i != 18 && i != 23 ==> is_lower_hex(#[trigger] s[i])
    &&& s[14] == '4'
    &&& (s[19] == '8' || s[19] == '9' || s[19] == 'a' || s[19] == 'b')
}

/// Trusted: `uuid::Uuid::new_v4` with the `Display` form of `uuid::Uuid`. The id is random; of
/// every one it holds that it is a version 4 UUID in its hyphenated lower-case form. That no two
/// calls return the same id is overwhelmingly likely but not certain, and is not stated. The call
/// panics where the system offers no random bytes.
#[verifier::external_body]
fn mint_id() -> (id: String)
    ensures
        is_uuid_v4(id@),
{
    uuid::Uuid::new_v4().to_string()
}

/// Whether an id was drawn by `uuid::Uuid::new_v4`.
pub closed spec fn drawn(id: Seq<char>) -> bool {
    exists|s: String| #[trigger] call_ensures(mint_id, (), s) && s@ == id
}

/// Draws a fresh id.
pub(crate) fn draw_id() -> (id: String)
    ensures
        drawn(id@),
        is_uuid_v4(id@),
{
    mint_id()
}

/// An id that was drawn is a random UUID.
pub proof fn law_drawn_ids_are_uuids(id: Seq<char>)
    requires
        drawn(id),
    ensures
        is_uuid_v4(id),
{
}

/// What `serde_json` reads from a text as a JSON value: `None` where it is not one, else the member
/// of that name where the value is an object whose member of that name is a string.
pub uninterp spec fn json_string_member(text: Seq<char>, member: Seq<char>) -> Option<
    Option<Seq<char>>,
>;

/// The compact text that `serde_json` writes for an object whose only member is a string.
pub uninterp spec fn json_object_text(member: Seq<char>, value: Seq<char>) -> Seq<char>;

/// Whether JSON writes the text without escapes.
pub open spec fn is_plain(s: Seq<char>) -> bool {
    forall|i: int| 0 <= i < s.len() ==> '\u{20}' <= #[trigger] s[i] && s[i] != '"' && s[i] != '\\'
}

/// The views of an optional string.
pub open spec fn optional_text(s: Option<String>) -> Option<Seq<char>> {
    match s {
        Some(s) => Some(s@),
        None => None,
    }
}

/// Trusted: `serde_json::from_str` into a `serde_json::Value`, of which `Value::get` and
/// `Value::as_str` pick the member. The result depends on the two texts alone.
#[verifier::external_body]
fn read_json_member(text: &str, member: &str) -> (value: Result<Option<String>, serde_json::Error>)
    ensures
        value matches Ok(s) ==> json_string_member(text@, member@) == Some(optional_text(s)),
        value is Err ==> json_string_member(text@, member@) is None,
{
    serde_json::from_str::<serde_json::Value>(text).map(
        |v| v.get(member).and_then(|x| x.as_str()).map(str::to_string),
    )
}

/// Trusted: the `Display` form of a `serde_json::Value` that is an object with one string member.
/// The text depends on the name and the value alone; where neither needs an escape it is stated in
/// full. Followed by a line end, `serde_json` reads the value back from it.
#[verifier::external_body]
fn write_json_object(member: &str, value: &str) -> (text: String)
    ensures
        text@ == json_object_text(member@, value@),
        json_string_member(text@.push('\n'), member@) == Some(Some(value@)),
        is_plain(member@) && is_plain(value@) ==> text@ == seq!['{', '"'] + member@ + seq![
            '"',
            ':',
            '"',
        ] + value@ + seq!['"', '}'],
{
    let mut object = serde_json::Map::new();
    object.insert(member.to_string(), serde_json::Value::String(value.to_string()));
    serde_json::Value::Object(object).to_string()
}

/// Why a record cannot be read.
#[derive(Debug)]
pub enum RecordError {
    /// The record is not text.
    NotText(core::str::Utf8Error),
    /// The record is not JSON.
    NotJson(serde_json::Error),
}

/// The text of the record of an id: `{"conversation_id":"..."}` and a line end.
pub open spec fn record_text(id: Seq<char>) -> Seq<char> {
    json_object_text(ID_MEMBER@, id).push('\n')
}

/// The bytes of the record of an id.
pub open spec fn record_bytes(id: Seq<char>) -> Seq<u8> {
    encode_utf8(record_text(id))
}

/// The id of a record whose member was read: an empty one counts as none.
pub open spec fn member_id(read: Option<Seq<char>>) -> Option<Seq<char>> {
    match read {
        Some(id) => if id.len() > 0 {
            Some(id)
        } else {
            None
        },
        None => None,
    }
}

/// The id of a record whose member was read: an empty one counts as none.
pub fn id_of_member(read: Option<String>) -> (id: Option<String>)
    ensures
        optional_text(id) == member_id(optional_text(read)),
{
    match read {
        Some(id) => if id.as_str().is_empty() {
            None
        } else {
            Some(id)
        },
        None => None,
    }
}

/// The id that a record holds: `None` where it cannot be read, `Some(None)` where it holds no id or
/// an empty one.
pub open spec fn recorded_id(content: Seq<u8>) -> Option<Option<Seq<char>>> {
    if valid_utf8(content) {
        match json_string_member(decode_utf8(content), ID_MEMBER@) {
            Some(read) => Some(member_id(read)),
            None => None,
        }
    } else {
        None
    }
}

/// Whether the record of an id holds that id. An empty id counts as none.
pub open spec fn record_holds(id: Seq<char>) -> bool {
    recorded_id(record_bytes(id)) == Some(member_id(Some(id)))
}

/// Writes the record of an id. The record holds that id.
pub fn write_record(id: &str) -> (content: Vec<u8>)
    ensures
        content@ == record_bytes(id@),
        record_holds(id@),
        is_plain(id@) ==> content@ == encode_utf8(
            "{\"conversation_id\":\""@ + id@ + "\"}\n"@,
        ),
{
    let mut text: String = write_json_object(ID_MEMBER, id);
    text.push('\n');
    proof {
        vstd::utf8::encode_utf8_valid_utf8(text@);
        vstd::utf8::encode_utf8_decode_utf8(text@);
        reveal_strlit("conversation_id");
        reveal_strlit("{\"conversation_id\":\"");
        reveal_strlit("\"}\n");
        if is_plain(id@) {
            assert(text@ =~= "{\"conversation_id\":\""@ + id@ + "\"}\n"@);
        }
    }
    text.as_str().as_bytes_vec()
}

/// Reads the id that a record holds. A record without an id, or with an empty one, holds none.
pub fn read_record(content: &Vec<u8>) -> (id: Result<Option<String>, RecordError>)
    ensures
        id matches Ok(id) ==> recorded_id(content@) == Some(optional_text(id)),
        id matches Err(RecordError::NotText(_)) ==> !valid_utf8(content@),
        id matches Err(RecordError::NotJson(_)) ==> valid_utf8(content@) && json_string_member(
            decode_utf8(content@),
            ID_MEMBER@,
        ) is None,
        id is Err <==> recorded_id(content@) is None,
{
    let text: &str = match core::str::from_utf8(content.as_slice()) {
        Ok(text) => text,
        Err(error) => {
            return Err(RecordError::NotText(error));
        },
    };
    proof {
        vstd::utf8::encode_utf8_decode_utf8(text@);
    }
    match read_json_member(text, ID_MEMBER) {
        Ok(read) => Ok(id_of_member(read)),
        Err(error) => Err(RecordError::NotJson(error)),
    }
}

/// A record is unreadable exactly if its bytes are no text or its text is not JSON. Otherwise it holds
/// the string under `conversation_id` as it stands there, unless that is missing or empty: it holds
/// no id then, and never an empty one.
pub proof fn law_a_record_holds_what_stands_in_it(content: Seq<u8>)
    ensures
        ({
            let read = json_string_member(decode_utf8(content), "conversation_id"@);
            &&& recorded_id(content) is None <==> !valid_utf8(content) || read is None
            &&& valid_utf8(content) && read is Some ==> {
                let found = recorded_id(content)->0;
                &&& found is Some ==> found == read->0 && found != Some(""@)
                &&& found is None ==> read->0 is None || read->0 == Some(""@)
            }
        }),
{
    reveal_strlit("");
    assert(forall|s: Seq<char>| s.len() == 0 ==> s =~= ""@);
}

/// Whatever id is recorded is read back, and ids that differ have records that differ. Of two
/// records neither can be taken for the other.
pub proof fn law_records_tell_ids_apart(a: Seq<char>, b: Seq<char>)
    requires
        record_holds(a),
        record_holds(b),
        a.len() > 0,
    ensures
        recorded_id(record_bytes(a)) == Some(Some(a)),
        record_bytes(a) == record_bytes(b) ==> a == b,
{
}

} // verus!
