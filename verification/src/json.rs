//! JSON documents as values, read by `serde_json`.

use vstd::prelude::*;

verus! {

/// A JSON value.
#[derive(Debug)]
pub enum Json {
    Null,
    Bool(bool),
    /// A number. Its value is kept where it is a whole number from 0 to
    /// 2^64 - 1; of any other number only that it is one.
    Number(Option<u64>),
    Text(String),
    Array(Vec<Json>),
    /// An object: its members by name. Where a name stands more than once,
    /// the first member of that name counts.
    Object(Vec<(String, Json)>),
}

/// `serde_json::Value`, the value that `serde_json` reads a JSON text into.
/// Nothing is claimed of what is inside it.
#[verifier::external_type_specification]
#[verifier::external_body]
pub struct ExValue(serde_json::Value);

/// The value that `serde_json` reads from `bytes`; `None` where it takes
/// them for no JSON text.
pub uninterp spec fn json_text(bytes: Seq<u8>) -> Option<Json>;

/// Turns a `serde_json::Value` into a `Json`, variant by variant, the
/// elements of an array and the members of an object in turn. Of a number it
/// keeps what `serde_json::Number::as_u64` gives. Nothing is claimed of the
/// result here; `parse_json` names it.
#[verifier::external_body]
fn json_of_value(value: serde_json::Value) -> (json: Json) {
    match value {
        serde_json::Value::Null => Json::Null,
        serde_json::Value::Bool(b) => Json::Bool(b),
        serde_json::Value::Number(n) => Json::Number(n.as_u64()),
        serde_json::Value::String(s) => Json::Text(s),
        serde_json::Value::Array(a) => Json::Array(a.into_iter().map(json_of_value).collect()),
        serde_json::Value::Object(o) => Json::Object(
            o.into_iter().map(|(k, v)| (k, json_of_value(v))).collect(),
        ),
    }
}

/// Reads one JSON text with `serde_json::from_slice`. What is claimed: the
/// result depends on the bytes alone, and there is none for no bytes at all
/// (there `serde_json` reports the end of the input).
#[verifier::external_body]
pub(crate) fn parse_json(bytes: &[u8]) -> (json: Option<Json>)
    ensures
        json == json_text(bytes@),
        bytes@.len() == 0 ==> json is None,
{
    match serde_json::from_slice::<serde_json::Value>(bytes) {
        Ok(value) => Some(json_of_value(value)),
        Err(_) => None,
    }
}

/// The value of the first of `members` that is named `name`.
pub open spec fn member(members: Seq<(String, Json)>, name: Seq<char>) -> Option<Json>
    decreases members.len(),
{
    if members.len() == 0 {
        None
    } else if members[0].0@ == name {
        Some(members[0].1)
    } else {
        member(members.drop_first(), name)
    }
}

/// The member of an object that is named `name`; `None` for an object
/// without such a member and for a value that is no object.
pub open spec fn field(json: Json, name: Seq<char>) -> Option<Json> {
    match json {
        Json::Object(members) => member(members@, name),
        _ => None,
    }
}

/// Looks a member of an object up by name.
pub fn get_field<'a>(json: &'a Json, name: &str) -> (found: Option<&'a Json>)
    ensures
        match found {
            Some(value) => field(*json, name@) == Some(*value),
            None => field(*json, name@) is None,
        },
{
    match json {
        Json::Object(members) => {
            let wanted = name.to_owned();
            let mut i: usize = 0;
            assert(members@.skip(0) =~= members@);
            while i < members.len()
                invariant
                    i <= members.len(),
                    wanted@ == name@,
                    field(*json, name@) == member(members@, name@),
                    member(members@, name@) == member(members@.skip(i as int), name@),
                decreases members.len() - i,
            {
                let entry = &members[i];
                if entry.0 == wanted {
                    proof {
                        let rest = members@.skip(i as int);
                        assert(rest[0] == members@[i as int]);
                        assert(member(rest, name@) == Some(rest[0].1));
                    }
                    return Some(&entry.1);
                }
                proof {
                    let rest = members@.skip(i as int);
                    assert(rest[0] == members@[i as int]);
                    assert(rest.drop_first() =~= members@.skip(i + 1));
                }
                i += 1;
            }
            assert(members@.skip(i as int).len() == 0);
            None
        },
        _ => None,
    }
}

} // verus!
