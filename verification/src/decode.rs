//! The shape of an action in a log: which members a document must have, and
//! what they must hold, to be an action.
//!
//! ```text
//! {
//!   "environmentVariables": [{"name": "..", "value": ".."}, ..],
//!   "inputs": [{"path": "..", "digest": {"hash": "..", "sizeBytes": "..", "hashFunctionName": ".."}}, ..],
//!   "listedOutputs": ["..", ..],
//!   "remotable": true,
//!   "cacheable": true,
//!   "actualOutputs": [{"path": "..", "digest": {..}}, ..]
//! }
//! ```
//!
//! Members with other names are passed over.

use vstd::prelude::*;
use crate::hex::{bytes_of_hex, is_hex};
use crate::json::{field, get_field, Json};
use crate::record::{
    env_view,
    items_view,
    strings_view,
    ActionContext,
    ActionView,
    Digest,
    DigestView,
    EnvVar,
    EnvVarView,
    Item,
    ItemView,
    Sha256,
};

verus! {

/// The number that a run of decimal digits stands for.
pub open spec fn decimal_value(digits: Seq<char>) -> nat
    decreases digits.len(),
{
    if digits.len() == 0 {
        0
    } else {
        10 * decimal_value(digits.drop_last()) + (digits.last() as nat - 48) as nat
    }
}

/// Whether `s` is a run of one or more decimal digits.
pub open spec fn is_digits(s: Seq<char>) -> bool {
    s.len() > 0 && forall|i: int| 0 <= i < s.len() ==> '0' <= #[trigger] s[i] <= '9'
}

/// The number that `s` stands for as the text of a `u64`: decimal digits,
/// with or without a `+` before them, whose value fits.
pub open spec fn number_of_text(s: Seq<char>) -> Option<u64> {
    let digits = if s.len() > 0 && s[0] == '+' {
        s.skip(1)
    } else {
        s
    };
    if is_digits(digits) && decimal_value(digits) <= u64::MAX {
        Some(decimal_value(digits) as u64)
    } else {
        None
    }
}

/// Reads a number from a JSON string with
/// `serde_aux::field_attributes::deserialize_number_from_string`, which
/// hands the text of a string to `u64`'s `FromStr`: that takes decimal
/// digits, with or without a `+` before them, and nothing else, and fails
/// where the value does not fit.
#[verifier::external_body]
fn number_from_string(text: &str) -> (number: Option<u64>)
    ensures
        number == number_of_text(text@),
{
    serde_aux::field_attributes::deserialize_number_from_string::<u64, serde_json::Value>(
        serde_json::Value::String(text.to_owned()),
    ).ok()
}

/// The text of a JSON string.
pub open spec fn text_of(json: Json) -> Option<Seq<char>> {
    match json {
        Json::Text(s) => Some(s@),
        _ => None,
    }
}

/// The value of a JSON boolean.
pub open spec fn bool_of(json: Json) -> Option<bool> {
    match json {
        Json::Bool(b) => Some(b),
        _ => None,
    }
}

/// A size in bytes: a string that holds the number in decimal digits, or a
/// number.
pub open spec fn size_of(json: Json) -> Option<u64> {
    match json {
        Json::Text(s) => number_of_text(s@),
        Json::Number(n) => n,
        _ => None,
    }
}

/// A hash: a string of sixty-four hexadecimal digits.
pub open spec fn hash_of(json: Json) -> Option<Seq<u8>> {
    match json {
        Json::Text(s) => if s@.len() == 64 && is_hex(s@) {
            Some(bytes_of_hex(s@))
        } else {
            None
        },
        _ => None,
    }
}

/// A digest: an object with the members `hash`, `sizeBytes` and
/// `hashFunctionName`.
pub open spec fn digest_of(json: Json) -> Option<DigestView> {
    match (field(json, "hash"@), field(json, "sizeBytes"@), field(json, "hashFunctionName"@)) {
        (Some(hash), Some(size), Some(name)) => match (hash_of(hash), size_of(size), text_of(name)) {
            (Some(hash), Some(size_bytes), Some(hash_function_name)) => Some(
                DigestView { hash, size_bytes, hash_function_name },
            ),
            _ => None,
        },
        _ => None,
    }
}

/// A file: an object with the members `path` and `digest`.
pub open spec fn item_of(json: Json) -> Option<ItemView> {
    match (field(json, "path"@), field(json, "digest"@)) {
        (Some(path), Some(digest)) => match (text_of(path), digest_of(digest)) {
            (Some(path), Some(digest)) => Some(ItemView { path, digest }),
            _ => None,
        },
        _ => None,
    }
}

/// A variable: an object with the members `name` and `value`.
pub open spec fn env_var_of(json: Json) -> Option<EnvVarView> {
    match (field(json, "name"@), field(json, "value"@)) {
        (Some(name), Some(value)) => match (text_of(name), text_of(value)) {
            (Some(name), Some(value)) => Some(EnvVarView { name, value }),
            _ => None,
        },
        _ => None,
    }
}

/// A list of files: an array of which every element is a file.
pub open spec fn items_of(json: Json) -> Option<Seq<ItemView>> {
    match json {
        Json::Array(v) => if forall|i: int| 0 <= i < v@.len() ==> item_of(#[trigger] v@[i]) is Some {
            Some(Seq::new(v@.len(), |i: int| item_of(v@[i])->0))
        } else {
            None
        },
        _ => None,
    }
}

/// A list of variables: an array of which every element is a variable.
pub open spec fn env_of(json: Json) -> Option<Seq<EnvVarView>> {
    match json {
        Json::Array(v) => if forall|i: int|
            0 <= i < v@.len() ==> env_var_of(#[trigger] v@[i]) is Some {
            Some(Seq::new(v@.len(), |i: int| env_var_of(v@[i])->0))
        } else {
            None
        },
        _ => None,
    }
}

/// A list of strings: an array of which every element is a string.
pub open spec fn texts_of(json: Json) -> Option<Seq<Seq<char>>> {
    match json {
        Json::Array(v) => if forall|i: int| 0 <= i < v@.len() ==> text_of(#[trigger] v@[i]) is Some {
            Some(Seq::new(v@.len(), |i: int| text_of(v@[i])->0))
        } else {
            None
        },
        _ => None,
    }
}

/// The lists of an action: its variables, inputs, declared outputs and
/// written outputs.
pub open spec fn lists_of(json: Json) -> Option<
    (Seq<EnvVarView>, Seq<ItemView>, Seq<Seq<char>>, Seq<ItemView>),
> {
    match (
        field(json, "environmentVariables"@),
        field(json, "inputs"@),
        field(json, "listedOutputs"@),
        field(json, "actualOutputs"@),
    ) {
        (Some(env), Some(inputs), Some(listed), Some(actual)) => match (
            env_of(env),
            items_of(inputs),
            texts_of(listed),
            items_of(actual),
        ) {
            (Some(env), Some(inputs), Some(listed), Some(actual)) => Some(
                (env, inputs, listed, actual),
            ),
            _ => None,
        },
        _ => None,
    }
}

/// The two marks of an action: whether it may run remotely, and whether its
/// result may be cached.
pub open spec fn marks_of(json: Json) -> Option<(bool, bool)> {
    match (field(json, "remotable"@), field(json, "cacheable"@)) {
        (Some(remotable), Some(cacheable)) => match (bool_of(remotable), bool_of(cacheable)) {
            (Some(remotable), Some(cacheable)) => Some((remotable, cacheable)),
            _ => None,
        },
        _ => None,
    }
}

/// An action: an object with the four lists and the two marks.
pub open spec fn action_of(json: Json) -> Option<ActionView> {
    match (lists_of(json), marks_of(json)) {
        (Some(lists), Some(marks)) => Some(
            ActionView {
                environment_variables: lists.0,
                inputs: lists.1,
                listed_outputs: lists.2,
                remotable: marks.0,
                cacheable: marks.1,
                actual_outputs: lists.3,
            },
        ),
        _ => None,
    }
}

/// Reads a string.
pub fn decode_text(json: &Json) -> (text: Option<String>)
    ensures
        match text {
            Some(s) => text_of(*json) == Some(s@),
            None => text_of(*json) is None,
        },
{
    match json {
        Json::Text(s) => Some(s.clone()),
        _ => None,
    }
}

/// Reads a boolean.
pub fn decode_bool(json: &Json) -> (value: Option<bool>)
    ensures
        value == bool_of(*json),
{
    match json {
        Json::Bool(b) => Some(*b),
        _ => None,
    }
}

/// Reads a size in bytes.
pub fn decode_size(json: &Json) -> (size: Option<u64>)
    ensures
        size == size_of(*json),
{
    match json {
        Json::Text(s) => number_from_string(s.as_str()),
        Json::Number(n) => *n,
        _ => None,
    }
}

/// Reads a hash.
pub fn decode_hash(json: &Json) -> (hash: Option<Sha256>)
    ensures
        match hash {
            Some(h) => hash_of(*json) == Some(h@),
            None => hash_of(*json) is None,
        },
{
    match json {
        Json::Text(s) => Sha256::from_hex(s.as_str()),
        _ => None,
    }
}

/// Reads a digest.
pub fn decode_digest(json: &Json) -> (digest: Option<Digest>)
    ensures
        match digest {
            Some(d) => digest_of(*json) == Some(d@),
            None => digest_of(*json) is None,
        },
{
    let hash = match get_field(json, "hash") {
        Some(value) => decode_hash(value),
        None => None,
    };
    let size_bytes = match get_field(json, "sizeBytes") {
        Some(value) => decode_size(value),
        None => None,
    };
    let hash_function_name = match get_field(json, "hashFunctionName") {
        Some(value) => decode_text(value),
        None => None,
    };
    match (hash, size_bytes, hash_function_name) {
        (Some(hash), Some(size_bytes), Some(hash_function_name)) => Some(
            Digest { hash, size_bytes, hash_function_name },
        ),
        _ => None,
    }
}

/// Reads a file.
pub fn decode_item(json: &Json) -> (item: Option<Item>)
    ensures
        match item {
            Some(i) => item_of(*json) == Some(i@),
            None => item_of(*json) is None,
        },
{
    let path = match get_field(json, "path") {
        Some(value) => decode_text(value),
        None => None,
    };
    let digest = match get_field(json, "digest") {
        Some(value) => decode_digest(value),
        None => None,
    };
    match (path, digest) {
        (Some(path), Some(digest)) => Some(Item { path, digest }),
        _ => None,
    }
}

/// Reads a variable.
pub fn decode_env_var(json: &Json) -> (var: Option<EnvVar>)
    ensures
        match var {
            Some(v) => env_var_of(*json) == Some(v@),
            None => env_var_of(*json) is None,
        },
{
    let name = match get_field(json, "name") {
        Some(value) => decode_text(value),
        None => None,
    };
    let value = match get_field(json, "value") {
        Some(value) => decode_text(value),
        None => None,
    };
    match (name, value) {
        (Some(name), Some(value)) => Some(EnvVar { name, value }),
        _ => None,
    }
}

/// Reads a list of files.
pub fn decode_items(json: &Json) -> (items: Option<Vec<Item>>)
    ensures
        match items {
            Some(v) => items_of(*json) == Some(items_view(v@)),
            None => items_of(*json) is None,
        },
{
    match json {
        Json::Array(elements) => {
            let mut items: Vec<Item> = Vec::new();
            let mut i: usize = 0;
            while i < elements.len()
                invariant
                    *json == Json::Array(*elements),
                    i <= elements.len(),
                    items@.len() == i,
                    forall|k: int| 0 <= k < i ==> item_of(#[trigger] elements@[k]) == Some(items@[k]@),
                decreases elements.len() - i,
            {
                match decode_item(&elements[i]) {
                    Some(item) => {
                        items.push(item);
                    },
                    None => {
                        return None;
                    },
                }
                i += 1;
            }
            assert(items_view(items@) =~= Seq::new(
                elements@.len(),
                |k: int| item_of(elements@[k])->0,
            ));
            Some(items)
        },
        _ => None,
    }
}

/// Reads a list of variables.
pub fn decode_env(json: &Json) -> (vars: Option<Vec<EnvVar>>)
    ensures
        match vars {
            Some(v) => env_of(*json) == Some(env_view(v@)),
            None => env_of(*json) is None,
        },
{
    match json {
        Json::Array(elements) => {
            let mut vars: Vec<EnvVar> = Vec::new();
            let mut i: usize = 0;
            while i < elements.len()
                invariant
                    *json == Json::Array(*elements),
                    i <= elements.len(),
                    vars@.len() == i,
                    forall|k: int|
                        0 <= k < i ==> env_var_of(#[trigger] elements@[k]) == Some(vars@[k]@),
                decreases elements.len() - i,
            {
                match decode_env_var(&elements[i]) {
                    Some(var) => {
                        vars.push(var);
                    },
                    None => {
                        return None;
                    },
                }
                i += 1;
            }
            assert(env_view(vars@) =~= Seq::new(
                elements@.len(),
                |k: int| env_var_of(elements@[k])->0,
            ));
            Some(vars)
        },
        _ => None,
    }
}

/// Reads a list of strings.
pub fn decode_texts(json: &Json) -> (texts: Option<Vec<String>>)
    ensures
        match texts {
            Some(v) => texts_of(*json) == Some(strings_view(v@)),
            None => texts_of(*json) is None,
        },
{
    match json {
        Json::Array(elements) => {
            let mut texts: Vec<String> = Vec::new();
            let mut i: usize = 0;
            while i < elements.len()
                invariant
                    *json == Json::Array(*elements),
                    i <= elements.len(),
                    texts@.len() == i,
                    forall|k: int| 0 <= k < i ==> text_of(#[trigger] elements@[k]) == Some(texts@[k]@),
                decreases elements.len() - i,
            {
                match decode_text(&elements[i]) {
                    Some(text) => {
                        texts.push(text);
                    },
                    None => {
                        return None;
                    },
                }
                i += 1;
            }
            assert(strings_view(texts@) =~= Seq::new(
                elements@.len(),
                |k: int| text_of(elements@[k])->0,
            ));
            Some(texts)
        },
        _ => None,
    }
}

/// Reads an action.
pub fn decode_action(json: &Json) -> (action: Option<ActionContext>)
    ensures
        match action {
            Some(a) => action_of(*json) == Some(a@),
            None => action_of(*json) is None,
        },
{
    let environment_variables = match get_field(json, "environmentVariables") {
        Some(value) => decode_env(value),
        None => None,
    };
    let inputs = match get_field(json, "inputs") {
        Some(value) => decode_items(value),
        None => None,
    };
    let listed_outputs = match get_field(json, "listedOutputs") {
        Some(value) => decode_texts(value),
        None => None,
    };
    let actual_outputs = match get_field(json, "actualOutputs") {
        Some(value) => decode_items(value),
        None => None,
    };
    let remotable = match get_field(json, "remotable") {
        Some(value) => decode_bool(value),
        None => None,
    };
    let cacheable = match get_field(json, "cacheable") {
        Some(value) => decode_bool(value),
        None => None,
    };
    match (environment_variables, inputs, listed_outputs, actual_outputs, remotable, cacheable) {
        (
            Some(environment_variables),
            Some(inputs),
            Some(listed_outputs),
            Some(actual_outputs),
            Some(remotable),
            Some(cacheable),
        ) => Some(
            ActionContext {
                environment_variables,
                inputs,
                listed_outputs,
                remotable,
                cacheable,
                actual_outputs,
            },
        ),
        _ => None,
    }
}

} // verus!
