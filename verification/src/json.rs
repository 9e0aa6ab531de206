//! JSON objects, as `serde_json` holds, reads and writes them. A JSON value goes in and
//! out of this library as its text.

use crate::text;
use vstd::prelude::*;
use vstd::string::StringExecFns;

verus! {

/// A JSON value: what a member of an object holds. Numbers, arrays and objects are held
/// by their compact text.
#[derive(Clone, Debug, PartialEq, Eq)]
pub enum Json {
    Null,
    Bool(bool),
    Number(String),
    Text(String),
    Array(String),
    Object(String),
}

/// A JSON value with its texts as sequences.
pub enum JsonView {
    Null,
    Bool(bool),
    Number(Seq<char>),
    Text(Seq<char>),
    Array(Seq<char>),
    Object(Seq<char>),
}

impl View for Json {
    type V = JsonView;

    open spec fn view(&self) -> JsonView {
        match *self {
            Json::Null => JsonView::Null,
            Json::Bool(b) => JsonView::Bool(b),
            Json::Number(t) => JsonView::Number(t@),
            Json::Text(t) => JsonView::Text(t@),
            Json::Array(t) => JsonView::Array(t@),
            Json::Object(t) => JsonView::Object(t@),
        }
    }
}

/// A value of `serde_json`.
#[verifier::external_type_specification]
#[verifier::external_body]
pub struct ExJsonValue(serde_json::Value);

/// An object of `serde_json`.
#[verifier::external_type_specification]
#[verifier::external_body]
#[verifier::reject_recursive_types(K)]
#[verifier::reject_recursive_types(V)]
pub struct ExJsonMap<K, V>(serde_json::Map<K, V>);

/// What an object holds: for each key the value of its member.
pub uninterp spec fn members(
    object: serde_json::Map<String, serde_json::Value>,
) -> Map<Seq<char>, JsonView>;

/// What `serde_json::from_str` reads a text as; nothing where the text is no JSON.
pub uninterp spec fn json_value(text: Seq<char>) -> Option<JsonView>;

/// What `serde_json::from_str` reads a text as where it is an object.
pub uninterp spec fn json_members(text: Seq<char>) -> Option<Map<Seq<char>, JsonView>>;

/// A hexadecimal digit.
pub open spec fn hex_digit(n: int) -> char {
    if n < 10 {
        text::digit(n as nat)
    } else {
        seq!['a', 'b', 'c', 'd', 'e', 'f'][n - 10]
    }
}

/// How a character stands in a JSON string: quotes, backslashes and control characters are
/// escaped, the others stand as they are.
pub open spec fn escaped(c: char) -> Seq<char> {
    if c == '"' {
        seq!['\\', '"']
    } else if c == '\\' {
        seq!['\\', '\\']
    } else if c == '\u{8}' {
        seq!['\\', 'b']
    } else if c == '\u{9}' {
        seq!['\\', 't']
    } else if c == '\u{a}' {
        seq!['\\', 'n']
    } else if c == '\u{c}' {
        seq!['\\', 'f']
    } else if c == '\u{d}' {
        seq!['\\', 'r']
    } else if 0x20 > c as int {
        seq!['\\', 'u', '0', '0', hex_digit(c as int / 16), hex_digit(c as int % 16)]
    } else {
        seq![c]
    }
}

/// A text as it stands between the quotes of a JSON string.
pub open spec fn all_escaped(text: Seq<char>) -> Seq<char>
    decreases text.len(),
{
    if text.len() == 0 {
        text
    } else {
        all_escaped(text.drop_last()) + escaped(text.last())
    }
}

/// The compact text of a JSON string, quotes and escapes included.
pub open spec fn json_string(text: Seq<char>) -> Seq<char> {
    seq!['"'] + all_escaped(text) + seq!['"']
}

/// The compact text of an object.
pub uninterp spec fn object_text(object: Map<Seq<char>, JsonView>) -> Seq<char>;

/// The members of an empty object.
pub open spec fn no_members() -> Map<Seq<char>, JsonView> {
    Map::empty()
}

/// `serde_json::Map::new`: an object without members.
#[verifier::external_body]
pub(crate) fn new_object() -> (out: serde_json::Map<String, serde_json::Value>)
    ensures
        members(out) == no_members(),
{
    serde_json::Map::new()
}

/// `serde_json::Map::insert` of a string: the member of that key, new or not, is the
/// string, and no other member changes.
#[verifier::external_body]
pub(crate) fn put_text(
    object: &mut serde_json::Map<String, serde_json::Value>,
    key: &str,
    value: &str,
)
    ensures
        members(*final(object)) == members(*old(object)).insert(key@, JsonView::Text(value@)),
{
    object.insert(key.to_owned(), serde_json::Value::String(value.to_owned()));
}

/// `serde_json::Map::insert` of a whole number, whose text is its decimal digits.
#[verifier::external_body]
pub(crate) fn put_whole(
    object: &mut serde_json::Map<String, serde_json::Value>,
    key: &str,
    value: u64,
)
    ensures
        members(*final(object)) == members(*old(object)).insert(
            key@,
            JsonView::Number(text::digits(value as nat)),
        ),
{
    object.insert(key.to_owned(), serde_json::Value::from(value));
}

/// `serde_json::Map::insert` of an object.
#[verifier::external_body]
pub(crate) fn put_object(
    object: &mut serde_json::Map<String, serde_json::Value>,
    key: &str,
    value: serde_json::Map<String, serde_json::Value>,
)
    ensures
        members(*final(object)) == members(*old(object)).insert(
            key@,
            JsonView::Object(object_text(members(value))),
        ),
{
    object.insert(key.to_owned(), serde_json::Value::Object(value));
}

/// `serde_json::from_str` and `serde_json::Map::insert` of what it read; the object is
/// left as it was where the text is no JSON.
#[verifier::external_body]
pub(crate) fn put_json(
    object: &mut serde_json::Map<String, serde_json::Value>,
    key: &str,
    text: &str,
) -> (out: bool)
    ensures
        out == (json_value(text@) is Some),
        json_value(text@) matches Some(value) ==> members(*final(object)) == members(
            *old(object),
        ).insert(key@, value),
        json_value(text@) is None ==> members(*final(object)) == members(*old(object)),
{
    match serde_json::from_str::<serde_json::Value>(text) {
        Ok(value) => {
            object.insert(key.to_owned(), value);
            true
        },
        Err(_) => false,
    }
}

/// Whether a value is nothing, a flag, a text or a number.
pub open spec fn is_simple(value: JsonView) -> bool {
    !(value is Array || value is Object)
}

/// Whether every member of an object is simple.
pub open spec fn all_simple(object: Map<Seq<char>, JsonView>) -> bool {
    forall|key: Seq<char>| #[trigger] object.contains_key(key) ==> is_simple(object[key])
}

/// Whether a text is that of an object and reads as it.
pub open spec fn is_text_of(text: Seq<char>, object: Map<Seq<char>, JsonView>) -> bool {
    text == object_text(object) && json_members(text) == Some(object)
}

/// The compact text of an object: `serde_json::Value` as it is displayed, the same text
/// that `serde_json::to_vec` gives the bytes of. The members come out in the order of
/// their keys, so the text rests on the members alone. An object of simple members is
/// what `serde_json::from_str` reads the text as; numbers read back as they were, for the
/// crate is built with its feature `float_roundtrip`. Of other objects that is left unsaid:
/// nothing nested too deeply reads at all.
#[verifier::external_body]
pub(crate) fn text_of_object(
    object: &serde_json::Map<String, serde_json::Value>,
) -> (out: String)
    ensures
        out@ == object_text(members(*object)),
        all_simple(members(*object)) ==> json_members(out@) == Some(members(*object)),
{
    serde_json::Value::Object(object.clone()).to_string()
}

/// `serde_json::from_str` of a value: its kind, with the content of a string and the
/// compact text of a number, an array or an object.
#[verifier::external_body]
pub(crate) fn parse_value(text: &str) -> (out: Option<Json>)
    ensures
        (out is Some) == (json_value(text@) is Some),
        out matches Some(value) ==> json_value(text@) == Some(value@),
{
    match serde_json::from_str::<serde_json::Value>(text) {
        Ok(serde_json::Value::Null) => Some(Json::Null),
        Ok(serde_json::Value::Bool(b)) => Some(Json::Bool(b)),
        Ok(serde_json::Value::String(s)) => Some(Json::Text(s)),
        Ok(serde_json::Value::Number(n)) => Some(Json::Number(n.to_string())),
        Ok(v @ serde_json::Value::Array(_)) => Some(Json::Array(v.to_string())),
        Ok(v @ serde_json::Value::Object(_)) => Some(Json::Object(v.to_string())),
        Err(_) => None,
    }
}

/// The compact text of a string: `serde_json::Value::String` as it is displayed, in quotes
/// and with the escapes of `serde_json`.
#[verifier::external_body]
fn quoted(text: &str) -> (out: String)
    ensures
        out@ == json_string(text@),
{
    serde_json::Value::String(text.to_owned()).to_string()
}

/// `serde_json::from_str` of an object; nothing where the text is no JSON or no object.
#[verifier::external_body]
pub(crate) fn parse_object(text: &str) -> (out: Option<
    serde_json::Map<String, serde_json::Value>,
>)
    ensures
        (out is Some) == (json_members(text@) is Some),
        out matches Some(object) ==> json_members(text@) == Some(members(object)),
{
    serde_json::from_str(text).ok()
}

/// `serde_json::Map::keys`: every key once.
#[verifier::external_body]
pub(crate) fn keys(object: &serde_json::Map<String, serde_json::Value>) -> (out: Vec<String>)
    ensures
        forall|i: int|
            0 <= i < out@.len() ==> members(*object).contains_key((#[trigger] out@[i])@),
        forall|i: int, j: int|
            0 <= i < j < out@.len() ==> (#[trigger] out@[i])@ != (#[trigger] out@[j])@,
        forall|k: Seq<char>| #[trigger]
            members(*object).contains_key(k) ==> exists|i: int|
                0 <= i < out@.len() && (#[trigger] out@[i])@ == k,
{
    object.keys().cloned().collect()
}

/// `serde_json::Map::get`: the member of a key, where there is one.
#[verifier::external_body]
pub(crate) fn member(
    object: &serde_json::Map<String, serde_json::Value>,
    key: &str,
) -> (out: Option<Json>)
    ensures
        (out is Some) == members(*object).contains_key(key@),
        out matches Some(value) ==> value@ == members(*object)[key@],
{
    match object.get(key)? {
        serde_json::Value::Null => Some(Json::Null),
        serde_json::Value::Bool(b) => Some(Json::Bool(*b)),
        serde_json::Value::String(s) => Some(Json::Text(s.clone())),
        serde_json::Value::Number(n) => Some(Json::Number(n.to_string())),
        v @ serde_json::Value::Array(_) => Some(Json::Array(v.to_string())),
        v @ serde_json::Value::Object(_) => Some(Json::Object(v.to_string())),
    }
}

/// The compact text of a value.
pub open spec fn value_text(value: JsonView) -> Seq<char> {
    match value {
        JsonView::Null => "null"@,
        JsonView::Bool(b) => if b {
            "true"@
        } else {
            "false"@
        },
        JsonView::Number(t) => t,
        JsonView::Text(t) => json_string(t),
        JsonView::Array(t) => t,
        JsonView::Object(t) => t,
    }
}

/// The compact text of a value.
pub fn text_of_value(value: &Json) -> (out: String)
    ensures
        out@ == value_text(value@),
{
    match value {
        Json::Null => "null".to_owned(),
        Json::Bool(b) => if *b {
            "true".to_owned()
        } else {
            "false".to_owned()
        },
        Json::Number(t) => t.clone(),
        Json::Text(t) => quoted(t),
        Json::Array(t) => t.clone(),
        Json::Object(t) => t.clone(),
    }
}

} // verus!
