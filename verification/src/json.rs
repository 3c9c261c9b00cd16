//! JSON values: what a `serde_json::Value` holds, and how it is read.
use serde_json::Value;
use vstd::prelude::*;

verus! {

/// `serde_json::Value`, read through the functions below.
#[verifier::external_type_specification]
#[verifier::external_body]
pub struct ExValue(serde_json::Value);

/// `serde_json::Error`, carried through as it is.
#[verifier::external_type_specification]
#[verifier::external_body]
pub struct ExJsonError(serde_json::Error);

/// A JSON value.
pub enum Json {
    Null,
    Bool(bool),
    /// A number: its value where that is an integer of 64 unsigned bits.
    Number(Option<u64>),
    Text(Seq<char>),
    Array(Seq<Json>),
    Object(Map<Seq<char>, Json>),
}

impl Json {
    /// The member of an object under `key`; null where there is none, and of what is no object.
    pub open spec fn member(self, key: Seq<char>) -> Json {
        match self {
            Json::Object(m) => if m.dom().contains(key) {
                m[key]
            } else {
                Json::Null
            },
            _ => Json::Null,
        }
    }

    /// Whether this is an object with a member under `key`.
    pub open spec fn has(self, key: Seq<char>) -> bool {
        self matches Json::Object(m) && m.dom().contains(key)
    }

    /// The text that a string holds.
    pub open spec fn text(self) -> Option<Seq<char>> {
        match self {
            Json::Text(s) => Some(s),
            _ => None,
        }
    }

    /// The value of a number that is an integer of 64 unsigned bits.
    pub open spec fn integer(self) -> Option<u64> {
        match self {
            Json::Number(n) => n,
            _ => None,
        }
    }

    /// The items of an array.
    pub open spec fn items(self) -> Option<Seq<Json>> {
        match self {
            Json::Array(s) => Some(s),
            _ => None,
        }
    }
}

/// What a `serde_json::Value` holds.
pub uninterp spec fn json_of(v: Value) -> Json;

/// What each of a sequence of values holds.
pub open spec fn json_of_all(values: Seq<Value>) -> Seq<Json> {
    values.map_values(|v: Value| json_of(v))
}

/// The value that a JSON text stands for, as `serde_json::from_slice` reads it: none where it
/// refuses the text.
pub uninterp spec fn json_document(bytes: Seq<u8>) -> Option<Json>;

/// `serde_json::from_slice`: the value that the bytes stand for, or an error.
#[verifier::external_body]
pub(crate) fn from_slice(bytes: &[u8]) -> (r: Result<Value, serde_json::Error>)
    ensures
        match r {
            Ok(v) => json_document(bytes@) == Some(json_of(v)),
            Err(_) => json_document(bytes@) is None,
        },
{
    serde_json::from_slice(bytes)
}

/// Whether `e` is an error with which `serde_json::from_slice` refused these bytes.
pub closed spec fn refused(bytes: Seq<u8>, e: serde_json::Error) -> bool {
    exists|s: &[u8]|
        s@ == bytes && #[trigger] call_ensures(
            from_slice,
            (s,),
            Err::<Value, serde_json::Error>(e),
        )
}

/// The document that the bytes are, or the error with which they were refused.
pub fn read_document(bytes: &[u8]) -> (r: Result<Value, serde_json::Error>)
    ensures
        match r {
            Ok(v) => json_document(bytes@) == Some(json_of(v)),
            Err(e) => json_document(bytes@) is None && refused(bytes@, e),
        },
{
    from_slice(bytes)
}

/// Indexing a `serde_json::Value` by a string: the member of that name, or null.
#[verifier::external_body]
pub(crate) fn member<'a>(v: &'a Value, key: &str) -> (r: &'a Value)
    ensures
        json_of(*r) == json_of(*v).member(key@),
{
    &v[key]
}

/// `Value::get` with a string: the member of that name, if the value is an object that has one.
#[verifier::external_body]
pub(crate) fn find_member<'a>(v: &'a Value, key: &str) -> (r: Option<&'a Value>)
    ensures
        match r {
            Some(m) => json_of(*v).has(key@) && json_of(*m) == json_of(*v).member(key@),
            None => !json_of(*v).has(key@),
        },
{
    v.get(key)
}

/// `Value::as_str`: the text of a string, and nothing of another value.
pub assume_specification[ Value::as_str ](v: &Value) -> (r: Option<&str>)
    ensures
        match r {
            Some(s) => json_of(*v).text() == Some(s@),
            None => json_of(*v).text() is None,
        },
;

/// `Value::as_u64`: the value of a number that is an integer of 64 unsigned bits, and nothing of
/// another value.
pub assume_specification[ Value::as_u64 ](v: &Value) -> (r: Option<u64>)
    ensures
        r == json_of(*v).integer(),
;

/// `Value::as_array`: the items of an array, in order, and nothing of another value.
pub assume_specification[ Value::as_array ](v: &Value) -> (r: Option<&Vec<Value>>)
    ensures
        match r {
            Some(items) => json_of(*v).items() == Some(json_of_all(items@)),
            None => json_of(*v).items() is None,
        },
;

/// Bytes that were refused are no document.
pub proof fn lemma_refused(bytes: Seq<u8>, e: serde_json::Error)
    requires
        refused(bytes, e),
    ensures
        json_document(bytes) is None,
{
}

/// The text of the member `key`.
pub fn text_member<'a>(v: &'a Value, key: &str) -> (r: Option<&'a str>)
    ensures
        match r {
            Some(s) => json_of(*v).member(key@).text() == Some(s@),
            None => json_of(*v).member(key@).text() is None,
        },
{
    member(v, key).as_str()
}

/// The integer of the member `key`.
pub fn integer_member(v: &Value, key: &str) -> (r: Option<u64>)
    ensures
        r == json_of(*v).member(key@).integer(),
{
    member(v, key).as_u64()
}

// ─── Laws ───

/// An object has its members and no others, what is not there is null, and what is no object has
/// none.
pub proof fn lemma_member(v: Json, members: Map<Seq<char>, Json>, key: Seq<char>)
    ensures
        Json::Object(members).has(key) <==> members.dom().contains(key),
        members.dom().contains(key) ==> Json::Object(members).member(key) == members[key],
        !members.dom().contains(key) ==> Json::Object(members).member(key) is Null,
        !(v is Object) ==> !v.has(key) && v.member(key) is Null,
{
}

/// A string has its text, a number its integer and an array its items, and nothing else has.
pub proof fn lemma_kinds(v: Json, s: Seq<char>, n: Option<u64>, items: Seq<Json>)
    ensures
        Json::Text(s).text() == Some(s),
        Json::Number(n).integer() == n,
        Json::Array(items).items() == Some(items),
        !(v is Text) ==> v.text() is None,
        !(v is Number) ==> v.integer() is None,
        !(v is Array) ==> v.items() is None,
{
}

} // verus!
