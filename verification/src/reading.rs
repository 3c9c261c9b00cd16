//! Reading numbers from text.
//!
//! Which binary64 number a text stands for is for a function of the caller's to say. The library
//! fixes which texts are handed to it, and what is made of its answers.
use crate::binary64::Binary64;
use crate::json::{find_member, json_of, text_member, Json};
use serde_json::Value;
use vstd::prelude::*;

verus! {

/// What a document tells of a number.
#[derive(Clone, Copy, Debug)]
pub enum Told {
    /// It has no such member.
    Absent,
    /// It has the member, which is no number.
    NoNumber,
    /// It has the member, which reads as this number.
    Number(Binary64),
}

impl Told {
    /// The number that is told.
    pub open spec fn number(self) -> Option<Binary64> {
        match self {
            Told::Number(d) => Some(d),
            _ => None,
        }
    }
}

/// Whether `read` can be asked about every text.
pub open spec fn reads_all<F: Fn(&str) -> Option<Binary64>>(read: F) -> bool {
    forall|s: &str| call_requires(read, (s,))
}

/// Whether `answer` is one that `read` gave for the text `s`.
pub open spec fn answered<F: Fn(&str) -> Option<Binary64>>(
    read: F,
    s: Seq<char>,
    answer: Option<Binary64>,
) -> bool {
    exists|t: &str| t@ == s && #[trigger] call_ensures(read, (t,), answer)
}

/// Whether `answer` is what the text of a JSON value reads as: nothing where it has no text.
pub open spec fn answered_of<F: Fn(&str) -> Option<Binary64>>(
    read: F,
    v: Json,
    answer: Option<Binary64>,
) -> bool {
    match v.text() {
        Some(s) => answered(read, s, answer),
        None => answer is None,
    }
}

/// Whether `told` is what a JSON value tells under `key`.
pub open spec fn told_of<F: Fn(&str) -> Option<Binary64>>(
    read: F,
    v: Json,
    key: Seq<char>,
    told: Told,
) -> bool {
    &&& told is Absent <==> !v.has(key)
    &&& answered_of(read, v.member(key), told.number())
}

/// What the text of the member `key` reads as.
pub fn read_member<F: Fn(&str) -> Option<Binary64>>(read: &F, v: &Value, key: &str) -> (r: Option<
    Binary64,
>)
    requires
        reads_all(*read),
    ensures
        answered_of(*read, json_of(*v).member(key@), r),
{
    match text_member(v, key) {
        Some(s) => {
            let r: Option<Binary64> = read(s);
            assert(call_ensures(*read, (s,), r));
            r
        },
        None => None,
    }
}

/// What is told under `key`.
pub fn read_told<F: Fn(&str) -> Option<Binary64>>(read: &F, v: &Value, key: &str) -> (r: Told)
    requires
        reads_all(*read),
    ensures
        told_of(*read, json_of(*v), key@, r),
{
    match find_member(v, key) {
        Some(_) => match read_member(read, v, key) {
            Some(d) => Told::Number(d),
            None => Told::NoNumber,
        },
        None => Told::Absent,
    }
}

// ─── Laws ───

/// A function that can be asked about every text can be used to read.
pub proof fn lemma_reads_all<F: Fn(&str) -> Option<Binary64>>(read: F)
    ensures
        (forall|s: &str| #[trigger] call_requires(read, (s,))) <==> reads_all(read),
{
}

/// What the text of a JSON value is taken for is an answer to that very text. What is no text is
/// not asked about, and is no number.
pub proof fn lemma_answered_of<F: Fn(&str) -> Option<Binary64>>(
    read: F,
    v: Json,
    answer: Option<Binary64>,
)
    requires
        answered_of(read, v, answer),
    ensures
        v matches Json::Text(s) ==> exists|t: &str|
            t@ == s && #[trigger] call_ensures(read, (t,), answer),
        !(v is Text) ==> answer is None,
{
}

/// A member that is not there is absent, one that is text is told as the reader answers to that
/// text, and any other is no number.
pub proof fn lemma_told_of<F: Fn(&str) -> Option<Binary64>>(
    read: F,
    members: Map<Seq<char>, Json>,
    key: Seq<char>,
    told: Told,
)
    requires
        told_of(read, Json::Object(members), key, told),
    ensures
        !members.dom().contains(key) <==> told is Absent,
        told matches Told::Number(d) ==> members[key] is Text && exists|t: &str|
            t@ == members[key]->Text_0 && #[trigger] call_ensures(read, (t,), Some(d)),
        told is NoNumber && members[key] is Text ==> exists|t: &str|
            t@ == members[key]->Text_0 && #[trigger] call_ensures(read, (t,), None::<Binary64>),
        members.dom().contains(key) && !(members[key] is Text) ==> told is NoNumber,
{
}

/// Nothing is told by a value that is no object.
pub proof fn lemma_told_of_other<F: Fn(&str) -> Option<Binary64>>(
    read: F,
    v: Json,
    key: Seq<char>,
    told: Told,
)
    requires
        told_of(read, v, key, told),
        !(v is Object),
    ensures
        told is Absent,
{
}

} // verus!
