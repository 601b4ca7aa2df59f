//! The JSON documents that the authentication server answers with.
use vstd::prelude::*;
use crate::text::str_eq;

verus! {

/// A JSON document. Numbers are kept as their text.
#[derive(Debug, PartialEq, Eq)]
pub enum Json {
    Null,
    Bool(bool),
    Number(String),
    Str(String),
    Array(Vec<Json>),
    Object(Vec<(String, Json)>),
}

/// The value of the first member named `key`.
pub open spec fn member_in(members: Seq<(String, Json)>, key: Seq<char>) -> Option<Json>
    decreases members.len(),
{
    if members.len() == 0 {
        None
    } else if members[0].0@ == key {
        Some(members[0].1)
    } else {
        member_in(members.drop_first(), key)
    }
}

/// The member named `key` of an object; `None` for anything else.
pub open spec fn member(doc: Json, key: Seq<char>) -> Option<Json> {
    match doc {
        Json::Object(members) => member_in(members@, key),
        _ => None,
    }
}

/// The member named `key` of an object, if it has one.
pub fn get_member<'a>(doc: &'a Json, key: &str) -> (r: Option<&'a Json>)
    ensures
        match (r, member(*doc, key@)) {
            (Some(x), Some(y)) => *x == y,
            (None, None) => true,
            _ => false,
        },
{
    match doc {
        Json::Object(members) => {
            let ghost ms = members@;
            let mut i: usize = 0;
            assert(ms.skip(0) =~= ms);
            while i < members.len()
                invariant
                    ms == members@,
                    member(*doc, key@) == member_in(ms, key@),
                    i <= ms.len(),
                    member_in(ms.skip(i as int), key@) == member_in(ms, key@),
                decreases ms.len() - i,
            {
                assert(ms.skip(i as int).drop_first() =~= ms.skip(i + 1));
                assert(ms.skip(i as int)[0] == ms[i as int]);
                if str_eq(members[i].0.as_str(), key) {
                    return Some(&members[i].1);
                }
                i = i + 1;
            }
            None
        },
        _ => None,
    }
}

/// Whether the member named `key` of an object is itself an object.
pub open spec fn member_is_object(doc: Json, key: Seq<char>) -> bool {
    member(doc, key) matches Some(Json::Object(_))
}

/// Whether the member named `key` of an object is itself an object.
pub fn has_object_member(doc: &Json, key: &str) -> (r: bool)
    ensures
        r == member_is_object(*doc, key@),
{
    match get_member(doc, key) {
        Some(Json::Object(_)) => true,
        _ => false,
    }
}

} // verus!
