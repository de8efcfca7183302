//! The JSON document that a trace is decoded from, as plain data.

use vstd::prelude::*;

verus! {

/// A JSON value. A number is kept where it is an integer of the signed 64-bit
/// range; no decoding rule reads any other number, so `OtherNumber` stands
/// for all of them.
#[derive(Debug)]
pub enum Json {
    Null,
    Bool(bool),
    Int(i64),
    OtherNumber,
    Str(String),
    Array(Vec<Json>),
    /// The members of an object, in the order of the document.
    Object(Vec<(String, Json)>),
}

/// The payload of a tagged object: `Some` of the array's items where `node`
/// is an object with the one key `tag` whose value is an array.
pub open spec fn tagged_array(node: Json, tag: Seq<char>) -> Option<Seq<Json>> {
    match node {
        Json::Object(members) => if members@.len() == 1 && members@[0].0@ == tag {
            match members@[0].1 {
                Json::Array(items) => Some(items@),
                _ => None,
            }
        } else {
            None
        },
        _ => None,
    }
}

/// The payload of a tagged object: `Some` of the string where `node` is an
/// object with the one key `tag` whose value is a string.
pub open spec fn tagged_string(node: Json, tag: Seq<char>) -> Option<Seq<char>> {
    match node {
        Json::Object(members) => if members@.len() == 1 && members@[0].0@ == tag {
            match members@[0].1 {
                Json::Str(s) => Some(s@),
                _ => None,
            }
        } else {
            None
        },
        _ => None,
    }
}

impl Json {
    /// The one member of an object that has exactly the key `tag`.
    fn tagged<'a>(&'a self, tag: &str) -> (r: Option<&'a Json>)
        ensures
            match self {
                Json::Object(members) => if members@.len() == 1 && members@[0].0@ == tag@ {
                    r == Some(&members@[0].1)
                } else {
                    r is None
                },
                _ => r is None,
            },
    {
        match self {
            Json::Object(members) => {
                if members.len() == 1 && members[0].0 == tag.to_owned() {
                    Some(&members[0].1)
                } else {
                    None
                }
            },
            _ => None,
        }
    }

    /// The items of the array under the one key `tag`, where `self` is such
    /// an object.
    pub fn tagged_items<'a>(&'a self, tag: &str) -> (r: Option<&'a Vec<Json>>)
        ensures
            r is Some <==> tagged_array(*self, tag@) is Some,
            r is Some ==> r->0@ == tagged_array(*self, tag@)->0,
    {
        match self.tagged(tag) {
            Some(Json::Array(items)) => Some(items),
            _ => None,
        }
    }

    /// The string under the one key `tag`, where `self` is such an object.
    pub fn tagged_str<'a>(&'a self, tag: &str) -> (r: Option<&'a String>)
        ensures
            r is Some <==> tagged_string(*self, tag@) is Some,
            r is Some ==> r->0@ == tagged_string(*self, tag@)->0,
    {
        match self.tagged(tag) {
            Some(Json::Str(s)) => Some(s),
            _ => None,
        }
    }
}

} // verus!
