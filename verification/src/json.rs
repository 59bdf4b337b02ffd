//! A JSON document as plain values, and the lookups that the register
//! report makes in it.

use vstd::prelude::*;
use vstd::string::*;

verus! {

/// A JSON value. Numbers carry their value where it is a non-negative
/// integer that fits in 64 bits, which is all that is read of them.
pub enum Json {
    Null,
    Bool(bool),
    Number(Option<u64>),
    Str(String),
    Array(Vec<Json>),
    /// Members in the order the parser hands them over (by key); keys are
    /// distinct.
    Object(Vec<(String, Json)>),
}

/// serde_json's parsed document, which the library only converts.
#[verifier::external_type_specification]
#[verifier::external_body]
pub struct ExValue(serde_json::Value);

/// What `serde_json::from_str::<serde_json::Value>` makes of a text, as
/// plain values: the document, or the text of the parser's error.
pub uninterp spec fn parsed_json(text: Seq<char>) -> Result<Json, Seq<char>>;

/// The plain form of a parsed `serde_json::Value`, variant for variant;
/// a number keeps its value where `Number::as_u64` gives one.
#[verifier::external_body]
fn json_of(v: &serde_json::Value) -> Json {
    match v {
        serde_json::Value::Null => Json::Null,
        serde_json::Value::Bool(b) => Json::Bool(*b),
        serde_json::Value::Number(n) => Json::Number(n.as_u64()),
        serde_json::Value::String(s) => Json::Str(s.clone()),
        serde_json::Value::Array(items) => Json::Array(items.iter().map(json_of).collect()),
        serde_json::Value::Object(m) => Json::Object(m.iter().map(|(k, x)| (k.clone(), json_of(x))).collect()),
    }
}

/// Parses `text` as JSON with `serde_json::from_str` into a
/// `serde_json::Value`, handed back in plain form; on failure, the text of
/// serde_json's error (its `Display`). The contract claims only that the
/// outcome is a function of the text, named `parsed_json`: what the parser
/// accepts, and the wording of its errors, are serde_json's and are not
/// stated here.
#[verifier::external_body]
pub(crate) fn parse_json(text: &str) -> (r: Result<Json, String>)
    ensures
        match r {
            Ok(j) => parsed_json(text@) == Ok::<Json, Seq<char>>(j),
            Err(e) => parsed_json(text@) == Err::<Json, Seq<char>>(e@),
        },
{
    match serde_json::from_str::<serde_json::Value>(text) {
        Ok(v) => Ok(json_of(&v)),
        Err(e) => Err(e.to_string()),
    }
}

/// The value of the first member named `key`.
pub open spec fn member(entries: Seq<(String, Json)>, key: Seq<char>) -> Option<Json>
    decreases entries.len(),
{
    if entries.len() == 0 {
        None
    } else if entries[0].0@ == key {
        Some(entries[0].1)
    } else {
        member(entries.drop_first(), key)
    }
}

/// The member `key` of an object; nothing for other values.
pub open spec fn get(v: Json, key: Seq<char>) -> Option<Json> {
    match v {
        Json::Object(entries) => member(entries@, key),
        _ => None,
    }
}

/// The text of a string value.
pub open spec fn as_str(v: Option<Json>) -> Option<Seq<char>> {
    match v {
        Some(Json::Str(s)) => Some(s@),
        _ => None,
    }
}

/// The value of a number that is a non-negative 64-bit integer.
pub open spec fn as_u64(v: Option<Json>) -> Option<u64> {
    match v {
        Some(Json::Number(n)) => n,
        _ => None,
    }
}

/// The items of an array.
pub open spec fn as_array(v: Option<Json>) -> Option<Seq<Json>> {
    match v {
        Some(Json::Array(items)) => Some(items@),
        _ => None,
    }
}

/// Whether the value is an object.
pub open spec fn is_object(v: Option<Json>) -> bool {
    v matches Some(Json::Object(_))
}

/// The member `key` of `v`, where `v` is an object that has one.
pub fn get_member<'a>(v: &'a Json, key: &str) -> (r: Option<&'a Json>)
    ensures
        match r {
            Some(x) => get(*v, key@) == Some(*x),
            None => get(*v, key@) is None,
        },
{
    match v {
        Json::Object(entries) => {
            let k = String::from_str(key);
            let mut i: usize = 0;
            proof {
                assert(entries@.skip(0) =~= entries@);
            }
            while i < entries.len()
                invariant
                    i <= entries.len(),
                    k@ == key@,
                    get(*v, key@) == member(entries@, key@),
                    member(entries@, key@) == member(entries@.skip(i as int), key@),
                decreases entries.len() - i,
            {
                proof {
                    assert(entries@.skip(i as int)[0] == entries@[i as int]);
                    assert(entries@.skip(i as int).drop_first() =~= entries@.skip(i + 1));
                }
                if entries[i].0 == k {
                    return Some(&entries[i].1);
                }
                i = i + 1;
            }
            None
        },
        _ => None,
    }
}

/// The text of `v`, where it is a string.
pub fn str_of<'a>(v: Option<&'a Json>) -> (r: Option<&'a String>)
    ensures
        match v {
            Some(x) => match r {
                Some(s) => as_str(Some(*x)) == Some(s@),
                None => as_str(Some(*x)) is None,
            },
            None => r is None,
        },
{
    match v {
        Some(Json::Str(s)) => Some(s),
        _ => None,
    }
}

/// The value of `v`, where it is a non-negative 64-bit integer.
pub fn u64_of(v: Option<&Json>) -> (r: Option<u64>)
    ensures
        match v {
            Some(x) => r == as_u64(Some(*x)),
            None => r is None,
        },
{
    match v {
        Some(Json::Number(n)) => *n,
        _ => None,
    }
}

/// The items of `v`, where it is an array.
pub fn array_of<'a>(v: Option<&'a Json>) -> (r: Option<&'a Vec<Json>>)
    ensures
        match v {
            Some(x) => match r {
                Some(items) => as_array(Some(*x)) == Some(items@),
                None => as_array(Some(*x)) is None,
            },
            None => r is None,
        },
{
    match v {
        Some(Json::Array(items)) => Some(items),
        _ => None,
    }
}

} // verus!
