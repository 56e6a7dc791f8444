//! The parts of a JSON document that the lyrics providers read.
//!
//! The HTTP client decodes a response into `serde_json::Value`; the program
//! converts that value into [`JsonValue`] one for one (object members in the
//! map's order, numbers by the kind `serde_json` keeps them as).  Only the
//! value of a float is left out: nothing here reads it.
use vstd::prelude::*;
use crate::text::chars_of;

verus! {

/// A JSON number, as `serde_json` keeps it.
pub enum JsonNumber {
    PosInt(u64),
    NegInt(i64),
    Float,
}

/// A JSON value.
pub enum JsonValue {
    Null,
    Bool(bool),
    Number(JsonNumber),
    String(String),
    Array(Vec<JsonValue>),
    Object(Vec<(String, JsonValue)>),
}

/// The value under `key` in the members `ms`: the first member with that key
/// (a `serde_json` map holds each key once).
pub open spec fn member(ms: Seq<(String, JsonValue)>, key: Seq<char>) -> Option<JsonValue>
    decreases ms.len(),
{
    if ms.len() == 0 {
        None
    } else if ms[0].0@ == key {
        Some(ms[0].1)
    } else {
        member(ms.drop_first(), key)
    }
}

/// `Value::get(key)`: the member of an object; `None` for anything else.
pub open spec fn spec_get(v: JsonValue, key: Seq<char>) -> Option<JsonValue> {
    match v {
        JsonValue::Object(ms) => member(ms@, key),
        _ => None,
    }
}

/// `Value::as_str`.
pub open spec fn spec_as_str(v: JsonValue) -> Option<Seq<char>> {
    match v {
        JsonValue::String(s) => Some(s@),
        _ => None,
    }
}

/// `Value::as_u64`.
pub open spec fn spec_as_u64(v: JsonValue) -> Option<u64> {
    match v {
        JsonValue::Number(JsonNumber::PosInt(n)) => Some(n),
        _ => None,
    }
}

/// `Value::get(key)` followed by `as_str`.
pub open spec fn spec_str_field(v: JsonValue, key: Seq<char>) -> Option<Seq<char>> {
    match spec_get(v, key) {
        Some(x) => spec_as_str(x),
        None => None,
    }
}

/// `s` reads as `lit`.
pub fn same_text(s: &String, lit: &str) -> (r: bool)
    ensures
        r == (s@ == lit@),
{
    let a = chars_of(s.as_str());
    let b = chars_of(lit);
    if a.len() != b.len() {
        return false;
    }
    let mut i: usize = 0;
    while i < a.len()
        invariant
            a@ == s@,
            b@ == lit@,
            a@.len() == b@.len(),
            0 <= i <= a@.len(),
            forall|j: int| 0 <= j < i ==> a@[j] == b@[j],
        decreases a@.len() - i,
    {
        if a[i] != b[i] {
            return false;
        }
        i = i + 1;
    }
    assert(a@ =~= b@);
    true
}

/// `Value::get(key)`.
pub fn get<'a>(v: &'a JsonValue, key: &str) -> (r: Option<&'a JsonValue>)
    ensures
        match r {
            Some(x) => spec_get(*v, key@) == Some(*x),
            None => spec_get(*v, key@) is None,
        },
{
    match v {
        JsonValue::Object(ms) => {
            let mut i: usize = 0;
            assert(ms@.skip(0) =~= ms@);
            while i < ms.len()
                invariant
                    0 <= i <= ms@.len(),
                    spec_get(*v, key@) == member(ms@, key@),
                    member(ms@, key@) == member(ms@.skip(i as int), key@),
                decreases ms@.len() - i,
            {
                assert(ms@.skip(i as int).drop_first() =~= ms@.skip(i + 1));
                if same_text(&ms[i].0, key) {
                    assert(ms@.skip(i as int)[0] == ms@[i as int]);
                    return Some(&ms[i].1);
                }
                i = i + 1;
            }
            None
        },
        _ => None,
    }
}

/// `Value::get(key)` followed by `as_str`.
pub fn str_field<'a>(v: &'a JsonValue, key: &str) -> (r: Option<&'a String>)
    ensures
        match r {
            Some(s) => spec_str_field(*v, key@) == Some(s@),
            None => spec_str_field(*v, key@) is None,
        },
{
    match get(v, key) {
        Some(JsonValue::String(s)) => Some(s),
        _ => None,
    }
}

} // verus!
