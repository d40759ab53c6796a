//! JSON values as the library reads them: a mirror of `serde_json::Value`
//! in which objects keep their keys in the map's iteration order and numbers
//! are held as the `i64` they denote, when they denote one.

use crate::text::{chars_eq, contains_chars, contains_seq, to_chars};
use vstd::prelude::*;

verus! {

#[derive(Debug)]
pub enum Json {
    Null,
    Bool(bool),
    /// `Value::as_i64` of the number.
    Number(Option<i64>),
    String(String),
    Array(Vec<Json>),
    Object(Vec<(String, Json)>),
}

/// The value under `key` in `entries`, as `Map::get` finds it.
pub open spec fn entry_value(entries: Seq<(String, Json)>, key: Seq<char>) -> Option<Json>
    decreases entries.len(),
{
    if entries.len() == 0 {
        None
    } else if entries[0].0@ == key {
        Some(entries[0].1)
    } else {
        entry_value(entries.drop_first(), key)
    }
}

/// `value[key]`: the member `key` of an object; `None` stands for the
/// `Null` that indexing yields otherwise.
pub open spec fn member(value: Json, key: Seq<char>) -> Option<Json> {
    match value {
        Json::Object(entries) => entry_value(entries@, key),
        _ => None,
    }
}

/// `Value::as_str`.
pub open spec fn as_str(value: Option<Json>) -> Option<Seq<char>> {
    match value {
        Some(Json::String(s)) => Some(s@),
        _ => None,
    }
}

/// `Value::as_array`.
pub open spec fn as_array(value: Option<Json>) -> Option<Seq<Json>> {
    match value {
        Some(Json::Array(items)) => Some(items@),
        _ => None,
    }
}

/// `Value::as_i64`.
pub open spec fn as_i64(value: Option<Json>) -> Option<i64> {
    match value {
        Some(Json::Number(n)) => n,
        _ => None,
    }
}

/// The index of member `key`.
pub fn find_entry(entries: &Vec<(String, Json)>, key: &[char]) -> (r: Option<usize>)
    ensures
        match r {
            Some(i) => i < entries@.len() && entry_value(entries@, key@) == Some(entries@[i as int].1),
            None => entry_value(entries@, key@) is None,
        },
{
    let mut i: usize = 0;
    assert(entries@.skip(0) =~= entries@);
    while i < entries.len()
        invariant
            i <= entries@.len(),
            entry_value(entries@, key@) == entry_value(entries@.skip(i as int), key@),
        decreases entries@.len() - i,
    {
        assert(entries@.skip(i as int).drop_first() =~= entries@.skip(i + 1));
        assert(entries@.skip(i as int)[0] == entries@[i as int]);
        if chars_eq(to_chars(entries[i].0.as_str()).as_slice(), key) {
            return Some(i);
        }
        i = i + 1;
    }
    assert(entries@.skip(i as int).len() == 0);
    None
}

/// `value[key]`.
pub fn get_member<'a>(value: &'a Json, key: &str) -> (r: Option<&'a Json>)
    ensures
        match r {
            Some(v) => member(*value, key@) == Some(*v),
            None => member(*value, key@) is None,
        },
{
    match value {
        Json::Object(entries) => {
            let k = to_chars(key);
            match find_entry(entries, k.as_slice()) {
                Some(i) => Some(&entries[i].1),
                None => None,
            }
        },
        _ => None,
    }
}

/// `Value::as_str` of an optional member.
pub fn str_of(value: Option<&Json>) -> (r: Option<String>)
    ensures
        match r {
            Some(s) => as_str(match value { Some(v) => Some(*v), None => None }) == Some(s@),
            None => as_str(match value { Some(v) => Some(*v), None => None }) is None,
        },
{
    match value {
        Some(Json::String(s)) => Some(s.clone()),
        _ => None,
    }
}

} // verus!
