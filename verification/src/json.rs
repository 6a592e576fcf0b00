//! A model of parsed JSON values, and the lookups that the reports make
//! into event payloads.
use vstd::prelude::*;

verus! {

/// A parsed JSON value. Numbers are kept as far as the reports read them:
/// an integer that fits in an `i64` keeps its value, every other number
/// (a fraction, or an integer above `i64::MAX`) is `OtherNumber`.
/// An object keeps its members in order, each key once.
#[derive(Debug)]
pub enum JsonValue {
    Null,
    Bool(bool),
    Int(i64),
    OtherNumber,
    Str(String),
    Array(Vec<JsonValue>),
    Object(Vec<(String, JsonValue)>),
}

/// The value of the first member of `members` named `key`.
pub open spec fn lookup_member(members: Seq<(String, JsonValue)>, key: Seq<char>) -> Option<JsonValue>
    decreases members.len(),
{
    if members.len() == 0 {
        None
    } else if members[0].0@ == key {
        Some(members[0].1)
    } else {
        lookup_member(members.drop_first(), key)
    }
}

/// `Value::get(key)`: the member named `key` when `v` is an object that has one.
pub open spec fn json_get(v: JsonValue, key: Seq<char>) -> Option<JsonValue> {
    match v {
        JsonValue::Object(members) => lookup_member(members@, key),
        _ => None,
    }
}

/// `v[key]`: the member named `key`, or `Null` when there is none.
pub open spec fn json_index(v: JsonValue, key: Seq<char>) -> JsonValue {
    match json_get(v, key) {
        Some(x) => x,
        None => JsonValue::Null,
    }
}

/// `Value::as_str`: the text of a string value.
pub open spec fn json_as_str(v: JsonValue) -> Option<Seq<char>> {
    match v {
        JsonValue::Str(s) => Some(s@),
        _ => None,
    }
}

/// `Value::as_i64`: the value of an integer that fits in an `i64`.
pub open spec fn json_as_i64(v: JsonValue) -> Option<i64> {
    match v {
        JsonValue::Int(n) => Some(n),
        _ => None,
    }
}

/// `payload_section`: the member named `section` when there is one, else
/// the payload itself (payloads are stored both wrapped in their kind's
/// name and bare).
pub open spec fn payload_section_spec(payload: JsonValue, section: Seq<char>) -> JsonValue {
    match json_get(payload, section) {
        Some(x) => x,
        None => payload,
    }
}

/// The text of the string member `key` of `v`, if it is one.
pub open spec fn str_field(v: JsonValue, key: Seq<char>) -> Option<Seq<char>> {
    json_as_str(json_index(v, key))
}

/// The value of the integer member `key` of `v`, if it is one.
pub open spec fn i64_field(v: JsonValue, key: Seq<char>) -> Option<i64> {
    json_as_i64(json_index(v, key))
}

/// The value that `members` holds for `key`, looked up in order.
fn lookup_member_exec<'a>(members: &'a Vec<(String, JsonValue)>, key: &String) -> (r: Option<
    &'a JsonValue,
>)
    ensures
        r matches Some(x) ==> lookup_member(members@, key@) == Some(*x),
        r is None ==> lookup_member(members@, key@) is None,
{
    let mut i: usize = 0;
    assert(members@.skip(0) =~= members@);
    while i < members.len()
        invariant
            i <= members.len(),
            lookup_member(members@, key@) == lookup_member(members@.skip(i as int), key@),
        decreases members.len() - i,
    {
        assert(members@.skip(i as int).drop_first() =~= members@.skip(i + 1));
        if members[i].0 == *key {
            return Some(&members[i].1);
        }
        i = i + 1;
    }
    None
}

/// `Value::get(key)` on the model.
pub fn json_get_exec<'a>(v: &'a JsonValue, key: &str) -> (r: Option<&'a JsonValue>)
    ensures
        r matches Some(x) ==> json_get(*v, key@) == Some(*x),
        r is None ==> json_get(*v, key@) is None,
{
    match v {
        JsonValue::Object(members) => {
            let k = String::from_str(key);
            assert(members@.skip(0) =~= members@);
            lookup_member_exec(members, &k)
        },
        _ => None,
    }
}

/// `payload_section`: the member named `section`, or the payload itself.
pub fn payload_section<'a>(payload: &'a JsonValue, section: &str) -> (r: &'a JsonValue)
    ensures
        *r == payload_section_spec(*payload, section@),
{
    match json_get_exec(payload, section) {
        Some(x) => x,
        None => payload,
    }
}

/// The text of the string member `key` of `v`, if it is one.
pub fn str_field_exec<'a>(v: &'a JsonValue, key: &str) -> (r: Option<&'a String>)
    ensures
        r matches Some(s) ==> str_field(*v, key@) == Some(s@),
        r is None ==> str_field(*v, key@) is None,
{
    match json_get_exec(v, key) {
        Some(JsonValue::Str(s)) => Some(s),
        _ => None,
    }
}

/// The value of the integer member `key` of `v`, if it is one.
pub fn i64_field_exec(v: &JsonValue, key: &str) -> (r: Option<i64>)
    ensures
        r == i64_field(*v, key@),
{
    match json_get_exec(v, key) {
        Some(JsonValue::Int(n)) => Some(*n),
        _ => None,
    }
}

/// The elements of the array member `key` of `v`, if it is one.
pub fn array_field_exec<'a>(v: &'a JsonValue, key: &str) -> (r: Option<&'a Vec<JsonValue>>)
    ensures
        r matches Some(a) ==> json_index(*v, key@) == JsonValue::Array(*a),
        r is None ==> !(json_index(*v, key@) is Array),
{
    match json_get_exec(v, key) {
        Some(JsonValue::Array(a)) => Some(a),
        _ => None,
    }
}

/// `v[i]`: the element at position `i` of an array, or `Null` when there is none.
pub open spec fn json_at(v: JsonValue, i: int) -> JsonValue {
    match v {
        JsonValue::Array(a) => if 0 <= i < a.len() {
            a@[i]
        } else {
            JsonValue::Null
        },
        _ => JsonValue::Null,
    }
}

/// The value that an optional reference stands for, `Null` for none.
pub open spec fn or_null(r: Option<&JsonValue>) -> JsonValue {
    match r {
        Some(x) => *x,
        None => JsonValue::Null,
    }
}

/// `v[key]`, where `None` stands for `Null`.
pub fn json_index_exec<'a>(v: Option<&'a JsonValue>, key: &str) -> (r: Option<&'a JsonValue>)
    ensures
        or_null(r) == json_index(or_null(v), key@),
{
    match v {
        Some(x) => json_get_exec(x, key),
        None => None,
    }
}

/// `v[i]`, where `None` stands for `Null`.
pub fn json_at_exec<'a>(v: Option<&'a JsonValue>, i: usize) -> (r: Option<&'a JsonValue>)
    ensures
        or_null(r) == json_at(or_null(v), i as int),
{
    match v {
        Some(JsonValue::Array(a)) => {
            if i < a.len() {
                Some(&a[i])
            } else {
                None
            }
        },
        _ => None,
    }
}

/// `v.as_str()`, where `None` stands for `Null`.
pub fn json_as_str_exec<'a>(v: Option<&'a JsonValue>) -> (r: Option<&'a String>)
    ensures
        r matches Some(s) ==> json_as_str(or_null(v)) == Some(s@),
        r is None ==> json_as_str(or_null(v)) is None,
{
    match v {
        Some(JsonValue::Str(s)) => Some(s),
        _ => None,
    }
}

} // verus!
