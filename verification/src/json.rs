//! JSON values as the library builds them for the RPC requests; the
//! application turns them into text.
use vstd::prelude::*;
use crate::text::push_str;

verus! {

/// A JSON value. Object members keep their order.
pub enum Json {
    Null,
    Bool(bool),
    Int(i64),
    Str(String),
    Array(Vec<Json>),
    Object(Vec<(String, Json)>),
}

/// A JSON value as mathematics sees it.
pub ghost enum JsonModel {
    Null,
    Bool(bool),
    Int(int),
    Str(Seq<char>),
    Array(Seq<JsonModel>),
    Object(Seq<(Seq<char>, JsonModel)>),
}

/// `v` is the value `m`.
pub open spec fn json_is(v: Json, m: JsonModel) -> bool
    decreases v,
{
    match v {
        Json::Null => m == JsonModel::Null,
        Json::Bool(b) => m == JsonModel::Bool(b),
        Json::Int(i) => m == JsonModel::Int(i as int),
        Json::Str(s) => m == JsonModel::Str(s@),
        Json::Array(xs) => match m {
            JsonModel::Array(ms) => xs@.len() == ms.len() && forall|i: int|
                0 <= i < xs@.len() ==> json_is(#[trigger] xs@[i], ms[i]),
            _ => false,
        },
        Json::Object(fs) => match m {
            JsonModel::Object(ms) => fs@.len() == ms.len() && forall|i: int|
                0 <= i < fs@.len() ==> (#[trigger] fs@[i]).0@ == ms[i].0 && json_is(fs@[i].1, ms[i].1),
            _ => false,
        },
    }
}

/// A string value.
pub open spec fn jstr(s: Seq<char>) -> JsonModel {
    JsonModel::Str(s)
}

/// An array of integers.
pub open spec fn jints(v: Seq<i64>) -> JsonModel {
    JsonModel::Array(Seq::new(v.len(), |i: int| JsonModel::Int(v[i] as int)))
}

/// An array of strings.
pub open spec fn jstrs(v: Seq<Seq<char>>) -> JsonModel {
    JsonModel::Array(Seq::new(v.len(), |i: int| JsonModel::Str(v[i])))
}

/// A string value holding `t`.
pub fn json_text(t: &str) -> (r: Json)
    ensures
        json_is(r, jstr(t@)),
{
    let mut s = String::new();
    push_str(&mut s, t);
    assert(s@ =~= t@);
    Json::Str(s)
}

/// An array of integers.
pub fn json_ints(v: &Vec<i64>) -> (r: Json)
    ensures
        json_is(r, jints(v@)),
{
    let mut xs: Vec<Json> = Vec::new();
    let mut i: usize = 0;
    while i < v.len()
        invariant
            i <= v.len(),
            xs.len() == i,
            forall|j: int| 0 <= j < i ==> json_is(#[trigger] xs@[j], JsonModel::Int(v@[j] as int)),
        decreases v.len() - i,
    {
        xs.push(Json::Int(v[i]));
        i = i + 1;
    }
    let r = Json::Array(xs);
    assert(json_is(r, jints(v@)));
    r
}

/// An array of strings.
pub fn json_strs(v: &Vec<String>) -> (r: Json)
    ensures
        json_is(r, jstrs(v@.map_values(|s: String| s@))),
{
    let mut xs: Vec<Json> = Vec::new();
    let mut i: usize = 0;
    while i < v.len()
        invariant
            i <= v.len(),
            xs.len() == i,
            forall|j: int| 0 <= j < i ==> json_is(#[trigger] xs@[j], JsonModel::Str(v@[j]@)),
        decreases v.len() - i,
    {
        xs.push(Json::Str(v[i].clone()));
        i = i + 1;
    }
    let r = Json::Array(xs);
    assert(json_is(r, jstrs(v@.map_values(|s: String| s@))));
    r
}

/// The value of the first member named `key`, as a JSON reader looks a
/// member up.
pub open spec fn member_value(fields: Seq<(Seq<char>, JsonModel)>, key: Seq<char>) -> Option<JsonModel>
    decreases fields.len(),
{
    if fields.len() == 0 {
        None
    } else if fields[0].0 == key {
        Some(fields[0].1)
    } else {
        member_value(fields.drop_first(), key)
    }
}

/// The member `key` of an object; nothing for other values.
pub open spec fn json_field(m: JsonModel, key: Seq<char>) -> Option<JsonModel> {
    match m {
        JsonModel::Object(fs) => member_value(fs, key),
        _ => None,
    }
}

} // verus!
