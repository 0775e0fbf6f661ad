//! Reading JSON text through serde_json.
//!
//! A record is kept as text and decoded only as far as a caller asks: the
//! members of an object come back as pairs of a key and the raw text of its
//! value, which is decoded further on demand.
use vstd::prelude::*;
use vstd::string::StringExecFns;
use crate::text::{views};

verus! {

/// What serde_json reads from `text` as one JSON object: its members, each
/// as its key and the raw text of its value; `None` where `text` is not a
/// single well-formed object.
pub uninterp spec fn json_members(text: Seq<char>) -> Option<Seq<(Seq<char>, Seq<char>)>>;

/// What serde_json reads from `text` as a string or `null`; `None` where it
/// is neither.
pub uninterp spec fn json_nullable_string(text: Seq<char>) -> Option<Option<Seq<char>>>;

/// What serde_json reads from `text` as an array of strings or `null`;
/// `None` where it is neither.
pub uninterp spec fn json_nullable_strings(text: Seq<char>) -> Option<Option<Seq<Seq<char>>>>;

/// What serde_json reads from `text` as an array: the raw text of each
/// element; `None` where `text` is not an array.
pub uninterp spec fn json_elements(text: Seq<char>) -> Option<Seq<Seq<char>>>;

/// The JSON string literal that serde_json writes for `s`.
pub uninterp spec fn json_quoted(s: Seq<char>) -> Seq<char>;

pub open spec fn pair_views(v: Seq<(String, String)>) -> Seq<(Seq<char>, Seq<char>)> {
    v.map_values(|p: (String, String)| (p.0@, p.1@))
}

/// Relies on `serde_json::from_str` into a map from keys to
/// `serde_json::value::RawValue`: the members of one JSON object.
#[verifier::external_body]
pub(crate) fn object_members(text: &str) -> (r: Option<Vec<(String, String)>>)
    ensures
        r is None <==> json_members(text@) is None,
        r matches Some(v) ==> json_members(text@) == Some(pair_views(v@)),
{
    match serde_json::from_str::<
        std::collections::BTreeMap<String, Box<serde_json::value::RawValue>>,
    >(text) {
        Ok(m) => Some(m.into_iter().map(|(k, v)| (k, String::from(v.get()))).collect()),
        Err(_) => None,
    }
}

/// Relies on `serde_json::from_str` into `Option<String>`: a JSON string or
/// `null`.
#[verifier::external_body]
pub(crate) fn nullable_string(text: &str) -> (r: Option<Option<String>>)
    ensures
        r is None <==> json_nullable_string(text@) is None,
        r matches Some(None) ==> json_nullable_string(text@) == Some(None::<Seq<char>>),
        r matches Some(Some(s)) ==> json_nullable_string(text@) == Some(Some(s@)),
{
    serde_json::from_str::<Option<String>>(text).ok()
}

/// Relies on `serde_json::from_str` into `Option<Vec<String>>`: a JSON array
/// of strings or `null`.
#[verifier::external_body]
pub(crate) fn nullable_strings(text: &str) -> (r: Option<Option<Vec<String>>>)
    ensures
        r is None <==> json_nullable_strings(text@) is None,
        r matches Some(None) ==> json_nullable_strings(text@) == Some(None::<Seq<Seq<char>>>),
        r matches Some(Some(v)) ==> json_nullable_strings(text@) == Some(Some(views(v@))),
{
    serde_json::from_str::<Option<Vec<String>>>(text).ok()
}

/// Relies on `serde_json::from_str` into a vector of
/// `serde_json::value::RawValue`: the elements of one JSON array.
#[verifier::external_body]
pub(crate) fn array_elements(text: &str) -> (r: Option<Vec<String>>)
    ensures
        r is None <==> json_elements(text@) is None,
        r matches Some(v) ==> json_elements(text@) == Some(views(v@)),
{
    match serde_json::from_str::<Vec<Box<serde_json::value::RawValue>>>(text) {
        Ok(v) => Some(v.into_iter().map(|e| String::from(e.get())).collect()),
        Err(_) => None,
    }
}

/// Relies on the `Display` of `serde_json::Value::String`: the JSON string
/// literal for `s`, with quotes and escapes.
#[verifier::external_body]
pub(crate) fn quoted(s: &str) -> (r: String)
    ensures
        r@ == json_quoted(s@),
{
    serde_json::Value::String(String::from(s)).to_string()
}

/// The raw value of the first member named `key`.
pub open spec fn member_of(ms: Seq<(Seq<char>, Seq<char>)>, key: Seq<char>) -> Option<Seq<char>>
    decreases ms.len(),
{
    if ms.len() == 0 {
        None
    } else if ms[0].0 == key {
        Some(ms[0].1)
    } else {
        member_of(ms.drop_first(), key)
    }
}

/// Finds the raw value of the first member named `key`.
pub fn find_member(ms: &Vec<(String, String)>, key: &String) -> (r: Option<String>)
    ensures
        r matches Some(v) ==> member_of(pair_views(ms@), key@) == Some(v@),
        r is None ==> member_of(pair_views(ms@), key@) is None,
{
    let mut i: usize = 0;
    assert(pair_views(ms@).skip(0) =~= pair_views(ms@));
    while i < ms.len()
        invariant
            i <= ms.len(),
            member_of(pair_views(ms@), key@) == member_of(pair_views(ms@).skip(i as int), key@),
        decreases ms.len() - i,
    {
        assert(pair_views(ms@).skip(i as int).drop_first() =~= pair_views(ms@).skip(i + 1));
        if ms[i].0 == *key {
            return Some(ms[i].1.clone());
        }
        i = i + 1;
    }
    None
}

/// The string under `key` in the object that `text` holds, if `text` is an
/// object with a string there.
pub open spec fn string_field(text: Seq<char>, key: Seq<char>) -> Option<Seq<char>> {
    match json_members(text) {
        None => None,
        Some(ms) => match member_of(ms, key) {
            None => None,
            Some(raw) => match json_nullable_string(raw) {
                Some(Some(s)) => Some(s),
                _ => None,
            },
        },
    }
}

/// Reads the string member `key` from members already decoded.
pub fn string_member(ms: &Vec<(String, String)>, key: &String) -> (r: Option<String>)
    ensures
        r matches Some(s) ==> member_of(pair_views(ms@), key@) matches Some(raw)
            && json_nullable_string(raw) == Some(Some(s@)),
        r is None ==> match member_of(pair_views(ms@), key@) {
            None => true,
            Some(raw) => !(json_nullable_string(raw) matches Some(Some(_))),
        },
{
    match find_member(ms, key) {
        None => None,
        Some(raw) => match nullable_string(raw.as_str()) {
            Some(Some(s)) => Some(s),
            _ => None,
        },
    }
}

/// Appends the JSON string literal for `s`.
pub(crate) fn push_quoted(out: &mut String, s: &str)
    ensures
        final(out)@ == old(out)@ + json_quoted(s@),
{
    let q = quoted(s);
    out.append(q.as_str());
}

} // verus!
