//! A small probe over raw JSON: read the string at a dotted key path,
//! as the manifest fetcher does to learn a response's media type before
//! choosing how to parse it.

use vstd::prelude::*;

use crate::error::HTTPError;
use crate::strops::{spec_split, split_chars};

verus! {

#[verifier::external_type_specification]
#[verifier::external_body]
pub struct ExValue(serde_json::Value);

/// The document a byte sequence parses to, when it parses as JSON;
/// determined by the bytes alone.
pub uninterp spec fn json_value_of(data: Seq<u8>) -> Option<serde_json::Value>;

/// The member a JSON value holds under an object key, if any; determined
/// by the value and the key alone.
pub uninterp spec fn json_member_of(v: serde_json::Value, key: Seq<char>) -> Option<
    serde_json::Value,
>;

/// The characters a JSON value holds, if it is a string; determined by
/// the value alone.
pub uninterp spec fn json_str_of(v: serde_json::Value) -> Option<Seq<char>>;

/// Relies on serde_json::from_slice::<Value>: parses bytes as a JSON
/// document.
#[verifier::external_body]
fn parse_json_value(data: &Vec<u8>) -> (r: Option<serde_json::Value>)
    ensures
        r == json_value_of(data@),
{
    serde_json::from_slice::<serde_json::Value>(data.as_slice()).ok()
}

/// Relies on serde_json::Value::get: member lookup by key, `None` on a
/// missing member or a non-object.
#[verifier::external_body]
fn json_get<'a>(v: &'a serde_json::Value, key: &str) -> (r: Option<&'a serde_json::Value>)
    ensures
        match r {
            Some(m) => json_member_of(*v, key@) == Some(*m),
            None => json_member_of(*v, key@) is None,
        },
{
    v.get(key)
}

/// Relies on serde_json::Value::as_str: the contained string, if the
/// value is one.
#[verifier::external_body]
fn json_as_str(v: &serde_json::Value) -> (r: Option<String>)
    ensures
        match r {
            Some(s) => json_str_of(*v) == Some(s@),
            None => json_str_of(*v) is None,
        },
{
    v.as_str().map(|s| s.to_string())
}

/// The string at a member path of a document: walk the members in order;
/// a missing member or a non-string final value reads as empty.
pub open spec fn spec_json_lookup(v: serde_json::Value, parts: Seq<Seq<char>>) -> Seq<char>
    decreases parts.len(),
{
    if parts.len() == 0 {
        match json_str_of(v) {
            Some(s) => s,
            None => Seq::<char>::empty(),
        }
    } else {
        match json_member_of(v, parts.first()) {
            Some(m) => spec_json_lookup(m, parts.subrange(1, parts.len() as int)),
            None => Seq::<char>::empty(),
        }
    }
}

/// The string at a dotted key path of a JSON byte sequence; nothing when
/// the bytes do not parse.
pub open spec fn spec_json_string_at(data: Seq<u8>, key: Seq<char>) -> Option<Seq<char>> {
    match json_value_of(data) {
        Some(root) => Some(spec_json_lookup(root, spec_split(key, seq!['.']))),
        None => None,
    }
}

/// Read the string at a dotted key path of a JSON document.  A document
/// that does not parse is an error; otherwise the result is exactly the
/// member walk, with empty for a missing member or a non-string value.
pub fn get_value_from_json(v: &Vec<u8>, key: &str) -> (r: Result<String, HTTPError>)
    ensures
        match r {
            Ok(s) => spec_json_string_at(v@, key@) == Some(s@),
            Err(e) => json_value_of(v@) is None && e.category@ == "docker"@,
        },
{
    let root = match parse_json_value(v) {
        Some(root) => root,
        None => {
            return Err(HTTPError::new_with_category("Serde json fail", "docker"));
        },
    };
    let dot: Vec<char> = vec!['.'];
    proof {
        assert(dot@ =~= seq!['.']);
    }
    let parts = split_chars(key, &dot);
    let ghost pv = spec_split(key@, seq!['.']);
    let mut cur: &serde_json::Value = &root;
    let mut i: usize = 0;
    proof {
        assert(pv.subrange(0, pv.len() as int) =~= pv);
    }
    while i < parts.len()
        invariant
            i <= parts@.len(),
            pv == spec_split(key@, seq!['.']),
            parts@.map_values(|t: String| t@) == pv,
            json_value_of(v@) == Some(root),
            spec_json_lookup(root, pv) == spec_json_lookup(
                *cur,
                pv.subrange(i as int, pv.len() as int),
            ),
        decreases parts@.len() - i,
    {
        proof {
            let rest = pv.subrange(i as int, pv.len() as int);
            assert(rest.first() == pv[i as int]);
            assert(pv[i as int] == parts@[i as int]@);
            assert(rest.subrange(1, rest.len() as int) =~= pv.subrange(i + 1, pv.len() as int));
        }
        match json_get(cur, parts[i].as_str()) {
            Some(next) => {
                cur = next;
            },
            None => {
                proof {
                    assert(spec_json_lookup(root, pv) =~= Seq::<char>::empty());
                }
                return Ok(String::new());
            },
        }
        i = i + 1;
    }
    proof {
        assert(pv.subrange(parts@.len() as int, pv.len() as int).len() == 0);
    }
    match json_as_str(cur) {
        Some(s) => Ok(s),
        None => Ok(String::new()),
    }
}

} // verus!
