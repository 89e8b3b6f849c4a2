//! Decoding of host-supplied delta payloads.
//!
//! A delta arrives as a JSON array of operation objects. Decoding it
//! into loosely typed [`RawOp`] records is the one place the crate
//! leans on a JSON parser; everything the records contain is then
//! validated by the verified delta engine, whatever the parser
//! returned.

use vstd::prelude::*;

use crate::delta::RawOp;
use crate::delta::RawOpView;
use crate::delta::raw_views;

verus! {

#[verifier::external_type_specification]
#[verifier::external_body]
pub struct ExJsonValue(serde_json::Value);

/// What decoding a JSON delta payload yields: a pure function of the
/// payload text alone — the decoded operation records, or nothing for
/// a payload that is not a JSON array of objects.
pub uninterp spec fn parsed_delta_of(s: Seq<char>) -> Option<Seq<RawOpView>>;

/// Relies on serde_json::from_str: decodes a JSON array of objects, or
/// fails on malformed JSON. Each object is carried over key for key:
/// for the `insert`, `retain` and `delete` keys, whether the key is
/// present and, separately, its value when it has the required type.
/// The outcome depends on the payload text alone, so it is named by
/// `parsed_delta_of`; the verified delta engine validates whatever
/// comes back.
#[verifier::external_body]
pub fn parse_delta_ops(json: &str) -> (r: Option<Vec<RawOp>>)
    ensures
        match r {
            Some(v) => parsed_delta_of(json@) == Some(raw_views(v@)),
            None => parsed_delta_of(json@) is None,
        },
{
    let parsed: Vec<serde_json::Map<String, serde_json::Value>> =
        match serde_json::from_str(json) {
            Ok(v) => v,
            Err(_) => return None,
        };
    Some(parsed.into_iter().map(|m| RawOp {
        has_insert: m.contains_key("insert"),
        insert: m.get("insert").and_then(|v| v.as_str()).map(|s| s.to_string()),
        has_retain: m.contains_key("retain"),
        retain: m.get("retain").and_then(|v| v.as_u64()),
        has_delete: m.contains_key("delete"),
        delete: m.get("delete").and_then(|v| v.as_u64()),
        attrs: m.get("attributes").cloned(),
    }).collect())
}

} // verus!
