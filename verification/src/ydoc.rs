//! The replicated-data substrate: a `yrs` document holding the block
//! collection, behind small trusted wrappers.
//!
//! Every decision is made by the verified model; these wrappers only
//! replay the decided field-level writes into the replicated document,
//! read its current contents back out as plain values, and drive the
//! binary update codec. The document state itself is opaque here: what
//! the library claims is proved over the model, and the wrappers keep
//! the substrate in step write for write.
//!
//! The document is created with UTF-16 offsets, the addressing unit the
//! delta engine counts in.

use vstd::prelude::*;

use yrs::updates::decoder::Decode;
use yrs::updates::encoder::Encode;
use yrs::Any;
use yrs::GetString;
use yrs::Map as YrsMap;
use yrs::MapPrelim;
use yrs::Out;
use yrs::ReadTxn;
use yrs::Text;
use yrs::TextPrelim;
use yrs::Transact;
use yrs::types::Attrs;
use yrs::types::text::YChange;

use crate::types::AttrMap;

verus! {

#[verifier::external_type_specification]
#[verifier::external_body]
pub struct ExDoc(yrs::Doc);

#[verifier::external_type_specification]
#[verifier::external_body]
pub struct ExAny(yrs::Any);

/// What merging a list of binary update logs yields: a pure function
/// of the logs alone (`None` where one of them cannot be decoded).
pub uninterp spec fn yrs_merged_v2(logs: Seq<Seq<u8>>) -> Option<Seq<u8>>;

/// Relies on yrs::Doc::with_options: a fresh, empty replicated
/// document, addressed in UTF-16 code units.
#[verifier::external_body]
pub fn ydoc_new() -> yrs::Doc {
    yrs::Doc::with_options(
        yrs::Options { offset_kind: yrs::OffsetKind::Utf16, ..yrs::Options::default() },
    )
}

/// Relies on yrs::Doc::get_or_insert_map and Map::insert: makes sure
/// the root map and its block collection exist.
#[verifier::external_body]
pub fn ydoc_init(doc: &yrs::Doc) {
    let root = doc.get_or_insert_map("document");
    let mut txn = doc.transact_mut();
    match root.get(&txn, "blocks") {
        Some(Out::YMap(_)) => {},
        _ => {
            root.insert(&mut txn, "blocks", MapPrelim::default());
        },
    }
}

/// Relies on ReadTxn::encode_state_as_update_v2 against the empty
/// state vector: the document's whole state as one binary update.
#[verifier::external_body]
pub fn ydoc_encode_full(doc: &yrs::Doc) -> Vec<u8> {
    let txn = doc.transact();
    txn.encode_state_as_update_v2(&yrs::StateVector::default())
}

/// Relies on ReadTxn::state_vector and its v2 encoding: a marker of
/// how much of the document's history this replica has seen.
#[verifier::external_body]
pub fn ydoc_state_vector(doc: &yrs::Doc) -> Vec<u8> {
    let txn = doc.transact();
    txn.state_vector().encode_v2()
}

/// Relies on ReadTxn::encode_state_as_update_v2: the changes since the
/// given state vector; a vector that cannot be decoded falls back to
/// the whole state.
#[verifier::external_body]
pub fn ydoc_encode_diff(doc: &yrs::Doc, sv: &Vec<u8>) -> Vec<u8> {
    let txn = doc.transact();
    let sv = match yrs::StateVector::decode_v2(sv.as_slice()) {
        Ok(sv) => sv,
        Err(_) => yrs::StateVector::default(),
    };
    txn.encode_state_as_update_v2(&sv)
}

/// Relies on yrs::merge_updates_v2: compacts binary update logs into
/// one; its result depends on the logs alone, and it fails exactly
/// where one of them cannot be decoded.
#[verifier::external_body]
pub fn ydoc_merge_updates(updates: &Vec<Vec<u8>>) -> (r: Result<Vec<u8>, String>)
    ensures
        match r {
            Ok(b) => yrs_merged_v2(updates.deep_view()) == Some(b@),
            Err(_) => yrs_merged_v2(updates.deep_view()) is None,
        },
{
    yrs::merge_updates_v2(updates).map_err(|e| e.to_string())
}

/// Relies on yrs::Update::decode_v2 and TransactionMut::apply_update:
/// applies one binary update to the document, or reports why it could
/// not be decoded or integrated.
#[verifier::external_body]
pub fn ydoc_apply_update(doc: &yrs::Doc, update: &Vec<u8>) -> Result<(), String> {
    let decoded = match yrs::Update::decode_v2(update.as_slice()) {
        Ok(u) => u,
        Err(e) => {
            return Err(e.to_string());
        },
    };
    let mut txn = doc.transact_mut();
    txn.apply_update(decoded).map_err(|e| e.to_string())
}

/// Relies on Map::insert on the root map: stores a root-level string.
#[verifier::external_body]
pub fn ydoc_root_set_str(doc: &yrs::Doc, key: &str, value: &str) {
    let root = doc.get_or_insert_map("document");
    let mut txn = doc.transact_mut();
    root.insert(&mut txn, key, value.to_string());
}

/// Relies on Map::get on the root map: reads a root-level string.
#[verifier::external_body]
pub fn ydoc_root_get_str(doc: &yrs::Doc, key: &str) -> Option<String> {
    let root = doc.get_or_insert_map("document");
    let txn = doc.transact();
    match root.get(&txn, key) {
        Some(Out::Any(Any::String(s))) => Some(s.to_string()),
        _ => None,
    }
}

/// Relies on Map::get on the root map: whether the block collection
/// exists.
#[verifier::external_body]
pub fn ydoc_blocks_exists(doc: &yrs::Doc) -> bool {
    let root = doc.get_or_insert_map("document");
    let txn = doc.transact();
    match root.get(&txn, "blocks") {
        Some(Out::YMap(_)) => true,
        _ => false,
    }
}

/// Relies on Map::keys over the block collection: the stored block
/// ids. The order the substrate walks them in carries no meaning; the
/// model re-derives any order it needs.
#[verifier::external_body]
pub fn ydoc_block_ids(doc: &yrs::Doc) -> Vec<String> {
    let root = doc.get_or_insert_map("document");
    let txn = doc.transact();
    match root.get(&txn, "blocks") {
        Some(Out::YMap(blocks)) => blocks.keys(&txn).map(|k| k.to_string()).collect(),
        _ => Vec::new(),
    }
}

/// Relies on Map::get: one string field of one block.
#[verifier::external_body]
pub fn ydoc_block_field(doc: &yrs::Doc, id: &str, field: &str) -> Option<String> {
    let root = doc.get_or_insert_map("document");
    let txn = doc.transact();
    let blocks = match root.get(&txn, "blocks") {
        Some(Out::YMap(m)) => m,
        _ => return None,
    };
    let node = match blocks.get(&txn, id) {
        Some(Out::YMap(m)) => m,
        _ => return None,
    };
    match node.get(&txn, field) {
        Some(Out::Any(Any::String(s))) => Some(s.to_string()),
        _ => None,
    }
}

/// Relies on Map::iter over a block's attribute map: its attributes as
/// plain pairs, each key once since the substrate map keys are unique.
#[verifier::external_body]
pub fn ydoc_block_attrs(doc: &yrs::Doc, id: &str) -> Vec<(String, String)> {
    let root = doc.get_or_insert_map("document");
    let txn = doc.transact();
    let blocks = match root.get(&txn, "blocks") { Some(Out::YMap(m)) => m, _ => return Vec::new() };
    let node = match blocks.get(&txn, id) { Some(Out::YMap(m)) => m, _ => return Vec::new() };
    match node.get(&txn, "attributes") {
        Some(Out::YMap(attrs)) => attrs.iter(&txn).map(
            |(k, v)| (k.to_string(), v.to_string(&txn)),
        ).collect(),
        _ => Vec::new(),
    }
}

/// Relies on Text::get_string: a block's text, if it has one.
#[verifier::external_body]
pub fn ydoc_block_text(doc: &yrs::Doc, id: &str) -> Option<String> {
    let root = doc.get_or_insert_map("document");
    let txn = doc.transact();
    let blocks = match root.get(&txn, "blocks") {
        Some(Out::YMap(m)) => m,
        _ => return None,
    };
    let node = match blocks.get(&txn, id) {
        Some(Out::YMap(m)) => m,
        _ => return None,
    };
    match node.get(&txn, "text") {
        Some(Out::YText(t)) => Some(t.get_string(&txn)),
        _ => None,
    }
}

/// Relies on Text::diff: the text's formatted runs as plain pairs of
/// chunk text and serialized attributes.
#[verifier::external_body]
pub fn ydoc_text_runs(doc: &yrs::Doc, id: &str) -> Option<Vec<(String, Option<serde_json::Value>)>> {
    let root = doc.get_or_insert_map("document");
    let txn = doc.transact();
    let blocks = match root.get(&txn, "blocks") { Some(Out::YMap(m)) => m, _ => return None };
    let node = match blocks.get(&txn, id) { Some(Out::YMap(m)) => m, _ => return None };
    let text = match node.get(&txn, "text") { Some(Out::YText(t)) => t, _ => return None };
    Some(text.diff(&txn, YChange::identity).into_iter().map(|c| (
        c.insert.to_string(&txn),
        c.attributes.map(|a| serde_json::to_value(&*a).unwrap_or(serde_json::Value::Null)),
    )).collect())
}

/// Relies on serde_json::to_string: formatted runs serialized as a
/// delta log of insert operations, for external consumers.
#[verifier::external_body]
pub fn runs_to_delta_json(runs: &Vec<(String, Option<serde_json::Value>)>) -> Option<String> {
    let ops: Vec<serde_json::Value> = runs.iter().map(|(t, at)| {
        let mut op = serde_json::Map::new();
        op.insert("insert".into(), serde_json::Value::String(t.clone()));
        if let Some(a) = at {
            op.insert("attributes".into(), a.clone());
        }
        serde_json::Value::Object(op)
    }).collect();
    serde_json::to_string(&serde_json::Value::Array(ops)).ok()
}

/// Relies on Map::insert: makes sure a block's record exists.
#[verifier::external_body]
pub fn ydoc_block_create(doc: &yrs::Doc, id: &str) {
    let root = doc.get_or_insert_map("document");
    let mut txn = doc.transact_mut();
    let blocks = match root.get(&txn, "blocks") {
        Some(Out::YMap(m)) => m,
        _ => root.insert(&mut txn, "blocks", MapPrelim::default()),
    };
    match blocks.get(&txn, id) {
        Some(Out::YMap(_)) => {},
        _ => {
            blocks.insert(&mut txn, id, MapPrelim::default());
        },
    }
}

/// Relies on Map::insert: writes one string field of one block,
/// creating the record on the way when it is missing.
#[verifier::external_body]
pub fn ydoc_block_set_str(doc: &yrs::Doc, id: &str, field: &str, value: &str) {
    let root = doc.get_or_insert_map("document");
    let mut txn = doc.transact_mut();
    let blocks = match root.get(&txn, "blocks") {
        Some(Out::YMap(m)) => m,
        _ => root.insert(&mut txn, "blocks", MapPrelim::default()),
    };
    let node = match blocks.get(&txn, id) {
        Some(Out::YMap(m)) => m,
        _ => blocks.insert(&mut txn, id, MapPrelim::default()),
    };
    node.insert(&mut txn, field, value.to_string());
}

/// Relies on Map::remove: removes one field of one block.
#[verifier::external_body]
pub fn ydoc_block_remove_field(doc: &yrs::Doc, id: &str, field: &str) {
    let root = doc.get_or_insert_map("document");
    let mut txn = doc.transact_mut();
    let blocks = match root.get(&txn, "blocks") {
        Some(Out::YMap(m)) => m,
        _ => return,
    };
    let node = match blocks.get(&txn, id) {
        Some(Out::YMap(m)) => m,
        _ => return,
    };
    node.remove(&mut txn, field);
}

/// Relies on Map::insert: replaces a block's attribute map wholesale
/// with the given pairs.
#[verifier::external_body]
pub fn ydoc_block_replace_attrs(doc: &yrs::Doc, id: &str, attrs: &AttrMap) {
    let root = doc.get_or_insert_map("document");
    let mut txn = doc.transact_mut();
    let blocks = match root.get(&txn, "blocks") {
        Some(Out::YMap(m)) => m,
        _ => root.insert(&mut txn, "blocks", MapPrelim::default()),
    };
    let node = match blocks.get(&txn, id) {
        Some(Out::YMap(m)) => m,
        _ => blocks.insert(&mut txn, id, MapPrelim::default()),
    };
    let am = node.insert(&mut txn, "attributes", MapPrelim::default());
    for e in attrs.entries.iter() {
        am.insert(&mut txn, e.key.as_str(), e.val.to_string());
    }
}

/// Relies on Map::insert: writes one attribute of one block.
#[verifier::external_body]
pub fn ydoc_block_set_attr(doc: &yrs::Doc, id: &str, key: &str, value: &str) {
    let root = doc.get_or_insert_map("document");
    let mut txn = doc.transact_mut();
    let blocks = match root.get(&txn, "blocks") {
        Some(Out::YMap(m)) => m,
        _ => root.insert(&mut txn, "blocks", MapPrelim::default()),
    };
    let node = match blocks.get(&txn, id) {
        Some(Out::YMap(m)) => m,
        _ => blocks.insert(&mut txn, id, MapPrelim::default()),
    };
    let am = match node.get(&txn, "attributes") {
        Some(Out::YMap(m)) => m,
        _ => node.insert(&mut txn, "attributes", MapPrelim::default()),
    };
    am.insert(&mut txn, key, value.to_string());
}

/// Relies on Map::remove: removes a whole block record.
#[verifier::external_body]
pub fn ydoc_block_remove(doc: &yrs::Doc, id: &str) {
    let root = doc.get_or_insert_map("document");
    let mut txn = doc.transact_mut();
    match root.get(&txn, "blocks") {
        Some(Out::YMap(blocks)) => {
            blocks.remove(&mut txn, id);
        },
        _ => {},
    }
}

/// Relies on Map::insert with a text prelim: makes sure a block's text
/// node exists.
#[verifier::external_body]
pub fn ydoc_text_ensure(doc: &yrs::Doc, id: &str) {
    let root = doc.get_or_insert_map("document");
    let mut txn = doc.transact_mut();
    let blocks = match root.get(&txn, "blocks") {
        Some(Out::YMap(m)) => m,
        _ => root.insert(&mut txn, "blocks", MapPrelim::default()),
    };
    let node = match blocks.get(&txn, id) {
        Some(Out::YMap(m)) => m,
        _ => blocks.insert(&mut txn, id, MapPrelim::default()),
    };
    if !matches!(node.get(&txn, "text"), Some(Out::YText(_))) {
        node.insert(&mut txn, "text", TextPrelim::new(""));
    }
}

/// Relies on Text::insert, which addresses UTF-16 code units on this
/// document and panics beyond the end of the text: the guard skips an
/// edit whose position falls outside, which cannot happen while the
/// model and the document are in step.
#[verifier::external_body]
pub fn ydoc_text_insert(doc: &yrs::Doc, id: &str, pos: usize, chunk: &str) {
    let root = doc.get_or_insert_map("document");
    let mut txn = doc.transact_mut();
    let blocks = match root.get(&txn, "blocks") { Some(Out::YMap(m)) => m, _ => return };
    let node = match blocks.get(&txn, id) { Some(Out::YMap(m)) => m, _ => return };
    let text = match node.get(&txn, "text") {
        Some(Out::YText(t)) => t,
        _ => node.insert(&mut txn, "text", TextPrelim::new("")),
    };
    let len = text.len(&txn) as usize;
    if pos <= len && pos <= u32::MAX as usize {
        text.insert(&mut txn, pos as u32, chunk);
    }
}

/// Relies on serde's Deserialize for yrs::Any: a JSON attribute object
/// as the formatting attribute map the text type stores.
#[verifier::external_body]
fn json_to_attrs(v: &serde_json::Value) -> Attrs {
    match v.as_object() {
        Some(o) => o.iter().map(
            |(k, x)| (
                std::sync::Arc::from(k.as_str()),
                serde_json::from_value::<Any>(x.clone()).unwrap_or(Any::Null),
            ),
        ).collect(),
        None => Attrs::new(),
    }
}

/// Relies on Text::insert_with_attributes (same addressing, same
/// out-of-range panic, same guard), the JSON attribute object turned
/// into the text type's formatting attribute map pair by pair.
#[verifier::external_body]
pub fn ydoc_text_insert_formatted(doc: &yrs::Doc, id: &str, pos: usize, chunk: &str, attrs: &serde_json::Value) {
    let root = doc.get_or_insert_map("document");
    let mut txn = doc.transact_mut();
    let blocks = match root.get(&txn, "blocks") { Some(Out::YMap(m)) => m, _ => return };
    let node = match blocks.get(&txn, id) { Some(Out::YMap(m)) => m, _ => return };
    let text = match node.get(&txn, "text") {
        Some(Out::YText(t)) => t,
        _ => node.insert(&mut txn, "text", TextPrelim::new("")),
    };
    let len = text.len(&txn) as usize;
    if pos <= len && pos <= u32::MAX as usize {
        text.insert_with_attributes(&mut txn, pos as u32, chunk, json_to_attrs(attrs));
    }
}

/// Relies on Text::format, with the same addressing and the same guard
/// against its out-of-range panic: re-styles a range of the text.
#[verifier::external_body]
pub fn ydoc_text_format(doc: &yrs::Doc, id: &str, pos: usize, count: usize, attrs: &serde_json::Value) {
    let root = doc.get_or_insert_map("document");
    let mut txn = doc.transact_mut();
    let blocks = match root.get(&txn, "blocks") { Some(Out::YMap(m)) => m, _ => return };
    let node = match blocks.get(&txn, id) { Some(Out::YMap(m)) => m, _ => return };
    let text = match node.get(&txn, "text") { Some(Out::YText(t)) => t, _ => return };
    let len = text.len(&txn) as usize;
    if pos <= len && count <= len - pos && pos <= u32::MAX as usize && count <= u32::MAX
        as usize {
        text.format(&mut txn, pos as u32, count as u32, json_to_attrs(attrs));
    }
}

/// Relies on Text::remove_range, with the same guard as the insert.
#[verifier::external_body]
pub fn ydoc_text_remove(doc: &yrs::Doc, id: &str, pos: usize, count: usize) {
    let root = doc.get_or_insert_map("document");
    let mut txn = doc.transact_mut();
    let blocks = match root.get(&txn, "blocks") { Some(Out::YMap(m)) => m, _ => return };
    let node = match blocks.get(&txn, id) { Some(Out::YMap(m)) => m, _ => return };
    let text = match node.get(&txn, "text") { Some(Out::YText(t)) => t, _ => return };
    let len = text.len(&txn) as usize;
    if pos <= len && count <= len - pos && pos <= u32::MAX as usize && count <= u32::MAX
        as usize {
        text.remove_range(&mut txn, pos as u32, count as u32);
    }
}

} // verus!
