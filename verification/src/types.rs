//! The document data model: blocks, edit actions, extracted state and the
//! error taxonomy.
//!
//! A block is a node of the document tree. Its attributes conventionally
//! carry `device` (originating replica) and `timestamp` (an opaque string
//! ordered lexicographically, never parsed as a date); sibling order is
//! derived from these together with the `prevId` hints, never stored.

use vstd::prelude::*;

use crate::keyed::Entry;
use crate::keyed::KeyedVec;
use crate::keyed::has_key;
use crate::keyed::spec_get;
use crate::strutil::opt_view;

verus! {

/// String-keyed attribute set of a block, in insertion order.
pub type AttrMap = KeyedVec<String>;

/// The keyed block collection: block id to block record.
pub type BlockMap = KeyedVec<BlockDoc>;

/// Derived per-parent child order: parent id to ordered child ids.
pub type ChildrenMap = KeyedVec<Vec<String>>;

/// Text contents of the text-bearing blocks, in UTF-16 code units.
pub type TextMap = KeyedVec<Vec<u16>>;

/// The kind of an edit intent.
pub enum BlockActionTypeDoc {
    Insert,
    Update,
    Delete,
    Move,
}

/// One block record.
#[derive(Debug)]
pub struct BlockDoc {
    pub id: String,
    pub ty: String,
    pub attributes: AttrMap,
    pub delta: Option<String>,
    pub parent_id: Option<String>,
    pub prev_id: Option<String>,
    pub next_id: Option<String>,
    pub old_parent_id: Option<String>,
}

/// One edit intent: an action applied to a block. The paths are
/// positional hints for hosts only; the engine never uses them to compute
/// order.
pub struct BlockActionDoc {
    pub action: BlockActionTypeDoc,
    pub block: BlockDoc,
    pub path: Vec<u32>,
    pub old_path: Option<Vec<u32>>,
}

/// Ids of binary updates that could not be decoded.
pub struct FailedToDecodeUpdates {
    pub failed_updates_ids: Vec<String>,
}

/// A materialized snapshot of the document.
#[derive(Debug)]
pub struct DocumentState {
    pub doc_id: String,
    pub blocks: BlockMap,
    pub children_map: ChildrenMap,
    pub root_id: String,
}

/// Mathematical content of a block: every field by its character view.
pub struct BlockView {
    pub id: Seq<char>,
    pub ty: Seq<char>,
    pub attrs: Map<Seq<char>, Seq<char>>,
    pub delta: Option<Seq<char>>,
    pub parent_id: Option<Seq<char>>,
    pub prev_id: Option<Seq<char>>,
    pub next_id: Option<Seq<char>>,
    pub old_parent_id: Option<Seq<char>>,
}

/// The attribute map of an attribute entry sequence.
pub open spec fn attrs_map(s: Seq<Entry<String>>) -> Map<Seq<char>, Seq<char>> {
    Map::new(
        |k: Seq<char>| has_key(s, k),
        |k: Seq<char>| spec_get(s, k).unwrap()@,
    )
}

/// The view of one attribute, if present.
pub open spec fn attr_view(s: Seq<Entry<String>>, k: Seq<char>) -> Option<Seq<char>> {
    match spec_get(s, k) {
        Some(v) => Some(v@),
        None => None,
    }
}

impl BlockDoc {
    /// Content view of this block.
    pub open spec fn bview(&self) -> BlockView {
        BlockView {
            id: self.id@,
            ty: self.ty@,
            attrs: attrs_map(self.attributes.sview()),
            delta: opt_view(self.delta),
            parent_id: opt_view(self.parent_id),
            prev_id: opt_view(self.prev_id),
            next_id: opt_view(self.next_id),
            old_parent_id: opt_view(self.old_parent_id),
        }
    }

    /// The key of the parent group this block belongs to: its parent id,
    /// or the top-level sentinel.
    pub open spec fn parent_key_view(&self) -> Seq<char> {
        match self.parent_id {
            Some(p) => p@,
            None => "root"@,
        }
    }

    /// The device bucket key: the `device` attribute, or `"unknown"`.
    pub open spec fn device_view(&self) -> Seq<char> {
        match attr_view(self.attributes.sview(), "device"@) {
            Some(d) => d,
            None => "unknown"@,
        }
    }

    /// The timestamp used for ordering: the `timestamp` attribute, or the
    /// empty string.
    pub open spec fn timestamp_view(&self) -> Seq<char> {
        match attr_view(self.attributes.sview(), "timestamp"@) {
            Some(t) => t,
            None => ""@,
        }
    }

    /// The parent group key of this block.
    pub fn parent_key(&self) -> (r: String)
        ensures
            r@ == self.parent_key_view(),
    {
        match &self.parent_id {
            Some(p) => p.clone(),
            None => "root".to_owned(),
        }
    }

    /// The device bucket key of this block.
    pub fn device_key(&self) -> (r: String)
        ensures
            r@ == self.device_view(),
    {
        match self.attributes.get("device") {
            Some(d) => d.clone(),
            None => "unknown".to_owned(),
        }
    }

    /// The ordering timestamp of this block.
    pub fn timestamp_key(&self) -> (r: String)
        ensures
            r@ == self.timestamp_view(),
    {
        match self.attributes.get("timestamp") {
            Some(t) => t.clone(),
            None => "".to_owned(),
        }
    }

    /// Copies this block; the copy has the same content view.
    pub fn dup(&self) -> (r: BlockDoc)
        ensures
            r.bview() == self.bview(),
            r.attributes.sview() == self.attributes.sview(),
    {
        BlockDoc {
            id: self.id.clone(),
            ty: self.ty.clone(),
            attributes: self.attributes.dup(),
            delta: crate::strutil::opt_str_dup(&self.delta),
            parent_id: crate::strutil::opt_str_dup(&self.parent_id),
            prev_id: crate::strutil::opt_str_dup(&self.prev_id),
            next_id: crate::strutil::opt_str_dup(&self.next_id),
            old_parent_id: crate::strutil::opt_str_dup(&self.old_parent_id),
        }
    }
}

/// The error taxonomy of the engine.
#[derive(Debug)]
pub enum DocError {
    InvalidOperation(String),
    DecodingError(String),
    EncodingError(String),
    ValidationError(String),
    StateError(String),
    BlockNotFound(String),
    MergeError(String),
    UpdateDecodingFailed(String),
    StateEncodingFailed(String),
}

impl DocError {
    /// View of the descriptive text of this error.
    pub open spec fn text_view(&self) -> Seq<char> {
        match self {
            DocError::InvalidOperation(m) => m@,
            DocError::DecodingError(m) => m@,
            DocError::EncodingError(m) => m@,
            DocError::ValidationError(m) => m@,
            DocError::StateError(m) => m@,
            DocError::BlockNotFound(m) => m@,
            DocError::MergeError(m) => m@,
            DocError::UpdateDecodingFailed(m) => m@,
            DocError::StateEncodingFailed(m) => m@,
        }
    }

    /// The descriptive text of this error.
    pub fn message(&self) -> (r: &String)
        ensures
            r@ == self.text_view(),
    {
        match self {
            DocError::InvalidOperation(m) => m,
            DocError::DecodingError(m) => m,
            DocError::EncodingError(m) => m,
            DocError::ValidationError(m) => m,
            DocError::StateError(m) => m,
            DocError::BlockNotFound(m) => m,
            DocError::MergeError(m) => m,
            DocError::UpdateDecodingFailed(m) => m,
            DocError::StateEncodingFailed(m) => m,
        }
    }

}

/// An error surfaced to the host, as one message string.
#[derive(Debug)]
pub struct CustomRustError {
    pub message: String,
}

impl CustomRustError {
    /// Wraps a message.
    pub fn new(message: &str) -> (r: Self)
        ensures
            r.message@ == message@,
    {
        CustomRustError { message: message.to_owned() }
    }

    /// Wraps the message of an engine error.
    pub fn of_doc_error(e: &DocError) -> (r: Self)
        ensures
            r.message@ == e.text_view(),
    {
        CustomRustError { message: e.message().clone() }
    }
}

} // verus!
