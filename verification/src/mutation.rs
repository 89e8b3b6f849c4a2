//! Primitive substrate writes.
//!
//! The action processor decides every change against the verified block
//! model and records it as one of these primitives; the substrate layer
//! replays them, in order and inside one batch, onto the replicated
//! document. Each variant corresponds to one field-level write, so the
//! replicated store keeps the per-field merge granularity that
//! cross-replica convergence depends on.

use vstd::prelude::*;

use crate::delta::TextPrim;
use crate::types::AttrMap;

verus! {

/// One field-level write against the replicated block collection.
pub enum StoreMutation {
    /// Ensure the block's record exists.
    CreateBlock { id: String },
    /// Write the block's own `id` field.
    SetId { id: String },
    /// Write the block's type tag.
    SetType { id: String, value: String },
    /// Write the block's parent id.
    SetParent { id: String, value: String },
    /// Remove the block's parent id.
    ClearParent { id: String },
    /// Write the block's ordering hint.
    SetPrev { id: String, value: String },
    /// Remove the block's ordering hint.
    ClearPrev { id: String },
    /// Replace the block's attribute set wholesale.
    ReplaceAttrs { id: String, attrs: AttrMap },
    /// Write one attribute.
    SetAttr { id: String, key: String, value: String },
    /// Remove the whole block record.
    RemoveBlock { id: String },
    /// Ensure the block's text node exists.
    EnsureText { id: String },
    /// Apply one positioned text edit.
    TextEdit { id: String, prim: TextPrim },
}

} // verus!
