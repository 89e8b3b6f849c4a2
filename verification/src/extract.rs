//! Update handling and state extraction.
//!
//! Extraction never stores an order: the per-parent child lists of the
//! returned snapshot are derived on the spot by the reconciliation
//! sorter, the design that keeps a single source of truth for sibling
//! order.

use vstd::prelude::*;
use vstd::string::StringExecFns;

use crate::sorting::ChainSorting;
use crate::sorting::reconciled;
use crate::types::BlockMap;
use crate::types::CustomRustError;
use crate::types::DocError;
use crate::types::DocumentState;

verus! {

/// Update merging and state extraction.
pub struct UpdateOperations;

impl UpdateOperations {
    /// Merges binary update logs into one: pure compaction, nothing is
    /// applied. Succeeds exactly when every log decodes, and the
    /// result is a function of the logs alone.
    pub fn merge_updates(updates: &Vec<Vec<u8>>) -> (r: Result<Vec<u8>, CustomRustError>)
        ensures
            match r {
                Ok(b) => crate::ydoc::yrs_merged_v2(updates.deep_view()) == Some(b@),
                Err(_) => crate::ydoc::yrs_merged_v2(updates.deep_view()) is None,
            },
    {
        match crate::ydoc::ydoc_merge_updates(updates) {
            Ok(b) => Ok(b),
            Err(m) => {
                let e = DocError::MergeError(
                    "Failed to merge updates: ".to_owned().concat(m.as_str()),
                );
                Err(CustomRustError::of_doc_error(&e))
            },
        }
    }

    /// Merges the given logs and applies the result to the document
    /// atomically: a log that cannot be merged fails with a merge
    /// error before anything is touched, and a merged update that
    /// cannot be decoded or integrated fails the whole call.
    pub fn apply_updates_inner(
        doc: &yrs::Doc,
        doc_id: &str,
        updates: &Vec<Vec<u8>>,
    ) -> (r: Result<(), CustomRustError>)
        ensures
            crate::ydoc::yrs_merged_v2(updates.deep_view()) is None ==> r is Err,
            r is Ok ==> crate::ydoc::yrs_merged_v2(updates.deep_view()) is Some,
    {
        let merged = match crate::ydoc::ydoc_merge_updates(updates) {
            Ok(m) => m,
            Err(m) => {
                let e = DocError::MergeError(
                    "Failed to merge updates: ".to_owned().concat(m.as_str()),
                );
                return Err(CustomRustError::of_doc_error(&e));
            },
        };
        match crate::ydoc::ydoc_apply_update(doc, &merged) {
            Ok(_) => Ok(()),
            Err(m) => {
                let e = DocError::UpdateDecodingFailed(
                    "Failed to decode update: ".to_owned().concat(m.as_str()),
                );
                Err(CustomRustError::of_doc_error(&e))
            },
        }
    }

    /// Materializes a snapshot: the blocks as read, and the per-parent
    /// child order derived from them by the reconciliation sorter.
    pub fn extract_document_state(
        blocks: BlockMap,
        doc_id: String,
        root_id: String,
    ) -> (r: DocumentState)
        requires
            blocks.wf(),
        ensures
            r.doc_id == doc_id,
            r.root_id == root_id,
            r.blocks == blocks,
            reconciled(r.blocks.sview(), &r.children_map),
    {
        let children_map = ChainSorting::sort_blocks_by_chain(&blocks);
        DocumentState { doc_id, blocks, children_map, root_id }
    }
}

} // verus!
