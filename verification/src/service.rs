//! The document service: one replica's engine around one replicated
//! document.
//!
//! Every call follows the same shape: the replicated document is read
//! into the verified block model, the verified processor decides the
//! whole batch — a failing action aborts it before anything is written
//! — and only then are the decided field writes replayed into the
//! document, inside one batch, yielding the binary diff. Cross-replica
//! convergence rests on the substrate's merge of those field writes
//! and on the reconciliation sorter's deterministic read-time order.

use vstd::prelude::*;

use crate::delta::TextPrim;
use crate::delta::utf16_units;
use crate::extract::UpdateOperations;
use crate::keyed::KeyedVec;
use crate::mutation::StoreMutation;
use crate::ops::BlockOperations;
use crate::sorting::reconciled;
use crate::types::AttrMap;
use crate::types::BlockActionDoc;
use crate::types::BlockDoc;
use crate::types::BlockMap;
use crate::types::CustomRustError;
use crate::types::DocError;
use crate::types::DocumentState;
use crate::types::TextMap;
use crate::ydoc;

verus! {

/// Reads the replicated document's block collection into the verified
/// model: the block records as plain values, and the texts as UTF-16
/// code units.
fn read_model(doc: &yrs::Doc) -> (r: (BlockMap, TextMap))
    ensures
        r.0.wf(),
        r.1.wf(),
        forall|j: int|
            0 <= j < r.1.sview().len() ==> #[trigger] r.1.sview()[j].val@.len() <= u32::MAX,
{
    let ids = ydoc::ydoc_block_ids(doc);
    let mut blocks: BlockMap = KeyedVec::new();
    let mut texts: TextMap = KeyedVec::new();
    let n = ids.len();
    let mut i: usize = 0;
    while i < n
        invariant
            i <= n,
            n == ids@.len(),
            blocks.wf(),
            texts.wf(),
            forall|j: int|
                0 <= j < texts.sview().len()
                    ==> #[trigger] texts.sview()[j].val@.len() <= u32::MAX,
        decreases n - i,
    {
        let id = &ids[i];
        let idf = match ydoc::ydoc_block_field(doc, id.as_str(), "id") {
            Some(s) => s,
            None => id.clone(),
        };
        let ty = match ydoc::ydoc_block_field(doc, id.as_str(), "type") {
            Some(s) => s,
            None => String::new(),
        };
        let pairs = ydoc::ydoc_block_attrs(doc, id.as_str());
        let mut attributes: AttrMap = KeyedVec::new();
        let pn = pairs.len();
        let mut w: usize = 0;
        while w < pn
            invariant
                w <= pn,
                pn == pairs@.len(),
            decreases pn - w,
        {
            attributes.set(pairs[w].0.clone(), pairs[w].1.clone());
            w = w + 1;
        }
        let mut delta: Option<String> = None;
        match ydoc::ydoc_block_text(doc, id.as_str()) {
            Some(text) => {
                let units = utf16_units(text.as_str());
                if units.len() <= u32::MAX as usize {
                    let ghost tprev = texts.sview();
                    let ghost uv = units@;
                    texts.set(id.clone(), units);
                    proof {
                        assert forall|j: int|
                            0 <= j < texts.sview().len()
                                implies #[trigger] texts.sview()[j].val@.len() <= u32::MAX by {
                            if crate::keyed::has_key(tprev, id@) {
                                let ki = crate::keyed::key_index(tprev, id@);
                                crate::keyed::lemma_key_index(tprev, id@);
                                if j != ki {
                                    assert(texts.sview()[j] == tprev[j]);
                                } else {
                                    assert(texts.sview()[j].val@ == uv);
                                }
                            } else {
                                if j < tprev.len() {
                                    assert(texts.sview()[j] == tprev[j]);
                                } else {
                                    assert(texts.sview()[j].val@ == uv);
                                }
                            }
                        }
                    }
                }
                delta = match ydoc::ydoc_text_runs(doc, id.as_str()) {
                    Some(runs) => ydoc::runs_to_delta_json(&runs),
                    None => None,
                };
            },
            None => {},
        }
        let record = BlockDoc {
            id: idf,
            ty,
            attributes,
            delta,
            parent_id: ydoc::ydoc_block_field(doc, id.as_str(), "parentId"),
            prev_id: ydoc::ydoc_block_field(doc, id.as_str(), "prevId"),
            next_id: ydoc::ydoc_block_field(doc, id.as_str(), "nextId"),
            old_parent_id: None,
        };
        blocks.set(id.clone(), record);
        i = i + 1;
    }
    (blocks, texts)
}

/// Replays the decided field writes into the replicated document, in
/// order.
fn apply_muts(doc: &yrs::Doc, muts: &Vec<StoreMutation>) {
    let n = muts.len();
    let mut i: usize = 0;
    while i < n
        invariant
            i <= n,
            n == muts@.len(),
        decreases n - i,
    {
        match &muts[i] {
            StoreMutation::CreateBlock { id } => ydoc::ydoc_block_create(doc, id.as_str()),
            StoreMutation::SetId { id } => ydoc::ydoc_block_set_str(
                doc,
                id.as_str(),
                "id",
                id.as_str(),
            ),
            StoreMutation::SetType { id, value } => ydoc::ydoc_block_set_str(
                doc,
                id.as_str(),
                "type",
                value.as_str(),
            ),
            StoreMutation::SetParent { id, value } => ydoc::ydoc_block_set_str(
                doc,
                id.as_str(),
                "parentId",
                value.as_str(),
            ),
            StoreMutation::ClearParent { id } => ydoc::ydoc_block_remove_field(
                doc,
                id.as_str(),
                "parentId",
            ),
            StoreMutation::SetPrev { id, value } => ydoc::ydoc_block_set_str(
                doc,
                id.as_str(),
                "prevId",
                value.as_str(),
            ),
            StoreMutation::ClearPrev { id } => ydoc::ydoc_block_remove_field(
                doc,
                id.as_str(),
                "prevId",
            ),
            StoreMutation::ReplaceAttrs { id, attrs } => ydoc::ydoc_block_replace_attrs(
                doc,
                id.as_str(),
                attrs,
            ),
            StoreMutation::SetAttr { id, key, value } => ydoc::ydoc_block_set_attr(
                doc,
                id.as_str(),
                key.as_str(),
                value.as_str(),
            ),
            StoreMutation::RemoveBlock { id } => ydoc::ydoc_block_remove(doc, id.as_str()),
            StoreMutation::EnsureText { id } => ydoc::ydoc_text_ensure(doc, id.as_str()),
            StoreMutation::TextEdit { id, prim } => match prim {
                TextPrim::InsertAt { pos, chunk, attrs } => match attrs {
                    Some(a) => ydoc::ydoc_text_insert_formatted(
                        doc,
                        id.as_str(),
                        *pos,
                        chunk.as_str(),
                        a,
                    ),
                    None => ydoc::ydoc_text_insert(doc, id.as_str(), *pos, chunk.as_str()),
                },
                TextPrim::RemoveRange { pos, len } => ydoc::ydoc_text_remove(
                    doc,
                    id.as_str(),
                    *pos,
                    *len,
                ),
                TextPrim::FormatRange { pos, len, attrs } => ydoc::ydoc_text_format(
                    doc,
                    id.as_str(),
                    *pos,
                    *len,
                    attrs,
                ),
            },
        }
        i = i + 1;
    }
}

/// One replica's document engine.
pub struct DocumentService {
    doc: yrs::Doc,
    doc_id: String,
}

impl DocumentService {
    /// The identifier this replica reports in extracted snapshots.
    pub closed spec fn id_view(&self) -> Seq<char> {
        self.doc_id@
    }

    /// A fresh replica with an empty replicated document.
    pub fn new(doc_id: String) -> (r: Self)
        ensures
            r.id_view() == doc_id@,
    {
        DocumentService { doc: ydoc::ydoc_new(), doc_id }
    }

    /// Initializes the empty document skeleton and returns it as one
    /// binary update, the snapshot a fresh replica replays first.
    pub fn init_empty_doc(&mut self) -> (r: Result<Vec<u8>, CustomRustError>)
        ensures
            r is Ok,
            final(self).id_view() == old(self).id_view(),
    {
        ydoc::ydoc_init(&self.doc);
        Ok(ydoc::ydoc_encode_full(&self.doc))
    }

    /// Applies a batch of edit intents inside one substrate batch and
    /// returns the binary diff since before it. The whole batch is
    /// decided by the verified processor against the document's
    /// current state before anything is written: a failing action
    /// aborts the batch with its error and the document is untouched.
    pub fn apply_action(&mut self, actions: Vec<BlockActionDoc>) -> (r: Result<
        Vec<u8>,
        CustomRustError,
    >)
        ensures
            final(self).id_view() == old(self).id_view(),
    {
        let (mut blocks, mut texts) = read_model(&self.doc);
        let mut muts: Vec<StoreMutation> = Vec::new();
        match BlockOperations::apply_actions_to_model(
            &mut blocks,
            &mut texts,
            &mut muts,
            &actions,
        ) {
            Ok(_) => {},
            Err(e) => {
                return Err(CustomRustError::of_doc_error(&e));
            },
        }
        let sv = ydoc::ydoc_state_vector(&self.doc);
        apply_muts(&self.doc, &muts);
        Ok(ydoc::ydoc_encode_diff(&self.doc, &sv))
    }

    /// Merges the given binary updates and applies them to this
    /// replica atomically; a log that cannot be merged or decoded
    /// fails the whole call and the replica is untouched.
    pub fn apply_updates(&mut self, updates: Vec<Vec<u8>>) -> (r: Result<(), CustomRustError>)
        ensures
            crate::ydoc::yrs_merged_v2(updates.deep_view()) is None ==> r is Err,
            r is Ok ==> crate::ydoc::yrs_merged_v2(updates.deep_view()) is Some,
            final(self).id_view() == old(self).id_view(),
    {
        UpdateOperations::apply_updates_inner(&self.doc, self.doc_id.as_str(), &updates)
    }

    /// Compacts binary update logs into one, applying nothing. The
    /// result is a function of the logs alone, and the call fails
    /// exactly when one of them cannot be decoded.
    pub fn merge_updates(&self, updates: Vec<Vec<u8>>) -> (r: Result<Vec<u8>, CustomRustError>)
        ensures
            match r {
                Ok(b) => crate::ydoc::yrs_merged_v2(updates.deep_view()) == Some(b@),
                Err(_) => crate::ydoc::yrs_merged_v2(updates.deep_view()) is None,
            },
    {
        UpdateOperations::merge_updates(&updates)
    }

    /// Materializes the current document state: the blocks as stored,
    /// and the per-parent child order derived from exactly those
    /// blocks by the reconciliation sorter.
    pub fn get_document_state(&self) -> (r: Result<DocumentState, CustomRustError>)
        ensures
            match r {
                Ok(st) => st.blocks.wf() && reconciled(st.blocks.sview(), &st.children_map)
                    && st.doc_id@ == self.id_view(),
                Err(_) => true,
            },
    {
        if !ydoc::ydoc_blocks_exists(&self.doc) {
            let e = DocError::StateError("Blocks map not found in document".to_owned());
            return Err(CustomRustError::of_doc_error(&e));
        }
        let root_id = match ydoc::ydoc_root_get_str(&self.doc, "document") {
            Some(rid) => rid,
            None => {
                let e = DocError::StateError("Root ID not found in document".to_owned());
                return Err(CustomRustError::of_doc_error(&e));
            },
        };
        let (blocks, _texts) = read_model(&self.doc);
        Ok(UpdateOperations::extract_document_state(blocks, self.doc_id.clone(), root_id))
    }

    /// The named block's current text, expressed as a serialized delta
    /// log, or nothing when the block has no text. This is the fetch
    /// half of whole-text replacement: the host hands this delta and
    /// the proposed new text to its own diff collaborator, then submits
    /// the returned operation list as an update action; the enclosing
    /// batch waits on that call, so its atomicity depends on the diff
    /// eventually returning.
    pub fn block_text_delta(&self, block_id: &str) -> Option<String> {
        match ydoc::ydoc_text_runs(&self.doc, block_id) {
            Some(runs) => ydoc::runs_to_delta_json(&runs),
            None => None,
        }
    }

    /// Stores the root node id in the root map and returns the diff.
    pub fn set_root_node_id(&mut self, id: String) -> (r: Result<Vec<u8>, CustomRustError>)
        ensures
            r is Ok,
            final(self).id_view() == old(self).id_view(),
    {
        let sv = ydoc::ydoc_state_vector(&self.doc);
        ydoc::ydoc_root_set_str(&self.doc, "document", id.as_str());
        Ok(ydoc::ydoc_encode_diff(&self.doc, &sv))
    }
}

} // verus!
