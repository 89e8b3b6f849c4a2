//! The chain linker: keeps the optimistic `prevId` hints consistent as
//! blocks are inserted, moved and removed.
//!
//! Both primitives tolerate zero matches (nothing happens) and many
//! matches (all are repaired): concurrent inserts legally leave several
//! blocks claiming the same predecessor, and the reconciliation sorter
//! resolves the fan-out at read time.

use vstd::prelude::*;

use crate::keyed::Entry;
use crate::keyed::has_key;
use crate::keyed::spec_get;
use crate::mutation::StoreMutation;
use crate::strutil::opt_view;
use crate::strutil::str_eq;
use crate::types::BlockDoc;
use crate::types::BlockMap;
use crate::types::BlockView;
use crate::types::attrs_map;

verus! {

/// A block whose hint was `from` now follows `to`; any other block is
/// untouched.
pub open spec fn repoint_prev(b: BlockView, from: Seq<char>, to: Seq<char>) -> BlockView {
    if b.prev_id == Some(from) {
        BlockView { prev_id: Some(to), ..b }
    } else {
        b
    }
}

/// The origin attributes of `src` written over those of `dst`: the
/// `device` and `timestamp` keys are copied where `src` has them.
pub open spec fn copy_origin(
    src: Map<Seq<char>, Seq<char>>,
    dst: Map<Seq<char>, Seq<char>>,
) -> Map<Seq<char>, Seq<char>> {
    let d1 = if src.contains_key("device"@) {
        dst.insert("device"@, src["device"@])
    } else {
        dst
    };
    if src.contains_key("timestamp"@) {
        d1.insert("timestamp"@, src["timestamp"@])
    } else {
        d1
    }
}

/// Removal repair of one block against the block being removed: a block
/// that followed the removed one is bridged over the gap onto the
/// removed block's own hint; where that hint is absent it becomes a new
/// chain head and inherits the removed block's origin attributes, so its
/// sort bucket placement survives the removal.
pub open spec fn bridge_prev(removed_id: Seq<char>, removed: BlockView, b: BlockView) -> BlockView {
    if b.prev_id == Some(removed_id) {
        match removed.prev_id {
            Some(p) => BlockView { prev_id: Some(p), ..b },
            None => BlockView {
                prev_id: None,
                attrs: copy_origin(removed.attrs, b.attrs),
                ..b
            },
        }
    } else {
        b
    }
}

/// Two attribute writes turn the attribute map into `copy_origin`.
pub proof fn lemma_attrs_after_copy_pub(
    s0: Seq<Entry<String>>,
    s1: Seq<Entry<String>>,
    s2: Seq<Entry<String>>,
    src: Map<Seq<char>, Seq<char>>,
    dev: Option<String>,
    ts: Option<String>,
)
    requires
        match dev {
            Some(v) => src.contains_key("device"@) && src["device"@] == v@ && spec_get(
                s1,
                "device"@,
            ) == Some(v) && forall|q: Seq<char>|
                q != "device"@ ==> spec_get(s1, q) == spec_get(s0, q),
            None => !src.contains_key("device"@) && s1 == s0,
        },
        match ts {
            Some(v) => src.contains_key("timestamp"@) && src["timestamp"@] == v@ && spec_get(
                s2,
                "timestamp"@,
            ) == Some(v) && forall|q: Seq<char>|
                q != "timestamp"@ ==> spec_get(s2, q) == spec_get(s1, q),
            None => !src.contains_key("timestamp"@) && s2 == s1,
        },
    ensures
        attrs_map(s2) == copy_origin(src, attrs_map(s0)),
{
    let lhs = attrs_map(s2);
    let rhs = copy_origin(src, attrs_map(s0));
    assert forall|q: Seq<char>|
        #![all_triggers]
        lhs.contains_key(q) == rhs.contains_key(q) && (lhs.contains_key(q)
            ==> lhs[q] == rhs[q]) by {
        if q == "timestamp"@ {
            match ts {
                Some(v) => {
                    assert(spec_get(s2, q) == Some(v));
                    assert(has_key(s2, q));
                },
                None => {
                    assert(spec_get(s2, q) == spec_get(s0, q));
                },
            }
        } else if q == "device"@ {
            assert("device"@ != "timestamp"@) by {
                reveal_strlit("device");
                reveal_strlit("timestamp");
            }
            match dev {
                Some(v) => {
                    assert(spec_get(s2, q) == spec_get(s1, q));
                    assert(spec_get(s1, q) == Some(v));
                },
                None => {
                    assert(spec_get(s2, q) == spec_get(s0, q));
                },
            }
        } else {
            assert(spec_get(s2, q) == spec_get(s0, q));
        }
    }
    assert(lhs =~= rhs);
}

/// The chain linker.
pub struct ChainLinker;

impl ChainLinker {
    /// Insert repair: every block whose hint equals `prev_id` is
    /// repointed to the freshly inserted `block_id`, creating the local
    /// fan-out the sorter later resolves by timestamp.
    pub fn handle_prev_id_chain(
        blocks: &mut BlockMap,
        muts: &mut Vec<StoreMutation>,
        block_id: &str,
        prev_id: &str,
    )
        requires
            old(blocks).wf(),
        ensures
            final(blocks).wf(),
            final(blocks).sview().len() == old(blocks).sview().len(),
            forall|j: int|
                0 <= j < old(blocks).sview().len() ==> #[trigger] final(blocks).sview()[j].key@
                    == old(blocks).sview()[j].key@,
            forall|j: int|
                0 <= j < old(blocks).sview().len()
                    ==> #[trigger] final(blocks).sview()[j].val.bview() == repoint_prev(
                    old(blocks).sview()[j].val.bview(),
                    prev_id@,
                    block_id@,
                ),
            old(muts)@.is_prefix_of(final(muts)@),
    {
        let ghost orig = blocks.sview();
        let n = blocks.len();
        let mut i: usize = 0;
        while i < n
            invariant
                i <= n,
                n == orig.len(),
                blocks.wf(),
                blocks.sview().len() == orig.len(),
                forall|j: int|
                    0 <= j < orig.len() ==> #[trigger] blocks.sview()[j].key@ == orig[j].key@,
                forall|j: int|
                    0 <= j < i ==> #[trigger] blocks.sview()[j].val.bview() == repoint_prev(
                        orig[j].val.bview(),
                        prev_id@,
                        block_id@,
                    ),
                forall|j: int|
                    i <= j < orig.len() ==> #[trigger] blocks.sview()[j].val == orig[j].val,
                old(muts)@.is_prefix_of(muts@),
            decreases n - i,
        {
            let b = blocks.val_at(i);
            let hit = match &b.prev_id {
                Some(p) => str_eq(p.as_str(), prev_id),
                None => false,
            };
            if hit {
                let nb = BlockDoc { prev_id: Some(block_id.to_owned()), ..b.dup() };
                proof {
                    assert(nb.bview() == repoint_prev(
                        orig[i as int].val.bview(),
                        prev_id@,
                        block_id@,
                    ));
                }
                muts.push(
                    StoreMutation::SetPrev {
                        id: blocks.key_at(i).clone(),
                        value: block_id.to_owned(),
                    },
                );
                blocks.set_val_at(i, nb);
            }
            i = i + 1;
        }
    }

    /// Removal repair: every block that followed `block_id` is bridged
    /// onto the removed block's own hint, or becomes a chain head
    /// carrying the removed block's origin attributes.
    pub fn remove_block_from_prev_id_chain(
        blocks: &mut BlockMap,
        muts: &mut Vec<StoreMutation>,
        block_id: &str,
    )
        requires
            old(blocks).wf(),
            has_key(old(blocks).sview(), block_id@),
        ensures
            final(blocks).wf(),
            final(blocks).sview().len() == old(blocks).sview().len(),
            forall|j: int|
                0 <= j < old(blocks).sview().len() ==> #[trigger] final(blocks).sview()[j].key@
                    == old(blocks).sview()[j].key@,
            forall|j: int|
                0 <= j < old(blocks).sview().len()
                    ==> #[trigger] final(blocks).sview()[j].val.bview() == bridge_prev(
                    block_id@,
                    spec_get(old(blocks).sview(), block_id@).unwrap().bview(),
                    old(blocks).sview()[j].val.bview(),
                ),
            old(muts)@.is_prefix_of(final(muts)@),
    {
        let ghost orig = blocks.sview();
        let ghost removed_view = spec_get(orig, block_id@).unwrap().bview();
        // What the removed block carries: its own hint and its origin
        // attributes.
        let (bridge, dev, ts) = {
            let rb = match blocks.get(block_id) {
                Some(rb) => rb,
                None => vstd::pervasive::unreached(),
            };
            let bridge = crate::strutil::opt_str_dup(&rb.prev_id);
            let dev = match rb.attributes.get("device") {
                Some(v) => Some(v.clone()),
                None => None,
            };
            let ts = match rb.attributes.get("timestamp") {
                Some(v) => Some(v.clone()),
                None => None,
            };
            (bridge, dev, ts)
        };
        proof {
            assert(opt_view(bridge) == removed_view.prev_id);
            assert(match dev {
                Some(v) => removed_view.attrs.contains_key("device"@) && removed_view.attrs[
                    "device"@
                ] == v@,
                None => !removed_view.attrs.contains_key("device"@),
            });
            assert(match ts {
                Some(v) => removed_view.attrs.contains_key("timestamp"@) && removed_view.attrs[
                    "timestamp"@
                ] == v@,
                None => !removed_view.attrs.contains_key("timestamp"@),
            });
        }
        let n = blocks.len();
        let mut i: usize = 0;
        while i < n
            invariant
                i <= n,
                n == orig.len(),
                blocks.wf(),
                blocks.sview().len() == orig.len(),
                forall|j: int|
                    0 <= j < orig.len() ==> #[trigger] blocks.sview()[j].key@ == orig[j].key@,
                forall|j: int|
                    0 <= j < i ==> #[trigger] blocks.sview()[j].val.bview() == bridge_prev(
                        block_id@,
                        removed_view,
                        orig[j].val.bview(),
                    ),
                forall|j: int|
                    i <= j < orig.len() ==> #[trigger] blocks.sview()[j].val == orig[j].val,
                opt_view(bridge) == removed_view.prev_id,
                match dev {
                    Some(v) => removed_view.attrs.contains_key("device"@)
                        && removed_view.attrs["device"@] == v@,
                    None => !removed_view.attrs.contains_key("device"@),
                },
                match ts {
                    Some(v) => removed_view.attrs.contains_key("timestamp"@)
                        && removed_view.attrs["timestamp"@] == v@,
                    None => !removed_view.attrs.contains_key("timestamp"@),
                },
                old(muts)@.is_prefix_of(muts@),
            decreases n - i,
        {
            let b = blocks.val_at(i);
            let hit = match &b.prev_id {
                Some(p) => str_eq(p.as_str(), block_id),
                None => false,
            };
            if hit {
                let key = blocks.key_at(i).clone();
                match &bridge {
                    Some(p) => {
                        let nb = BlockDoc { prev_id: Some(p.clone()), ..b.dup() };
                        proof {
                            assert(nb.bview() == bridge_prev(
                                block_id@,
                                removed_view,
                                orig[i as int].val.bview(),
                            ));
                        }
                        muts.push(StoreMutation::SetPrev { id: key, value: p.clone() });
                        blocks.set_val_at(i, nb);
                    },
                    None => {
                        // New chain head: clear the hint and inherit the
                        // removed block's origin attributes.
                        let mut attrs = b.attributes.dup();
                        let ghost s0 = attrs.sview();
                        if let Some(v) = &dev {
                            attrs.set("device".to_owned(), v.clone());
                        }
                        let ghost s1 = attrs.sview();
                        if let Some(v) = &ts {
                            attrs.set("timestamp".to_owned(), v.clone());
                        }
                        proof {
                            lemma_attrs_after_copy_pub(
                                s0,
                                s1,
                                attrs.sview(),
                                removed_view.attrs,
                                dev,
                                ts,
                            );
                        }
                        let nb = BlockDoc { prev_id: None, attributes: attrs, ..b.dup() };
                        proof {
                            assert(nb.bview() == bridge_prev(
                                block_id@,
                                removed_view,
                                orig[i as int].val.bview(),
                            ));
                        }
                        muts.push(StoreMutation::ClearPrev { id: key.clone() });
                        if let Some(v) = &dev {
                            muts.push(
                                StoreMutation::SetAttr {
                                    id: key.clone(),
                                    key: "device".to_owned(),
                                    value: v.clone(),
                                },
                            );
                        }
                        if let Some(v) = &ts {
                            muts.push(
                                StoreMutation::SetAttr {
                                    id: key,
                                    key: "timestamp".to_owned(),
                                    value: v.clone(),
                                },
                            );
                        }
                        blocks.set_val_at(i, nb);
                    },
                }
            }
            i = i + 1;
        }
    }
}

} // verus!
