//! Laws the engine guarantees, each proved from the public contracts.

use vstd::prelude::*;

use crate::chain::bridge_prev;
use crate::delta::RawOpView;
use crate::delta::delta_outcome;
use crate::delta::delta_run;
use crate::delta::parse_spec;
use crate::keyed::Entry;
use crate::keyed::has_key;
use crate::keyed::spec_get;
use crate::ops::delete_applied;
use crate::ops::store_descendant;
use crate::sorting::group_ids;
use crate::sorting::lemma_group_ids_covers;
use crate::sorting::lemma_group_ids_props;
use crate::sorting::reconciled;
use crate::sorting::str_views;
use crate::types::BlockDoc;
use crate::types::BlockMap;
use crate::types::ChildrenMap;

verus! {

broadcast use vstd::seq_lib::group_to_multiset_ensures;

/// No block is ever lost or doubled by reconciliation: every block of
/// the store appears in the children list of its parent group exactly
/// once — cyclic or broken ordering hints included, since nothing here
/// assumes anything about them.
pub proof fn lemma_no_block_lost(blocks: &BlockMap, r: &ChildrenMap, j: int)
    requires
        blocks.wf(),
        reconciled(blocks.sview(), r),
        0 <= j < blocks.sview().len(),
    ensures
        has_key(r.sview(), blocks.sview()[j].val.parent_key_view()),
        str_views(
            spec_get(r.sview(), blocks.sview()[j].val.parent_key_view()).unwrap()@,
        ).to_multiset().count(blocks.sview()[j].key@) == 1,
{
    let s = blocks.sview();
    let p = s[j].val.parent_key_view();
    let x = s[j].key@;
    lemma_group_ids_covers(s, j);
    assert(group_ids(s, p).contains(x));
    assert(group_ids(s, p).len() != 0);
    lemma_group_ids_props(s, p);
    group_ids(s, p).lemma_multiset_has_no_duplicates();
    assert(group_ids(s, p).to_multiset().count(x) == 1);
}

/// Nothing is invented by reconciliation: every id a children list
/// holds names a block of the store whose parent group is that list's
/// key.
pub proof fn lemma_extraction_sound(
    blocks: &BlockMap,
    r: &ChildrenMap,
    p: Seq<char>,
    x: Seq<char>,
)
    requires
        blocks.wf(),
        reconciled(blocks.sview(), r),
        has_key(r.sview(), p),
        str_views(spec_get(r.sview(), p).unwrap()@).contains(x),
    ensures
        has_key(blocks.sview(), x),
        spec_get(blocks.sview(), x).unwrap().parent_key_view() == p,
{
    let listed = str_views(spec_get(r.sview(), p).unwrap()@);
    assert(listed.to_multiset().count(x) > 0);
    assert(group_ids(blocks.sview(), p).to_multiset().count(x) > 0);
    assert(group_ids(blocks.sview(), p).contains(x));
    lemma_group_ids_props(blocks.sview(), p);
}

/// Cascade deletion is complete: after deleting a block, no children
/// list of a reconciliation of the new state references the deleted
/// block or any of its one-time descendants.
pub proof fn lemma_cascade_delete(
    s0: Seq<Entry<BlockDoc>>,
    sn: Seq<Entry<BlockDoc>>,
    t0: Seq<Entry<Vec<u16>>>,
    tn: Seq<Entry<Vec<u16>>>,
    idv: Seq<char>,
    snapshot: &BlockMap,
    r: &ChildrenMap,
)
    requires
        delete_applied(s0, sn, t0, tn, idv),
        snapshot.wf(),
        snapshot.sview() == sn,
        reconciled(sn, r),
    ensures
        forall|p: Seq<char>|
            #[trigger] has_key(r.sview(), p) ==> !str_views(
                spec_get(r.sview(), p).unwrap()@,
            ).contains(idv),
        forall|p: Seq<char>, q: Seq<char>|
            has_key(r.sview(), p) && #[trigger] store_descendant(s0, idv, q)
                ==> !#[trigger] str_views(spec_get(r.sview(), p).unwrap()@).contains(q),
{
    assert forall|p: Seq<char>| #[trigger] has_key(r.sview(), p) implies !str_views(
        spec_get(r.sview(), p).unwrap()@,
    ).contains(idv) by {
        if str_views(spec_get(r.sview(), p).unwrap()@).contains(idv) {
            lemma_extraction_sound(snapshot, r, p, idv);
            assert(has_key(sn, idv));
            assert(false);
        }
    }
    assert forall|p: Seq<char>, q: Seq<char>|
        has_key(r.sview(), p) && #[trigger] store_descendant(s0, idv, q)
            implies !#[trigger] str_views(spec_get(r.sview(), p).unwrap()@).contains(q) by {
        if str_views(spec_get(r.sview(), p).unwrap()@).contains(q) {
            lemma_extraction_sound(snapshot, r, p, q);
            assert(has_key(sn, q));
            assert(false);
        }
    }
}

/// Any two reconciliations of one converged store agree on which
/// parent groups exist and on which blocks each group lists: the
/// member sets of the derived orders are pinned by the store alone.
/// (The full orders agree as well because both replicas run the same
/// deterministic sorter; what is pinned here by contract alone is the
/// membership.)
pub proof fn lemma_reconciliation_membership_agrees(
    s: Seq<Entry<BlockDoc>>,
    r1: &ChildrenMap,
    r2: &ChildrenMap,
    p: Seq<char>,
)
    requires
        reconciled(s, r1),
        reconciled(s, r2),
    ensures
        has_key(r1.sview(), p) == has_key(r2.sview(), p),
        has_key(r1.sview(), p) ==> str_views(spec_get(r1.sview(), p).unwrap()@).to_multiset()
            == str_views(spec_get(r2.sview(), p).unwrap()@).to_multiset(),
{
}

/// Chain repair bridges over a deleted link: in a chain where one
/// block follows the deleted one and the deleted one follows a third,
/// the follower ends up following that third block, provided the
/// deleted block had no descendants of its own.
pub proof fn lemma_chain_repair(
    s0: Seq<Entry<BlockDoc>>,
    sn: Seq<Entry<BlockDoc>>,
    t0: Seq<Entry<Vec<u16>>>,
    tn: Seq<Entry<Vec<u16>>>,
    a_id: Seq<char>,
    b_id: Seq<char>,
    c_id: Seq<char>,
)
    requires
        delete_applied(s0, sn, t0, tn, b_id),
        forall|q: Seq<char>| !store_descendant(s0, b_id, q),
        has_key(s0, c_id),
        c_id != b_id,
        spec_get(s0, c_id).unwrap().bview().prev_id == Some(b_id),
        spec_get(s0, b_id).unwrap().bview().prev_id == Some(a_id),
    ensures
        has_key(sn, c_id),
        spec_get(sn, c_id).unwrap().bview().prev_id == Some(a_id),
{
    assert(has_key(sn, c_id));
    assert(spec_get(sn, c_id).unwrap().bview() == bridge_prev(
        b_id,
        spec_get(s0, b_id).unwrap().bview(),
        spec_get(s0, c_id).unwrap().bview(),
    ));
}

/// A retain beyond the text's length is rejected as an invalid
/// operation: the whole operation list fails, so nothing of it is
/// applied.
pub proof fn lemma_bounds_rejection(text: Seq<u16>, ops: Seq<RawOpView>, n: u64)
    requires
        text.len() <= u32::MAX,
        ops.len() > 0,
        !ops.first().has_insert,
        ops.first().has_retain,
        ops.first().retain == Some(n),
        n > text.len(),
    ensures
        delta_outcome(text, ops) == Err::<Seq<u16>, Seq<char>>("Retain exceeds text length"@),
{
    let len0 = text.len() as u32;
    assert(parse_spec(ops.first(), 0u32, len0) == Err::<
        (crate::delta::DeltaOpView, u32, u32),
        _,
    >("Retain exceeds text length"@));
    assert(delta_run(text, 0, 0u32, len0, ops) == Err::<Seq<u16>, Seq<char>>(
        "Retain exceeds text length"@,
    ));
}

} // verus!
