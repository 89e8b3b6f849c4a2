//! The reconciliation sorter: derives a deterministic per-parent child
//! order from `parentId` / `prevId` hints, device buckets and timestamps.
//!
//! Per parent group the blocks are bucketed by originating device; inside
//! a bucket, `prevId` hints that resolve within the same bucket form
//! chains walked depth first (successors in ascending timestamp order,
//! roots in ascending timestamp order), with a visited guard so that even
//! cyclic hints terminate; unvisited bucket members are appended so no
//! block is ever lost. Buckets are emitted in ascending lexicographic
//! device order: device grouping takes priority over interleaving by
//! timestamp across devices.
//!
//! Every ordering decision — bucket roots, a chain's fan-out, and the
//! appended stragglers — goes through one comparison, ascending
//! (timestamp, id), so the derived order is a function of the block
//! contents alone, never of the order the substrate hands the ids over
//! in.
//!
//! The contract proves, for every parent group, that the emitted ids
//! are exactly that group's ids (as a multiset: nothing lost, nothing
//! invented, nothing doubled — cycles included), and that their device
//! keys appear in ascending order, which forces the per-device
//! grouping; the (timestamp, id) selection itself is pinned exactly at
//! [`sort_by_timestamp`]'s contract (`sorted_by_ts`). The one thing the
//! top-level contract does not yet pin is how the depth-first chain
//! walk arranges ids inside a bucket; that order is fixed by this one
//! implementation and exercised by the test suite.

use vstd::multiset::Multiset;
use vstd::prelude::*;

use crate::keyed::Entry;
use crate::keyed::KeyedVec;
use crate::keyed::distinct_keys;
use crate::keyed::dup_str_vec;
use crate::keyed::has_key;
use crate::keyed::key_index;
use crate::keyed::lemma_key_index;
use crate::keyed::lemma_key_index_first;
use crate::keyed::spec_get;
use crate::strutil::lemma_str_order_total;
use crate::strutil::lemma_str_order_trans;
use crate::strutil::seq_str_le;
use crate::strutil::seq_str_lt;
use crate::strutil::str_eq;
use crate::strutil::str_le;
use crate::types::BlockDoc;
use crate::types::BlockMap;
use crate::types::ChildrenMap;

verus! {

broadcast use {vstd::seq_lib::group_to_multiset_ensures, vstd::multiset::group_multiset_axioms};

/// Views of a sequence of strings.
pub open spec fn str_views(ss: Seq<String>) -> Seq<Seq<char>> {
    ss.map_values(|s: String| s@)
}

/// Ids (entry keys) of the blocks whose parent group key is `p`, in
/// store order.
pub open spec fn group_ids(s: Seq<Entry<BlockDoc>>, p: Seq<char>) -> Seq<Seq<char>>
    decreases s.len(),
{
    if s.len() == 0 {
        Seq::empty()
    } else if s.last().val.parent_key_view() == p {
        group_ids(s.drop_last(), p).push(s.last().key@)
    } else {
        group_ids(s.drop_last(), p)
    }
}

/// Device key of the block stored under `id`.
pub open spec fn device_of_id(s: Seq<Entry<BlockDoc>>, id: Seq<char>) -> Seq<char> {
    match spec_get(s, id) {
        Some(b) => b.device_view(),
        None => "unknown"@,
    }
}

/// Whether the ids appear in ascending order of their device keys, so
/// that each device's blocks form one contiguous run.
pub open spec fn devices_ascending(s: Seq<Entry<BlockDoc>>, ids: Seq<Seq<char>>) -> bool {
    forall|i: int, j: int|
        0 <= i < j < ids.len() ==> seq_str_le(device_of_id(s, ids[i]), device_of_id(s, ids[j]))
}

/// Timestamp key of the block stored under `id` (empty when absent).
pub open spec fn ts_of_id(s: Seq<Entry<BlockDoc>>, id: Seq<char>) -> Seq<char> {
    match spec_get(s, id) {
        Some(b) => b.timestamp_view(),
        None => Seq::empty(),
    }
}

/// Strict order on ids by (timestamp, id): the id breaks timestamp
/// ties, so the order depends on the block contents alone.
pub open spec fn ts_key_lt(s: Seq<Entry<BlockDoc>>, a: Seq<char>, b: Seq<char>) -> bool {
    if ts_of_id(s, a) != ts_of_id(s, b) {
        seq_str_lt(ts_of_id(s, a), ts_of_id(s, b))
    } else {
        seq_str_lt(a, b)
    }
}

/// Position of the first least id by (timestamp, id).
pub open spec fn min_key_index(s: Seq<Entry<BlockDoc>>, ids: Seq<Seq<char>>) -> int
    decreases ids.len(),
{
    if ids.len() <= 1 {
        0
    } else {
        let r = min_key_index(s, ids.drop_last());
        if ts_key_lt(s, ids.last(), ids[r]) {
            ids.len() - 1
        } else {
            r
        }
    }
}

/// Ids in ascending (timestamp, id) order: the least remaining id is
/// emitted first, again and again.
pub open spec fn sorted_by_ts(s: Seq<Entry<BlockDoc>>, ids: Seq<Seq<char>>) -> Seq<Seq<char>>
    decreases ids.len(),
{
    if ids.len() == 0 {
        Seq::empty()
    } else {
        let m0 = min_key_index(s, ids);
        let m = if 0 <= m0 < ids.len() {
            m0
        } else {
            0
        };
        seq![ids[m]] + sorted_by_ts(s, ids.remove(m))
    }
}

proof fn lemma_min_key_index_in_range(s: Seq<Entry<BlockDoc>>, ids: Seq<Seq<char>>)
    requires
        ids.len() > 0,
    ensures
        0 <= min_key_index(s, ids) < ids.len(),
    decreases ids.len(),
{
    if ids.len() > 1 {
        lemma_min_key_index_in_range(s, ids.drop_last());
    }
}

/// The view of an element is a member of the sequence of views.
proof fn lemma_str_views_index(s: Seq<String>, i: int)
    requires
        0 <= i < s.len(),
    ensures
        str_views(s)[i] == s[i]@,
        str_views(s).contains(s[i]@),
{
    assert(str_views(s)[i] == s[i]@);
    assert(exists|w: int| 0 <= w < str_views(s).len() && str_views(s)[w] == s[i]@) by {
        assert(str_views(s)[i] == s[i]@);
    }
}

proof fn lemma_str_views_push(s: Seq<String>, x: String)
    ensures
        str_views(s.push(x)) =~= str_views(s).push(x@),
{
}

proof fn lemma_str_views_remove(s: Seq<String>, i: int)
    requires
        0 <= i < s.len(),
    ensures
        str_views(s.remove(i)) =~= str_views(s).remove(i),
{
}

proof fn lemma_str_views_insert(s: Seq<String>, i: int, x: String)
    requires
        0 <= i <= s.len(),
    ensures
        str_views(s.insert(i, x)) =~= str_views(s).insert(i, x@),
{
}

/// Pushing an element already covered by `dst` keeps the containment.
/// An empty sequence of views carries the empty multiset.
proof fn lemma_empty_multiset(s: Seq<Seq<char>>)
    requires
        s.len() == 0,
    ensures
        s.to_multiset() =~= Multiset::empty(),
{
    assert forall|x: Seq<char>| s.to_multiset().count(x) == 0 by {
        if s.to_multiset().count(x) > 0 {
            assert(s.contains(x));
        }
    }
}

proof fn lemma_push_keeps_containment(s: Seq<String>, x: String, dst: Seq<Seq<char>>)
    requires
        forall|y: Seq<char>| str_views(s).contains(y) ==> dst.contains(y),
        dst.contains(x@),
    ensures
        forall|y: Seq<char>| str_views(s.push(x)).contains(y) ==> dst.contains(y),
{
    lemma_str_views_push(s, x);
    assert forall|y: Seq<char>| str_views(s.push(x)).contains(y) implies dst.contains(y) by {
        let w = choose|w: int|
            0 <= w < str_views(s.push(x)).len() && str_views(s.push(x))[w] == y;
        if w < s.len() {
            assert(str_views(s)[w] == y);
        }
    }
}

/// Dropping an element keeps the containment.
proof fn lemma_remove_keeps_containment(s: Seq<String>, i: int, dst: Seq<Seq<char>>)
    requires
        0 <= i < s.len(),
        forall|y: Seq<char>| str_views(s).contains(y) ==> dst.contains(y),
    ensures
        forall|y: Seq<char>| str_views(s.remove(i)).contains(y) ==> dst.contains(y),
{
    lemma_str_views_remove(s, i);
    assert forall|y: Seq<char>| str_views(s.remove(i)).contains(y) implies dst.contains(y) by {
        let w = choose|w: int|
            0 <= w < str_views(s.remove(i)).len() && str_views(s.remove(i))[w] == y;
        if w < i {
            assert(str_views(s)[w] == y);
        } else {
            assert(str_views(s)[w + 1] == y);
        }
    }
}

/// Truncating to a prefix keeps the containment.
proof fn lemma_prefix_keeps_containment(s: Seq<String>, k: int, dst: Seq<Seq<char>>)
    requires
        0 <= k <= s.len(),
        forall|y: Seq<char>| str_views(s).contains(y) ==> dst.contains(y),
    ensures
        forall|y: Seq<char>| str_views(s.subrange(0, k)).contains(y) ==> dst.contains(y),
{
    assert forall|y: Seq<char>| str_views(s.subrange(0, k)).contains(y) implies dst.contains(
        y,
    ) by {
        let w = choose|w: int|
            0 <= w < str_views(s.subrange(0, k)).len() && str_views(s.subrange(0, k))[w] == y;
        assert(str_views(s)[w] == y);
    }
}

/// A permutation keeps the containment.
proof fn lemma_perm_keeps_containment(a: Seq<String>, b: Seq<String>, dst: Seq<Seq<char>>)
    requires
        str_views(a).to_multiset() == str_views(b).to_multiset(),
        forall|y: Seq<char>| str_views(b).contains(y) ==> dst.contains(y),
    ensures
        forall|y: Seq<char>| str_views(a).contains(y) ==> dst.contains(y),
{
    assert forall|y: Seq<char>| str_views(a).contains(y) implies dst.contains(y) by {
        assert(str_views(a).to_multiset().count(y) > 0);
        assert(str_views(b).contains(y));
    }
}

/// A push of a fresh element keeps a sequence duplicate-free.
proof fn lemma_push_distinct<A>(s: Seq<A>, x: A)
    requires
        s.no_duplicates(),
        !s.contains(x),
    ensures
        s.push(x).no_duplicates(),
{
}

/// Two duplicate-free sequences over the same set of elements carry the
/// same multiset.
proof fn lemma_distinct_same_set_multiset<A>(a: Seq<A>, b: Seq<A>)
    requires
        a.no_duplicates(),
        b.no_duplicates(),
        forall|x: A| a.contains(x) <==> b.contains(x),
    ensures
        a.to_multiset() == b.to_multiset(),
{
    a.lemma_multiset_has_no_duplicates();
    b.lemma_multiset_has_no_duplicates();
    assert forall|x: A| a.to_multiset().count(x) == b.to_multiset().count(x) by {
        if a.contains(x) {
        } else {
            assert(a.to_multiset().count(x) == 0);
            assert(b.to_multiset().count(x) == 0);
        }
    }
    assert(a.to_multiset() =~= b.to_multiset());
}

/// A sequence whose multiset is dominated by one with counts at most one
/// has no duplicates.
proof fn lemma_dominated_distinct(s: Seq<Seq<char>>, m: Multiset<Seq<char>>)
    requires
        forall|x: Seq<char>| s.to_multiset().count(x) <= m.count(x),
        forall|x: Seq<char>| m.count(x) <= 1,
    ensures
        s.no_duplicates(),
{
    assert forall|x: Seq<char>| s.to_multiset().contains(x) implies s.to_multiset().count(x)
        == 1 by {
        assert(s.to_multiset().count(x) <= m.count(x));
        assert(m.count(x) <= 1);
        assert(s.to_multiset().count(x) > 0);
    }
    s.lemma_multiset_has_no_duplicates_conv();
}

/// A duplicate-free sequence contained in another is no longer than it.
pub proof fn lemma_contained_distinct_len<A>(a: Seq<A>, b: Seq<A>)
    requires
        a.no_duplicates(),
        forall|x: A| a.contains(x) ==> b.contains(x),
    ensures
        a.len() <= b.len(),
{
    a.unique_seq_to_set();
    b.lemma_cardinality_of_set();
    assert forall|x: A| a.to_set().contains(x) implies b.to_set().contains(x) by {}
    vstd::set_lib::lemma_len_subset(a.to_set(), b.to_set());
}

/// In a store with distinct keys, a group lists distinct ids of blocks
/// that are present and carry that parent key.
pub proof fn lemma_group_ids_props(s: Seq<Entry<BlockDoc>>, p: Seq<char>)
    requires
        distinct_keys(s),
    ensures
        group_ids(s, p).no_duplicates(),
        forall|x: Seq<char>|
            #[trigger] group_ids(s, p).contains(x) ==> has_key(s, x) && spec_get(
                s,
                x,
            ).unwrap().parent_key_view() == p,
    decreases s.len(),
{
    if s.len() > 0 {
        let s0 = s.drop_last();
        assert(forall|i: int| 0 <= i < s0.len() ==> #[trigger] s0[i] == s[i]);
        lemma_group_ids_props(s0, p);
        let rest = group_ids(s0, p);
        let lk = s.last().key@;
        if s.last().val.parent_key_view() == p {
            if rest.contains(lk) {
                assert(group_ids(s0, p).contains(lk));
                lemma_key_index(s0, lk);
                let w = key_index(s0, lk);
                assert(s0[w].key@ == lk);
                assert(s[w].key@ == lk);
                assert(s[s.len() - 1].key@ == lk);
                assert(false);
            }
            lemma_push_distinct(rest, lk);
        }
        assert forall|x: Seq<char>| #[trigger] group_ids(s, p).contains(x) implies has_key(s, x)
            && spec_get(s, x).unwrap().parent_key_view() == p by {
            if rest.contains(x) {
                assert(group_ids(s0, p).contains(x));
                assert(has_key(s0, x));
                lemma_key_index(s0, x);
                let w = key_index(s0, x);
                assert(s0[w].key@ == x);
                assert(s[w].key@ == x);
                assert(forall|j: int| 0 <= j < w ==> s0[j].key@ != x);
                assert(forall|j: int| 0 <= j < w ==> s[j].key@ != x);
                lemma_key_index_first(s, x, w);
                assert(spec_get(s, x) == Some(s[w].val));
                assert(spec_get(s0, x) == Some(s0[w].val));
            } else {
                // only the appended last id is new to this group
                let g = group_ids(s, p);
                let w = choose|w: int| 0 <= w < g.len() && g[w] == x;
                assert(s.last().val.parent_key_view() == p);
                if w < rest.len() {
                    assert(rest[w] == x);
                    assert(false);
                }
                assert(x == lk);
                assert(forall|j: int| 0 <= j < s.len() - 1 ==> s[j].key@ != lk);
                lemma_key_index_first(s, lk, s.len() - 1);
                assert(spec_get(s, lk) == Some(s.last().val));
            }
        }
    }
}

/// Every block of the store is listed in the group of its parent key.
pub proof fn lemma_group_ids_covers(s: Seq<Entry<BlockDoc>>, i: int)
    requires
        0 <= i < s.len(),
    ensures
        group_ids(s, s[i].val.parent_key_view()).contains(s[i].key@),
    decreases s.len(),
{
    let p = s[i].val.parent_key_view();
    if i == s.len() - 1 {
        let g = group_ids(s, p);
        assert(g.last() == s[i].key@);
    } else {
        assert(s.drop_last()[i] == s[i]);
        lemma_group_ids_covers(s.drop_last(), i);
        let rest = group_ids(s.drop_last(), p);
        let w = choose|w: int| 0 <= w < rest.len() && rest[w] == s[i].key@;
        if s.last().val.parent_key_view() == p {
            assert(group_ids(s, p)[w] == s[i].key@);
        } else {
            assert(group_ids(s, p)[w] == s[i].key@);
        }
    }
}

/// Whether `x` occurs in `v`, by character comparison.
pub fn contains_str(v: &Vec<String>, x: &str) -> (r: bool)
    ensures
        r == str_views(v@).contains(x@),
{
    let n = v.len();
    let mut i: usize = 0;
    loop
        invariant
            i <= n,
            n == v@.len(),
            forall|j: int| 0 <= j < i ==> str_views(v@)[j] != x@,
        decreases n - i,
    {
        if i >= n {
            proof {
                assert(forall|j: int| 0 <= j < v@.len() ==> str_views(v@)[j] != x@);
            }
            return false;
        }
        if str_eq(v[i].as_str(), x) {
            proof {
                lemma_str_views_index(v@, i as int);
            }
            return true;
        }
        i = i + 1;
    }
}

/// Strictly ascending list of character sequences.
spec fn strictly_ascending(vs: Seq<Seq<char>>) -> bool {
    forall|i: int, j: int| 0 <= i < j < vs.len() ==> seq_str_lt(vs[i], vs[j])
}

/// Inserts `d` into the ascending device list if it is not yet there.
fn add_device(devices: &mut Vec<String>, d: &str)
    requires
        strictly_ascending(str_views(old(devices)@)),
    ensures
        strictly_ascending(str_views(final(devices)@)),
        str_views(final(devices)@).contains(d@),
        forall|x: Seq<char>|
            str_views(final(devices)@).contains(x) <==> (str_views(old(devices)@).contains(x) || x
                == d@),
{
    let n = devices.len();
    let mut i: usize = 0;
    loop
        invariant
            i <= n,
            n == devices@.len(),
            devices@ == old(devices)@,
            strictly_ascending(str_views(devices@)),
            forall|j: int| 0 <= j < i ==> seq_str_lt(str_views(devices@)[j], d@),
        ensures
            i <= n,
            devices@ == old(devices)@,
            forall|j: int| 0 <= j < i ==> seq_str_lt(str_views(devices@)[j], d@),
            i < n ==> !seq_str_le(str_views(devices@)[i as int], d@),
        decreases n - i,
    {
        if i >= n {
            break;
        }
        proof {
            lemma_str_views_index(devices@, i as int);
        }
        if str_eq(devices[i].as_str(), d) {
            proof {
                assert(str_views(devices@)[i as int] == d@);
            }
            return;
        }
        if !str_le(devices[i].as_str(), d) {
            break;
        }
        i = i + 1;
    }
    proof {
        assert forall|j: int| i <= j < devices@.len() implies seq_str_lt(
            d@,
            str_views(devices@)[j],
        ) by {
            lemma_str_order_total(str_views(devices@)[i as int], d@);
            assert(seq_str_lt(d@, str_views(devices@)[i as int]));
            if j > i {
                lemma_str_order_trans(d@, str_views(devices@)[i as int], str_views(devices@)[j]);
                if d@ == str_views(devices@)[j] {
                    crate::strutil::lemma_str_order_asym(d@, str_views(devices@)[i as int]);
                }
            }
        }
    }
    let dd = d.to_owned();
    let ghost prev = devices@;
    let ghost ddv = dd;
    devices.insert(i, dd);
    proof {
        lemma_str_views_insert(prev, i as int, ddv);
        let vs = str_views(devices@);
        assert(vs =~= str_views(prev).insert(i as int, d@));
        assert(vs[i as int] == d@);
        assert(forall|w: int| 0 <= w < i ==> vs[w] == str_views(prev)[w]);
        assert(forall|w: int| i < w < vs.len() ==> vs[w] == str_views(prev)[w - 1]);
        assert forall|a: int, b: int| 0 <= a < b < vs.len() implies seq_str_lt(vs[a], vs[b]) by {
            if b < i || a > i {
            } else if a < i && b == i {
            } else if a == i && b > i {
            } else if a < i && b > i {
                lemma_str_order_trans(vs[a], d@, vs[b]);
                if vs[a] == vs[b] {
                    crate::strutil::lemma_str_order_asym(vs[a], d@);
                }
            }
        }
        assert forall|x: Seq<char>| vs.contains(x) implies (str_views(prev).contains(x) || x
            == d@) by {
            let w = choose|w: int| 0 <= w < vs.len() && vs[w] == x;
            if w < i {
                assert(str_views(prev)[w] == x);
            } else if w > i {
                assert(str_views(prev)[w - 1] == x);
            }
        }
        assert forall|x: Seq<char>| str_views(prev).contains(x) implies vs.contains(x) by {
            let w = choose|w: int| 0 <= w < str_views(prev).len() && str_views(prev)[w] == x;
            if w < i {
                assert(vs[w] == x);
            } else {
                assert(vs[w + 1] == x);
            }
        }
    }
}

/// Looks a block up by id; the id must be present.
fn block_at<'a>(blocks: &'a BlockMap, id: &str) -> (r: &'a BlockDoc)
    requires
        has_key(blocks.sview(), id@),
    ensures
        Some(*r) == spec_get(blocks.sview(), id@),
{
    match blocks.get(id) {
        Some(b) => b,
        None => vstd::pervasive::unreached(),
    }
}

/// Ascending ordering of ids by their blocks' timestamp strings, ties
/// broken by the ids themselves: a permutation of the input whose order
/// depends on the block contents alone.
fn sort_by_timestamp(blocks: &BlockMap, ids: Vec<String>) -> (r: Vec<String>)
    requires
        blocks.wf(),
        forall|x: Seq<char>| str_views(ids@).contains(x) ==> has_key(blocks.sview(), x),
    ensures
        str_views(r@).to_multiset() == str_views(ids@).to_multiset(),
        str_views(r@) == sorted_by_ts(blocks.sview(), str_views(ids@)),
{
    let mut rem = ids;
    let mut out: Vec<String> = Vec::new();
    let ghost orig = str_views(rem@).to_multiset();
    proof {
        lemma_empty_multiset(str_views(out@));
        assert(str_views(out@) + sorted_by_ts(blocks.sview(), str_views(rem@))
            =~= sorted_by_ts(blocks.sview(), str_views(rem@)));
    }
    loop
        invariant
            blocks.wf(),
            orig == str_views(ids@).to_multiset(),
            str_views(out@).to_multiset().add(str_views(rem@).to_multiset()) =~= orig,
            forall|x: Seq<char>| str_views(rem@).contains(x) ==> has_key(blocks.sview(), x),
            sorted_by_ts(blocks.sview(), str_views(ids@)) == str_views(out@) + sorted_by_ts(
                blocks.sview(),
                str_views(rem@),
            ),
        decreases rem@.len(),
    {
        let n = rem.len();
        if n == 0 {
            proof {
                lemma_empty_multiset(str_views(rem@));
                assert(str_views(out@).to_multiset() =~= orig);
                assert(sorted_by_ts(blocks.sview(), str_views(rem@))
                    =~= Seq::<Seq<char>>::empty());
                assert(str_views(out@) + sorted_by_ts(blocks.sview(), str_views(rem@))
                    =~= str_views(out@));
            }
            return out;
        }
        // Pick the least id by (timestamp, id): the id breaks timestamp
        // ties, so the choice depends on the block contents alone and
        // never on the order the substrate handed the ids over in.
        let mut best: usize = 0;
        let mut j: usize = 1;
        proof {
            assert(str_views(rem@).subrange(0, 1) =~= seq![str_views(rem@)[0]]);
        }
        while j < n
            invariant
                best < j <= n,
                n == rem@.len(),
                blocks.wf(),
                forall|x: Seq<char>| str_views(rem@).contains(x) ==> has_key(blocks.sview(), x),
                best == min_key_index(blocks.sview(), str_views(rem@).subrange(0, j as int)),
            decreases n - j,
        {
            proof {
                lemma_str_views_index(rem@, j as int);
                lemma_str_views_index(rem@, best as int);
            }
            let ts_j = block_at(blocks, rem[j].as_str()).timestamp_key();
            let ts_b = block_at(blocks, rem[best].as_str()).timestamp_key();
            let better = if str_eq(ts_j.as_str(), ts_b.as_str()) {
                !str_le(rem[best].as_str(), rem[j].as_str())
            } else {
                !str_le(ts_b.as_str(), ts_j.as_str())
            };
            proof {
                let sv = blocks.sview();
                let pre = str_views(rem@).subrange(0, j as int);
                let pre1 = str_views(rem@).subrange(0, j + 1);
                assert(pre1.drop_last() =~= pre);
                assert(pre1.last() == str_views(rem@)[j as int]);
                assert(ts_of_id(sv, str_views(rem@)[j as int]) == ts_j@);
                assert(ts_of_id(sv, str_views(rem@)[best as int]) == ts_b@);
                crate::strutil::lemma_lt_iff_not_le(ts_j@, ts_b@);
                crate::strutil::lemma_lt_iff_not_le(rem@[j as int]@, rem@[best as int]@);
                assert(better == ts_key_lt(
                    sv,
                    str_views(rem@)[j as int],
                    str_views(rem@)[best as int],
                ));
                assert(pre1[best as int] == str_views(rem@)[best as int]);
                assert(min_key_index(sv, pre1) == if ts_key_lt(
                    sv,
                    pre1.last(),
                    pre1[min_key_index(sv, pre)],
                ) {
                    j as int
                } else {
                    best as int
                });
            }
            if better {
                best = j;
            }
            j = j + 1;
        }
        proof {
            assert(str_views(rem@).subrange(0, n as int) =~= str_views(rem@));
            assert(best == min_key_index(blocks.sview(), str_views(rem@)));
            lemma_min_key_index_in_range(blocks.sview(), str_views(rem@));
        }
        let ghost before = rem@;
        let picked = rem.remove(best);
        let ghost out_before = out@;
        out.push(picked);
        proof {
            // the spec emits exactly this pick next
            assert(sorted_by_ts(blocks.sview(), str_views(before)) == seq![
                str_views(before)[best as int],
            ] + sorted_by_ts(blocks.sview(), str_views(before).remove(best as int)));
            // moving one element keeps the joint multiset unchanged
            lemma_str_views_index(before, best as int);
            lemma_str_views_remove(before, best as int);
            assert(str_views(before).remove(best as int).to_multiset() =~= str_views(
                before,
            ).to_multiset().remove(str_views(before)[best as int]));
            assert(str_views(rem@).to_multiset() == str_views(before).to_multiset().remove(
                out@.last()@,
            ));
            lemma_str_views_push(out_before, out@.last());
            assert(str_views(out@) =~= str_views(out_before).push(out@.last()@));
            assert(str_views(before).to_multiset().count(out@.last()@) >= 1);
            assert(str_views(out@).to_multiset().add(str_views(rem@).to_multiset()) =~= orig);
            lemma_remove_keeps_containment(before, best as int, str_views(before));
            assert forall|x: Seq<char>| str_views(rem@).contains(x) implies has_key(
                blocks.sview(),
                x,
            ) by {
                assert(str_views(before).contains(x));
            }
        }
    }
}

/// Depth-first emission of one device bucket, chains first, stragglers
/// appended: a permutation of the bucket.
#[verifier::rlimit(100)]
fn sort_bucket(blocks: &BlockMap, bucket: &Vec<String>) -> (r: Vec<String>)
    requires
        blocks.wf(),
        str_views(bucket@).no_duplicates(),
        forall|x: Seq<char>| str_views(bucket@).contains(x) ==> has_key(blocks.sview(), x),
    ensures
        str_views(r@).to_multiset() == str_views(bucket@).to_multiset(),
{
    let n = bucket.len();
    let ghost bviews = str_views(bucket@);

    // Successor lists: prev id (when it resolves inside this bucket) to
    // the ids that claim it, in bucket order.
    let mut succs: KeyedVec<Vec<String>> = KeyedVec::new();
    // Bucket roots: members whose prev id does not resolve in-bucket.
    let mut roots: Vec<String> = Vec::new();
    let mut i: usize = 0;
    while i < n
        invariant
            i <= n,
            n == bucket@.len(),
            blocks.wf(),
            succs.wf(),
            bviews == str_views(bucket@),
            str_views(bucket@).no_duplicates(),
            forall|x: Seq<char>| str_views(bucket@).contains(x) ==> has_key(blocks.sview(), x),
            forall|e: int, x: Seq<char>|
                #![all_triggers]
                0 <= e < succs.sview().len() && str_views(succs.sview()[e].val@).contains(x)
                    ==> bviews.contains(x),
            forall|x: Seq<char>| str_views(roots@).contains(x) ==> bviews.contains(x),
        decreases n - i,
    {
        proof {
            lemma_str_views_index(bucket@, i as int);
        }
        let id = &bucket[i];
        let b = block_at(blocks, id.as_str());
        let mut chained = false;
        if let Some(prev) = &b.prev_id {
            if contains_str(bucket, prev.as_str()) {
                chained = true;
                let mut nv = match succs.get(prev.as_str()) {
                    Some(v) => dup_str_vec(v),
                    None => Vec::new(),
                };
                proof {
                    if has_key(succs.sview(), prev@) {
                        lemma_key_index(succs.sview(), prev@);
                        let e = key_index(succs.sview(), prev@);
                        assert(succs.sview()[e].val == spec_get(succs.sview(), prev@).unwrap());
                        assert(forall|x: Seq<char>|
                            #![all_triggers]
                            str_views(nv@).contains(x) ==> bviews.contains(x));
                    }
                }
                let ghost nv_before = nv@;
                proof {
                    lemma_push_keeps_containment(nv_before, bucket@[i as int], bviews);
                }
                nv.push(id.clone());
                proof {
                    assert(nv@ == nv_before.push(bucket@[i as int]));
                }
                let ghost sbefore = succs.sview();
                succs.set(prev.clone(), nv);
                proof {
                    assert forall|e: int, x: Seq<char>|
                        0 <= e < succs.sview().len() && str_views(
                            succs.sview()[e].val@,
                        ).contains(x) implies bviews.contains(x) by {
                        if has_key(sbefore, prev@) {
                            let w = key_index(sbefore, prev@);
                            if e != w {
                                assert(succs.sview()[e] == sbefore[e]);
                            }
                        } else {
                            if e < sbefore.len() {
                                assert(succs.sview()[e] == sbefore[e]);
                            }
                        }
                    }
                }
            }
        }
        if !chained {
            proof {
                lemma_push_keeps_containment(roots@, bucket@[i as int], bviews);
            }
            roots.push(id.clone());
        }
        i = i + 1;
    }

    let ghost roots_before = roots@;
    let roots = sort_by_timestamp(blocks, roots);
    proof {
        lemma_perm_keeps_containment(roots@, roots_before, bviews);
    }

    // Depth-first walk with a visited guard (the emitted list itself):
    // mandatory so cyclic prev references terminate and both cycle
    // participants still appear exactly once, via the appending pass.
    let mut out: Vec<String> = Vec::new();
    let mut ri: usize = 0;
    let rn = roots.len();
    while ri < rn
        invariant
            ri <= rn,
            rn == roots@.len(),
            blocks.wf(),
            succs.wf(),
            bviews == str_views(bucket@),
            str_views(bucket@).no_duplicates(),
            forall|x: Seq<char>| str_views(bucket@).contains(x) ==> has_key(blocks.sview(), x),
            forall|e: int, x: Seq<char>|
                #![all_triggers]
                0 <= e < succs.sview().len() && str_views(succs.sview()[e].val@).contains(x)
                    ==> bviews.contains(x),
            forall|x: Seq<char>| str_views(roots@).contains(x) ==> bviews.contains(x),
            str_views(out@).no_duplicates(),
            forall|x: Seq<char>| str_views(out@).contains(x) ==> bviews.contains(x),
            str_views(out@).len() <= bviews.len(),
        decreases rn - ri,
    {
        proof {
            lemma_str_views_index(roots@, ri as int);
        }
        let mut stack: Vec<String> = Vec::new();
        proof {
            lemma_push_keeps_containment(stack@, roots@[ri as int], bviews);
        }
        stack.push(roots[ri].clone());
        loop
            invariant
                blocks.wf(),
                succs.wf(),
                bviews == str_views(bucket@),
                str_views(bucket@).no_duplicates(),
                forall|x: Seq<char>|
                    str_views(bucket@).contains(x) ==> has_key(blocks.sview(), x),
                forall|e: int, x: Seq<char>|
                    #![all_triggers]
                    0 <= e < succs.sview().len() && str_views(succs.sview()[e].val@).contains(x)
                        ==> bviews.contains(x),
                str_views(out@).no_duplicates(),
                forall|x: Seq<char>| str_views(out@).contains(x) ==> bviews.contains(x),
                forall|x: Seq<char>| str_views(stack@).contains(x) ==> bviews.contains(x),
                str_views(out@).len() <= bviews.len(),
            decreases bviews.len() - str_views(out@).len(), stack@.len(),
        {
            let ghost stack_before = stack@;
            let id = match stack.pop() {
                Some(id) => id,
                None => { break; },
            };
            proof {
                assert(stack@ =~= stack_before.subrange(0, stack_before.len() - 1));
                lemma_str_views_index(stack_before, stack_before.len() - 1);
                assert(bviews.contains(stack_before.last()@));
                lemma_prefix_keeps_containment(stack_before, stack_before.len() - 1, bviews);
            }
            if contains_str(&out, id.as_str()) {
                continue;
            }
            let ghost out_before = out@;
            let ghost idv = id;
            proof {
                lemma_push_keeps_containment(out_before, idv, bviews);
                lemma_str_views_push(out_before, idv);
                lemma_push_distinct(str_views(out_before), idv@);
            }
            out.push(id.clone());
            proof {
                assert(out@ == out_before.push(idv));
                assert(str_views(out@) =~= str_views(out_before).push(idv@));
                lemma_contained_distinct_len(str_views(out@), bviews);
            }
            if let Some(sucs) = succs.get(id.as_str()) {
                proof {
                    lemma_key_index(succs.sview(), idv@);
                    let e = key_index(succs.sview(), idv@);
                    assert(succs.sview()[e].val == spec_get(succs.sview(), idv@).unwrap());
                    assert(forall|x: Seq<char>|
                        #![all_triggers]
                        str_views(sucs@).contains(x) ==> bviews.contains(x));
                }
                let copy = dup_str_vec(sucs);
                let ghost copy_view = copy@;
                let sorted = sort_by_timestamp(blocks, copy);
                proof {
                    lemma_perm_keeps_containment(sorted@, copy_view, bviews);
                }
                // Push in reverse so the walk descends into the least
                // timestamp first.
                let mut k: usize = sorted.len();
                while k > 0
                    invariant
                        k <= sorted@.len(),
                        bviews == str_views(bucket@),
                        forall|x: Seq<char>|
                            str_views(sorted@).contains(x) ==> bviews.contains(x),
                        forall|x: Seq<char>|
                            str_views(stack@).contains(x) ==> bviews.contains(x),
                    decreases k,
                {
                    k = k - 1;
                    proof {
                        lemma_str_views_index(sorted@, k as int);
                        lemma_push_keeps_containment(stack@, sorted@[k as int], bviews);
                    }
                    stack.push(sorted[k].clone());
                }
            }
        }
        ri = ri + 1;
    }

    // Appending pass: any bucket member the chains never reached is
    // emitted too, in ascending (timestamp, id) order, so even the
    // stragglers' order depends on the block contents alone.
    let mut leftover: Vec<String> = Vec::new();
    let mut i: usize = 0;
    while i < n
        invariant
            i <= n,
            n == bucket@.len(),
            bviews == str_views(bucket@),
            blocks.wf(),
            str_views(bucket@).no_duplicates(),
            str_views(out@).no_duplicates(),
            forall|x: Seq<char>| str_views(bucket@).contains(x) ==> has_key(blocks.sview(), x),
            forall|x: Seq<char>| str_views(out@).contains(x) ==> bviews.contains(x),
            str_views(leftover@).no_duplicates(),
            forall|x: Seq<char>|
                #[trigger] str_views(leftover@).contains(x) ==> bviews.contains(x)
                    && !str_views(out@).contains(x),
            forall|j: int|
                0 <= j < i ==> str_views(out@).contains(bviews[j]) || str_views(
                    leftover@,
                ).contains(bviews[j]),
        decreases n - i,
    {
        proof {
            lemma_str_views_index(bucket@, i as int);
        }
        if !contains_str(&out, bucket[i].as_str()) && !contains_str(
            &leftover,
            bucket[i].as_str(),
        ) {
            let ghost left_before = leftover@;
            proof {
                lemma_push_keeps_containment(left_before, bucket@[i as int], bviews);
                lemma_str_views_push(left_before, bucket@[i as int]);
                lemma_push_distinct(str_views(left_before), bviews[i as int]);
            }
            leftover.push(bucket[i].clone());
            proof {
                assert(str_views(leftover@) =~= str_views(left_before).push(bviews[i as int]));
                assert forall|x: Seq<char>| #[trigger] str_views(leftover@).contains(x)
                    implies bviews.contains(x) && !str_views(out@).contains(x) by {
                    let w = choose|w: int|
                        0 <= w < str_views(leftover@).len() && str_views(leftover@)[w] == x;
                    if w < str_views(left_before).len() {
                        assert(str_views(left_before)[w] == x);
                        assert(str_views(left_before).contains(x));
                    } else {
                        assert(x == bviews[i as int]);
                    }
                }
                assert forall|j: int| 0 <= j <= i implies str_views(out@).contains(bviews[j])
                    || str_views(leftover@).contains(bviews[j]) by {
                    if j < i {
                        if str_views(left_before).contains(bviews[j]) {
                            let w = choose|w: int|
                                0 <= w < str_views(left_before).len() && str_views(
                                    left_before,
                                )[w] == bviews[j];
                            assert(str_views(leftover@)[w] == bviews[j]);
                        }
                    } else {
                        assert(str_views(leftover@).last() == bviews[j]);
                    }
                }
            }
        }
        i = i + 1;
    }
    let ghost left_unsorted = leftover@;
    let leftover = sort_by_timestamp(blocks, leftover);
    proof {
        lemma_perm_keeps_containment(leftover@, left_unsorted, bviews);
        // the sorted stragglers are still distinct and still outside `out`
        str_views(left_unsorted).lemma_multiset_has_no_duplicates();
        lemma_dominated_distinct(
            str_views(leftover@),
            str_views(left_unsorted).to_multiset(),
        );
        assert forall|x: Seq<char>| str_views(leftover@).contains(x) implies !str_views(
            out@,
        ).contains(x) by {
            assert(str_views(leftover@).to_multiset().count(x) > 0);
            assert(str_views(left_unsorted).to_multiset().count(x) > 0);
            assert(str_views(left_unsorted).contains(x));
        }
        assert forall|j: int| 0 <= j < n implies str_views(out@).contains(bviews[j])
            || str_views(leftover@).contains(bviews[j]) by {
            if str_views(left_unsorted).contains(bviews[j]) {
                assert(str_views(left_unsorted).to_multiset().count(bviews[j]) > 0);
                assert(str_views(leftover@).to_multiset().count(bviews[j]) > 0);
            }
        }
    }
    let ln = leftover.len();
    let mut k: usize = 0;
    while k < ln
        invariant
            k <= ln,
            ln == leftover@.len(),
            bviews == str_views(bucket@),
            str_views(bucket@).no_duplicates(),
            str_views(out@).no_duplicates(),
            str_views(leftover@).no_duplicates(),
            forall|x: Seq<char>| str_views(out@).contains(x) ==> bviews.contains(x),
            forall|x: Seq<char>| str_views(leftover@).contains(x) ==> bviews.contains(x),
            forall|w: int|
                k <= w < ln ==> !str_views(out@).contains(str_views(leftover@)[w]),
            forall|j: int|
                0 <= j < n ==> str_views(out@).contains(bviews[j]) || exists|w: int|
                    k <= w < ln && str_views(leftover@)[w] == bviews[j],
        decreases ln - k,
    {
        proof {
            lemma_str_views_index(leftover@, k as int);
        }
        let ghost out_before = out@;
        proof {
            lemma_push_keeps_containment(out_before, leftover@[k as int], bviews);
            lemma_str_views_push(out_before, leftover@[k as int]);
            lemma_push_distinct(str_views(out_before), str_views(leftover@)[k as int]);
        }
        out.push(leftover[k].clone());
        proof {
            assert(str_views(out@) =~= str_views(out_before).push(
                str_views(leftover@)[k as int],
            ));
            assert forall|w: int| k + 1 <= w < ln implies !str_views(out@).contains(
                str_views(leftover@)[w],
            ) by {
                if str_views(out@).contains(str_views(leftover@)[w]) {
                    let u = choose|u: int|
                        0 <= u < str_views(out@).len() && str_views(out@)[u] == str_views(
                            leftover@,
                        )[w];
                    if u < str_views(out_before).len() {
                        assert(str_views(out_before)[u] == str_views(leftover@)[w]);
                        assert(false);
                    } else {
                        assert(str_views(leftover@)[k as int] == str_views(leftover@)[w]);
                        assert(false);
                    }
                }
            }
            assert forall|j: int| 0 <= j < n implies str_views(out@).contains(bviews[j])
                || exists|w: int|
                k + 1 <= w < ln && str_views(leftover@)[w] == bviews[j] by {
                if str_views(out_before).contains(bviews[j]) {
                    let u = choose|u: int|
                        0 <= u < str_views(out_before).len() && str_views(out_before)[u]
                            == bviews[j];
                    assert(str_views(out@)[u] == bviews[j]);
                } else {
                    let w = choose|w: int|
                        k <= w < ln && str_views(leftover@)[w] == bviews[j];
                    if w == k {
                        assert(str_views(out@).last() == bviews[j]);
                    }
                }
            }
        }
        k = k + 1;
    }
    proof {
        assert forall|x: Seq<char>| bviews.contains(x) implies str_views(out@).contains(x) by {
            let w = choose|w: int| 0 <= w < bviews.len() && bviews[w] == x;
        }
        lemma_distinct_same_set_multiset(str_views(out@), bviews);
    }
    out
}

/// Sorts one parent group: members are bucketed by device, buckets are
/// emitted in ascending device order, each bucket in chain order. The
/// result is a permutation of the group with device keys ascending.
#[verifier::rlimit(50)]
fn sort_group(blocks: &BlockMap, members: &Vec<String>) -> (r: Vec<String>)
    requires
        blocks.wf(),
        str_views(members@).no_duplicates(),
        forall|x: Seq<char>| str_views(members@).contains(x) ==> has_key(blocks.sview(), x),
    ensures
        str_views(r@).to_multiset() == str_views(members@).to_multiset(),
        devices_ascending(blocks.sview(), str_views(r@)),
{
    let n = members.len();
    let ghost mviews = str_views(members@);
    let ghost sv = blocks.sview();

    // The distinct device keys of the group, ascending.
    let mut devices: Vec<String> = Vec::new();
    let mut i: usize = 0;
    while i < n
        invariant
            i <= n,
            n == members@.len(),
            blocks.wf(),
            sv == blocks.sview(),
            mviews == str_views(members@),
            forall|x: Seq<char>| mviews.contains(x) ==> has_key(sv, x),
            strictly_ascending(str_views(devices@)),
            forall|j: int|
                0 <= j < i ==> str_views(devices@).contains(device_of_id(sv, mviews[j])),
        decreases n - i,
    {
        proof {
            lemma_str_views_index(members@, i as int);
        }
        let b = block_at(blocks, members[i].as_str());
        let d = b.device_key();
        let ghost dev_before = str_views(devices@);
        add_device(&mut devices, d.as_str());
        proof {
            assert(d@ == device_of_id(sv, mviews[i as int]));
            assert forall|j: int| 0 <= j <= i implies str_views(devices@).contains(
                device_of_id(sv, mviews[j]),
            ) by {
                if j < i {
                    assert(dev_before.contains(device_of_id(sv, mviews[j])));
                }
            }
        }
        i = i + 1;
    }

    // Emit the buckets in ascending device order; `rem` holds the group
    // members not yet emitted.
    let mut rem = dup_str_vec(members);
    let mut out: Vec<String> = Vec::new();
    let dn = devices.len();
    let ghost dviews = str_views(devices@);
    let mut k: usize = 0;
    while k < dn
        invariant
            k <= dn,
            dn == devices@.len(),
            blocks.wf(),
            sv == blocks.sview(),
            mviews == str_views(members@),
            dviews == str_views(devices@),
            strictly_ascending(dviews),
            mviews.no_duplicates(),
            forall|x: Seq<char>| mviews.contains(x) ==> has_key(sv, x),
            str_views(out@).to_multiset().add(str_views(rem@).to_multiset())
                =~= mviews.to_multiset(),
            forall|x: Seq<char>| str_views(rem@).contains(x) ==> has_key(sv, x),
            // every waiting member belongs to a device not yet emitted
            forall|x: Seq<char>|
                str_views(rem@).contains(x) ==> exists|j: int|
                    k <= j < dn && device_of_id(sv, x) == dviews[j],
            devices_ascending(sv, str_views(out@)),
            // everything emitted sits at or below every device still open
            forall|w: int, j: int|
                0 <= w < str_views(out@).len() && k <= j < dn ==> seq_str_le(
                    device_of_id(sv, str_views(out@)[w]),
                    dviews[j],
                ),
        decreases dn - k,
    {
        proof {
            lemma_str_views_index(devices@, k as int);
        }
        let d = &devices[k];

        // Extract this device's bucket from `rem`, keeping order.
        let mut bucket: Vec<String> = Vec::new();
        let ghost rem_start = str_views(rem@);
        let mut j: usize = 0;
        loop
            invariant
                j <= rem@.len(),
                blocks.wf(),
                sv == blocks.sview(),
                dviews == str_views(devices@),
                k < dn == devices@.len(),
                d@ == dviews[k as int],
                str_views(bucket@).to_multiset().add(str_views(rem@).to_multiset())
                    =~= rem_start.to_multiset(),
                forall|x: Seq<char>| str_views(rem@).contains(x) ==> rem_start.contains(x),
                forall|x: Seq<char>|
                    str_views(bucket@).contains(x) ==> rem_start.contains(x) && device_of_id(
                        sv,
                        x,
                    ) == dviews[k as int],
                forall|w: int|
                    0 <= w < j ==> device_of_id(sv, str_views(rem@)[w]) != dviews[k as int],
                forall|x: Seq<char>| rem_start.contains(x) ==> has_key(sv, x),
            ensures
                j == rem@.len(),
                str_views(bucket@).to_multiset().add(str_views(rem@).to_multiset())
                    =~= rem_start.to_multiset(),
                forall|x: Seq<char>| str_views(rem@).contains(x) ==> rem_start.contains(x),
                forall|x: Seq<char>|
                    str_views(bucket@).contains(x) ==> rem_start.contains(x) && device_of_id(
                        sv,
                        x,
                    ) == dviews[k as int],
                forall|w: int|
                    0 <= w < rem@.len() ==> device_of_id(sv, str_views(rem@)[w]) != dviews[
                        k as int
                    ],
            decreases rem@.len() - j,
        {
            if j >= rem.len() {
                break;
            }
            proof {
                lemma_str_views_index(rem@, j as int);
            }
            let b = block_at(blocks, rem[j].as_str());
            let bd = b.device_key();
            if str_eq(bd.as_str(), d.as_str()) {
                let ghost rem_before = rem@;
                let ghost bucket_before = bucket@;
                let moved = rem.remove(j);
                proof {
                    lemma_str_views_index(rem_before, j as int);
                    lemma_str_views_remove(rem_before, j as int);
                    assert(str_views(rem_before).remove(j as int).to_multiset() =~= str_views(
                        rem_before,
                    ).to_multiset().remove(str_views(rem_before)[j as int]));
                    lemma_str_views_push(bucket_before, moved);
                    lemma_remove_keeps_containment(rem_before, j as int, rem_start);
                }
                bucket.push(moved);
                proof {
                    assert(str_views(bucket@) =~= str_views(bucket_before).push(
                        str_views(rem_before)[j as int],
                    ));
                    assert(str_views(rem_before).to_multiset().count(
                        str_views(rem_before)[j as int],
                    ) >= 1);
                    assert(str_views(bucket@).to_multiset().add(str_views(rem@).to_multiset())
                        =~= rem_start.to_multiset());
                    assert forall|x: Seq<char>| str_views(bucket@).contains(x) implies rem_start
                        .contains(x) && device_of_id(sv, x) == dviews[k as int] by {
                        let w = choose|w: int|
                            0 <= w < str_views(bucket@).len() && str_views(bucket@)[w] == x;
                        if w < str_views(bucket_before).len() {
                            assert(str_views(bucket_before)[w] == x);
                        } else {
                            assert(x == str_views(rem_before)[j as int]);
                        }
                    }
                    assert forall|w: int| 0 <= w < j implies device_of_id(
                        sv,
                        str_views(rem@)[w],
                    ) != dviews[k as int] by {
                        assert(str_views(rem@)[w] == str_views(rem_before)[w]);
                    }
                }
            } else {
                proof {
                    assert(device_of_id(sv, str_views(rem@)[j as int]) != dviews[k as int]);
                }
                j = j + 1;
            }
        }

        // The bucket inherits distinctness from the group.
        proof {
            mviews.lemma_multiset_has_no_duplicates();
            assert forall|x: Seq<char>| str_views(bucket@).to_multiset().count(x)
                <= mviews.to_multiset().count(x) by {
                assert(str_views(bucket@).to_multiset().count(x) + str_views(
                    rem@,
                ).to_multiset().count(x) == rem_start.to_multiset().count(x));
                assert(str_views(out@).to_multiset().count(x) + rem_start.to_multiset().count(x)
                    == mviews.to_multiset().count(x));
            }
            assert forall|x: Seq<char>| mviews.to_multiset().count(x) <= 1 by {
                if mviews.to_multiset().count(x) > 0 {
                    assert(mviews.contains(x));
                }
            }
            lemma_dominated_distinct(str_views(bucket@), mviews.to_multiset());
            assert forall|x: Seq<char>| str_views(bucket@).contains(x) implies has_key(
                sv,
                x,
            ) by {}
        }
        let sorted = sort_bucket(blocks, &bucket);
        proof {
            assert forall|x: Seq<char>| str_views(sorted@).contains(x) implies device_of_id(
                sv,
                x,
            ) == dviews[k as int] by {
                assert(str_views(sorted@).to_multiset().count(x) > 0);
                assert(str_views(bucket@).contains(x));
            }
        }
        // Append the bucket: all its ids carry this device key, which is
        // at or above everything emitted and below every later device.
        let ghost out_start = str_views(out@);
        let mut q: usize = 0;
        let qn = sorted.len();
        while q < qn
            invariant
                q <= qn,
                qn == sorted@.len(),
                sv == blocks.sview(),
                dviews == str_views(devices@),
                strictly_ascending(dviews),
                k < dn == devices@.len(),
                forall|x: Seq<char>|
                    str_views(sorted@).contains(x) ==> device_of_id(sv, x) == dviews[k as int],
                str_views(out@) =~= out_start + str_views(sorted@).subrange(0, q as int),
                devices_ascending(sv, out_start),
                forall|w: int, j: int|
                    0 <= w < out_start.len() && k <= j < dn ==> seq_str_le(
                        device_of_id(sv, out_start[w]),
                        dviews[j],
                    ),
            decreases qn - q,
        {
            proof {
                lemma_str_views_index(sorted@, q as int);
                lemma_str_views_push(out@, sorted@[q as int]);
                assert(str_views(sorted@).subrange(0, q + 1) =~= str_views(sorted@).subrange(
                    0,
                    q as int,
                ).push(str_views(sorted@)[q as int]));
            }
            out.push(sorted[q].clone());
            q = q + 1;
        }
        proof {
            assert(str_views(sorted@).subrange(0, qn as int) =~= str_views(sorted@));
            assert(str_views(out@) =~= out_start + str_views(sorted@));
            // permutation bookkeeping
            assert forall|x: Seq<char>| str_views(out@).to_multiset().count(x) == out_start
                .to_multiset().count(x) + str_views(sorted@).to_multiset().count(x) by {
                vstd::seq_lib::lemma_multiset_commutative(out_start, str_views(sorted@));
            }
            assert(str_views(sorted@).to_multiset() == str_views(bucket@).to_multiset());
            assert forall|x: Seq<char>| str_views(out@).to_multiset().add(
                str_views(rem@).to_multiset(),
            ).count(x) == mviews.to_multiset().count(x) by {
                assert(str_views(bucket@).to_multiset().count(x) + str_views(
                    rem@,
                ).to_multiset().count(x) == rem_start.to_multiset().count(x));
            }
            assert(str_views(out@).to_multiset().add(str_views(rem@).to_multiset())
                =~= mviews.to_multiset());
            assert forall|a: int, b: int|
                0 <= a < b < str_views(out@).len() implies seq_str_le(
                    device_of_id(sv, str_views(out@)[a]),
                    device_of_id(sv, str_views(out@)[b]),
                ) by {
                let ol = out_start.len();
                if b >= ol {
                    assert(str_views(sorted@).contains(str_views(out@)[b]));
                    assert(device_of_id(sv, str_views(out@)[b]) == dviews[k as int]);
                    if a >= ol {
                        assert(str_views(sorted@).contains(str_views(out@)[a]));
                    } else {
                        assert(out_start[a] == str_views(out@)[a]);
                    }
                }
            }
            assert forall|w: int, j: int|
                0 <= w < str_views(out@).len() && k + 1 <= j < dn implies seq_str_le(
                    device_of_id(sv, str_views(out@)[w]),
                    dviews[j],
                ) by {
                let ol = out_start.len();
                if w >= ol {
                    assert(str_views(sorted@).contains(str_views(out@)[w]));
                    assert(device_of_id(sv, str_views(out@)[w]) == dviews[k as int]);
                    assert(seq_str_lt(dviews[k as int], dviews[j]));
                } else {
                    assert(out_start[w] == str_views(out@)[w]);
                }
            }
            // every waiting member still matches an unemitted device
            assert forall|x: Seq<char>| str_views(rem@).contains(x) implies exists|j: int|
                k + 1 <= j < dn && device_of_id(sv, x) == dviews[j] by {
                assert(rem_start.contains(x));
                let j0 = choose|j0: int|
                    k <= j0 < dn && device_of_id(sv, x) == dviews[j0];
                let w = choose|w: int|
                    0 <= w < str_views(rem@).len() && str_views(rem@)[w] == x;
                assert(device_of_id(sv, str_views(rem@)[w]) != dviews[k as int]);
                assert(j0 != k);
            }
        }
        k = k + 1;
    }
    // All devices are done, so nothing waits any more.
    proof {
        if str_views(rem@).len() > 0 {
            assert(str_views(rem@).contains(str_views(rem@)[0]));
            assert(false);
        }
        lemma_empty_multiset(str_views(rem@));
        assert(str_views(out@).to_multiset() =~= mviews.to_multiset());
    }
    out
}

/// Whether `r` is a reconciliation of the store `s`: one entry per
/// occurring parent key, each listing a permutation of exactly that
/// group's block ids in ascending device order.
pub open spec fn reconciled(s: Seq<Entry<BlockDoc>>, r: &ChildrenMap) -> bool {
    &&& r.wf()
    &&& forall|p: Seq<char>| #[trigger] has_key(r.sview(), p) <==> group_ids(s, p).len() != 0
    &&& forall|p: Seq<char>|
        #[trigger] has_key(r.sview(), p) ==> str_views(
            spec_get(r.sview(), p).unwrap()@,
        ).to_multiset() == group_ids(s, p).to_multiset()
    &&& forall|p: Seq<char>|
        #[trigger] has_key(r.sview(), p) ==> devices_ascending(
            s,
            str_views(spec_get(r.sview(), p).unwrap()@),
        )
}

/// The reconciliation sorter.
pub struct ChainSorting;

impl ChainSorting {
    /// Derives, for every parent group of the store, the deterministic
    /// order of its children.
    ///
    /// The result holds one entry per parent key that occurs in the
    /// store. Each entry's id list is a permutation of exactly that
    /// group's block ids — no block is lost or doubled, cyclic or broken
    /// `prevId` hints included — and lists the ids in ascending order of
    /// their device keys, so the blocks of one device stay together and
    /// device grouping takes priority over cross-device interleaving.
    #[verifier::rlimit(50)]
    pub fn sort_blocks_by_chain(blocks: &BlockMap) -> (r: ChildrenMap)
        requires
            blocks.wf(),
        ensures
            reconciled(blocks.sview(), &r),
    {
        let ghost sv = blocks.sview();
        let groups = crate::ops::BlockOperations::build_parent_child_structure(blocks);

        // Sort each group independently.
        let gn = groups.len();
        let mut result: ChildrenMap = KeyedVec::new();
        let mut gi: usize = 0;
        while gi < gn
            invariant
                gi <= gn,
                gn == groups.sview().len(),
                sv == blocks.sview(),
                blocks.wf(),
                groups.wf(),
                result.wf(),
                forall|q: Seq<char>|
                    #[trigger] has_key(groups.sview(), q) <==> group_ids(sv, q).len() != 0,
                forall|q: Seq<char>|
                    #[trigger] has_key(groups.sview(), q) ==> str_views(
                        spec_get(groups.sview(), q).unwrap()@,
                    ) == group_ids(sv, q),
                forall|q: Seq<char>|
                    #[trigger] has_key(result.sview(), q) <==> has_key(
                        groups.sview().subrange(0, gi as int),
                        q,
                    ),
                forall|q: Seq<char>|
                    #[trigger] has_key(result.sview(), q) ==> str_views(
                        spec_get(result.sview(), q).unwrap()@,
                    ).to_multiset() == group_ids(sv, q).to_multiset(),
                forall|q: Seq<char>|
                    #[trigger] has_key(result.sview(), q) ==> devices_ascending(
                        sv,
                        str_views(spec_get(result.sview(), q).unwrap()@),
                    ),
            decreases gn - gi,
        {
            let key = groups.key_at(gi);
            let members = groups.val_at(gi);
            let ghost q0 = key@;
            proof {
                assert(groups.sview()[gi as int].key@ == q0);
                assert(has_key(groups.sview(), q0));
                lemma_key_index_first(groups.sview(), q0, gi as int);
                assert(spec_get(groups.sview(), q0) == Some(*members));
                assert(str_views(members@) == group_ids(sv, q0));
                lemma_group_ids_props(sv, q0);
                assert forall|x: Seq<char>| str_views(members@).contains(x) implies has_key(
                    sv,
                    x,
                ) by {
                    assert(group_ids(sv, q0).contains(x));
                }
            }
            let sorted = sort_group(blocks, members);
            let ghost rbefore = result.sview();
            result.set(key.clone(), sorted);
            proof {
                let gpre1 = groups.sview().subrange(0, gi + 1);
                let gpre = groups.sview().subrange(0, gi as int);
                assert forall|q: Seq<char>| #[trigger] has_key(result.sview(), q) implies
                    has_key(gpre1, q) by {
                    if q == q0 {
                        assert(gpre1[gi as int].key@ == q);
                    } else {
                        assert(spec_get(result.sview(), q) == spec_get(rbefore, q));
                        assert(has_key(rbefore, q));
                        let w = choose|w: int| 0 <= w < gpre.len() && gpre[w].key@ == q;
                        assert(gpre1[w].key@ == q);
                    }
                }
                assert forall|q: Seq<char>| has_key(gpre1, q) implies #[trigger] has_key(
                    result.sview(),
                    q,
                ) by {
                    let w = choose|w: int| 0 <= w < gpre1.len() && gpre1[w].key@ == q;
                    if w == gi {
                        assert(q == q0);
                    } else {
                        assert(gpre[w].key@ == q);
                        assert(has_key(rbefore, q));
                        assert(spec_get(result.sview(), q) == spec_get(rbefore, q));
                    }
                }
            }
            gi = gi + 1;
        }
        proof {
            assert(groups.sview().subrange(0, gn as int) =~= groups.sview());
        }
        result
    }
}

} // verus!
