//! The action processor: turns edit intents into mutations of the block
//! model, and the descendant walk that cascade deletion relies on.

use vstd::prelude::*;

use crate::chain::ChainLinker;
use crate::chain::bridge_prev;
use crate::chain::copy_origin;
use crate::chain::repoint_prev;
use crate::delta::DeltaOperations;
use crate::keyed::Entry;
use crate::keyed::KeyedVec;
use crate::keyed::dup_str_vec;
use crate::keyed::has_key;
use crate::keyed::key_index;
use crate::keyed::lemma_key_index;
use crate::keyed::lemma_spec_get_pointwise;
use crate::keyed::spec_get;
use crate::mutation::StoreMutation;
use crate::sorting::group_ids;
use crate::sorting::str_views;
use crate::strutil::opt_view;
use crate::strutil::str_eq;
use crate::types::BlockActionDoc;
use crate::types::BlockDoc;
use crate::types::BlockMap;
use crate::types::BlockView;
use crate::types::ChildrenMap;
use crate::types::DocError;
use crate::types::TextMap;
use crate::types::attrs_map;

verus! {

/// Whether `q` is listed among the children of `a`.
pub open spec fn child_in(cm: Seq<Entry<Vec<String>>>, a: Seq<char>, q: Seq<char>) -> bool {
    match spec_get(cm, a) {
        Some(v) => str_views(v@).contains(q),
        None => false,
    }
}

/// Whether `q` can be reached from `a` along at most `k + 1` child
/// edges.
pub open spec fn reaches(
    cm: Seq<Entry<Vec<String>>>,
    a: Seq<char>,
    q: Seq<char>,
    k: nat,
) -> bool
    decreases k,
{
    child_in(cm, a, q) || (k > 0 && exists|m: Seq<char>|
        #[trigger] child_in(cm, a, m) && reaches(cm, m, q, (k - 1) as nat))
}

/// Whether `q` is a transitive descendant of `root`.
pub open spec fn descendant(cm: Seq<Entry<Vec<String>>>, root: Seq<char>, q: Seq<char>) -> bool {
    exists|k: nat| reaches(cm, root, q, k)
}

/// One more child edge extends a reach.
proof fn lemma_reaches_step(
    cm: Seq<Entry<Vec<String>>>,
    root: Seq<char>,
    a: Seq<char>,
    c: Seq<char>,
    k: nat,
)
    requires
        reaches(cm, root, a, k),
        child_in(cm, a, c),
    ensures
        reaches(cm, root, c, k + 1),
    decreases k,
{
    if child_in(cm, root, a) {
        assert(reaches(cm, a, c, k));
        assert(reaches(cm, root, c, k + 1));
    } else {
        let m = choose|m: Seq<char>|
            #[trigger] child_in(cm, root, m) && reaches(cm, m, a, (k - 1) as nat);
        lemma_reaches_step(cm, m, a, c, (k - 1) as nat);
        assert(reaches(cm, root, c, k + 1));
    }
}

/// A set of ids closed under child edges swallows every reach from any
/// of its members.
proof fn lemma_closure_reaches(
    cm: Seq<Entry<Vec<String>>>,
    vis: Seq<Seq<char>>,
    a: Seq<char>,
    q: Seq<char>,
    k: nat,
)
    requires
        forall|x: Seq<char>, c: Seq<char>|
            #![all_triggers]
            vis.contains(x) && child_in(cm, x, c) ==> vis.contains(c),
        vis.contains(a),
        reaches(cm, a, q, k),
    ensures
        vis.contains(q),
    decreases k,
{
    if child_in(cm, a, q) {
    } else {
        let m = choose|m: Seq<char>|
            #[trigger] child_in(cm, a, m) && reaches(cm, m, q, (k - 1) as nat);
        lemma_closure_reaches(cm, vis, m, q, (k - 1) as nat);
    }
}

/// All ids listed as anyone's child, in entry order.
pub open spec fn all_children(cm: Seq<Entry<Vec<String>>>) -> Seq<Seq<char>>
    decreases cm.len(),
{
    if cm.len() == 0 {
        Seq::empty()
    } else {
        all_children(cm.drop_last()) + str_views(cm.last().val@)
    }
}

/// A child of any parent occurs in `all_children`.
proof fn lemma_all_children_covers(cm: Seq<Entry<Vec<String>>>, a: Seq<char>, q: Seq<char>)
    requires
        child_in(cm, a, q),
    ensures
        all_children(cm).contains(q),
    decreases cm.len(),
{
    lemma_key_index(cm, a);
    let w = key_index(cm, a);
    assert(cm[w].val == spec_get(cm, a).unwrap());
    lemma_entry_children(cm, w, q);
}

/// The children of the entry at `w` occur in `all_children`.
proof fn lemma_entry_children(cm: Seq<Entry<Vec<String>>>, w: int, q: Seq<char>)
    requires
        0 <= w < cm.len(),
        str_views(cm[w].val@).contains(q),
    ensures
        all_children(cm).contains(q),
    decreases cm.len(),
{
    if w == cm.len() - 1 {
        let i = choose|i: int|
            0 <= i < str_views(cm.last().val@).len() && str_views(cm.last().val@)[i] == q;
        assert(all_children(cm)[all_children(cm.drop_last()).len() + i] == q);
    } else {
        assert(cm.drop_last()[w] == cm[w]);
        lemma_entry_children(cm.drop_last(), w, q);
        let i = choose|i: int|
            0 <= i < all_children(cm.drop_last()).len() && all_children(cm.drop_last())[i] == q;
        assert(all_children(cm)[i] == q);
    }
}

/// Block operations: the processor for insert, update, delete and move
/// intents against the verified block model.
pub struct BlockOperations;

impl BlockOperations {
    /// Groups the block ids of the store by parent key, in store order:
    /// one entry per occurring parent key, holding exactly that group's
    /// ids.
    pub fn build_parent_child_structure(blocks: &BlockMap) -> (r: ChildrenMap)
        requires
            blocks.wf(),
        ensures
            r.wf(),
            forall|q: Seq<char>|
                #[trigger] has_key(r.sview(), q) <==> group_ids(blocks.sview(), q).len() != 0,
            forall|q: Seq<char>|
                #[trigger] has_key(r.sview(), q) ==> str_views(
                    spec_get(r.sview(), q).unwrap()@,
                ) == group_ids(blocks.sview(), q),
    {
        let ghost sv = blocks.sview();
        let n = blocks.len();
        let mut groups: ChildrenMap = KeyedVec::new();
        let mut i: usize = 0;
        while i < n
            invariant
                i <= n,
                n == sv.len(),
                sv == blocks.sview(),
                blocks.wf(),
                groups.wf(),
                forall|q: Seq<char>|
                    #[trigger] has_key(groups.sview(), q) <==> group_ids(
                        sv.subrange(0, i as int),
                        q,
                    ).len() != 0,
                forall|q: Seq<char>|
                    #[trigger] has_key(groups.sview(), q) ==> str_views(
                        spec_get(groups.sview(), q).unwrap()@,
                    ) == group_ids(sv.subrange(0, i as int), q),
            decreases n - i,
        {
            let id = blocks.key_at(i);
            let b = blocks.val_at(i);
            let p = b.parent_key();
            let ghost pre = sv.subrange(0, i as int);
            let ghost pre1 = sv.subrange(0, i + 1);
            proof {
                assert(pre1.drop_last() =~= pre);
                assert(pre1.last() == sv[i as int]);
                assert(group_ids(pre1, p@) == group_ids(pre, p@).push(sv[i as int].key@));
                assert forall|q: Seq<char>| q != p@ implies group_ids(pre1, q) == group_ids(
                    pre,
                    q,
                ) by {}
            }
            let nv = match groups.get(p.as_str()) {
                Some(v) => {
                    let mut nv = dup_str_vec(v);
                    nv.push(id.clone());
                    nv
                },
                None => {
                    let mut nv: Vec<String> = Vec::new();
                    nv.push(id.clone());
                    nv
                },
            };
            proof {
                if has_key(groups.sview(), p@) {
                    assert(str_views(nv@) =~= str_views(
                        spec_get(groups.sview(), p@).unwrap()@,
                    ).push(id@));
                } else {
                    assert(group_ids(pre, p@).len() == 0);
                    assert(str_views(nv@) =~= group_ids(pre, p@).push(id@));
                }
            }
            groups.set(p.clone(), nv);
            proof {
                assert forall|q: Seq<char>| #[trigger] has_key(groups.sview(), q) implies
                    group_ids(pre1, q).len() != 0 by {
                    if q != p@ {
                        assert(spec_get(groups.sview(), q) is Some);
                    }
                }
                assert forall|q: Seq<char>| group_ids(pre1, q).len() != 0 implies #[trigger]
                    has_key(groups.sview(), q) by {
                    if q != p@ {
                        assert(group_ids(pre, q).len() != 0);
                        assert(spec_get(groups.sview(), q) is Some);
                    }
                }
                assert forall|q: Seq<char>| #[trigger] has_key(groups.sview(), q) implies
                    str_views(spec_get(groups.sview(), q).unwrap()@) == group_ids(
                    pre1,
                    q,
                ) by {
                    if q != p@ {
                        assert(spec_get(groups.sview(), q) is Some);
                    }
                }
            }
            i = i + 1;
        }
        proof {
            assert(sv.subrange(0, n as int) =~= sv);
        }
        groups
    }

    /// Ids of all transitive descendants of `block_id`, each exactly
    /// once; a visited guard makes the walk terminate even when the
    /// parent hints form a cycle.
    #[verifier::rlimit(80)]
    pub fn find_descendants(block_id: &str, blocks_by_parent: &ChildrenMap) -> (r: Vec<String>)
        ensures
            str_views(r@).no_duplicates(),
            forall|q: Seq<char>|
                #[trigger] str_views(r@).contains(q) <==> (q != block_id@ && descendant(
                    blocks_by_parent.sview(),
                    block_id@,
                    q,
                )),
    {
        let ghost cm = blocks_by_parent.sview();
        let ghost rootv = block_id@;
        let ghost universe = seq![rootv] + all_children(cm);

        let mut visited: Vec<String> = Vec::new();
        visited.push(block_id.to_owned());
        let mut result: Vec<String> = Vec::new();
        let mut stack: Vec<String> = Vec::new();
        if let Some(kids) = blocks_by_parent.get(block_id) {
            let kn = kids.len();
            let mut w: usize = 0;
            while w < kn
                invariant
                    w <= kn,
                    kn == kids@.len(),
                    spec_get(cm, rootv) == Some(*kids),
                    forall|x: Seq<char>|
                        #[trigger] str_views(stack@).contains(x) ==> child_in(cm, rootv, x),
                    forall|j: int| 0 <= j < w ==> str_views(stack@).contains(str_views(kids@)[j]),
                decreases kn - w,
            {
                let ghost before = stack@;
                stack.push(kids[w].clone());
                proof {
                    assert(stack@ =~= before.push(kids@[w as int]));
                    assert(str_views(stack@) =~= str_views(before).push(kids@[w as int]@));
                    assert(str_views(kids@)[w as int] == kids@[w as int]@);
                    assert(str_views(stack@).last() == kids@[w as int]@);
                    assert forall|x: Seq<char>| #[trigger] str_views(stack@).contains(x) implies
                        child_in(cm, rootv, x) by {
                        let u = choose|u: int|
                            0 <= u < str_views(stack@).len() && str_views(stack@)[u] == x;
                        if u < before.len() {
                            assert(str_views(before)[u] == x);
                            assert(str_views(before).contains(x));
                        } else {
                            assert(x == kids@[w as int]@);
                            assert(str_views(kids@).contains(x));
                        }
                    }
                    assert forall|j: int| 0 <= j <= w implies str_views(stack@).contains(
                        str_views(kids@)[j],
                    ) by {
                        if j < w {
                            let u = choose|u: int|
                                0 <= u < str_views(before).len() && str_views(before)[u]
                                    == str_views(kids@)[j];
                            assert(str_views(stack@)[u] == str_views(kids@)[j]);
                        }
                    }
                }
                w = w + 1;
            }
            proof {
                assert forall|c: Seq<char>| child_in(cm, rootv, c) implies str_views(
                    stack@,
                ).contains(c) by {
                    let u = choose|u: int|
                        0 <= u < str_views(kids@).len() && str_views(kids@)[u] == c;
                }
            }
        } else {
            proof {
                assert(spec_get(cm, rootv) is None);
                assert forall|c: Seq<char>| child_in(cm, rootv, c) implies str_views(
                    stack@,
                ).contains(c) by {}
            }
        }
        proof {
            assert(str_views(visited@) =~= seq![rootv]);
            assert(str_views(result@) =~= Seq::<Seq<char>>::empty());
            assert forall|x: Seq<char>| #[trigger] str_views(stack@).contains(x) implies
                descendant(cm, rootv, x) && all_children(cm).contains(x) by {
                assert(reaches(cm, rootv, x, 0));
                lemma_all_children_covers(cm, rootv, x);
            }
            assert forall|a: Seq<char>, c: Seq<char>|
                #![all_triggers]
                str_views(visited@).contains(a) && child_in(cm, a, c) implies str_views(
                visited@,
            ).contains(c) || str_views(stack@).contains(c) by {
                assert(str_views(visited@)[0] == rootv);
            }
        }
        while stack.len() != 0
            invariant
                str_views(visited@) =~= seq![rootv] + str_views(result@),
                str_views(visited@).no_duplicates(),
                str_views(visited@).len() <= universe.len(),
                universe == seq![rootv] + all_children(cm),
                cm == blocks_by_parent.sview(),
                rootv == block_id@,
                forall|x: Seq<char>|
                    #[trigger] str_views(visited@).contains(x) ==> x == rootv || all_children(
                        cm,
                    ).contains(x),
                forall|x: Seq<char>|
                    #[trigger] str_views(result@).contains(x) ==> descendant(cm, rootv, x),
                forall|x: Seq<char>|
                    #[trigger] str_views(stack@).contains(x) ==> descendant(cm, rootv, x)
                        && all_children(cm).contains(x),
                forall|a: Seq<char>, c: Seq<char>|
                    #![all_triggers]
                    str_views(visited@).contains(a) && child_in(cm, a, c) ==> str_views(
                        visited@,
                    ).contains(c) || str_views(stack@).contains(c),
            decreases universe.len() - str_views(visited@).len(), stack@.len(),
        {
            let ghost stack_before = stack@;
            let id = match stack.pop() {
                Some(id) => id,
                None => vstd::pervasive::unreached(),
            };
            proof {
                assert(stack@ =~= stack_before.subrange(0, stack_before.len() - 1));
                assert(str_views(stack@) =~= str_views(stack_before).subrange(
                    0,
                    stack_before.len() - 1,
                ));
                assert(str_views(stack_before)[stack_before.len() - 1] == id@);
                assert(str_views(stack_before).contains(id@));
                assert forall|x: Seq<char>| #[trigger] str_views(stack@).contains(x) implies
                    descendant(cm, rootv, x) && all_children(cm).contains(x) by {
                    let u = choose|u: int|
                        0 <= u < str_views(stack@).len() && str_views(stack@)[u] == x;
                    assert(str_views(stack_before)[u] == x);
                    assert(str_views(stack_before).contains(x));
                }
            }
            if crate::sorting::contains_str(&visited, id.as_str()) {
                proof {
                    assert forall|a: Seq<char>, c: Seq<char>|
                        #![all_triggers]
                        str_views(visited@).contains(a) && child_in(cm, a, c) implies str_views(
                        visited@,
                    ).contains(c) || str_views(stack@).contains(c) by {
                        if str_views(stack_before).contains(c) && !str_views(
                            visited@,
                        ).contains(c) {
                            let u = choose|u: int|
                                0 <= u < str_views(stack_before).len() && str_views(
                                    stack_before,
                                )[u] == c;
                            if u < stack_before.len() - 1 {
                                assert(str_views(stack@)[u] == c);
                            } else {
                                assert(c == id@);
                            }
                        }
                    }
                }
                continue;
            }
            let ghost vis_before = visited@;
            let ghost res_before = result@;
            visited.push(id.clone());
            result.push(id.clone());
            proof {
                assert(visited@ =~= vis_before.push(id));
                assert(result@ =~= res_before.push(id));
                assert(str_views(visited@) =~= str_views(vis_before).push(id@));
                assert(str_views(result@) =~= str_views(res_before).push(id@));
                assert(str_views(visited@) =~= seq![rootv] + str_views(result@));
                assert(str_views(visited@).no_duplicates());
                assert forall|x: Seq<char>| #[trigger] str_views(visited@).contains(x) implies x
                    == rootv || all_children(cm).contains(x) by {
                    let u = choose|u: int|
                        0 <= u < str_views(visited@).len() && str_views(visited@)[u] == x;
                    if u < vis_before.len() {
                        assert(str_views(vis_before)[u] == x);
                        assert(str_views(vis_before).contains(x));
                    } else {
                        assert(x == id@);
                    }
                }
                assert forall|x: Seq<char>| #[trigger] str_views(result@).contains(x) implies
                    descendant(cm, rootv, x) by {
                    let u = choose|u: int|
                        0 <= u < str_views(result@).len() && str_views(result@)[u] == x;
                    if u < res_before.len() {
                        assert(str_views(res_before)[u] == x);
                        assert(str_views(res_before).contains(x));
                    } else {
                        assert(x == id@);
                    }
                }
                assert forall|x: Seq<char>| str_views(visited@).contains(x) implies
                    universe.contains(x) by {
                    if x == rootv {
                        assert(universe[0] == x);
                    } else {
                        assert(all_children(cm).contains(x));
                        let u = choose|u: int|
                            0 <= u < all_children(cm).len() && all_children(cm)[u] == x;
                        assert(universe[1 + u] == x);
                    }
                }
                crate::sorting::lemma_contained_distinct_len(str_views(visited@), universe);
            }
            let kids_opt = blocks_by_parent.get(id.as_str());
            match kids_opt {
                Some(kids) => {
                    let kn = kids.len();
                    let mut w: usize = 0;
                    while w < kn
                        invariant
                            w <= kn,
                            kn == kids@.len(),
                            cm == blocks_by_parent.sview(),
                            spec_get(cm, id@) == Some(*kids),
                            descendant(cm, rootv, id@),
                            stack@.len() >= stack_before.len() - 1,
                            forall|j: int|
                                0 <= j < stack_before.len() - 1 ==> stack@[j] == stack_before[j],
                            forall|x: Seq<char>|
                                #[trigger] str_views(stack@).contains(x) ==> descendant(
                                    cm,
                                    rootv,
                                    x,
                                ) && all_children(cm).contains(x),
                            forall|j: int|
                                0 <= j < w ==> str_views(stack@).contains(str_views(kids@)[j]),
                        decreases kn - w,
                    {
                        let ghost before = stack@;
                        stack.push(kids[w].clone());
                        proof {
                            assert(stack@ =~= before.push(kids@[w as int]));
                            assert(str_views(stack@) =~= str_views(before).push(
                                kids@[w as int]@,
                            ));
                            assert(str_views(kids@)[w as int] == kids@[w as int]@);
                            assert(str_views(kids@).contains(kids@[w as int]@));
                            assert(child_in(cm, id@, kids@[w as int]@));
                            let kk = choose|kk: nat| reaches(cm, rootv, id@, kk);
                            lemma_reaches_step(cm, rootv, id@, kids@[w as int]@, kk);
                            lemma_all_children_covers(cm, id@, kids@[w as int]@);
                            assert forall|x: Seq<char>| #[trigger] str_views(stack@).contains(x)
                                implies descendant(cm, rootv, x) && all_children(cm).contains(
                                x,
                            ) by {
                                let u = choose|u: int|
                                    0 <= u < str_views(stack@).len() && str_views(stack@)[u]
                                        == x;
                                if u < before.len() {
                                    assert(str_views(before)[u] == x);
                                    assert(str_views(before).contains(x));
                                } else {
                                    assert(x == kids@[w as int]@);
                                }
                            }
                            assert forall|j: int| 0 <= j <= w implies str_views(
                                stack@,
                            ).contains(str_views(kids@)[j]) by {
                                if j < w {
                                    let u = choose|u: int|
                                        0 <= u < str_views(before).len() && str_views(before)[u]
                                            == str_views(kids@)[j];
                                    assert(str_views(stack@)[u] == str_views(kids@)[j]);
                                } else {
                                    assert(str_views(stack@).last() == str_views(kids@)[j]);
                                }
                            }
                        }
                        w = w + 1;
                    }
                },
                None => {},
            }
            proof {
                assert forall|a: Seq<char>, c: Seq<char>|
                    #![all_triggers]
                    str_views(visited@).contains(a) && child_in(cm, a, c) implies str_views(
                    visited@,
                ).contains(c) || str_views(stack@).contains(c) by {
                    if a == id@ {
                        match kids_opt {
                            Some(kids) => {
                                assert(spec_get(cm, id@) == Some(*kids));
                                assert(str_views(kids@).contains(c));
                                let u = choose|u: int|
                                    0 <= u < str_views(kids@).len() && str_views(kids@)[u] == c;
                                assert(str_views(stack@).contains(str_views(kids@)[u]));
                            },
                            None => {
                                assert(spec_get(cm, id@) is None);
                            },
                        }
                    } else {
                        assert(str_views(vis_before).contains(a));
                        assert(str_views(vis_before).contains(c) || str_views(
                            stack_before,
                        ).contains(c));
                        if str_views(vis_before).contains(c) {
                            let u = choose|u: int|
                                0 <= u < str_views(vis_before).len() && str_views(
                                    vis_before,
                                )[u] == c;
                            assert(str_views(visited@)[u] == c);
                        } else {
                            let u = choose|u: int|
                                0 <= u < str_views(stack_before).len() && str_views(
                                    stack_before,
                                )[u] == c;
                            if u < stack_before.len() - 1 {
                                assert(str_views(
                                    stack_before.subrange(0, stack_before.len() - 1),
                                )[u] == c);
                                lemma_stack_grows(
                                    stack_before.subrange(0, stack_before.len() - 1),
                                    stack@,
                                    c,
                                );
                            } else {
                                assert(c == id@);
                                assert(str_views(visited@).last() == id@);
                            }
                        }
                    }
                }
            }
        }
        // The walk is finished: the visited set is closed under child
        // edges, so it swallows every descendant; and everything it
        // holds besides the root was soundly reached.
        proof {
            assert forall|x: Seq<char>, c: Seq<char>|
                #![all_triggers]
                str_views(visited@).contains(x) && child_in(cm, x, c) implies str_views(
                visited@,
            ).contains(c) by {
                if str_views(stack@).contains(c) {
                    let u = choose|u: int|
                        0 <= u < str_views(stack@).len() && str_views(stack@)[u] == c;
                    assert(false);
                }
            }
            assert forall|q: Seq<char>| (q != rootv && descendant(cm, rootv, q)) implies
                #[trigger] str_views(result@).contains(q) by {
                let k = choose|k: nat| reaches(cm, rootv, q, k);
                assert(str_views(visited@)[0] == rootv);
                assert(str_views(visited@).contains(rootv));
                lemma_closure_reaches(cm, str_views(visited@), rootv, q, k);
                let u = choose|u: int|
                    0 <= u < str_views(visited@).len() && str_views(visited@)[u] == q;
                assert(u != 0);
                assert(str_views(result@)[u - 1] == q);
            }
            assert forall|q: Seq<char>| #[trigger] str_views(result@).contains(q) implies (q
                != rootv && descendant(cm, rootv, q)) by {
                let u = choose|u: int|
                    0 <= u < str_views(result@).len() && str_views(result@)[u] == q;
                assert(str_views(visited@)[u + 1] == q);
                assert(str_views(visited@)[0] == rootv);
            }
            assert forall|i: int, j: int|
                0 <= i < j < str_views(result@).len() implies str_views(result@)[i]
                != str_views(result@)[j] by {
                assert(str_views(visited@)[i + 1] == str_views(result@)[i]);
                assert(str_views(visited@)[j + 1] == str_views(result@)[j]);
            }
        }
        result
    }
}

/// Containment survives pushes at the end of the stack.
proof fn lemma_stack_grows(a: Seq<String>, b: Seq<String>, c: Seq<char>)
    requires
        a.len() <= b.len(),
        forall|j: int| 0 <= j < a.len() ==> a[j] == b[j],
        str_views(a).contains(c),
    ensures
        str_views(b).contains(c),
{
    let u = choose|u: int| 0 <= u < str_views(a).len() && str_views(a)[u] == c;
    assert(str_views(b)[u] == c);
}

/// Attribute entries written over a base map, in order: the last write
/// to a key wins.
pub open spec fn merged_attrs(
    dst: Map<Seq<char>, Seq<char>>,
    src: Seq<Entry<String>>,
) -> Map<Seq<char>, Seq<char>>
    decreases src.len(),
{
    if src.len() == 0 {
        dst
    } else {
        merged_attrs(dst, src.drop_last()).insert(src.last().key@, src.last().val@)
    }
}

/// One attribute write moves the attribute map by one insertion.
proof fn lemma_attrs_map_set(
    before: Seq<Entry<String>>,
    after: Seq<Entry<String>>,
    kv: Seq<char>,
    vv: Seq<char>,
)
    requires
        spec_get(after, kv) is Some,
        spec_get(after, kv).unwrap()@ == vv,
        forall|q: Seq<char>| q != kv ==> spec_get(after, q) == spec_get(before, q),
    ensures
        attrs_map(after) == attrs_map(before).insert(kv, vv),
{
    let lhs = attrs_map(after);
    let rhs = attrs_map(before).insert(kv, vv);
    assert forall|q: Seq<char>|
        #![all_triggers]
        lhs.contains_key(q) == rhs.contains_key(q) && (lhs.contains_key(q) ==> lhs[q]
            == rhs[q]) by {
        if q == kv {
            assert(has_key(after, q));
        } else {
            assert(spec_get(after, q) == spec_get(before, q));
        }
    }
    assert(lhs =~= rhs);
}

/// The parent key an insert stores: the supplied parent unless it is
/// the "no parent" sentinel.
pub open spec fn insert_parent_of(a: BlockActionDoc) -> Option<Seq<char>> {
    match a.block.parent_id {
        Some(p) => if p@ == "default_parent"@ {
            None
        } else {
            Some(p@)
        },
        None => None,
    }
}

/// Whether the insert's explicit neighbor exists in the store and is
/// not the inserted block itself.
pub open spec fn splice_neighbor(old_s: Seq<Entry<BlockDoc>>, a: BlockActionDoc) -> Option<
    Seq<char>,
> {
    match opt_view(a.block.next_id) {
        Some(nx) => if nx != a.block.id@ && has_key(old_s, nx) {
            Some(nx)
        } else {
            None
        },
        None => None,
    }
}

/// The record an insert stores for the new block: fields from the
/// action, the parent filtered through the sentinel, and — when an
/// explicit neighbor is spliced against — the neighbor's origin
/// attributes copied over, so the new block stays in the neighbor's
/// sort bucket across the splice boundary.
pub open spec fn inserted_block_view(old_s: Seq<Entry<BlockDoc>>, a: BlockActionDoc) -> BlockView {
    let base = BlockView {
        id: a.block.id@,
        ty: a.block.ty@,
        attrs: attrs_map(a.block.attributes.sview()),
        delta: None,
        parent_id: insert_parent_of(a),
        prev_id: opt_view(a.block.prev_id),
        next_id: None,
        old_parent_id: None,
    };
    match splice_neighbor(old_s, a) {
        Some(nx) => BlockView {
            attrs: copy_origin(spec_get(old_s, nx).unwrap().bview().attrs, base.attrs),
            ..base
        },
        None => base,
    }
}

/// Insert repair of one pre-existing block, keyed by `key`: fan-in
/// blocks claiming the insert's own hint are repointed to the new id,
/// and the explicit neighbor is repointed directly.
pub open spec fn insert_repaired(
    old_s: Seq<Entry<BlockDoc>>,
    a: BlockActionDoc,
    key: Seq<char>,
    b: BlockView,
) -> BlockView {
    let idv = a.block.id@;
    let b1 = match opt_view(a.block.prev_id) {
        Some(p) => repoint_prev(b, p, idv),
        None => b,
    };
    match splice_neighbor(old_s, a) {
        Some(nx) => if key == nx {
            BlockView { prev_id: Some(idv), ..b1 }
        } else {
            b1
        },
        None => b1,
    }
}

/// The whole effect of one insert on the block model and the text
/// model.
pub open spec fn insert_applied(
    old_s: Seq<Entry<BlockDoc>>,
    new_s: Seq<Entry<BlockDoc>>,
    old_t: Seq<Entry<Vec<u16>>>,
    new_t: Seq<Entry<Vec<u16>>>,
    a: BlockActionDoc,
) -> bool {
    let idv = a.block.id@;
    &&& forall|q: Seq<char>| #[trigger] has_key(new_s, q) <==> (has_key(old_s, q) || q == idv)
    &&& spec_get(new_s, idv).unwrap().bview() == inserted_block_view(old_s, a)
    &&& forall|q: Seq<char>|
        q != idv && #[trigger] has_key(old_s, q) ==> spec_get(new_s, q).unwrap().bview()
            == insert_repaired(old_s, a, q, spec_get(old_s, q).unwrap().bview())
    &&& forall|q: Seq<char>| q != idv ==> #[trigger] spec_get(new_t, q) == spec_get(old_t, q)
    &&& match a.block.delta {
        None => !has_key(new_t, idv),
        Some(dj) => spec_get(new_t, idv) is Some && spec_get(new_t, idv).unwrap()@
            == crate::delta::payload_result(Seq::empty(), dj@),
    }
}

/// The stored text of a block, in UTF-16 code units: the empty text
/// when the block has none.
pub open spec fn text_view_of(t: Seq<Entry<Vec<u16>>>, id: Seq<char>) -> Seq<u16> {
    match spec_get(t, id) {
        Some(v) => v@,
        None => Seq::empty(),
    }
}

/// Whether the model accepts an insert intent: any initial delta must
/// decode and validate against an empty text.
pub open spec fn insert_accepted(a: BlockActionDoc) -> bool {
    match a.block.delta {
        None => true,
        Some(dj) => crate::delta::payload_accepted(Seq::empty(), dj@),
    }
}

/// Whether the model accepts an update intent against the given texts:
/// any delta must decode and validate against the block's current text.
pub open spec fn update_accepted(t: Seq<Entry<Vec<u16>>>, a: BlockActionDoc) -> bool {
    match a.block.delta {
        None => true,
        Some(dj) => crate::delta::payload_accepted(text_view_of(t, a.block.id@), dj@),
    }
}

/// The exact error a rejected update yields: a missing block before
/// anything else, then the delta payload's own rejection.
pub open spec fn update_rejection_matches(
    s: Seq<Entry<BlockDoc>>,
    t: Seq<Entry<Vec<u16>>>,
    a: BlockActionDoc,
    e: DocError,
) -> bool {
    if !has_key(s, a.block.id@) {
        e is BlockNotFound && e.text_view() == "Block not found"@
    } else {
        a.block.delta is Some && crate::delta::payload_rejection_matches(
            text_view_of(t, a.block.id@),
            a.block.delta.unwrap()@,
            e,
        )
    }
}

/// The whole effect of one update on the block model: the named block's
/// attributes merged key by key, everything else untouched.
pub open spec fn update_applied(
    old_s: Seq<Entry<BlockDoc>>,
    new_s: Seq<Entry<BlockDoc>>,
    a: BlockActionDoc,
) -> bool {
    let idv = a.block.id@;
    &&& forall|q: Seq<char>| #[trigger] has_key(new_s, q) == has_key(old_s, q)
    &&& spec_get(new_s, idv).unwrap().bview() == BlockView {
        attrs: merged_attrs(
            spec_get(old_s, idv).unwrap().bview().attrs,
            a.block.attributes.sview(),
        ),
        ..spec_get(old_s, idv).unwrap().bview()
    }
    &&& forall|q: Seq<char>|
        q != idv && #[trigger] has_key(old_s, q) ==> spec_get(new_s, q).unwrap().bview()
            == spec_get(old_s, q).unwrap().bview()
}

/// The whole effect of one move on the block model: removal repair at
/// the old position, then the block's own hint and parent rewritten.
pub open spec fn move_applied(
    old_s: Seq<Entry<BlockDoc>>,
    new_s: Seq<Entry<BlockDoc>>,
    a: BlockActionDoc,
) -> bool {
    let idv = a.block.id@;
    let repaired = |q: Seq<char>| bridge_prev(
        idv,
        spec_get(old_s, idv).unwrap().bview(),
        spec_get(old_s, q).unwrap().bview(),
    );
    &&& forall|q: Seq<char>| #[trigger] has_key(new_s, q) == has_key(old_s, q)
    &&& spec_get(new_s, idv).unwrap().bview() == BlockView {
        prev_id: opt_view(a.block.prev_id),
        parent_id: if opt_view(a.block.parent_id) == opt_view(a.block.old_parent_id) {
            repaired(idv).parent_id
        } else {
            match a.block.parent_id {
                Some(p) => if p@ == "default_parent"@ {
                    None
                } else {
                    Some(p@)
                },
                None => None,
            }
        },
        ..repaired(idv)
    }
    &&& forall|q: Seq<char>|
        q != idv && #[trigger] has_key(old_s, q) ==> spec_get(new_s, q).unwrap().bview()
            == repaired(q)
}

impl BlockOperations {
    /// Applies an update intent: merges the supplied attributes into
    /// the named block, last write per key winning, and applies the
    /// supplied delta against the block's current text. Fails with
    /// `BlockNotFound` exactly when the block does not exist — an
    /// update never creates — and leaves everything untouched on any
    /// failure.
    pub fn update_node(
        blocks: &mut BlockMap,
        texts: &mut TextMap,
        muts: &mut Vec<StoreMutation>,
        action: &BlockActionDoc,
    ) -> (r: Result<(), DocError>)
        requires
            old(blocks).wf(),
            old(texts).wf(),
            forall|j: int|
                0 <= j < old(texts).sview().len()
                    ==> #[trigger] old(texts).sview()[j].val@.len() <= u32::MAX,
        ensures
            final(blocks).wf(),
            final(texts).wf(),
            forall|j: int|
                0 <= j < final(texts).sview().len()
                    ==> #[trigger] final(texts).sview()[j].val@.len() <= u32::MAX,
            r is Ok <==> (has_key(old(blocks).sview(), action.block.id@) && update_accepted(
                old(texts).sview(),
                *action,
            )),
            match r {
                Ok(_) => has_key(old(blocks).sview(), action.block.id@) && update_applied(
                    old(blocks).sview(),
                    final(blocks).sview(),
                    *action,
                ) && (forall|q: Seq<char>|
                    q != action.block.id@ ==> #[trigger] spec_get(final(texts).sview(), q)
                        == spec_get(old(texts).sview(), q)) && (match action.block.delta {
                    None => *final(texts) == *old(texts),
                    Some(dj) => spec_get(final(texts).sview(), action.block.id@) is Some
                        && spec_get(final(texts).sview(), action.block.id@).unwrap()@
                        == crate::delta::payload_result(
                        text_view_of(old(texts).sview(), action.block.id@),
                        dj@,
                    ),
                }),
                Err(e) => *final(blocks) == *old(blocks) && *final(texts) == *old(texts)
                    && *final(muts) == *old(muts) && update_rejection_matches(
                    old(blocks).sview(),
                    old(texts).sview(),
                    *action,
                    e,
                ),
            },
            old(muts)@.is_prefix_of(final(muts)@),
    {
        let id = &action.block.id;
        let bi = match blocks.find(id.as_str()) {
            Some(bi) => bi,
            None => {
                return Err(DocError::BlockNotFound("Block not found".to_owned()));
            },
        };
        proof {
            lemma_key_index(blocks.sview(), id@);
        }

        // Validate and apply the delta against the block's current
        // text before anything is written.
        let mut text_change: Option<(Vec<u16>, Vec<crate::delta::TextPrim>)> = None;
        if let Some(dj) = &action.block.delta {
            let empty: Vec<u16> = Vec::new();
            let cur: &Vec<u16> = match texts.get(id.as_str()) {
                Some(t) => t,
                None => &empty,
            };
            proof {
                lemma_key_index(texts.sview(), id@);
                if has_key(texts.sview(), id@) {
                    let ki = key_index(texts.sview(), id@);
                    assert(texts.sview()[ki].val@.len() <= u32::MAX);
                } else {
                    assert(cur@ =~= Seq::<u16>::empty());
                }
                assert(cur@ == text_view_of(texts.sview(), id@));
            }
            match DeltaOperations::apply_delta_to_text(cur, dj.as_str()) {
                Ok(tp) => {
                    text_change = Some(tp);
                },
                Err(e) => {
                    return Err(e);
                },
            }
        }

        // Merge the attributes, last write per key winning.
        let ghost s0 = blocks.sview();
        let b = blocks.val_at(bi);
        let ghost base = attrs_map(b.attributes.sview());
        let mut attrs = b.attributes.dup();
        let an = action.block.attributes.len();
        let mut w: usize = 0;
        while w < an
            invariant
                w <= an,
                an == action.block.attributes.sview().len(),
                attrs_map(attrs.sview()) == merged_attrs(
                    base,
                    action.block.attributes.sview().subrange(0, w as int),
                ),
            decreases an - w,
        {
            let k = action.block.attributes.key_at(w);
            let v = action.block.attributes.val_at(w);
            let ghost before = attrs.sview();
            attrs.set(k.clone(), v.clone());
            proof {
                lemma_attrs_map_set(before, attrs.sview(), k@, v@);
                let pre = action.block.attributes.sview().subrange(0, w as int);
                let pre1 = action.block.attributes.sview().subrange(0, w + 1);
                assert(pre1.drop_last() =~= pre);
                assert(pre1.last() == action.block.attributes.sview()[w as int]);
            }
            w = w + 1;
        }
        proof {
            assert(action.block.attributes.sview().subrange(0, an as int)
                =~= action.block.attributes.sview());
        }
        let nb = BlockDoc { attributes: attrs, ..b.dup() };
        blocks.set_val_at(bi, nb);
        proof {
            lemma_spec_get_pointwise(s0, blocks.sview(), bi as int);
            assert(spec_get(s0, id@) == Some(s0[bi as int].val));
            assert forall|q: Seq<char>| #[trigger] has_key(blocks.sview(), q) == has_key(
                s0,
                q,
            ) by {
                crate::keyed::lemma_key_index_same_keys(s0, blocks.sview(), q);
            }
        }

        // Record the writes.
        if action.block.attributes.len() > 0 {
            let mut w: usize = 0;
            let an = action.block.attributes.len();
            while w < an
                invariant
                    w <= an,
                    an == action.block.attributes.sview().len(),
                    old(muts)@.is_prefix_of(muts@),
                decreases an - w,
            {
                muts.push(
                    StoreMutation::SetAttr {
                        id: id.clone(),
                        key: action.block.attributes.key_at(w).clone(),
                        value: action.block.attributes.val_at(w).clone(),
                    },
                );
                w = w + 1;
            }
        }
        if let Some((t2, prims)) = text_change {
            muts.push(StoreMutation::EnsureText { id: id.clone() });
            let pn = prims.len();
            let mut prims = prims;
            let mut w: usize = 0;
            while w < pn
                invariant
                    w <= pn,
                    prims@.len() == pn - w,
                    old(muts)@.is_prefix_of(muts@),
                decreases pn - w,
            {
                let p = prims.remove(0);
                muts.push(StoreMutation::TextEdit { id: id.clone(), prim: p });
                w = w + 1;
            }
            let ghost t0 = texts.sview();
            let ghost t2v = t2@;
            texts.set(id.clone(), t2);
            proof {
                assert forall|j: int|
                    0 <= j < texts.sview().len() implies #[trigger] texts.sview()[j].val@.len()
                        <= u32::MAX by {
                    if has_key(t0, id@) {
                        let ki = key_index(t0, id@);
                        lemma_key_index(t0, id@);
                        if j != ki {
                            assert(texts.sview()[j] == t0[j]);
                        } else {
                            assert(texts.sview()[j].val@ == t2v);
                        }
                    } else {
                        if j < t0.len() {
                            assert(texts.sview()[j] == t0[j]);
                        } else {
                            assert(texts.sview()[j].val@ == t2v);
                        }
                    }
                }
            }
        }
        Ok(())
    }
}


impl BlockOperations {
    /// Applies a move intent: removal repair at the old position, then
    /// the block's hint is set or cleared, then its parent is rewritten
    /// when it changed (the sentinel clearing it). Fails with
    /// `BlockNotFound` exactly when the block does not exist, leaving
    /// everything untouched. Positional paths are host hints and play
    /// no part: order is always re-derived by the sorter.
    pub fn move_block(
        blocks: &mut BlockMap,
        muts: &mut Vec<StoreMutation>,
        action: &BlockActionDoc,
    ) -> (r: Result<(), DocError>)
        requires
            old(blocks).wf(),
            action.block.parent_id is Some,
            action.block.old_parent_id is Some,
        ensures
            final(blocks).wf(),
            r is Ok <==> has_key(old(blocks).sview(), action.block.id@),
            match r {
                Ok(_) => move_applied(old(blocks).sview(), final(blocks).sview(), *action),
                Err(e) => *final(blocks) == *old(blocks) && *final(muts) == *old(muts)
                    && e is BlockNotFound && e.text_view() == "Block not found"@,
            },
            old(muts)@.is_prefix_of(final(muts)@),
    {
        let id = &action.block.id;
        if !blocks.contains(id.as_str()) {
            return Err(DocError::BlockNotFound("Block not found".to_owned()));
        }
        let ghost s0 = blocks.sview();
        let ghost idv = id@;

        ChainLinker::remove_block_from_prev_id_chain(blocks, muts, id.as_str());
        let ghost s1 = blocks.sview();
        proof {
            assert forall|q: Seq<char>| #[trigger] has_key(s1, q) == has_key(s0, q) by {
                crate::keyed::lemma_key_index_same_keys(s0, s1, q);
            }
            assert forall|q: Seq<char>| #[trigger] has_key(s0, q) implies spec_get(
                s1,
                q,
            ).unwrap().bview() == bridge_prev(
                idv,
                spec_get(s0, idv).unwrap().bview(),
                spec_get(s0, q).unwrap().bview(),
            ) by {
                crate::keyed::lemma_key_index_same_keys(s0, s1, q);
                lemma_key_index(s0, q);
                let ki = key_index(s0, q);
                assert(s1[ki].val.bview() == bridge_prev(
                    idv,
                    spec_get(s0, idv).unwrap().bview(),
                    s0[ki].val.bview(),
                ));
            }
        }

        let bi = match blocks.find(id.as_str()) {
            Some(bi) => bi,
            None => vstd::pervasive::unreached(),
        };
        proof {
            lemma_key_index(s1, idv);
        }
        let b = blocks.val_at(bi);
        let new_prev = crate::strutil::opt_str_dup(&action.block.prev_id);
        let pid = match &action.block.parent_id {
            Some(p) => p,
            None => vstd::pervasive::unreached(),
        };
        let opid = match &action.block.old_parent_id {
            Some(p) => p,
            None => vstd::pervasive::unreached(),
        };
        let parent_changed = !str_eq(pid.as_str(), opid.as_str());
        let new_parent = if parent_changed {
            if !str_eq(pid.as_str(), "default_parent") {
                Some(pid.clone())
            } else {
                None
            }
        } else {
            crate::strutil::opt_str_dup(&b.parent_id)
        };
        let nb = BlockDoc { prev_id: new_prev, parent_id: new_parent, ..b.dup() };
        match &action.block.prev_id {
            Some(p) => muts.push(StoreMutation::SetPrev { id: id.clone(), value: p.clone() }),
            None => muts.push(StoreMutation::ClearPrev { id: id.clone() }),
        }
        if parent_changed {
            if !str_eq(pid.as_str(), "default_parent") {
                muts.push(StoreMutation::SetParent { id: id.clone(), value: pid.clone() });
            } else {
                muts.push(StoreMutation::ClearParent { id: id.clone() });
            }
        }
        blocks.set_val_at(bi, nb);
        proof {
            lemma_spec_get_pointwise(s1, blocks.sview(), bi as int);
            assert(s1[bi as int].key@ == idv);
            assert(spec_get(s1, idv) == Some(s1[bi as int].val));
            assert forall|q: Seq<char>| #[trigger] has_key(blocks.sview(), q) == has_key(
                s0,
                q,
            ) by {
                crate::keyed::lemma_key_index_same_keys(s1, blocks.sview(), q);
                crate::keyed::lemma_key_index_same_keys(s0, s1, q);
            }
        }
        Ok(())
    }
}


/// Repoints the explicit neighbor `nx` onto the new block `id` and
/// copies the neighbor's origin attributes onto the new block, when
/// the neighbor exists.
fn splice_next(
    blocks: &mut BlockMap,
    muts: &mut Vec<StoreMutation>,
    id: &String,
    nx: &String,
)
    requires
        old(blocks).wf(),
        id@ != nx@,
        has_key(old(blocks).sview(), id@),
    ensures
        final(blocks).wf(),
        forall|q: Seq<char>|
            #[trigger] has_key(final(blocks).sview(), q) == has_key(old(blocks).sview(), q),
        if has_key(old(blocks).sview(), nx@) {
            &&& forall|q: Seq<char>|
                q != nx@ && q != id@ && #[trigger] has_key(old(blocks).sview(), q)
                    ==> spec_get(final(blocks).sview(), q) == spec_get(old(blocks).sview(), q)
            &&& spec_get(final(blocks).sview(), nx@).unwrap().bview() == (BlockView {
                prev_id: Some(id@),
                ..spec_get(old(blocks).sview(), nx@).unwrap().bview()
            })
            &&& spec_get(final(blocks).sview(), id@).unwrap().bview() == (BlockView {
                attrs: copy_origin(
                    spec_get(old(blocks).sview(), nx@).unwrap().bview().attrs,
                    spec_get(old(blocks).sview(), id@).unwrap().bview().attrs,
                ),
                ..spec_get(old(blocks).sview(), id@).unwrap().bview()
            })
        } else {
            final(blocks).sview() == old(blocks).sview()
        },
        old(muts)@.is_prefix_of(final(muts)@),
{
    let ghost s0 = blocks.sview();
    let ni = match blocks.find(nx.as_str()) {
        Some(ni) => ni,
        None => {
            return ;
        },
    };
    proof {
        lemma_key_index(s0, nx@);
    }
    let nbr = blocks.val_at(ni);
    let dev = match nbr.attributes.get("device") {
        Some(v) => Some(v.clone()),
        None => None,
    };
    let ts = match nbr.attributes.get("timestamp") {
        Some(v) => Some(v.clone()),
        None => None,
    };
    let ghost nbr_attrs_map = attrs_map(nbr.attributes.sview());
    let rb = BlockDoc { prev_id: Some(id.clone()), ..nbr.dup() };
    muts.push(StoreMutation::SetPrev { id: nx.clone(), value: id.clone() });
    blocks.set_val_at(ni, rb);
    let ghost s1 = blocks.sview();
    proof {
        lemma_spec_get_pointwise(s0, s1, ni as int);
        assert(spec_get(s1, nx@).unwrap().bview() == (BlockView {
            prev_id: Some(id@),
            ..spec_get(s0, nx@).unwrap().bview()
        }));
    }
    let ii = match blocks.find(id.as_str()) {
        Some(ii) => ii,
        None => {
            proof {
                crate::keyed::lemma_key_index_same_keys(s0, s1, id@);
            }
            vstd::pervasive::unreached()
        },
    };
    proof {
        lemma_key_index(s1, id@);
        crate::keyed::lemma_key_index_same_keys(s0, s1, id@);
    }
    let me = blocks.val_at(ii);
    let mut attrs = me.attributes.dup();
    let ghost a0 = attrs.sview();
    if let Some(v) = &dev {
        attrs.set("device".to_owned(), v.clone());
        muts.push(
            StoreMutation::SetAttr {
                id: id.clone(),
                key: "device".to_owned(),
                value: v.clone(),
            },
        );
    }
    let ghost a1 = attrs.sview();
    if let Some(v) = &ts {
        attrs.set("timestamp".to_owned(), v.clone());
        muts.push(
            StoreMutation::SetAttr {
                id: id.clone(),
                key: "timestamp".to_owned(),
                value: v.clone(),
            },
        );
    }
    proof {
        crate::chain::lemma_attrs_after_copy_pub(
            a0,
            a1,
            attrs.sview(),
            nbr_attrs_map,
            dev,
            ts,
        );
    }
    let mb = BlockDoc { attributes: attrs, ..me.dup() };
    blocks.set_val_at(ii, mb);
    proof {
        lemma_spec_get_pointwise(s1, blocks.sview(), ii as int);
        assert(spec_get(s1, id@) == Some(s1[ii as int].val));
        assert(spec_get(s1, id@) == spec_get(s0, id@));
        assert(spec_get(blocks.sview(), id@).unwrap().bview() == (BlockView {
            attrs: copy_origin(
                nbr_attrs_map,
                spec_get(s0, id@).unwrap().bview().attrs,
            ),
            ..spec_get(s0, id@).unwrap().bview()
        }));
        assert forall|q: Seq<char>| #[trigger] has_key(blocks.sview(), q) == has_key(
            s0,
            q,
        ) by {
            crate::keyed::lemma_key_index_same_keys(s0, s1, q);
            crate::keyed::lemma_key_index_same_keys(s1, blocks.sview(), q);
        }
    }
}

/// Writes the hint of the block `id`, which must be present.
fn set_own_prev(
    blocks: &mut BlockMap,
    muts: &mut Vec<StoreMutation>,
    id: &String,
    p: &String,
)
    requires
        old(blocks).wf(),
        has_key(old(blocks).sview(), id@),
    ensures
        final(blocks).wf(),
        forall|q: Seq<char>|
            #[trigger] has_key(final(blocks).sview(), q) == has_key(old(blocks).sview(), q),
        spec_get(final(blocks).sview(), id@).unwrap().bview() == (BlockView {
            prev_id: Some(p@),
            ..spec_get(old(blocks).sview(), id@).unwrap().bview()
        }),
        forall|q: Seq<char>|
            q != id@ ==> spec_get(final(blocks).sview(), q) == spec_get(
                old(blocks).sview(),
                q,
            ),
        old(muts)@.is_prefix_of(final(muts)@),
{
    let ghost s0 = blocks.sview();
    let ii = match blocks.find(id.as_str()) {
        Some(ii) => ii,
        None => vstd::pervasive::unreached(),
    };
    proof {
        lemma_key_index(s0, id@);
    }
    let me = blocks.val_at(ii);
    let mb = BlockDoc { prev_id: Some(p.clone()), ..me.dup() };
    muts.push(StoreMutation::SetPrev { id: id.clone(), value: p.clone() });
    blocks.set_val_at(ii, mb);
    proof {
        lemma_spec_get_pointwise(s0, blocks.sview(), ii as int);
        assert forall|q: Seq<char>| #[trigger] has_key(blocks.sview(), q) == has_key(
            s0,
            q,
        ) by {
            crate::keyed::lemma_key_index_same_keys(s0, blocks.sview(), q);
        }
    }
}

impl BlockOperations {
    /// Applies an insert intent: stores the new record (id, type, the
    /// parent unless it is the sentinel, the attributes verbatim), runs
    /// any initial delta against an empty text, performs insert repair
    /// — fan-in blocks claiming the same hint are repointed to the new
    /// block, an explicit neighbor is repointed directly and donates
    /// its origin attributes — and finally stores the new block's own
    /// hint. Fails only on a malformed or rejected delta, leaving
    /// everything untouched.
    #[verifier::rlimit(100)]
    pub fn insert_node(
        blocks: &mut BlockMap,
        texts: &mut TextMap,
        muts: &mut Vec<StoreMutation>,
        action: &BlockActionDoc,
    ) -> (r: Result<(), DocError>)
        requires
            old(blocks).wf(),
            old(texts).wf(),
            forall|j: int|
                0 <= j < old(texts).sview().len()
                    ==> #[trigger] old(texts).sview()[j].val@.len() <= u32::MAX,
        ensures
            final(blocks).wf(),
            final(texts).wf(),
            forall|j: int|
                0 <= j < final(texts).sview().len()
                    ==> #[trigger] final(texts).sview()[j].val@.len() <= u32::MAX,
            r is Ok <==> insert_accepted(*action),
            match r {
                Ok(_) => insert_applied(
                    old(blocks).sview(),
                    final(blocks).sview(),
                    old(texts).sview(),
                    final(texts).sview(),
                    *action,
                ),
                Err(e) => *final(blocks) == *old(blocks) && *final(texts) == *old(texts)
                    && *final(muts) == *old(muts) && action.block.delta is Some
                    && crate::delta::payload_rejection_matches(
                    Seq::empty(),
                    action.block.delta.unwrap()@,
                    e,
                ),
            },
    {
        let id = &action.block.id;
        let ghost idv = id@;
        let ghost s0 = blocks.sview();
        let ghost t0 = texts.sview();

        // Validate the initial delta against an empty text before
        // anything is written.
        let mut text_new: Option<(Vec<u16>, Vec<crate::delta::TextPrim>)> = None;
        if let Some(dj) = &action.block.delta {
            let empty: Vec<u16> = Vec::new();
            proof {
                assert(empty@ =~= Seq::<u16>::empty());
            }
            match DeltaOperations::apply_delta_to_text(&empty, dj.as_str()) {
                Ok(tp) => {
                    text_new = Some(tp);
                },
                Err(e) => {
                    return Err(e);
                },
            }
        }

        // Store the record, without its own hint yet: the repair below
        // must read the prior state.
        let parent: Option<String> = match &action.block.parent_id {
            Some(p) => {
                if !str_eq(p.as_str(), "default_parent") {
                    Some(p.clone())
                } else {
                    None
                }
            },
            None => None,
        };
        let nb = BlockDoc {
            id: id.clone(),
            ty: action.block.ty.clone(),
            attributes: action.block.attributes.dup(),
            delta: None,
            parent_id: parent,
            prev_id: None,
            next_id: None,
            old_parent_id: None,
        };
        let ghost nbv = nb.bview();
        proof {
            assert(nbv == (BlockView {
                attrs: attrs_map(action.block.attributes.sview()),
                prev_id: None,
                ..inserted_block_view(s0, *action)
            }));
        }
        muts.push(StoreMutation::CreateBlock { id: id.clone() });
        muts.push(StoreMutation::SetId { id: id.clone() });
        muts.push(StoreMutation::SetType { id: id.clone(), value: action.block.ty.clone() });
        match &action.block.parent_id {
            Some(p) => {
                if !str_eq(p.as_str(), "default_parent") {
                    muts.push(StoreMutation::SetParent { id: id.clone(), value: p.clone() });
                }
            },
            None => {},
        }
        muts.push(
            StoreMutation::ReplaceAttrs {
                id: id.clone(),
                attrs: action.block.attributes.dup(),
            },
        );
        blocks.set(id.clone(), nb);
        let ghost s1 = blocks.sview();
        proof {
            assert(spec_get(s1, idv) is Some);
            assert(spec_get(s1, idv).unwrap().bview() == nbv);
        }

        // Fan-in repair: blocks claiming the same hint now follow the
        // new block.
        if let Some(p) = &action.block.prev_id {
            ChainLinker::handle_prev_id_chain(blocks, muts, id.as_str(), p.as_str());
        }
        let ghost s2 = blocks.sview();
        proof {
            assert forall|q: Seq<char>| #[trigger] has_key(s2, q) == has_key(s1, q) by {
                crate::keyed::lemma_key_index_same_keys(s1, s2, q);
            }
            assert forall|q: Seq<char>| #[trigger] has_key(s1, q) implies spec_get(
                s2,
                q,
            ).unwrap().bview() == (match opt_view(action.block.prev_id) {
                Some(p) => repoint_prev(spec_get(s1, q).unwrap().bview(), p, idv),
                None => spec_get(s1, q).unwrap().bview(),
            }) by {
                crate::keyed::lemma_key_index_same_keys(s1, s2, q);
                lemma_key_index(s1, q);
                let ki = key_index(s1, q);
                match action.block.prev_id {
                    Some(_) => {
                        assert(s2[ki].val.bview() == repoint_prev(
                            s1[ki].val.bview(),
                            action.block.prev_id.unwrap()@,
                            idv,
                        ));
                    },
                    None => {
                        assert(s2 == s1);
                    },
                }
            }
            assert(spec_get(s2, idv).unwrap().bview() == nbv);
        }

        // Neighbor splice.
        let mut spliced = false;
        if let Some(nx) = &action.block.next_id {
            if !str_eq(nx.as_str(), id.as_str()) {
                splice_next(blocks, muts, id, nx);
                spliced = true;
            }
        }
        let ghost s3 = blocks.sview();
        proof {
            assert forall|q: Seq<char>| #[trigger] has_key(s3, q) == has_key(s2, q) by {
                if s3 == s2 {
                } else {
                }
            }
            // the neighbor's attributes are untouched by the earlier stages
            match splice_neighbor(s0, *action) {
                Some(nx) => {
                    assert(has_key(s2, nx));
                    assert(spec_get(s2, nx).unwrap().bview().attrs == spec_get(
                        s0,
                        nx,
                    ).unwrap().bview().attrs);
                },
                None => {},
            }
        }

        // The new block's own hint is stored last.
        if let Some(p) = &action.block.prev_id {
            set_own_prev(blocks, muts, id, p);
        }
        let ghost s4 = blocks.sview();

        proof {
            let a = *action;
            // domain
            assert forall|q: Seq<char>| #[trigger] has_key(s4, q) <==> (has_key(s0, q) || q
                == idv) by {
                assert(has_key(s4, q) == has_key(s2, q));
            }
            // the new block
            assert(spec_get(s4, idv).unwrap().bview() == inserted_block_view(s0, a));
            // the others
            assert forall|q: Seq<char>| q != idv && #[trigger] has_key(s0, q) implies spec_get(
                s4,
                q,
            ).unwrap().bview() == insert_repaired(
                s0,
                a,
                q,
                spec_get(s0, q).unwrap().bview(),
            ) by {
                assert(spec_get(s1, q) == spec_get(s0, q));
                assert(has_key(s1, q));
                match splice_neighbor(s0, a) {
                    Some(nx) => {
                        if q == nx {
                        } else {
                            assert(spec_get(s3, q) == spec_get(s2, q));
                        }
                    },
                    None => {
                        assert(s3 == s2);
                    },
                }
                if a.block.prev_id is Some {
                    assert(spec_get(s4, q) == spec_get(s3, q));
                } else {
                    assert(s4 == s3);
                }
            }
        }

        // The text model: an initial delta leaves its text, otherwise
        // the new block carries none.
        match text_new {
            Some((t2, prims)) => {
                muts.push(StoreMutation::EnsureText { id: id.clone() });
                let pn = prims.len();
                let mut prims = prims;
                let mut w: usize = 0;
                while w < pn
                    invariant
                        w <= pn,
                        prims@.len() == pn - w,
                    decreases pn - w,
                {
                    let p = prims.remove(0);
                    muts.push(StoreMutation::TextEdit { id: id.clone(), prim: p });
                    w = w + 1;
                }
                let ghost t2v = t2@;
                texts.set(id.clone(), t2);
                proof {
                    assert forall|j: int|
                        0 <= j < texts.sview().len()
                            implies #[trigger] texts.sview()[j].val@.len() <= u32::MAX by {
                        if has_key(t0, idv) {
                            let ki = key_index(t0, idv);
                            lemma_key_index(t0, idv);
                            if j != ki {
                                assert(texts.sview()[j] == t0[j]);
                            } else {
                                assert(texts.sview()[j].val@ == t2v);
                            }
                        } else {
                            if j < t0.len() {
                                assert(texts.sview()[j] == t0[j]);
                            } else {
                                assert(texts.sview()[j].val@ == t2v);
                            }
                        }
                    }
                }
            },
            None => {
                texts.remove(id.as_str());
                proof {
                    assert forall|j: int|
                        0 <= j < texts.sview().len()
                            implies #[trigger] texts.sview()[j].val@.len() <= u32::MAX by {
                        if has_key(t0, idv) {
                            let ki = key_index(t0, idv);
                            lemma_key_index(t0, idv);
                            if j < ki {
                                assert(texts.sview()[j] == t0[j]);
                            } else {
                                assert(texts.sview()[j] == t0[j + 1]);
                            }
                        } else {
                            assert(texts.sview()[j] == t0[j]);
                        }
                    }
                }
            },
        }
        Ok(())
    }
}

/// Whether `q` is listed as a child of `a` directly in the store.
pub open spec fn store_child(s: Seq<Entry<BlockDoc>>, a: Seq<char>, q: Seq<char>) -> bool {
    group_ids(s, a).contains(q)
}

/// Whether `q` can be reached from `a` along at most `k + 1` parent
/// edges of the store.
pub open spec fn store_reaches(
    s: Seq<Entry<BlockDoc>>,
    a: Seq<char>,
    q: Seq<char>,
    k: nat,
) -> bool
    decreases k,
{
    store_child(s, a, q) || (k > 0 && exists|m: Seq<char>|
        #[trigger] store_child(s, a, m) && store_reaches(s, m, q, (k - 1) as nat))
}

/// Whether `q` is a transitive descendant of `root` in the store.
pub open spec fn store_descendant(
    s: Seq<Entry<BlockDoc>>,
    root: Seq<char>,
    q: Seq<char>,
) -> bool {
    exists|k: nat| store_reaches(s, root, q, k)
}

/// The derived child structure draws exactly the store's child edges.
proof fn lemma_child_edges_agree(
    cm: Seq<Entry<Vec<String>>>,
    s: Seq<Entry<BlockDoc>>,
)
    requires
        forall|q: Seq<char>| #[trigger] has_key(cm, q) <==> group_ids(s, q).len() != 0,
        forall|q: Seq<char>|
            #[trigger] has_key(cm, q) ==> str_views(spec_get(cm, q).unwrap()@) == group_ids(
                s,
                q,
            ),
    ensures
        forall|a: Seq<char>, q: Seq<char>|
            #[trigger] child_in(cm, a, q) == store_child(s, a, q),
{
    assert forall|a: Seq<char>, q: Seq<char>| #[trigger] child_in(cm, a, q) == store_child(
        s,
        a,
        q,
    ) by {
        if has_key(cm, a) {
        } else {
            assert(group_ids(s, a).len() == 0);
            if group_ids(s, a).contains(q) {
                let w = choose|w: int|
                    0 <= w < group_ids(s, a).len() && group_ids(s, a)[w] == q;
                assert(false);
            }
        }
    }
}

/// With the same child edges, the same ids are reachable.
proof fn lemma_reaches_agree(
    cm: Seq<Entry<Vec<String>>>,
    s: Seq<Entry<BlockDoc>>,
    a: Seq<char>,
    q: Seq<char>,
    k: nat,
)
    requires
        forall|x: Seq<char>, y: Seq<char>|
            #[trigger] child_in(cm, x, y) == store_child(s, x, y),
    ensures
        reaches(cm, a, q, k) == store_reaches(s, a, q, k),
    decreases k,
{
    assert(child_in(cm, a, q) == store_child(s, a, q));
    if k > 0 {
        if reaches(cm, a, q, k) && !child_in(cm, a, q) {
            let m = choose|m: Seq<char>|
                #[trigger] child_in(cm, a, m) && reaches(cm, m, q, (k - 1) as nat);
            lemma_reaches_agree(cm, s, m, q, (k - 1) as nat);
            assert(store_child(s, a, m));
            assert(store_reaches(s, a, q, k));
        }
        if store_reaches(s, a, q, k) && !store_child(s, a, q) {
            let m = choose|m: Seq<char>|
                #[trigger] store_child(s, a, m) && store_reaches(s, m, q, (k - 1) as nat);
            lemma_reaches_agree(cm, s, m, q, (k - 1) as nat);
            assert(child_in(cm, a, m));
            assert(reaches(cm, a, q, k));
        }
    }
}

/// Field-level frame of a surviving block under a cascade delete: only
/// the ordering hint and the origin attributes may have been repaired.
pub open spec fn delete_frame(ob: BlockView, nb: BlockView) -> bool {
    &&& nb.id == ob.id
    &&& nb.ty == ob.ty
    &&& nb.parent_id == ob.parent_id
    &&& nb.delta == ob.delta
    &&& nb.next_id == ob.next_id
    &&& nb.old_parent_id == ob.old_parent_id
    &&& forall|k: Seq<char>|
        k != "device"@ && k != "timestamp"@ ==> #[trigger] nb.attrs.contains_key(k)
            == ob.attrs.contains_key(k) && (nb.attrs.contains_key(k) ==> nb.attrs[k]
            == ob.attrs[k])
}

/// A removal repair respects the delete frame.
proof fn lemma_bridge_keeps_frame(
    removed_id: Seq<char>,
    removed: BlockView,
    ob: BlockView,
    cb: BlockView,
)
    requires
        delete_frame(ob, cb),
    ensures
        delete_frame(ob, bridge_prev(removed_id, removed, cb)),
{
    let nb = bridge_prev(removed_id, removed, cb);
    assert forall|k: Seq<char>| k != "device"@ && k != "timestamp"@ implies #[trigger] nb.attrs
        .contains_key(k) == ob.attrs.contains_key(k) && (nb.attrs.contains_key(k)
        ==> nb.attrs[k] == ob.attrs[k]) by {
        if cb.prev_id == Some(removed_id) && removed.prev_id is None {
            assert(nb.attrs == copy_origin(removed.attrs, cb.attrs));
        }
    }
}

/// One removal with its repair: every follower of `d` is bridged over
/// it, and `d` leaves the store.
pub open spec fn removal_step(
    s1: Seq<Entry<BlockDoc>>,
    s2: Seq<Entry<BlockDoc>>,
    d: Seq<char>,
) -> bool {
    &&& has_key(s1, d)
    &&& forall|q: Seq<char>| #[trigger] has_key(s2, q) <==> (has_key(s1, q) && q != d)
    &&& forall|q: Seq<char>|
        #[trigger] has_key(s2, q) ==> spec_get(s2, q).unwrap().bview() == bridge_prev(
            d,
            spec_get(s1, d).unwrap().bview(),
            spec_get(s1, q).unwrap().bview(),
        )
}

/// A cascade: the listed blocks repaired and removed one after the
/// other, each against the state the previous removals left.
pub open spec fn cascade_applied(
    s1: Seq<Entry<BlockDoc>>,
    s2: Seq<Entry<BlockDoc>>,
    order: Seq<Seq<char>>,
) -> bool
    decreases order.len(),
{
    if order.len() == 0 {
        s2 == s1
    } else {
        exists|sm: Seq<Entry<BlockDoc>>|
            #[trigger] removal_step(s1, sm, order.first()) && cascade_applied(
                sm,
                s2,
                order.drop_first(),
            )
    }
}

/// A cascade followed by one more removal is a longer cascade.
proof fn lemma_cascade_snoc(
    s1: Seq<Entry<BlockDoc>>,
    s2: Seq<Entry<BlockDoc>>,
    s3: Seq<Entry<BlockDoc>>,
    order: Seq<Seq<char>>,
    d: Seq<char>,
)
    requires
        cascade_applied(s1, s2, order),
        removal_step(s2, s3, d),
    ensures
        cascade_applied(s1, s3, order.push(d)),
    decreases order.len(),
{
    if order.len() == 0 {
        assert(s2 == s1);
        assert(order.push(d).first() == d);
        assert(order.push(d).drop_first() =~= Seq::<Seq<char>>::empty());
        assert(removal_step(s1, s3, order.push(d).first()));
        assert(cascade_applied(s3, s3, order.push(d).drop_first()));
    } else {
        let sm = choose|sm: Seq<Entry<BlockDoc>>|
            #[trigger] removal_step(s1, sm, order.first()) && cascade_applied(
                sm,
                s2,
                order.drop_first(),
            );
        lemma_cascade_snoc(sm, s2, s3, order.drop_first(), d);
        assert(order.push(d).first() == order.first());
        assert(order.push(d).drop_first() =~= order.drop_first().push(d));
        assert(removal_step(s1, sm, order.push(d).first()));
        assert(cascade_applied(sm, s3, order.push(d).drop_first()));
    }
}

/// The whole effect of one delete on the block and text models.
pub open spec fn delete_applied(
    s0: Seq<Entry<BlockDoc>>,
    sn: Seq<Entry<BlockDoc>>,
    t0: Seq<Entry<Vec<u16>>>,
    tn: Seq<Entry<Vec<u16>>>,
    idv: Seq<char>,
) -> bool {
    &&& has_key(s0, idv)
    &&& forall|q: Seq<char>|
        #[trigger] has_key(sn, q) <==> (has_key(s0, q) && q != idv && !store_descendant(
            s0,
            idv,
            q,
        ))
    &&& forall|q: Seq<char>|
        #[trigger] has_key(sn, q) ==> delete_frame(
            spec_get(s0, q).unwrap().bview(),
            spec_get(sn, q).unwrap().bview(),
        )
    &&& ((forall|q: Seq<char>| !store_descendant(s0, idv, q)) ==> forall|q: Seq<char>|
        #[trigger] has_key(sn, q) ==> spec_get(sn, q).unwrap().bview() == bridge_prev(
            idv,
            spec_get(s0, idv).unwrap().bview(),
            spec_get(s0, q).unwrap().bview(),
        ))
    &&& exists|ord: Seq<Seq<char>>|
        ord.no_duplicates() && (forall|q: Seq<char>|
            ord.contains(q) <==> (q != idv && store_descendant(s0, idv, q)))
            && #[trigger] cascade_applied(s0, sn, seq![idv] + ord)
    &&& forall|q: Seq<char>|
        #[trigger] has_key(sn, q) ==> spec_get(tn, q) == spec_get(t0, q)
}

impl BlockOperations {
    /// Applies a delete intent: the target and its whole subtree — all
    /// blocks transitively reachable through `parentId` — leave the
    /// store, each receiving removal repair before it goes, so
    /// followers are bridged over every gap. Fails with
    /// `BlockNotFound` exactly when the target does not exist, leaving
    /// everything untouched. Surviving blocks keep their identity,
    /// type, parent and text: only ordering hints and origin
    /// attributes are repaired; when the target has no descendants the
    /// survivors are exactly the removal repair of the old state.
    #[verifier::rlimit(100)]
    pub fn delete_node(
        blocks: &mut BlockMap,
        texts: &mut TextMap,
        muts: &mut Vec<StoreMutation>,
        block_id: &str,
        parent_id: &str,
    ) -> (r: Result<(), DocError>)
        requires
            old(blocks).wf(),
            old(texts).wf(),
            forall|j: int|
                0 <= j < old(texts).sview().len()
                    ==> #[trigger] old(texts).sview()[j].val@.len() <= u32::MAX,
        ensures
            final(blocks).wf(),
            final(texts).wf(),
            forall|j: int|
                0 <= j < final(texts).sview().len()
                    ==> #[trigger] final(texts).sview()[j].val@.len() <= u32::MAX,
            match r {
                Ok(_) => delete_applied(
                    old(blocks).sview(),
                    final(blocks).sview(),
                    old(texts).sview(),
                    final(texts).sview(),
                    block_id@,
                ),
                Err(e) => *final(blocks) == *old(blocks) && *final(texts) == *old(texts)
                    && *final(muts) == *old(muts) && e is BlockNotFound && e.text_view()
                    == "Block not found in blocks map"@,
            },
            r is Ok <==> has_key(old(blocks).sview(), block_id@),
    {
        let ghost s0 = blocks.sview();
        let ghost t0 = texts.sview();
        let ghost idv = block_id@;
        if !blocks.contains(block_id) {
            return Err(DocError::BlockNotFound("Block not found in blocks map".to_owned()));
        }

        // The whole subtree, computed against the present state.
        let cm = Self::build_parent_child_structure(blocks);
        let descendants = Self::find_descendants(block_id, &cm);
        let ghost dv = str_views(descendants@);
        proof {
            lemma_child_edges_agree(cm.sview(), s0);
            assert forall|q: Seq<char>| #[trigger] dv.contains(q) implies (q != idv
                && store_descendant(s0, idv, q) && has_key(s0, q)) by {
                assert(descendant(cm.sview(), idv, q));
                let k = choose|k: nat| reaches(cm.sview(), idv, q, k);
                lemma_reaches_agree(cm.sview(), s0, idv, q, k);
                assert(store_reaches(s0, idv, q, k));
                // a reached id is someone's child, hence a store key
                lemma_reached_is_key(s0, idv, q, k);
            }
            assert forall|q: Seq<char>| (q != idv && store_descendant(s0, idv, q)) implies
                #[trigger] dv.contains(q) by {
                let k = choose|k: nat| store_reaches(s0, idv, q, k);
                lemma_reaches_agree(cm.sview(), s0, idv, q, k);
                assert(reaches(cm.sview(), idv, q, k));
                assert(descendant(cm.sview(), idv, q));
            }
        }

        // The target: removal repair, then out of the store. The order
        // of removals does not affect correctness once each block's
        // repair has run, so the target goes first and each descendant
        // follows, one removal step at a time.
        ChainLinker::remove_block_from_prev_id_chain(blocks, muts, block_id);
        let ghost s1 = blocks.sview();
        proof {
            assert forall|q: Seq<char>| #[trigger] has_key(s1, q) == has_key(s0, q) by {
                crate::keyed::lemma_key_index_same_keys(s0, s1, q);
            }
            assert forall|q: Seq<char>| #[trigger] has_key(s0, q) implies spec_get(
                s1,
                q,
            ).unwrap().bview() == bridge_prev(
                idv,
                spec_get(s0, idv).unwrap().bview(),
                spec_get(s0, q).unwrap().bview(),
            ) by {
                crate::keyed::lemma_key_index_same_keys(s0, s1, q);
                lemma_key_index(s0, q);
                let ki = key_index(s0, q);
                assert(s1[ki].val.bview() == bridge_prev(
                    idv,
                    spec_get(s0, idv).unwrap().bview(),
                    s0[ki].val.bview(),
                ));
            }
            assert(spec_get(s1, idv) is Some);
        }
        blocks.remove(block_id);
        let ghost tprev0 = texts.sview();
        texts.remove(block_id);
        muts.push(StoreMutation::RemoveBlock { id: block_id.to_owned() });
        let ghost s1r = blocks.sview();
        proof {
            assert forall|j: int|
                0 <= j < texts.sview().len() implies #[trigger] texts.sview()[j].val@.len()
                    <= u32::MAX by {
                if has_key(tprev0, idv) {
                    let ki = key_index(tprev0, idv);
                    lemma_key_index(tprev0, idv);
                    if j < ki {
                        assert(texts.sview()[j] == tprev0[j]);
                    } else {
                        assert(texts.sview()[j] == tprev0[j + 1]);
                    }
                } else {
                    assert(texts.sview()[j] == tprev0[j]);
                }
            }
            // the target's removal step
            assert forall|q: Seq<char>| #[trigger] has_key(s1r, q) <==> (has_key(s0, q) && q
                != idv) by {
                if q != idv {
                    assert(spec_get(s1r, q) == spec_get(s1, q));
                }
            }
            assert forall|q: Seq<char>| #[trigger] has_key(s1r, q) implies spec_get(
                s1r,
                q,
            ).unwrap().bview() == bridge_prev(
                idv,
                spec_get(s0, idv).unwrap().bview(),
                spec_get(s0, q).unwrap().bview(),
            ) by {
                assert(spec_get(s1r, q) == spec_get(s1, q));
            }
            assert(removal_step(s0, s1r, idv)) by {
                assert forall|q: Seq<char>| #[trigger] has_key(s1r, q) implies spec_get(
                    s1r,
                    q,
                ).unwrap().bview() == bridge_prev(
                    idv,
                    spec_get(s0, idv).unwrap().bview(),
                    spec_get(s0, q).unwrap().bview(),
                ) by {
                    assert(spec_get(s1r, q) == spec_get(s1, q));
                }
            }
            assert(seq![idv].first() == idv);
            assert(seq![idv].drop_first() =~= Seq::<Seq<char>>::empty());
            assert(cascade_applied(s1r, s1r, seq![idv].drop_first()));
            assert(cascade_applied(s0, s1r, seq![idv]));
            // the frame holds of every survivor after the first step
            assert forall|q: Seq<char>| #[trigger] has_key(s1r, q) implies delete_frame(
                spec_get(s0, q).unwrap().bview(),
                spec_get(s1r, q).unwrap().bview(),
            ) by {
                lemma_bridge_keeps_frame(
                    idv,
                    spec_get(s0, idv).unwrap().bview(),
                    spec_get(s0, q).unwrap().bview(),
                    spec_get(s0, q).unwrap().bview(),
                );
            }
        }

        // Each descendant: removal repair, then out of the store.
        let dn = descendants.len();
        let mut w: usize = 0;
        while w < dn
            invariant
                w <= dn,
                dn == dv.len(),
                dv == str_views(descendants@),
                dv.no_duplicates(),
                blocks.wf(),
                texts.wf(),
                forall|j: int|
                    0 <= j < texts.sview().len()
                        ==> #[trigger] texts.sview()[j].val@.len() <= u32::MAX,
                forall|q: Seq<char>|
                    #[trigger] dv.contains(q) ==> (q != idv && store_descendant(s0, idv, q)
                        && has_key(s0, q)),
                forall|q: Seq<char>|
                    #[trigger] has_key(blocks.sview(), q) <==> (has_key(s0, q) && q != idv
                        && !dv.subrange(0, w as int).contains(q)),
                forall|q: Seq<char>|
                    #[trigger] has_key(blocks.sview(), q) ==> delete_frame(
                        spec_get(s0, q).unwrap().bview(),
                        spec_get(blocks.sview(), q).unwrap().bview(),
                    ),
                w == 0 ==> blocks.sview() == s1r,
                cascade_applied(s0, blocks.sview(), seq![idv] + dv.subrange(0, w as int)),
                forall|q: Seq<char>|
                    q != idv && !dv.subrange(0, w as int).contains(q) ==> #[trigger] spec_get(
                        texts.sview(),
                        q,
                    ) == spec_get(t0, q),
            decreases dn - w,
        {
            proof {
                assert(str_views(descendants@)[w as int] == descendants@[w as int]@);
                assert(dv.contains(dv[w as int]));
                if dv.subrange(0, w as int).contains(dv[w as int]) {
                    let u = choose|u: int|
                        0 <= u < w && dv.subrange(0, w as int)[u] == dv[w as int];
                    assert(dv[u] == dv[w as int]);
                    assert(false);
                }
            }
            let d = &descendants[w];
            let ghost cur0 = blocks.sview();
            ChainLinker::remove_block_from_prev_id_chain(blocks, muts, d.as_str());
            let ghost cur1 = blocks.sview();
            proof {
                assert forall|q: Seq<char>| #[trigger] has_key(cur1, q) == has_key(
                    cur0,
                    q,
                ) by {
                    crate::keyed::lemma_key_index_same_keys(cur0, cur1, q);
                }
                assert forall|q: Seq<char>| #[trigger] has_key(cur1, q) implies spec_get(
                    cur1,
                    q,
                ).unwrap().bview() == bridge_prev(
                    d@,
                    spec_get(cur0, d@).unwrap().bview(),
                    spec_get(cur0, q).unwrap().bview(),
                ) && delete_frame(
                    spec_get(s0, q).unwrap().bview(),
                    spec_get(cur1, q).unwrap().bview(),
                ) by {
                    crate::keyed::lemma_key_index_same_keys(cur0, cur1, q);
                    lemma_key_index(cur0, q);
                    let ki = key_index(cur0, q);
                    assert(cur1[ki].val.bview() == bridge_prev(
                        d@,
                        spec_get(cur0, d@).unwrap().bview(),
                        cur0[ki].val.bview(),
                    ));
                    lemma_bridge_keeps_frame(
                        d@,
                        spec_get(cur0, d@).unwrap().bview(),
                        spec_get(s0, q).unwrap().bview(),
                        spec_get(cur0, q).unwrap().bview(),
                    );
                }
            }
            blocks.remove(d.as_str());
            let ghost tprev = texts.sview();
            texts.remove(d.as_str());
            muts.push(StoreMutation::RemoveBlock { id: d.clone() });
            proof {
                assert forall|j: int|
                    0 <= j < texts.sview().len() implies #[trigger] texts.sview()[j].val@.len()
                        <= u32::MAX by {
                    if has_key(tprev, d@) {
                        let ki = key_index(tprev, d@);
                        lemma_key_index(tprev, d@);
                        if j < ki {
                            assert(texts.sview()[j] == tprev[j]);
                        } else {
                            assert(texts.sview()[j] == tprev[j + 1]);
                        }
                    } else {
                        assert(texts.sview()[j] == tprev[j]);
                    }
                }
                assert(dv.subrange(0, w + 1) =~= dv.subrange(0, w as int).push(dv[w as int]));
                let cur2 = blocks.sview();
                assert forall|q: Seq<char>| #[trigger] has_key(cur2, q) <==> (has_key(
                    cur1,
                    q,
                ) && q != d@) by {
                    if q != d@ {
                        assert(spec_get(cur2, q) == spec_get(cur1, q));
                    }
                }
                assert(removal_step(cur0, cur2, d@)) by {
                    assert forall|q: Seq<char>| #[trigger] has_key(cur2, q) implies spec_get(
                        cur2,
                        q,
                    ).unwrap().bview() == bridge_prev(
                        d@,
                        spec_get(cur0, d@).unwrap().bview(),
                        spec_get(cur0, q).unwrap().bview(),
                    ) by {
                        assert(spec_get(cur2, q) == spec_get(cur1, q));
                    }
                }
                lemma_cascade_snoc(
                    s0,
                    cur0,
                    cur2,
                    seq![idv] + dv.subrange(0, w as int),
                    d@,
                );
                assert((seq![idv] + dv.subrange(0, w as int)).push(d@) =~= seq![idv]
                    + dv.subrange(0, w + 1));
                assert forall|q: Seq<char>| #[trigger] has_key(cur2, q) <==> (has_key(s0, q)
                    && q != idv && !dv.subrange(0, w + 1).contains(q)) by {
                    if q == d@ {
                        assert(dv.subrange(0, w + 1).last() == q);
                    } else {
                        if dv.subrange(0, w + 1).contains(q) {
                            let u = choose|u: int|
                                0 <= u < w + 1 && #[trigger] dv.subrange(0, w + 1)[u] == q;
                            if u < w {
                                assert(dv.subrange(0, w as int)[u] == q);
                            }
                        }
                        if dv.subrange(0, w as int).contains(q) {
                            let u = choose|u: int|
                                0 <= u < w && dv.subrange(0, w as int)[u] == q;
                            assert(dv.subrange(0, w + 1)[u] == q);
                        }
                    }
                }
                assert forall|q: Seq<char>|
                    q != idv && !dv.subrange(0, w + 1).contains(q) implies #[trigger] spec_get(
                    texts.sview(),
                    q,
                ) == spec_get(t0, q) by {
                    assert(q != d@) by {
                        if q == d@ {
                            assert(dv.subrange(0, w + 1).last() == q);
                        }
                    }
                    if dv.subrange(0, w as int).contains(q) {
                        let u = choose|u: int|
                            0 <= u < w && dv.subrange(0, w as int)[u] == q;
                        assert(dv.subrange(0, w + 1)[u] == q);
                    }
                }
            }
            w = w + 1;
        }

        proof {
            assert(dv.subrange(0, dn as int) =~= dv);
            let sn = blocks.sview();
            assert forall|q: Seq<char>| #[trigger] has_key(sn, q) <==> (has_key(s0, q) && q
                != idv && !store_descendant(s0, idv, q)) by {
                if has_key(s0, q) && q != idv && !store_descendant(s0, idv, q) && dv.contains(
                    q,
                ) {
                    assert(false);
                }
                if q != idv && store_descendant(s0, idv, q) {
                    assert(dv.contains(q));
                }
            }
            if forall|q: Seq<char>| !store_descendant(s0, idv, q) {
                assert(dv.len() == 0) by {
                    if dv.len() > 0 {
                        assert(dv.contains(dv[0]));
                        assert(store_descendant(s0, idv, dv[0]));
                    }
                }
                assert(sn == s1r);
            }
            assert(cascade_applied(s0, sn, seq![idv] + dv));
        }
        Ok(())
    }
}

/// Anything reached along child edges is a key of the store.
proof fn lemma_reached_is_key(
    s: Seq<Entry<BlockDoc>>,
    a: Seq<char>,
    q: Seq<char>,
    k: nat,
)
    requires
        store_reaches(s, a, q, k),
    ensures
        has_key(s, q),
    decreases k,
{
    if store_child(s, a, q) {
        lemma_group_in_keys(s, a, q);
    } else {
        let m = choose|m: Seq<char>|
            #[trigger] store_child(s, a, m) && store_reaches(s, m, q, (k - 1) as nat);
        lemma_reached_is_key(s, m, q, (k - 1) as nat);
    }
}

/// A listed group member is a key of the store.
proof fn lemma_group_in_keys(s: Seq<Entry<BlockDoc>>, a: Seq<char>, q: Seq<char>)
    requires
        group_ids(s, a).contains(q),
    ensures
        has_key(s, q),
    decreases s.len(),
{
    if s.len() > 0 {
        let s9 = s.drop_last();
        if s.last().val.parent_key_view() == a && group_ids(s, a).last() == q && !group_ids(
            s9,
            a,
        ).contains(q) {
            assert(s[s.len() - 1].key@ == q);
        } else {
            let g = group_ids(s, a);
            let w = choose|w: int| 0 <= w < g.len() && g[w] == q;
            if s.last().val.parent_key_view() == a {
                if w < g.len() - 1 {
                    assert(group_ids(s9, a)[w] == q);
                    lemma_group_in_keys(s9, a, q);
                    let u = choose|u: int| 0 <= u < s9.len() && s9[u].key@ == q;
                    assert(s[u].key@ == q);
                } else {
                    assert(s[s.len() - 1].key@ == q);
                }
            } else {
                lemma_group_in_keys(s9, a, q);
                let u = choose|u: int| 0 <= u < s9.len() && s9[u].key@ == q;
                assert(s[u].key@ == q);
            }
        }
    }
}


/// Whether the model accepts an action against the given state: this
/// decides, per action, exactly when the processor succeeds.
pub open spec fn action_accepted(
    s: Seq<Entry<BlockDoc>>,
    t: Seq<Entry<Vec<u16>>>,
    a: BlockActionDoc,
) -> bool {
    match a.action {
        crate::types::BlockActionTypeDoc::Insert => insert_accepted(a),
        crate::types::BlockActionTypeDoc::Update => has_key(s, a.block.id@)
            && update_accepted(t, a),
        crate::types::BlockActionTypeDoc::Delete => has_key(s, a.block.id@),
        crate::types::BlockActionTypeDoc::Move => a.block.parent_id is Some
            && a.block.old_parent_id is Some && a.old_path is Some && has_key(s, a.block.id@),
    }
}

/// The exact error a rejected action yields against the given state.
pub open spec fn action_rejection_matches(
    s: Seq<Entry<BlockDoc>>,
    t: Seq<Entry<Vec<u16>>>,
    a: BlockActionDoc,
    e: DocError,
) -> bool {
    match a.action {
        crate::types::BlockActionTypeDoc::Insert => a.block.delta is Some
            && crate::delta::payload_rejection_matches(
            Seq::empty(),
            a.block.delta.unwrap()@,
            e,
        ),
        crate::types::BlockActionTypeDoc::Update => update_rejection_matches(s, t, a, e),
        crate::types::BlockActionTypeDoc::Delete => e is BlockNotFound && e.text_view()
            == "Block not found in blocks map"@,
        crate::types::BlockActionTypeDoc::Move => if !(a.block.parent_id is Some
            && a.block.old_parent_id is Some && a.old_path is Some) {
            e is InvalidOperation && e.text_view()
                == "Missing required fields for move operation"@
        } else {
            e is BlockNotFound && e.text_view() == "Block not found"@
        },
    }
}

/// The whole effect of one accepted action on the block and text
/// models.
pub open spec fn action_applied(
    s0: Seq<Entry<BlockDoc>>,
    sn: Seq<Entry<BlockDoc>>,
    t0: Seq<Entry<Vec<u16>>>,
    tn: Seq<Entry<Vec<u16>>>,
    a: BlockActionDoc,
) -> bool {
    &&& action_accepted(s0, t0, a)
    &&& match a.action {
        crate::types::BlockActionTypeDoc::Insert => insert_applied(s0, sn, t0, tn, a),
        crate::types::BlockActionTypeDoc::Update => update_applied(s0, sn, a) && (forall|
            q: Seq<char>,
        | q != a.block.id@ ==> #[trigger] spec_get(tn, q) == spec_get(t0, q)) && (
        match a.block.delta {
            None => tn == t0,
            Some(dj) => spec_get(tn, a.block.id@) is Some && spec_get(
                tn,
                a.block.id@,
            ).unwrap()@ == crate::delta::payload_result(text_view_of(t0, a.block.id@), dj@),
        }),
        crate::types::BlockActionTypeDoc::Delete => delete_applied(s0, sn, t0, tn, a.block.id@),
        crate::types::BlockActionTypeDoc::Move => move_applied(s0, sn, a) && tn == t0,
    }
}

/// The whole effect of a batch: the actions applied in order, each
/// against the state the previous ones left.
pub open spec fn batch_applied(
    s0: Seq<Entry<BlockDoc>>,
    sn: Seq<Entry<BlockDoc>>,
    t0: Seq<Entry<Vec<u16>>>,
    tn: Seq<Entry<Vec<u16>>>,
    acts: Seq<BlockActionDoc>,
) -> bool
    decreases acts.len(),
{
    if acts.len() == 0 {
        sn == s0 && tn == t0
    } else {
        exists|s1: Seq<Entry<BlockDoc>>, t1: Seq<Entry<Vec<u16>>>|
            #[trigger] action_applied(s0, s1, t0, t1, acts.first()) && batch_applied(
                s1,
                sn,
                t1,
                tn,
                acts.drop_first(),
            )
    }
}

/// The first rejection of a batch: some prefix of the actions applies,
/// and the next action is rejected with exactly this error.
pub open spec fn batch_rejects(
    s0: Seq<Entry<BlockDoc>>,
    t0: Seq<Entry<Vec<u16>>>,
    acts: Seq<BlockActionDoc>,
    e: DocError,
) -> bool
    decreases acts.len(),
{
    if acts.len() == 0 {
        false
    } else if !action_accepted(s0, t0, acts.first()) {
        action_rejection_matches(s0, t0, acts.first(), e)
    } else {
        exists|s1: Seq<Entry<BlockDoc>>, t1: Seq<Entry<Vec<u16>>>|
            #[trigger] action_applied(s0, s1, t0, t1, acts.first()) && batch_rejects(
                s1,
                t1,
                acts.drop_first(),
                e,
            )
    }
}

/// An applied prefix followed by a rejection rejects the whole batch.
proof fn lemma_batch_rejects_after(
    s0: Seq<Entry<BlockDoc>>,
    t0: Seq<Entry<Vec<u16>>>,
    sp: Seq<Entry<BlockDoc>>,
    tp: Seq<Entry<Vec<u16>>>,
    prefix: Seq<BlockActionDoc>,
    rest: Seq<BlockActionDoc>,
    e: DocError,
)
    requires
        batch_applied(s0, sp, t0, tp, prefix),
        rest.len() > 0,
        !action_accepted(sp, tp, rest.first()),
        action_rejection_matches(sp, tp, rest.first(), e),
    ensures
        batch_rejects(s0, t0, prefix + rest, e),
    decreases prefix.len(),
{
    if prefix.len() == 0 {
        assert(sp == s0 && tp == t0);
        assert(prefix + rest =~= rest);
    } else {
        let (sm, tm): (Seq<Entry<BlockDoc>>, Seq<Entry<Vec<u16>>>) = choose|
            sm: Seq<Entry<BlockDoc>>,
            tm: Seq<Entry<Vec<u16>>>,
        |
            #[trigger] action_applied(s0, sm, t0, tm, prefix.first()) && batch_applied(
                sm,
                sp,
                tm,
                tp,
                prefix.drop_first(),
            );
        lemma_batch_rejects_after(sm, tm, sp, tp, prefix.drop_first(), rest, e);
        assert((prefix + rest).first() == prefix.first());
        assert((prefix + rest).drop_first() =~= prefix.drop_first() + rest);
        assert(action_applied(s0, sm, t0, tm, (prefix + rest).first()));
        assert(batch_rejects(sm, tm, (prefix + rest).drop_first(), e));
    }
}

impl BlockOperations {
    /// Applies a whole batch of actions to the block and text models,
    /// in order. Succeeds exactly when the model accepts every action,
    /// each against the state the previous ones left, and then the
    /// models hold the batch's effect; otherwise the first rejected
    /// action aborts the batch with exactly its own error, and the
    /// recorded writes are meaningless.
    pub fn apply_actions_to_model(
        blocks: &mut BlockMap,
        texts: &mut TextMap,
        muts: &mut Vec<StoreMutation>,
        actions: &Vec<BlockActionDoc>,
    ) -> (r: Result<(), DocError>)
        requires
            old(blocks).wf(),
            old(texts).wf(),
            forall|j: int|
                0 <= j < old(texts).sview().len()
                    ==> #[trigger] old(texts).sview()[j].val@.len() <= u32::MAX,
        ensures
            final(blocks).wf(),
            final(texts).wf(),
            forall|j: int|
                0 <= j < final(texts).sview().len()
                    ==> #[trigger] final(texts).sview()[j].val@.len() <= u32::MAX,
            match r {
                Ok(_) => batch_applied(
                    old(blocks).sview(),
                    final(blocks).sview(),
                    old(texts).sview(),
                    final(texts).sview(),
                    actions@,
                ),
                Err(e) => batch_rejects(old(blocks).sview(), old(texts).sview(), actions@, e),
            },
    {
        let ghost s0 = blocks.sview();
        let ghost t0 = texts.sview();
        let n = actions.len();
        let mut i: usize = 0;
        while i < n
            invariant
                i <= n,
                n == actions@.len(),
                s0 == old(blocks).sview(),
                t0 == old(texts).sview(),
                blocks.wf(),
                texts.wf(),
                forall|j: int|
                    0 <= j < texts.sview().len()
                        ==> #[trigger] texts.sview()[j].val@.len() <= u32::MAX,
                batch_applied(
                    s0,
                    blocks.sview(),
                    t0,
                    texts.sview(),
                    actions@.subrange(0, i as int),
                ),
            decreases n - i,
        {
            let action = &actions[i];
            let ghost sp = blocks.sview();
            let ghost tp = texts.sview();
            let step = match action.action {
                crate::types::BlockActionTypeDoc::Insert => Self::insert_node(
                    blocks,
                    texts,
                    muts,
                    action,
                ),
                crate::types::BlockActionTypeDoc::Update => Self::update_node(
                    blocks,
                    texts,
                    muts,
                    action,
                ),
                crate::types::BlockActionTypeDoc::Delete => {
                    let pk = match &action.block.parent_id {
                        Some(p) => p.clone(),
                        None => "default_parent".to_owned(),
                    };
                    Self::delete_node(blocks, texts, muts, action.block.id.as_str(), pk.as_str())
                },
                crate::types::BlockActionTypeDoc::Move => {
                    let fields_there = action.block.parent_id.is_some()
                        && action.block.old_parent_id.is_some() && action.old_path.is_some();
                    if fields_there {
                        Self::move_block(blocks, muts, action)
                    } else {
                        Err(
                            DocError::InvalidOperation(
                                "Missing required fields for move operation".to_owned(),
                            ),
                        )
                    }
                },
            };
            match step {
                Ok(_) => {},
                Err(e) => {
                    proof {
                        assert(!action_accepted(sp, tp, actions@[i as int]));
                        assert(action_rejection_matches(sp, tp, actions@[i as int], e));
                        let rest = actions@.subrange(i as int, n as int);
                        assert(rest.first() == actions@[i as int]);
                        lemma_batch_rejects_after(
                            s0,
                            t0,
                            sp,
                            tp,
                            actions@.subrange(0, i as int),
                            rest,
                            e,
                        );
                        assert(actions@.subrange(0, i as int) + rest =~= actions@);
                    }
                    return Err(e);
                },
            }
            proof {
                assert(action_applied(sp, blocks.sview(), tp, texts.sview(), actions@[i as int]));
                lemma_batch_snoc(
                    s0,
                    sp,
                    blocks.sview(),
                    t0,
                    tp,
                    texts.sview(),
                    actions@.subrange(0, i as int),
                    actions@[i as int],
                );
                assert(actions@.subrange(0, i + 1) =~= actions@.subrange(0, i as int).push(
                    actions@[i as int],
                ));
            }
            i = i + 1;
        }
        proof {
            assert(actions@.subrange(0, n as int) =~= actions@);
        }
        Ok(())
    }
}

/// A batch followed by one more applied action is a longer batch.
proof fn lemma_batch_snoc(
    s0: Seq<Entry<BlockDoc>>,
    s1: Seq<Entry<BlockDoc>>,
    s2: Seq<Entry<BlockDoc>>,
    t0: Seq<Entry<Vec<u16>>>,
    t1: Seq<Entry<Vec<u16>>>,
    t2: Seq<Entry<Vec<u16>>>,
    acts: Seq<BlockActionDoc>,
    a: BlockActionDoc,
)
    requires
        batch_applied(s0, s1, t0, t1, acts),
        action_applied(s1, s2, t1, t2, a),
    ensures
        batch_applied(s0, s2, t0, t2, acts.push(a)),
    decreases acts.len(),
{
    if acts.len() == 0 {
        assert(s1 == s0 && t1 == t0);
        assert(acts.push(a).first() == a);
        assert(acts.push(a).drop_first() =~= Seq::<BlockActionDoc>::empty());
        assert(action_applied(s0, s2, t0, t2, acts.push(a).first()));
        assert(batch_applied(s2, s2, t2, t2, acts.push(a).drop_first()));
    } else {
        let (sm, tm): (Seq<Entry<BlockDoc>>, Seq<Entry<Vec<u16>>>) = choose|
            sm: Seq<Entry<BlockDoc>>,
            tm: Seq<Entry<Vec<u16>>>,
        |
            #[trigger] action_applied(s0, sm, t0, tm, acts.first()) && batch_applied(
                sm,
                s1,
                tm,
                t1,
                acts.drop_first(),
            );
        lemma_batch_snoc(sm, s1, s2, tm, t1, t2, acts.drop_first(), a);
        assert(acts.push(a).first() == acts.first());
        assert(acts.push(a).drop_first() =~= acts.drop_first().push(a));
        assert(action_applied(s0, sm, t0, tm, acts.push(a).first()));
        assert(batch_applied(sm, s2, tm, t2, acts.push(a).drop_first()));
    }
}


} // verus!
