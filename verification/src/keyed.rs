//! An insertion-ordered association list with string keys.
//!
//! The block store, attribute sets and derived children lists are all
//! small string-keyed collections whose iteration order must be
//! deterministic, so they share this one structure: a vector of entries
//! whose keys are pairwise distinct, looked up by character-wise string
//! equality.

use vstd::prelude::*;

use crate::strutil::str_eq;

verus! {

/// One key/value pair of a [`KeyedVec`].
#[derive(Debug)]
pub struct Entry<V> {
    pub key: String,
    pub val: V,
}

/// Whether some entry of `s` has key `k`.
pub open spec fn has_key<V>(s: Seq<Entry<V>>, k: Seq<char>) -> bool {
    exists|i: int| 0 <= i < s.len() && s[i].key@ == k
}

/// Index of the first entry with key `k`, or `-1` if there is none.
pub open spec fn key_index<V>(s: Seq<Entry<V>>, k: Seq<char>) -> int
    decreases s.len(),
{
    if s.len() == 0 {
        -1
    } else if s[0].key@ == k {
        0
    } else if key_index(s.drop_first(), k) < 0 {
        -1
    } else {
        key_index(s.drop_first(), k) + 1
    }
}

/// The value stored under key `k`, if any.
pub open spec fn spec_get<V>(s: Seq<Entry<V>>, k: Seq<char>) -> Option<V> {
    if has_key(s, k) {
        Some(s[key_index(s, k)].val)
    } else {
        None
    }
}

/// Keys are pairwise distinct.
pub open spec fn distinct_keys<V>(s: Seq<Entry<V>>) -> bool {
    forall|i: int, j: int| 0 <= i < j < s.len() ==> s[i].key@ != s[j].key@
}

/// `key_index` finds exactly the matching positions.
pub proof fn lemma_key_index<V>(s: Seq<Entry<V>>, k: Seq<char>)
    ensures
        has_key(s, k) ==> 0 <= key_index(s, k) < s.len() && s[key_index(s, k)].key@ == k,
        !has_key(s, k) ==> key_index(s, k) == -1,
        forall|j: int| 0 <= j < key_index(s, k) ==> s[j].key@ != k,
    decreases s.len(),
{
    if s.len() == 0 {
    } else if s[0].key@ == k {
    } else {
        lemma_key_index(s.drop_first(), k);
        assert(forall|i: int|
            0 <= i < s.drop_first().len() ==> #[trigger] s.drop_first()[i] == s[i + 1]);
        assert forall|j: int| 0 <= j < key_index(s, k) implies s[j].key@ != k by {
            if j > 0 {
                assert(s.drop_first()[j - 1] == s[j]);
            }
        }
        if has_key(s, k) {
            let w = choose|i: int| 0 <= i < s.len() && s[i].key@ == k;
            assert(s.drop_first()[w - 1] == s[w]);
            assert(has_key(s.drop_first(), k));
        }
        if has_key(s.drop_first(), k) {
            let w = choose|i: int|
                0 <= i < s.drop_first().len() && s.drop_first()[i].key@ == k;
            assert(s[w + 1].key@ == k);
        }
    }
}

/// A prefix without the key followed by a match pins `key_index`.
pub proof fn lemma_key_index_first<V>(s: Seq<Entry<V>>, k: Seq<char>, i: int)
    requires
        0 <= i < s.len(),
        s[i].key@ == k,
        forall|j: int| 0 <= j < i ==> s[j].key@ != k,
    ensures
        key_index(s, k) == i,
        has_key(s, k),
    decreases s.len(),
{
    if i == 0 {
    } else {
        assert(forall|j: int|
            0 <= j < s.drop_first().len() ==> #[trigger] s.drop_first()[j] == s[j + 1]);
        lemma_key_index_first(s.drop_first(), k, i - 1);
    }
}

/// `key_index` and `has_key` depend only on the keys.
pub proof fn lemma_key_index_same_keys<V, W>(s1: Seq<Entry<V>>, s2: Seq<Entry<W>>, k: Seq<char>)
    requires
        s1.len() == s2.len(),
        forall|j: int| 0 <= j < s1.len() ==> s1[j].key@ == s2[j].key@,
    ensures
        key_index(s1, k) == key_index(s2, k),
        has_key(s1, k) == has_key(s2, k),
    decreases s1.len(),
{
    if s1.len() == 0 {
    } else {
        assert(s1[0].key@ == s2[0].key@);
        assert(forall|j: int|
            0 <= j < s1.drop_first().len() ==> #[trigger] s1.drop_first()[j] == s1[j + 1]);
        assert(forall|j: int|
            0 <= j < s2.drop_first().len() ==> #[trigger] s2.drop_first()[j] == s2[j + 1]);
        lemma_key_index_same_keys(s1.drop_first(), s2.drop_first(), k);
        if has_key(s1, k) {
            let w = choose|i: int| 0 <= i < s1.len() && s1[i].key@ == k;
            if w == 0 {
            } else {
                assert(s1.drop_first()[w - 1].key@ == k);
                assert(has_key(s1.drop_first(), k));
            }
            assert(has_key(s2, k)) by {
                assert(s2[w].key@ == k);
            }
        }
        if has_key(s2, k) {
            let w = choose|i: int| 0 <= i < s2.len() && s2[i].key@ == k;
            assert(s1[w].key@ == k);
        }
    }
}

/// After a point change at index `i`, lookups read the new value there
/// and the old value everywhere else.
pub proof fn lemma_spec_get_pointwise<V>(s1: Seq<Entry<V>>, s2: Seq<Entry<V>>, i: int)
    requires
        s1.len() == s2.len(),
        0 <= i < s1.len(),
        forall|j: int| 0 <= j < s1.len() ==> s1[j].key@ == s2[j].key@,
        forall|j: int| 0 <= j < s1.len() && j != i ==> s1[j] == s2[j],
        distinct_keys(s1),
    ensures
        forall|q: Seq<char>|
            #[trigger] spec_get(s2, q) == if q == s1[i].key@ {
                if has_key(s1, q) {
                    Some(s2[i].val)
                } else {
                    None
                }
            } else {
                spec_get(s1, q)
            },
{
    assert forall|q: Seq<char>| true implies #[trigger] spec_get(s2, q) == (if q == s1[i].key@ {
        if has_key(s1, q) {
            Some(s2[i].val)
        } else {
            None
        }
    } else {
        spec_get(s1, q)
    }) by {
        lemma_key_index_same_keys(s1, s2, q);
        lemma_key_index(s1, q);
        lemma_key_index(s2, q);
        if has_key(s1, q) {
            let w = key_index(s1, q);
            if q == s1[i].key@ {
                assert(w == i);
            } else {
                assert(w != i);
            }
        }
        if q == s1[i].key@ {
            assert(s1[i].key@ == q);
            assert(has_key(s1, q));
        }
    }
}

/// An insertion-ordered map from strings to values of `V`.
#[derive(Debug)]
pub struct KeyedVec<V> {
    pub entries: Vec<Entry<V>>,
}

impl<V> KeyedVec<V> {
    /// Entry sequence of this map.
    pub open spec fn sview(&self) -> Seq<Entry<V>> {
        self.entries@
    }

    /// Well-formed: no key occurs twice.
    pub open spec fn wf(&self) -> bool {
        distinct_keys(self.entries@)
    }

    /// Creates an empty map.
    pub fn new() -> (r: Self)
        ensures
            r.wf(),
            r.sview() =~= Seq::<Entry<V>>::empty(),
    {
        KeyedVec { entries: Vec::new() }
    }

    /// Number of entries.
    pub fn len(&self) -> (r: usize)
        ensures
            r == self.sview().len(),
    {
        self.entries.len()
    }

    /// Key of the entry at position `i`.
    pub fn key_at(&self, i: usize) -> (r: &String)
        requires
            i < self.sview().len(),
        ensures
            r@ == self.sview()[i as int].key@,
    {
        &self.entries[i].key
    }

    /// Value of the entry at position `i`.
    pub fn val_at(&self, i: usize) -> (r: &V)
        requires
            i < self.sview().len(),
        ensures
            *r == self.sview()[i as int].val,
    {
        &self.entries[i].val
    }

    /// Position of the entry with key `k`, if present.
    pub fn find(&self, k: &str) -> (r: Option<usize>)
        ensures
            match r {
                Some(i) => has_key(self.sview(), k@) && i == key_index(self.sview(), k@),
                None => !has_key(self.sview(), k@),
            },
    {
        let n = self.entries.len();
        let mut i: usize = 0;
        loop
            invariant
                i <= n,
                n == self.sview().len(),
                forall|j: int| 0 <= j < i ==> self.sview()[j].key@ != k@,
            decreases n - i,
        {
            if i >= n {
                proof {
                    lemma_key_index(self.sview(), k@);
                }
                return None;
            }
            if str_eq(self.entries[i].key.as_str(), k) {
                proof {
                    lemma_key_index_first(self.sview(), k@, i as int);
                }
                return Some(i);
            }
            i = i + 1;
        }
    }

    /// Whether key `k` is present.
    pub fn contains(&self, k: &str) -> (r: bool)
        ensures
            r == has_key(self.sview(), k@),
    {
        match self.find(k) {
            Some(_) => true,
            None => false,
        }
    }

    /// Borrows the value stored under key `k`, if any.
    pub fn get(&self, k: &str) -> (r: Option<&V>)
        ensures
            match r {
                Some(v) => spec_get(self.sview(), k@) == Some(*v),
                None => spec_get(self.sview(), k@) is None,
            },
    {
        match self.find(k) {
            Some(i) => {
                proof {
                    lemma_key_index(self.sview(), k@);
                }
                Some(&self.entries[i].val)
            },
            None => None,
        }
    }

    /// Stores `v` under key `k`, replacing the value of the first
    /// entry with that key.
    pub fn set(&mut self, k: String, v: V)
        ensures
            old(self).wf() ==> final(self).wf(),
            has_key(final(self).sview(), k@),
            spec_get(final(self).sview(), k@) == Some(v),
            // every other key keeps its value
            forall|q: Seq<char>|
                q != k@ ==> spec_get(final(self).sview(), q) == spec_get(old(self).sview(), q),
            // the entry order: replaced in place, or appended
            if has_key(old(self).sview(), k@) {
                final(self).sview() =~= old(self).sview().update(
                    key_index(old(self).sview(), k@),
                    Entry { key: k, val: v },
                )
            } else {
                final(self).sview() =~= old(self).sview().push(Entry { key: k, val: v })
            },
    {
        proof {
            lemma_key_index(self.sview(), k@);
        }
        match self.find(k.as_str()) {
            Some(i) => {
                let ghost prev = self.sview();
                self.entries.set(i, Entry { key: k, val: v });
                proof {
                    let s = self.sview();
                    assert(s[i as int].key@ == k@);
                    assert(forall|j: int| 0 <= j < i ==> s[j].key@ != k@);
                    lemma_key_index_first(s, k@, i as int);
                    assert forall|q: Seq<char>| q != k@ implies spec_get(s, q) == spec_get(
                        prev,
                        q,
                    ) by {
                        lemma_key_index(prev, q);
                        lemma_key_index(s, q);
                        if has_key(prev, q) {
                            let w = key_index(prev, q);
                            assert(s[w].key@ == q);
                            lemma_key_index_first(s, q, w);
                        }
                        if has_key(s, q) {
                            let w = key_index(s, q);
                            assert(prev[w].key@ == q);
                        }
                    }
                }
            },
            None => {
                let ghost prev = self.sview();
                self.entries.push(Entry { key: k, val: v });
                proof {
                    let s = self.sview();
                    let n = prev.len() as int;
                    assert(s[n].key@ == k@);
                    assert(forall|j: int| 0 <= j < n ==> s[j].key@ != k@);
                    lemma_key_index_first(s, k@, n);
                    assert forall|q: Seq<char>| q != k@ implies spec_get(s, q) == spec_get(
                        prev,
                        q,
                    ) by {
                        lemma_key_index(prev, q);
                        lemma_key_index(s, q);
                        if has_key(prev, q) {
                            let w = key_index(prev, q);
                            assert(s[w].key@ == q);
                            lemma_key_index_first(s, q, w);
                        }
                        if has_key(s, q) {
                            let w = key_index(s, q);
                            assert(w != n);
                            assert(prev[w].key@ == q);
                        }
                    }
                }
            },
        }
    }

    /// Removes the entry with key `k`, keeping the order of the rest.
    pub fn remove(&mut self, k: &str) -> (r: Option<V>)
        requires
            old(self).wf(),
        ensures
            final(self).wf(),
            r == spec_get(old(self).sview(), k@),
            !has_key(final(self).sview(), k@),
            forall|q: Seq<char>|
                q != k@ ==> spec_get(final(self).sview(), q) == spec_get(old(self).sview(), q),
            if has_key(old(self).sview(), k@) {
                final(self).sview() =~= old(self).sview().remove(
                    key_index(old(self).sview(), k@),
                )
            } else {
                final(self).sview() =~= old(self).sview()
            },
    {
        proof {
            lemma_key_index(self.sview(), k@);
        }
        match self.find(k) {
            Some(i) => {
                let ghost prev = self.sview();
                let e = self.entries.remove(i);
                proof {
                    let s = self.sview();
                    assert forall|q: Seq<char>|
                        has_key(s, q) implies has_key(prev, q) && q != k@ by {
                        let w = choose|w: int| 0 <= w < s.len() && s[w].key@ == q;
                        if w < i {
                            assert(prev[w].key@ == q);
                        } else {
                            assert(prev[w + 1].key@ == q);
                        }
                    }
                    assert(!has_key(s, k@));
                    assert forall|q: Seq<char>| q != k@ implies spec_get(s, q) == spec_get(
                        prev,
                        q,
                    ) by {
                        lemma_key_index(prev, q);
                        lemma_key_index(s, q);
                        if has_key(prev, q) {
                            let w = key_index(prev, q);
                            if w < i {
                                assert(s[w].key@ == q);
                                lemma_key_index_first(s, q, w);
                            } else {
                                assert(w > i);
                                assert(s[w - 1].key@ == q);
                                assert(forall|j: int|
                                    0 <= j < w - 1 ==> #[trigger] s[j].key@ != q);
                                lemma_key_index_first(s, q, w - 1);
                            }
                        }
                    }
                }
                Some(e.val)
            },
            None => None,
        }
    }
}

impl<V> KeyedVec<V> {
    /// Replaces the value at position `i`, keeping its key and the
    /// order of the entries.
    pub fn set_val_at(&mut self, i: usize, v: V)
        requires
            old(self).wf(),
            i < old(self).sview().len(),
        ensures
            final(self).wf(),
            final(self).sview().len() == old(self).sview().len(),
            final(self).sview()[i as int].key@ == old(self).sview()[i as int].key@,
            final(self).sview()[i as int].val == v,
            forall|j: int|
                0 <= j < old(self).sview().len() && j != i ==> final(self).sview()[j] == old(
                    self,
                ).sview()[j],
            forall|j: int|
                0 <= j < old(self).sview().len() ==> #[trigger] final(self).sview()[j].key@
                    == old(self).sview()[j].key@,
    {
        let k = self.entries[i].key.clone();
        self.entries.set(i, Entry { key: k, val: v });
    }
}

impl KeyedVec<String> {
    /// Copies a string-valued map entry for entry.
    pub fn dup(&self) -> (r: Self)
        ensures
            r.sview() == self.sview(),
    {
        let n = self.entries.len();
        let mut out: Vec<Entry<String>> = Vec::new();
        let mut i: usize = 0;
        while i < n
            invariant
                i <= n,
                n == self.entries@.len(),
                out@ =~= self.entries@.subrange(0, i as int),
            decreases n - i,
        {
            let e = Entry {
                key: self.entries[i].key.clone(),
                val: self.entries[i].val.clone(),
            };
            proof {
                assert(e == self.entries@[i as int]);
            }
            out.push(e);
            i = i + 1;
        }
        proof {
            assert(out@ =~= self.entries@);
        }
        KeyedVec { entries: out }
    }
}

/// Copies a vector of strings element for element.
pub fn dup_str_vec(v: &Vec<String>) -> (r: Vec<String>)
    ensures
        r@ == v@,
{
    let n = v.len();
    let mut out: Vec<String> = Vec::new();
    let mut i: usize = 0;
    while i < n
        invariant
            i <= n,
            n == v@.len(),
            out@ =~= v@.subrange(0, i as int),
        decreases n - i,
    {
        out.push(v[i].clone());
        i = i + 1;
    }
    proof {
        assert(out@ =~= v@);
    }
    out
}

} // verus!
