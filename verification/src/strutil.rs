//! Lexicographic ordering on strings, compared character by character.
//!
//! Device identifiers and timestamps are ordered as plain strings (never
//! parsed as dates or numbers), so the whole crate shares this one total
//! order on character sequences.

use vstd::prelude::*;

verus! {

/// Strict lexicographic order on character sequences (by code point).
pub open spec fn seq_str_lt(a: Seq<char>, b: Seq<char>) -> bool
    decreases a.len(),
{
    if b.len() == 0 {
        false
    } else if a.len() == 0 {
        true
    } else if a[0] != b[0] {
        a[0] < b[0]
    } else {
        seq_str_lt(a.drop_first(), b.drop_first())
    }
}

/// Reflexive lexicographic order on character sequences.
pub open spec fn seq_str_le(a: Seq<char>, b: Seq<char>) -> bool {
    seq_str_lt(a, b) || a == b
}

proof fn lemma_eq_from_head_tail(a: Seq<char>, b: Seq<char>)
    requires
        a.len() > 0,
        b.len() > 0,
        a[0] == b[0],
        a.drop_first() == b.drop_first(),
    ensures
        a == b,
{
    assert(a.drop_first().len() == a.len() - 1);
    assert(b.drop_first().len() == b.len() - 1);
    assert(a.len() == b.len());
    assert(forall|k: int| 1 <= k < a.len() ==> #[trigger] a[k] == a.drop_first()[k - 1]);
    assert(forall|k: int| 1 <= k < b.len() ==> #[trigger] b[k] == b.drop_first()[k - 1]);
    assert(forall|k: int| 1 <= k < a.len() ==> #[trigger] a[k] == b[k]) by {
        assert(forall|k: int|
            1 <= k < a.len() ==> #[trigger] a.drop_first()[k - 1] == b.drop_first()[k - 1]);
    }
    assert(a =~= b);
}

/// When one sequence is a prefix of the other, the shorter comes first.
proof fn lemma_le_of_prefix(a: Seq<char>, b: Seq<char>)
    requires
        a.len() <= b.len(),
        forall|j: int| 0 <= j < a.len() ==> a[j] == b[j],
    ensures
        a.len() < b.len() ==> seq_str_lt(a, b),
        a.len() == b.len() ==> a == b,
    decreases a.len(),
{
    if a.len() == 0 {
        if b.len() == 0 {
            assert(a =~= b);
        }
    } else {
        assert(a[0] == b[0]);
        assert(forall|j: int|
            0 <= j < a.drop_first().len() ==> a.drop_first()[j] == b.drop_first()[j]);
        lemma_le_of_prefix(a.drop_first(), b.drop_first());
        if a.len() == b.len() {
            assert(a =~= b);
        }
    }
}

/// At the first differing position, that character decides the order.
proof fn lemma_order_at_diff(a: Seq<char>, b: Seq<char>, i: int)
    requires
        0 <= i < a.len(),
        i < b.len(),
        forall|j: int| 0 <= j < i ==> a[j] == b[j],
        a[i] != b[i],
    ensures
        seq_str_lt(a, b) == (a[i] < b[i]),
        a != b,
    decreases i,
{
    if i == 0 {
    } else {
        assert(a[0] == b[0]);
        assert(forall|j: int|
            0 <= j < i - 1 ==> a.drop_first()[j] == b.drop_first()[j]);
        assert(a.drop_first()[i - 1] == a[i]);
        assert(b.drop_first()[i - 1] == b[i]);
        lemma_order_at_diff(a.drop_first(), b.drop_first(), i - 1);
    }
}

/// The order is asymmetric in its strict part.
pub proof fn lemma_str_order_asym(a: Seq<char>, b: Seq<char>)
    requires
        seq_str_lt(a, b),
    ensures
        !seq_str_lt(b, a),
    decreases a.len(),
{
    if b.len() == 0 {
    } else if a.len() == 0 {
    } else if a[0] != b[0] {
    } else {
        lemma_str_order_asym(a.drop_first(), b.drop_first());
    }
}

/// The order is total: two sequences are always comparable.
pub proof fn lemma_str_order_total(a: Seq<char>, b: Seq<char>)
    ensures
        seq_str_le(a, b) || seq_str_le(b, a),
    decreases a.len(),
{
    if a.len() == 0 && b.len() == 0 {
        assert(a =~= b);
    } else if a.len() == 0 || b.len() == 0 {
    } else if a[0] != b[0] {
    } else {
        lemma_str_order_total(a.drop_first(), b.drop_first());
        if a.drop_first() == b.drop_first() {
            lemma_eq_from_head_tail(a, b);
        }
    }
}

/// The order is transitive.
pub proof fn lemma_str_order_trans(a: Seq<char>, b: Seq<char>, c: Seq<char>)
    requires
        seq_str_le(a, b),
        seq_str_le(b, c),
    ensures
        seq_str_le(a, c),
    decreases a.len() + b.len() + c.len(),
{
    if a == b || b == c {
    } else {
        if a.len() == 0 {
            if c.len() == 0 {
                assert(!seq_str_lt(b, c));
                assert(b.len() == 0);
                assert(a =~= b);
            }
        } else if b.len() == 0 {
            assert(!seq_str_lt(a, b));
        } else if c.len() == 0 {
            assert(!seq_str_lt(b, c));
        } else {
            if a[0] == b[0] && b[0] == c[0] {
                lemma_str_order_trans(a.drop_first(), b.drop_first(), c.drop_first());
                if a.drop_first() == c.drop_first() {
                    lemma_eq_from_head_tail(a, c);
                }
            } else if a[0] == b[0] {
                if a[0] < c[0] {
                } else {
                    assert(b[0] < c[0]);
                }
            } else if b[0] == c[0] {
                assert(a[0] < b[0]);
            } else {
                assert(a[0] < b[0] && b[0] < c[0]);
            }
        }
    }
}

/// The strict order is the negation of the reflexive order turned
/// around.
pub proof fn lemma_lt_iff_not_le(a: Seq<char>, b: Seq<char>)
    ensures
        seq_str_lt(a, b) <==> !seq_str_le(b, a),
{
    lemma_str_order_total(a, b);
    if seq_str_lt(a, b) {
        lemma_str_order_asym(a, b);
        if a == b {
            lemma_str_order_asym(a, a);
        }
    }
}

/// Decides `seq_str_le` on two string slices.
pub fn str_le(a: &str, b: &str) -> (r: bool)
    ensures
        r == seq_str_le(a@, b@),
{
    let alen = a.unicode_len();
    let blen = b.unicode_len();
    let mut i: usize = 0;
    loop
        invariant
            i <= alen,
            i <= blen,
            alen == a@.len(),
            blen == b@.len(),
            forall|j: int| 0 <= j < i ==> a@[j] == b@[j],
        decreases alen - i,
    {
        if i >= alen {
            proof {
                lemma_le_of_prefix(a@, b@);
            }
            return true;
        }
        if i >= blen {
            proof {
                lemma_le_of_prefix(b@, a@);
                lemma_str_order_asym(b@, a@);
            }
            return false;
        }
        let ca = a.get_char(i);
        let cb = b.get_char(i);
        if ca != cb {
            proof {
                lemma_order_at_diff(a@, b@, i as int);
            }
            return ca < cb;
        }
        i = i + 1;
    }
}

/// Decides view equality of two string slices.
pub fn str_eq(a: &str, b: &str) -> (r: bool)
    ensures
        r == (a@ == b@),
{
    let alen = a.unicode_len();
    let blen = b.unicode_len();
    if alen != blen {
        return false;
    }
    let mut i: usize = 0;
    loop
        invariant
            i <= alen,
            alen == a@.len(),
            blen == b@.len(),
            alen == blen,
            forall|j: int| 0 <= j < i ==> a@[j] == b@[j],
        decreases alen - i,
    {
        if i >= alen {
            proof {
                assert(a@ =~= b@);
            }
            return true;
        }
        let ca = a.get_char(i);
        let cb = b.get_char(i);
        if ca != cb {
            return false;
        }
        i = i + 1;
    }
}

/// View of an optional string, as an optional character sequence.
pub open spec fn opt_view(o: Option<String>) -> Option<Seq<char>> {
    match o {
        Some(s) => Some(s@),
        None => None,
    }
}

/// Copies an optional string, preserving its view.
pub fn opt_str_dup(a: &Option<String>) -> (r: Option<String>)
    ensures
        opt_view(r) == opt_view(*a),
        r is Some <==> *a is Some,
{
    match a {
        Some(x) => Some(x.clone()),
        None => None,
    }
}

} // verus!
