//! Counting the elements of a sequence that satisfy a predicate, and the
//! little lemmas the rest of the crate needs about such counts.

use vstd::prelude::*;

verus! {

/// How many elements of `s` satisfy `pred`.
pub open spec fn count_where<T>(s: Seq<T>, pred: spec_fn(T) -> bool) -> nat
    decreases s.len(),
{
    if s.len() == 0 {
        0
    } else {
        count_where(s.drop_last(), pred) + if pred(s.last()) {
            1nat
        } else {
            0nat
        }
    }
}

/// A count never exceeds the length.
pub proof fn lemma_count_le_len<T>(s: Seq<T>, pred: spec_fn(T) -> bool)
    ensures
        count_where(s, pred) <= s.len(),
    decreases s.len(),
{
    if s.len() > 0 {
        lemma_count_le_len(s.drop_last(), pred);
    }
}

/// Extending a prefix by one element adds that element's contribution.
pub proof fn lemma_count_take_succ<T>(s: Seq<T>, pred: spec_fn(T) -> bool, i: int)
    requires
        0 <= i < s.len(),
    ensures
        count_where(s.take(i + 1), pred) == count_where(s.take(i), pred) + if pred(s[i]) {
            1nat
        } else {
            0nat
        },
{
    assert(s.take(i + 1).drop_last() =~= s.take(i));
    assert(s.take(i + 1).last() == s[i]);
}

/// The whole sequence is its own full prefix.
pub proof fn lemma_count_take_all<T>(s: Seq<T>, pred: spec_fn(T) -> bool)
    ensures
        count_where(s.take(s.len() as int), pred) == count_where(s, pred),
{
    assert(s.take(s.len() as int) =~= s);
}

/// Updating one position adjusts the count by the two contributions.
pub proof fn lemma_count_update<T>(s: Seq<T>, pred: spec_fn(T) -> bool, j: int, v: T)
    requires
        0 <= j < s.len(),
    ensures
        count_where(s.update(j, v), pred) + (if pred(s[j]) {
            1nat
        } else {
            0nat
        }) == count_where(s, pred) + if pred(v) {
            1nat
        } else {
            0nat
        },
    decreases s.len(),
{
    let t = s.update(j, v);
    if j == s.len() - 1 {
        assert(t.drop_last() =~= s.drop_last());
        assert(t.last() == v);
    } else {
        assert(t.drop_last() =~= s.drop_last().update(j, v));
        assert(t.last() == s.last());
        lemma_count_update(s.drop_last(), pred, j, v);
        assert(s.drop_last()[j] == s[j]);
    }
}

/// When `pred` holds on exactly the first `j` elements, the count is `j`.
pub proof fn lemma_count_prefix<T>(s: Seq<T>, pred: spec_fn(T) -> bool, j: int)
    requires
        0 <= j <= s.len(),
        forall|k: int| 0 <= k < j ==> pred(s[k]),
        forall|k: int| j <= k < s.len() ==> !pred(s[k]),
    ensures
        count_where(s, pred) == j,
    decreases s.len(),
{
    if s.len() > 0 {
        if j == s.len() {
            lemma_count_prefix(s.drop_last(), pred, j - 1);
        } else {
            lemma_count_prefix(s.drop_last(), pred, j);
        }
    }
}

/// When every element satisfying `p` also satisfies `q`, the `p`-count is no
/// larger.
pub proof fn lemma_count_implies<T>(s: Seq<T>, p: spec_fn(T) -> bool, q: spec_fn(T) -> bool)
    requires
        forall|i: int| 0 <= i < s.len() && p(s[i]) ==> q(s[i]),
    ensures
        count_where(s, p) <= count_where(s, q),
    decreases s.len(),
{
    if s.len() > 0 {
        assert(forall|i: int|
            0 <= i < s.drop_last().len() && p(s.drop_last()[i]) ==> q(s.drop_last()[i]));
        lemma_count_implies(s.drop_last(), p, q);
    }
}

/// On a sequence without duplicates, the count is the size of the set of
/// elements that satisfy the predicate.
pub proof fn lemma_count_as_filter<T>(s: Seq<T>, pred: spec_fn(T) -> bool)
    requires
        s.no_duplicates(),
    ensures
        s.to_set().finite(),
        count_where(s, pred) == s.to_set().filter(pred).len(),
    decreases s.len(),
{
    s.unique_seq_to_set();
    if s.len() == 0 {
        assert(s.to_set().filter(pred) =~= Set::<T>::empty());
    } else {
        let t = s.drop_last();
        let x = s.last();
        assert(t.no_duplicates());
        lemma_count_as_filter(t, pred);
        assert(!t.contains(x));
        assert(s.to_set() =~= t.to_set().insert(x)) by {
            assert(forall|i: int| 0 <= i < t.len() ==> s[i] == t[i]);
            assert forall|y: T| s.to_set().contains(y) implies t.to_set().insert(x).contains(
                y,
            ) by {
                let i = choose|i: int| 0 <= i < s.len() && s[i] == y;
                if i < s.len() - 1 {
                    assert(t[i] == y);
                }
            }
        }
        if pred(x) {
            assert(s.to_set().filter(pred) =~= t.to_set().filter(pred).insert(x));
            assert(!t.to_set().filter(pred).contains(x));
        } else {
            assert(s.to_set().filter(pred) =~= t.to_set().filter(pred));
        }
    }
}

/// Two finite disjoint sets contribute their sizes to their union.
pub proof fn lemma_len_disjoint_union<T>(x: Set<T>, y: Set<T>)
    requires
        x.finite(),
        y.finite(),
        x.disjoint(y),
    ensures
        x.union(y).len() == x.len() + y.len(),
        x.union(y).finite(),
    decreases x.len(),
{
    if x.is_empty() {
        assert(x.union(y) =~= y);
    } else {
        let a = x.choose();
        assert(x.contains(a));
        assert(x.remove(a).disjoint(y));
        lemma_len_disjoint_union(x.remove(a), y);
        assert(x.union(y) =~= x.remove(a).union(y).insert(a));
        assert(!x.remove(a).union(y).contains(a));
    }
}

} // verus!
