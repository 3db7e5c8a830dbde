//! Facts about sequences that the proofs of the library share.

use vstd::prelude::*;

verus! {

/// Filtering one element more: the filter of a prefix grows by the element
/// behind it exactly when the predicate holds of that element.
pub proof fn lemma_filter_next<A>(s: Seq<A>, pred: spec_fn(A) -> bool, i: int)
    requires
        0 <= i < s.len(),
    ensures
        s.take(i + 1).filter(pred) == if pred(s[i]) {
            s.take(i).filter(pred).push(s[i])
        } else {
            s.take(i).filter(pred)
        },
{
    reveal(Seq::filter);
    assert(s.take(i + 1).drop_last() =~= s.take(i));
}

/// How the number of elements that pass a filter changes when one element
/// is replaced.
pub proof fn lemma_filter_len_update<A>(s: Seq<A>, pred: spec_fn(A) -> bool, i: int, v: A)
    requires
        0 <= i < s.len(),
    ensures
        s.update(i, v).filter(pred).len() == s.filter(pred).len() - (if pred(s[i]) {
            1int
        } else {
            0int
        }) + (if pred(v) {
            1int
        } else {
            0int
        }),
    decreases s.len(),
{
    reveal(Seq::filter);
    let t = s.update(i, v);
    if i == s.len() - 1 {
        assert(t.drop_last() =~= s.drop_last());
    } else {
        lemma_filter_len_update(s.drop_last(), pred, i, v);
        assert(t.drop_last() =~= s.drop_last().update(i, v));
    }
}

/// Empty lists add nothing to a concatenation: the lists from `n` up to `m`
/// can be left out when all of them are empty.
pub proof fn lemma_flatten_skip<A>(lists: Seq<Seq<A>>, n: int, m: int)
    requires
        0 <= n <= m <= lists.len(),
        forall|j: int| n <= j < m ==> (#[trigger] lists[j]).len() == 0,
    ensures
        lists.take(m).flatten() == lists.take(n).flatten(),
    decreases m - n,
{
    if n < m {
        lemma_flatten_skip(lists, n, m - 1);
        assert(lists.take(m) =~= lists.take(m - 1).push(lists[m - 1]));
        lists.take(m - 1).lemma_flatten_push(lists[m - 1]);
        assert(lists.take(m - 1).flatten() + lists[m - 1] =~= lists.take(m - 1).flatten());
    }
}

/// Lists that hold the same elements equally often are equally long, hold
/// the same values, and are both free of duplicates if one is.
pub proof fn lemma_same_elements(a: Seq<i32>, b: Seq<i32>)
    requires
        a.to_multiset() == b.to_multiset(),
    ensures
        a.len() == b.len(),
        forall|x: i32| a.contains(x) == b.contains(x),
        a.no_duplicates() ==> b.no_duplicates(),
{
    a.to_multiset_ensures();
    b.to_multiset_ensures();
    assert forall|x: i32| a.contains(x) == b.contains(x) by {
        assert(a.contains(x) <==> a.to_multiset().count(x) > 0);
        assert(b.contains(x) <==> b.to_multiset().count(x) > 0);
    }
    if a.no_duplicates() {
        a.lemma_multiset_has_no_duplicates();
        b.lemma_multiset_has_no_duplicates_conv();
    }
}

} // verus!
