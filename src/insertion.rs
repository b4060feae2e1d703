//! Insertion sort: in place, stable, quadratic in the worst case.
use vstd::prelude::*;
use crate::order::{
    le, equiv, key_is, run_of, sorted, total_preorder, lemma_compare, lemma_le_trans,
};
use crate::slices::lemma_swap_keeps_multiset;

verus! {

/// Exchanging two neighbours that do not compare equal keeps, for every key,
/// the elements equal to it in the same order.
proof fn lemma_swap_unlike_keeps_runs<T: PartialOrd>(s: Seq<T>, j: int)
    requires
        total_preorder::<T>(),
        0 < j < s.len(),
        !equiv(s[j - 1], s[j]),
    ensures
        forall|k: T| #[trigger] run_of(s.update(j - 1, s[j]).update(j, s[j - 1]), k) == run_of(s, k),
{
    let a = s[j - 1];
    let b = s[j];
    let p = s.subrange(0, j - 1);
    let q = s.subrange(j + 1, s.len() as int);
    let t = s.update(j - 1, b).update(j, a);
    let ab = Seq::<T>::empty().push(a).push(b);
    let ba = Seq::<T>::empty().push(b).push(a);
    assert(s =~= p + ab + q);
    assert(t =~= p + ba + q);
    assert forall|k: T| #[trigger] run_of(t, k) == run_of(s, k) by {
        let f = key_is(k);
        Seq::filter_distributes_over_add(p + ab, q, f);
        Seq::filter_distributes_over_add(p, ab, f);
        Seq::filter_distributes_over_add(p + ba, q, f);
        Seq::filter_distributes_over_add(p, ba, f);
        Seq::<T>::empty().lemma_filter_push(a, f);
        Seq::<T>::empty().push(a).lemma_filter_push(b, f);
        Seq::<T>::empty().lemma_filter_push(b, f);
        Seq::<T>::empty().push(b).lemma_filter_push(a, f);
        assert(Seq::<T>::empty().filter(f) =~= Seq::<T>::empty()) by {
            Seq::<T>::empty().lemma_filter_len(f);
        }
        if equiv(a, k) && equiv(b, k) {
            lemma_le_trans(a, k, b);
            lemma_le_trans(b, k, a);
        }
        assert(ab.filter(f) =~= ba.filter(f));
    }
}

/// Sorts `v` in place into non-decreasing order by moving each element left
/// past every larger neighbour. Equal elements are never exchanged, so they
/// keep their order.
pub fn insertion_sort<T: PartialOrd>(v: &mut [T])
    requires
        total_preorder::<T>(),
    ensures
        final(v)@.len() == old(v)@.len(),
        final(v)@.to_multiset() == old(v)@.to_multiset(),
        sorted(final(v)@),
        forall|k: T| #[trigger] run_of(final(v)@, k) == run_of(old(v)@, k),
{
    let n = v.len();
    for i in 0..n
        invariant
            total_preorder::<T>(),
            n == v@.len(),
            v@.to_multiset() == old(v)@.to_multiset(),
            forall|k: T| #[trigger] run_of(v@, k) == run_of(old(v)@, k),
            forall|a: int, b: int| 0 <= a < b < i ==> #[trigger] le(v@[a], v@[b]),
    {
        let mut j: usize = i;
        while j > 0 && v[j - 1] > v[j]
            invariant
                total_preorder::<T>(),
                n == v@.len(),
                v@.to_multiset() == old(v)@.to_multiset(),
                forall|k: T| #[trigger] run_of(v@, k) == run_of(old(v)@, k),
                i < n,
                j <= i,
                forall|a: int, b: int|
                    0 <= a < b <= i && a != j && b != j ==> #[trigger] le(v@[a], v@[b]),
                forall|a: int, b: int| 0 <= a < j < b <= i ==> #[trigger] le(v@[a], v@[b]),
                forall|b: int| j < b <= i ==> #[trigger] le(v@[j as int], v@[b]),
            decreases j,
        {
            proof {
                lemma_compare(v@[j - 1], v@[j as int]);
                lemma_swap_keeps_multiset(v@, j - 1, j as int);
                lemma_swap_unlike_keeps_runs(v@, j as int);
            }
            v.swap(j - 1, j);
            j = j - 1;
        }
        proof {
            if j > 0 {
                lemma_compare(v@[j - 1], v@[j as int]);
            }
            assert forall|a: int, b: int| 0 <= a < b < i + 1 implies #[trigger] le(v@[a], v@[b]) by {
                if b == j && a < j - 1 {
                    lemma_le_trans(v@[a], v@[j - 1], v@[b]);
                }
            }
        }
    }
}

} // verus!
