//! Quicksort: in place, partitioning each range around its leftmost element.
use vstd::prelude::*;
use crate::order::{le, sorted, total_preorder, lemma_compare, lemma_le_trans};
use crate::slices::{lemma_swap_in_range, lemma_split_multiset};

verus! {

/// Rearranges `v[low..=high]` around the pivot `p = v[low]` and returns the
/// pivot's final index `q`: everything in `[low, q)` is `≤ p`, `v[q] == p`,
/// and everything in `(q, high]` is `≥ p`. Nothing outside the range moves.
pub fn partition<T: PartialOrd>(v: &mut [T], low: usize, high: usize) -> (q: usize)
    requires
        total_preorder::<T>(),
        low < high < old(v)@.len(),
    ensures
        final(v)@.len() == old(v)@.len(),
        final(v)@.to_multiset() == old(v)@.to_multiset(),
        final(v)@.subrange(low as int, high + 1).to_multiset() == old(v)@.subrange(
            low as int,
            high + 1,
        ).to_multiset(),
        forall|k: int| 0 <= k < old(v)@.len() && (k < low || k > high) ==> final(v)@[k] == old(v)@[k],
        low <= q <= high,
        final(v)@[q as int] == old(v)@[low as int],
        forall|k: int| low <= k < q ==> #[trigger] le(final(v)@[k], final(v)@[q as int]),
        forall|k: int| q < k <= high ==> #[trigger] le(final(v)@[q as int], final(v)@[k]),
{
    let ghost p = v@[low as int];
    let mut i: usize = low + 1;
    let mut j: usize = high;
    loop
        invariant
            total_preorder::<T>(),
            v@.len() == old(v)@.len(),
            v@.to_multiset() == old(v)@.to_multiset(),
            v@.subrange(low as int, high + 1).to_multiset() == old(v)@.subrange(
                low as int,
                high + 1,
            ).to_multiset(),
            forall|k: int| 0 <= k < old(v)@.len() && (k < low || k > high) ==> v@[k] == old(v)@[k],
            low < high < v@.len(),
            v@[low as int] == p,
            low + 1 <= i <= high,
            low <= j <= high,
            forall|k: int| low + 1 <= k < i ==> #[trigger] le(v@[k], p),
            forall|k: int| j < k <= high ==> #[trigger] le(p, v@[k]),
        ensures
            j <= i,
            j == low || le(v@[j as int], p),
        decreases j + high - i,
    {
        let ghost i0 = i;
        let ghost j0 = j;
        while i < high && v[i] < v[low]
            invariant
                i0 <= i,
                total_preorder::<T>(),
                v@.len() == old(v)@.len(),
                low < high < v@.len(),
                v@[low as int] == p,
                low + 1 <= i <= high,
                forall|k: int| low + 1 <= k < i ==> #[trigger] le(v@[k], p),
            decreases high - i,
        {
            proof {
                lemma_compare(v@[i as int], p);
            }
            i = i + 1;
        }
        while j > low && v[j] > v[low]
            invariant
                j <= j0,
                total_preorder::<T>(),
                v@.len() == old(v)@.len(),
                low < high < v@.len(),
                v@[low as int] == p,
                low <= j <= high,
                forall|k: int| j < k <= high ==> #[trigger] le(p, v@[k]),
            decreases j - low,
        {
            proof {
                lemma_compare(v@[j as int], p);
            }
            j = j - 1;
        }
        proof {
            lemma_compare(v@[i as int], p);
            lemma_compare(v@[j as int], p);
        }
        if i >= j {
            break;
        }
        proof {
            lemma_swap_in_range(v@, i as int, j as int, low as int, high + 1);
        }
        v.swap(i, j);
        i = i + 1;
        j = j - 1;
    }
    proof {
        lemma_swap_in_range(v@, low as int, j as int, low as int, high + 1);
        lemma_compare(p, p);
    }
    v.swap(low, j);
    j
}

/// Sorts `v[low..=high]` in place; a range of at most one element is left
/// as it is, and nothing outside the range moves.
pub fn quicksort<T: PartialOrd>(v: &mut [T], low: usize, high: usize)
    requires
        total_preorder::<T>(),
        low >= high || high < old(v)@.len(),
    ensures
        final(v)@.len() == old(v)@.len(),
        final(v)@.to_multiset() == old(v)@.to_multiset(),
        forall|k: int| 0 <= k < old(v)@.len() && (k < low || k > high) ==> final(v)@[k] == old(v)@[k],
        low >= high ==> final(v)@ == old(v)@,
        low < high ==> final(v)@.subrange(low as int, high + 1).to_multiset() == old(v)@.subrange(
            low as int,
            high + 1,
        ).to_multiset(),
        low < high ==> sorted(final(v)@.subrange(low as int, high + 1)),
    decreases high - low,
{
    if low < high {
        let q = partition(v, low, high);
        let ghost v1 = v@;
        if q > low {
            quicksort(v, low, q - 1);
        }
        let ghost v2 = v@;
        if q < high {
            quicksort(v, q + 1, high);
        }
        let ghost v3 = v@;
        proof {
            lemma_quicksort_step(v1, v2, v3, low as int, q as int, high as int);
        }
    }
}

/// A range is a permutation of a sorted range when `p` was split off at
/// `q`, and the two sides were sorted one after the other.
proof fn lemma_quicksort_step<T: PartialOrd>(v1: Seq<T>, v2: Seq<T>, v3: Seq<T>, low: int, q: int, high: int)
    requires
        total_preorder::<T>(),
        0 <= low <= q <= high < v1.len(),
        v2.len() == v1.len(),
        v3.len() == v1.len(),
        forall|k: int| low <= k < q ==> #[trigger] le(v1[k], v1[q]),
        forall|k: int| q < k <= high ==> #[trigger] le(v1[q], v1[k]),
        forall|k: int| 0 <= k < v1.len() && (k < low || k >= q) ==> v2[k] == v1[k],
        forall|k: int| 0 <= k < v1.len() && (k <= q || k > high) ==> v3[k] == v2[k],
        v2.subrange(low, q).to_multiset() == v1.subrange(low, q).to_multiset(),
        v3.subrange(q + 1, high + 1).to_multiset() == v2.subrange(q + 1, high + 1).to_multiset(),
        sorted(v2.subrange(low, q)),
        sorted(v3.subrange(q + 1, high + 1)),
    ensures
        v3.subrange(low, high + 1).to_multiset() == v1.subrange(low, high + 1).to_multiset(),
        v3.to_multiset() == v1.to_multiset(),
        sorted(v3.subrange(low, high + 1)),
{
    let p = v1[q];
    broadcast use vstd::seq_lib::group_to_multiset_ensures;
    // each side still holds only what it held after partitioning
    assert forall|k: int| low <= k < q implies #[trigger] le(v3[k], p) by {
        assert(v3[k] == v2.subrange(low, q)[k - low]);
        assert(v2.subrange(low, q).to_multiset().contains(v3[k]));
        assert(v1.subrange(low, q).contains(v3[k]));
        let m = choose|m: int| 0 <= m < q - low && #[trigger] v1.subrange(low, q)[m] == v3[k];
        assert(le(v1[low + m], p));
    }
    assert forall|k: int| q < k <= high implies #[trigger] le(p, v3[k]) by {
        assert(v3[k] == v3.subrange(q + 1, high + 1)[k - q - 1]);
        assert(v3.subrange(q + 1, high + 1).to_multiset().contains(v3[k]));
        assert(v2.subrange(q + 1, high + 1).contains(v3[k]));
        let m = choose|m: int| 0 <= m < high - q && #[trigger] v2.subrange(q + 1, high + 1)[m] == v3[k];
        assert(le(p, v1[q + 1 + m]));
    }
    let s = v3.subrange(low, high + 1);
    assert forall|a: int, b: int| 0 <= a < b < s.len() implies #[trigger] le(s[a], s[b]) by {
        let x = a + low;
        let y = b + low;
        if y < q {
            assert(le(v2.subrange(low, q)[a], v2.subrange(low, q)[b]));
        } else if x > q {
            assert(le(v3.subrange(q + 1, high + 1)[x - q - 1], v3.subrange(q + 1, high + 1)[y - q - 1]));
        } else if x < q && y > q {
            assert(le(v3[x], p));
            assert(le(p, v3[y]));
            lemma_le_trans(v3[x], p, v3[y]);
        } else if x == q {
            assert(le(p, v3[y]));
        } else {
            assert(le(v3[x], p));
            lemma_compare(p, p);
        }
    }
    // the multiset of the range, piece by piece
    assert(v3.subrange(low, q) =~= v2.subrange(low, q));
    assert(v2.subrange(q + 1, high + 1) =~= v1.subrange(q + 1, high + 1));
    assert(v3.subrange(q, q + 1) =~= v1.subrange(q, q + 1));
    lemma_split_multiset(v3, low, q, high + 1);
    lemma_split_multiset(v3, q, q + 1, high + 1);
    lemma_split_multiset(v1, low, q, high + 1);
    lemma_split_multiset(v1, q, q + 1, high + 1);
    assert(v3.subrange(0, low) =~= v1.subrange(0, low));
    assert(v3.subrange(high + 1, v3.len() as int) =~= v1.subrange(high + 1, v1.len() as int));
    lemma_split_multiset(v3, 0, low, v3.len() as int);
    lemma_split_multiset(v3, low, high + 1, v3.len() as int);
    lemma_split_multiset(v1, 0, low, v1.len() as int);
    lemma_split_multiset(v1, low, high + 1, v1.len() as int);
    assert(v3 =~= v3.subrange(0, v3.len() as int));
    assert(v1 =~= v1.subrange(0, v1.len() as int));
}

} // verus!
