//! Merge sort: copies its input into a new, sorted vector, keeping the
//! order of elements that compare equal.
use vstd::prelude::*;
use crate::order::{
    le, equiv, key_is, run_of, sorted, total_preorder, lemma_compare, lemma_le_trans,
};

verus! {

/// No element of `s` compares equal to `k`: its run of `k` is empty.
proof fn lemma_run_empty<T: PartialOrd>(s: Seq<T>, k: T)
    requires
        forall|m: int| 0 <= m < s.len() ==> !equiv(#[trigger] s[m], k),
    ensures
        run_of(s, k) == Seq::<T>::empty(),
    decreases s.len(),
{
    broadcast use vstd::seq_lib::group_filter_ensures;
    if s.len() > 0 {
        let t = s.drop_last();
        assert(forall|m: int| 0 <= m < t.len() ==> t[m] == s[m]);
        lemma_run_empty(t, k);
        assert(s =~= t.push(s.last()));
        t.lemma_filter_push(s.last(), key_is(k));
        assert(!equiv(s[s.len() - 1], k));
    }
    assert(run_of(s, k) =~= Seq::<T>::empty());
}

/// Appending one element to `s` extends its run of `k` exactly when that
/// element compares equal to `k`.
proof fn lemma_run_push<T: PartialOrd>(s: Seq<T>, x: T, k: T)
    ensures
        run_of(s.push(x), k) == if equiv(x, k) {
            run_of(s, k).push(x)
        } else {
            run_of(s, k)
        },
{
    s.lemma_filter_push(x, key_is(k));
}

/// Merges two sorted vectors into one sorted vector that holds the elements
/// of both. Where the heads compare equal the one of `xs` goes first, so for
/// every key the equal elements of `xs` come before those of `ys`.
pub fn merge<T: PartialOrd + Copy>(xs: Vec<T>, ys: Vec<T>) -> (r: Vec<T>)
    requires
        total_preorder::<T>(),
        sorted(xs@),
        sorted(ys@),
    ensures
        r@.to_multiset() == xs@.to_multiset().add(ys@.to_multiset()),
        sorted(r@),
        forall|k: T| #[trigger] run_of(r@, k) == run_of(xs@, k) + run_of(ys@, k),
{
    let mut merged: Vec<T> = Vec::new();
    let xs_length: usize = xs.len();
    let ys_length: usize = ys.len();
    let mut xs_index: usize = 0;
    let mut ys_index: usize = 0;
    proof {
        broadcast use vstd::multiset::group_multiset_axioms;
        broadcast use vstd::seq_lib::group_to_multiset_ensures;
        assert(Seq::<T>::empty().to_multiset() =~= vstd::multiset::Multiset::<T>::empty());
        assert(xs@.subrange(0, 0) =~= Seq::<T>::empty());
        assert(ys@.subrange(0, 0) =~= Seq::<T>::empty());
        assert(merged@ =~= Seq::<T>::empty());
        assert(Seq::<T>::empty().to_multiset().add(Seq::<T>::empty().to_multiset())
            =~= Seq::<T>::empty().to_multiset());
    }
    while xs_index < xs_length || ys_index < ys_length
        invariant
            total_preorder::<T>(),
            sorted(xs@),
            sorted(ys@),
            xs_length == xs@.len(),
            ys_length == ys@.len(),
            xs_index <= xs_length,
            ys_index <= ys_length,
            merged@.to_multiset() == xs@.subrange(0, xs_index as int).to_multiset().add(
                ys@.subrange(0, ys_index as int).to_multiset(),
            ),
            sorted(merged@),
            forall|m: int|
                0 <= m < merged@.len() && xs_index < xs_length ==> #[trigger] le(
                    merged@[m],
                    xs@[xs_index as int],
                ),
            forall|m: int|
                0 <= m < merged@.len() && ys_index < ys_length ==> #[trigger] le(
                    merged@[m],
                    ys@[ys_index as int],
                ),
            // what `ys` gave so far is strictly below the head of `xs`
            forall|m: int|
                0 <= m < ys_index && xs_index < xs_length ==> !#[trigger] le(
                    xs@[xs_index as int],
                    ys@[m],
                ),
            forall|k: T|
                #[trigger] run_of(merged@, k) == run_of(xs@.subrange(0, xs_index as int), k)
                    + run_of(ys@.subrange(0, ys_index as int), k),
        decreases xs_length + ys_length - xs_index - ys_index,
    {
        let ghost before = merged@;
        if ys_index >= ys_length || (xs_index < xs_length && xs[xs_index] <= ys[ys_index]) {
            let x = xs[xs_index];
            merged.push(x);
            proof {
                lemma_take_one_more(xs@, xs_index as int);
                vstd::seq_lib::to_multiset_build(xs@.subrange(0, xs_index as int), x);
                vstd::seq_lib::to_multiset_build(before, x);
                if ys_index < ys_length {
                    lemma_compare(x, ys@[ys_index as int]);
                }
                lemma_push_keeps_sorted(before, x);
                if xs_index + 1 < xs_length {
                    assert(le(xs@[xs_index as int], xs@[xs_index + 1]));
                    assert forall|m: int| 0 <= m < merged@.len() implies #[trigger] le(
                        merged@[m],
                        xs@[xs_index + 1],
                    ) by {
                        if m < before.len() {
                            lemma_le_trans(before[m], x, xs@[xs_index + 1]);
                        }
                    }
                    assert forall|m: int| 0 <= m < ys_index implies !#[trigger] le(
                        xs@[xs_index + 1],
                        ys@[m],
                    ) by {
                        if le(xs@[xs_index + 1], ys@[m]) {
                            lemma_le_trans(x, xs@[xs_index + 1], ys@[m]);
                        }
                    }
                }
                assert forall|k: T| #[trigger] run_of(merged@, k) == run_of(
                    xs@.subrange(0, xs_index + 1),
                    k,
                ) + run_of(ys@.subrange(0, ys_index as int), k) by {
                    let ys_part = ys@.subrange(0, ys_index as int);
                    lemma_run_push(before, x, k);
                    lemma_run_push(xs@.subrange(0, xs_index as int), x, k);
                    if equiv(x, k) {
                        assert forall|m: int| 0 <= m < ys_part.len() implies !equiv(
                            #[trigger] ys_part[m],
                            k,
                        ) by {
                            if equiv(ys_part[m], k) {
                                lemma_le_trans(x, k, ys_part[m]);
                            }
                        }
                        lemma_run_empty(ys_part, k);
                        assert(run_of(ys_part, k) + Seq::<T>::empty() =~= run_of(ys_part, k));
                    }
                    assert((run_of(xs@.subrange(0, xs_index as int), k) + run_of(ys_part, k)).push(x)
                        =~= run_of(xs@.subrange(0, xs_index as int), k).push(x) + run_of(ys_part, k)
                        || !equiv(x, k));
                }
            }
            xs_index = xs_index + 1;
        } else {
            let y = ys[ys_index];
            merged.push(y);
            proof {
                lemma_take_one_more(ys@, ys_index as int);
                vstd::seq_lib::to_multiset_build(ys@.subrange(0, ys_index as int), y);
                vstd::seq_lib::to_multiset_build(before, y);
                if xs_index < xs_length {
                    lemma_compare(xs@[xs_index as int], y);
                }
                lemma_push_keeps_sorted(before, y);
                if ys_index + 1 < ys_length {
                    assert(le(ys@[ys_index as int], ys@[ys_index + 1]));
                    assert forall|m: int| 0 <= m < merged@.len() implies #[trigger] le(
                        merged@[m],
                        ys@[ys_index + 1],
                    ) by {
                        if m < before.len() {
                            lemma_le_trans(before[m], y, ys@[ys_index + 1]);
                        }
                    }
                }
                assert forall|k: T| #[trigger] run_of(merged@, k) == run_of(
                    xs@.subrange(0, xs_index as int),
                    k,
                ) + run_of(ys@.subrange(0, ys_index + 1), k) by {
                    lemma_run_push(before, y, k);
                    lemma_run_push(ys@.subrange(0, ys_index as int), y, k);
                    assert((run_of(xs@.subrange(0, xs_index as int), k) + run_of(
                        ys@.subrange(0, ys_index as int),
                        k,
                    )).push(y) =~= run_of(xs@.subrange(0, xs_index as int), k) + run_of(
                        ys@.subrange(0, ys_index as int),
                        k,
                    ).push(y));
                }
            }
            ys_index = ys_index + 1;
        }
    }
    proof {
        assert(xs@.subrange(0, xs_length as int) =~= xs@);
        assert(ys@.subrange(0, ys_length as int) =~= ys@);
    }
    merged
}

/// Returns a new vector with the elements of `v` in non-decreasing order;
/// `v` is left as it is. Elements that compare equal keep their order in `v`.
pub fn merge_sort<T: PartialOrd + Copy>(v: &[T]) -> (r: Vec<T>)
    requires
        total_preorder::<T>(),
    ensures
        r@.to_multiset() == v@.to_multiset(),
        sorted(r@),
        forall|k: T| #[trigger] run_of(r@, k) == run_of(v@, k),
    decreases v@.len(),
{
    let len = v.len();
    if len == 0 {
        let empty = Vec::<T>::new();
        proof {
            assert(empty@ =~= v@);
        }
        return empty;
    }
    if len == 1 {
        let mut result = Vec::<T>::new();
        result.push(v[0]);
        proof {
            assert(result@ =~= v@);
        }
        return result;
    }
    let middle = len / 2;
    let left = merge_sort(&v[0..middle]);
    let right = merge_sort(&v[middle..len]);
    proof {
        let front = v@.subrange(0, middle as int);
        let back = v@.subrange(middle as int, len as int);
        assert(v@ =~= front + back);
        vstd::seq_lib::lemma_multiset_commutative(front, back);
        assert forall|k: T| #[trigger] run_of(v@, k) == run_of(front, k) + run_of(back, k) by {
            Seq::filter_distributes_over_add(front, back, key_is(k));
        }
    }
    merge(left, right)
}

/// Taking one more element of `s` extends the prefix by that element.
proof fn lemma_take_one_more<T>(s: Seq<T>, n: int)
    requires
        0 <= n < s.len(),
    ensures
        s.subrange(0, n + 1) == s.subrange(0, n).push(s[n]),
{
    assert(s.subrange(0, n + 1) =~= s.subrange(0, n).push(s[n]));
}

/// Appending an element that no earlier one exceeds keeps a sequence sorted.
proof fn lemma_push_keeps_sorted<T: PartialOrd>(s: Seq<T>, x: T)
    requires
        sorted(s),
        forall|m: int| 0 <= m < s.len() ==> #[trigger] le(s[m], x),
    ensures
        sorted(s.push(x)),
{
    let t = s.push(x);
    assert forall|a: int, b: int| 0 <= a < b < t.len() implies #[trigger] le(t[a], t[b]) by {
        if b < s.len() {
            assert(le(s[a], s[b]));
        } else {
            assert(le(s[a], x));
        }
    }
}

} // verus!
