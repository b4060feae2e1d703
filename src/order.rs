//! The ordering that the sorts rely on, what it means for a sequence to be
//! sorted, and the oracle that checks it.
use vstd::prelude::*;
use vstd::relations::{
    strongly_connected, transitive, antisymmetric, reflexive, total_ordering, sorted_by,
};
use vstd::std_specs::cmp::PartialOrdSpec;
use core::cmp::Ordering;

verus! {

/// `a ≤ b` as `T`'s `PartialOrd` states it.
pub open spec fn le<T: PartialOrd>(a: T, b: T) -> bool {
    a.partial_cmp_spec(&b) matches Some(Ordering::Less | Ordering::Equal)
}

/// `T`'s comparison operators agree with one total preorder: every pair is
/// comparable, `a < b` exactly when `b > a`, and `≤` is transitive and total.
pub open spec fn total_preorder<T: PartialOrd>() -> bool {
    &&& T::obeys_partial_cmp_spec()
    &&& forall|a: T, b: T| #[trigger] a.partial_cmp_spec(&b) is Some
    &&& forall|a: T, b: T|
        (#[trigger] a.partial_cmp_spec(&b) == Some(Ordering::Less)) <==> (b.partial_cmp_spec(&a)
            == Some(Ordering::Greater))
    &&& transitive(|a: T, b: T| le(a, b))
    &&& strongly_connected(|a: T, b: T| le(a, b))
}

/// A total preorder in which elements that compare equal are identical.
pub open spec fn total_order<T: PartialOrd>() -> bool {
    &&& total_preorder::<T>()
    &&& antisymmetric(|a: T, b: T| le(a, b))
}

/// Every element is `≤` every element after it.
pub open spec fn sorted<T: PartialOrd>(s: Seq<T>) -> bool {
    forall|i: int, j: int| 0 <= i < j < s.len() ==> #[trigger] le(s[i], s[j])
}

/// Every element is `≤` its right neighbour.
pub open spec fn adjacent_sorted<T: PartialOrd>(s: Seq<T>) -> bool {
    forall|i: int| 0 <= i < s.len() - 1 ==> #[trigger] le(s[i], s[i + 1])
}

/// `a` and `b` compare equal: each is `≤` the other.
pub open spec fn equiv<T: PartialOrd>(a: T, b: T) -> bool {
    le(a, b) && le(b, a)
}

/// The test "compares equal to `k`".
pub open spec fn key_is<T: PartialOrd>(k: T) -> spec_fn(T) -> bool {
    |x: T| equiv(x, k)
}

/// The elements of `s` that compare equal to `k`, in their order in `s`.
pub open spec fn run_of<T: PartialOrd>(s: Seq<T>, k: T) -> Seq<T> {
    s.filter(key_is(k))
}

/// Facts about one pair of elements under a total preorder.
pub proof fn lemma_compare<T: PartialOrd>(a: T, b: T)
    requires
        total_preorder::<T>(),
    ensures
        le(a, b) || le(b, a),
        le(a, a),
        a.partial_cmp_spec(&b) == Some(Ordering::Greater) <==> !le(a, b),
        a.partial_cmp_spec(&b) == Some(Ordering::Less) <==> !le(b, a),
{
    assert(strongly_connected(|a: T, b: T| le(a, b)));
    let r = |a: T, b: T| le(a, b);
    assert(r(a, b) || r(b, a));
    assert(r(a, a) || r(a, a));
    assert(a.partial_cmp_spec(&b) is Some);
    assert(b.partial_cmp_spec(&a) is Some);
}

/// `≤` is transitive under a total preorder.
pub proof fn lemma_le_trans<T: PartialOrd>(a: T, b: T, c: T)
    requires
        total_preorder::<T>(),
        le(a, b),
        le(b, c),
    ensures
        le(a, c),
{
    let r = |a: T, b: T| le(a, b);
    assert(transitive(r));
    assert(r(a, b) && r(b, c));
}

/// A sequence is sorted exactly when each element is `≤` its right neighbour:
/// what the oracle checks is what the sorts promise.
pub proof fn lemma_sorted_iff_adjacent<T: PartialOrd>(s: Seq<T>)
    requires
        total_preorder::<T>(),
    ensures
        sorted(s) <==> adjacent_sorted(s),
{
    if adjacent_sorted(s) {
        assert forall|i: int, j: int| 0 <= i < j < s.len() implies #[trigger] le(s[i], s[j]) by {
            lemma_adjacent_reaches(s, i, j);
        }
    }
    if sorted(s) {
        assert forall|i: int| 0 <= i < s.len() - 1 implies #[trigger] le(s[i], s[i + 1]) by {
            assert(le(s[i], s[i + 1]));
        }
    }
}

proof fn lemma_adjacent_reaches<T: PartialOrd>(s: Seq<T>, i: int, j: int)
    requires
        total_preorder::<T>(),
        adjacent_sorted(s),
        0 <= i < j < s.len(),
    ensures
        le(s[i], s[j]),
    decreases j - i,
{
    if j == i + 1 {
    } else {
        lemma_adjacent_reaches(s, i, j - 1);
        assert(le(s[j - 1], s[(j - 1) + 1]));
        lemma_le_trans(s[i], s[j - 1], s[j]);
    }
}

/// A sequence of at most one element is sorted, in both senses.
pub proof fn lemma_short_is_sorted<T: PartialOrd>(s: Seq<T>)
    requires
        s.len() <= 1,
    ensures
        sorted(s),
        adjacent_sorted(s),
{
}

/// Under a total order a sorted sequence is the only sorted arrangement of
/// its elements: sorting a sequence that is already sorted gives it back
/// unchanged.
pub proof fn lemma_sorting_sorted_is_identity<T: PartialOrd>(input: Seq<T>, output: Seq<T>)
    requires
        total_order::<T>(),
        sorted(input),
        sorted(output),
        output.to_multiset() == input.to_multiset(),
    ensures
        output == input,
{
    let r = |a: T, b: T| le(a, b);
    assert(strongly_connected(r));
    assert(reflexive(r)) by {
        assert forall|x: T| #[trigger] r(x, x) by {
            assert(r(x, x) || r(x, x));
        }
    }
    assert(total_ordering(r));
    assert(sorted_by(input, r)) by {
        assert forall|i: int, j: int| 0 <= i < j < input.len() implies #[trigger] r(input[i], input[j]) by {
            assert(le(input[i], input[j]));
        }
    }
    assert(sorted_by(output, r)) by {
        assert forall|i: int, j: int| 0 <= i < j < output.len() implies #[trigger] r(output[i], output[j]) by {
            assert(le(output[i], output[j]));
        }
    }
    vstd::seq_lib::lemma_sorted_unique(output, input, r);
}

/// The run of `k` in `x` followed by `rest`: `x` first when it compares
/// equal to `k`.
proof fn lemma_run_prepend<T: PartialOrd>(x: T, rest: Seq<T>, k: T)
    ensures
        run_of(seq![x] + rest, k) == (if equiv(x, k) {
            seq![x]
        } else {
            Seq::empty()
        }) + run_of(rest, k),
{
    rest.lemma_filter_prepend(x, key_is(k));
}

/// An element of a run of `k` in `s` is an element of `s`.
proof fn lemma_run_member<T: PartialOrd>(s: Seq<T>, k: T, e: T)
    requires
        run_of(s, k).contains(e),
    ensures
        s.contains(e),
{
    s.lemma_filter_contains_rev(key_is(k), e);
}

/// Under a total preorder, a sorted arrangement that keeps each run of
/// equal elements of a sorted sequence in its order is that sequence: a
/// stable sort of sorted input changes nothing.
pub proof fn lemma_stable_sorting_sorted_is_identity<T: PartialOrd>(input: Seq<T>, output: Seq<T>)
    requires
        total_preorder::<T>(),
        sorted(input),
        sorted(output),
        forall|k: T| #[trigger] run_of(output, k) == run_of(input, k),
    ensures
        output == input,
    decreases input.len() + output.len(),
{
    broadcast use vstd::seq_lib::group_filter_ensures;
    if input.len() == 0 && output.len() == 0 {
        assert(output =~= input);
    } else if input.len() == 0 || output.len() == 0 {
        let (s, e) = if input.len() == 0 { (output, input) } else { (input, output) };
        let h = s[0];
        lemma_compare(h, h);
        assert(s =~= seq![h] + s.drop_first());
        lemma_run_prepend(h, s.drop_first(), h);
        assert(run_of(s, h).len() > 0);
        assert(run_of(e, h).len() <= e.len());
        assert(run_of(output, h) == run_of(input, h));
    } else {
        let i0 = input[0];
        let o0 = output[0];
        let ir = input.drop_first();
        let or = output.drop_first();
        assert(input =~= seq![i0] + ir);
        assert(output =~= seq![o0] + or);
        lemma_compare(i0, i0);
        lemma_compare(o0, o0);
        // the head of each is an element of the other
        lemma_run_prepend(i0, ir, i0);
        assert(run_of(input, i0)[0] == i0);
        assert(run_of(output, i0).contains(i0));
        lemma_run_member(output, i0, i0);
        let a = choose|a: int| 0 <= a < output.len() && output[a] == i0;
        assert(le(o0, i0)) by {
            if a > 0 {
                assert(le(output[0], output[a]));
            }
        }
        lemma_run_prepend(o0, or, o0);
        assert(run_of(output, o0)[0] == o0);
        assert(run_of(input, o0).contains(o0));
        lemma_run_member(input, o0, o0);
        let b = choose|b: int| 0 <= b < input.len() && input[b] == o0;
        assert(le(i0, o0)) by {
            if b > 0 {
                assert(le(input[0], input[b]));
            }
        }
        // so the two heads lead the same run, and are the same element
        lemma_run_prepend(o0, or, i0);
        assert(run_of(output, i0)[0] == o0);
        assert(o0 == i0);
        assert forall|k: T| #[trigger] run_of(or, k) == run_of(ir, k) by {
            lemma_run_prepend(i0, ir, k);
            lemma_run_prepend(i0, or, k);
            let h: Seq<T> = if equiv(i0, k) { seq![i0] } else { Seq::empty() };
            assert(run_of(output, k) == h + run_of(or, k));
            assert(run_of(input, k) == h + run_of(ir, k));
            assert(run_of(or, k) =~= (h + run_of(or, k)).subrange(h.len() as int, (h + run_of(or, k)).len() as int));
            assert(run_of(ir, k) =~= (h + run_of(ir, k)).subrange(h.len() as int, (h + run_of(ir, k)).len() as int));
        }
        assert(sorted(ir)) by {
            assert forall|x: int, y: int| 0 <= x < y < ir.len() implies #[trigger] le(ir[x], ir[y]) by {
                assert(le(input[x + 1], input[y + 1]));
            }
        }
        assert(sorted(or)) by {
            assert forall|x: int, y: int| 0 <= x < y < or.len() implies #[trigger] le(or[x], or[y]) by {
                assert(le(output[x + 1], output[y + 1]));
            }
        }
        lemma_stable_sorting_sorted_is_identity(ir, or);
    }
}

/// The integers of `i32` are totally ordered by their comparison operators.
pub proof fn lemma_i32_total_order()
    ensures
        total_order::<i32>(),
{
    let r = |a: i32, b: i32| le(a, b);
    assert(transitive(r)) by {
        assert forall|x: i32, y: i32, z: i32| #[trigger] r(x, y) && #[trigger] r(y, z) implies r(x, z) by {
            assert(x <= y && y <= z);
        }
    }
    assert(strongly_connected(r));
    assert(antisymmetric(r));
}

/// Whether each element of `slice` is `≤` its right neighbour; true of a
/// slice of fewer than two elements.
pub fn is_sorted<T: PartialOrd>(slice: &[T]) -> (r: bool)
    requires
        total_preorder::<T>(),
    ensures
        r == adjacent_sorted(slice@),
{
    let len = slice.len();
    if len == 0 {
        return true;
    }
    let mut i: usize = 0;
    while i < len - 1
        invariant
            total_preorder::<T>(),
            len == slice@.len(),
            len >= 1,
            i <= len - 1,
            forall|k: int| 0 <= k < i ==> #[trigger] le(slice@[k], slice@[k + 1]),
        decreases len - 1 - i,
    {
        proof {
            lemma_compare(slice@[i as int], slice@[i + 1]);
        }
        if slice[i] > slice[i + 1] {
            assert(!le(slice@[i as int], slice@[i + 1]));
            return false;
        }
        i = i + 1;
    }
    true
}

} // verus!
