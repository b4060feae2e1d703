//! Exchanging two elements of a slice, and what that does to its contents.
use vstd::prelude::*;

verus! {

/// Relies on std's `<[T]>::swap`: the elements at `a` and `b` trade places,
/// and the call panics when either index is out of bounds.
pub assume_specification<X>[ <[X]>::swap ](s: &mut [X], a: usize, b: usize)
    requires
        a < old(s)@.len(),
        b < old(s)@.len(),
    ensures
        final(s)@ == old(s)@.update(a as int, old(s)@[b as int]).update(b as int, old(s)@[a as int]),
;

/// Exchanging two elements keeps the multiset of a sequence.
pub proof fn lemma_swap_keeps_multiset<T>(s: Seq<T>, a: int, b: int)
    requires
        0 <= a < s.len(),
        0 <= b < s.len(),
    ensures
        s.update(a, s[b]).update(b, s[a]).to_multiset() == s.to_multiset(),
{
    broadcast use vstd::multiset::group_multiset_axioms;
    broadcast use vstd::seq_lib::group_to_multiset_ensures;
    let t = s.update(a, s[b]);
    assert(t[b] == s[b]);
    assert(s.to_multiset().count(s[a]) > 0);
    vstd::seq_lib::to_multiset_update(s, a, s[b]);
    vstd::seq_lib::to_multiset_update(t, b, s[a]);
    assert(t.update(b, s[a]).to_multiset() =~= s.to_multiset());
}

/// Exchanging two elements inside `[lo, hi)` keeps the multiset of the whole
/// sequence and of that range.
pub proof fn lemma_swap_in_range<T>(s: Seq<T>, a: int, b: int, lo: int, hi: int)
    requires
        0 <= lo <= a < hi <= s.len(),
        lo <= b < hi,
    ensures
        s.update(a, s[b]).update(b, s[a]).to_multiset() == s.to_multiset(),
        s.update(a, s[b]).update(b, s[a]).subrange(lo, hi).to_multiset() == s.subrange(
            lo,
            hi,
        ).to_multiset(),
{
    let r = s.subrange(lo, hi);
    lemma_swap_keeps_multiset(s, a, b);
    lemma_swap_keeps_multiset(r, a - lo, b - lo);
    assert(s.update(a, s[b]).update(b, s[a]).subrange(lo, hi) =~= r.update(a - lo, r[b - lo]).update(
        b - lo,
        r[a - lo],
    ));
}

/// The multiset of `[a, b)` is that of `[a, m)` added to that of `[m, b)`.
pub proof fn lemma_split_multiset<T>(s: Seq<T>, a: int, m: int, b: int)
    requires
        0 <= a <= m <= b <= s.len(),
    ensures
        s.subrange(a, b).to_multiset() == s.subrange(a, m).to_multiset().add(
            s.subrange(m, b).to_multiset(),
        ),
{
    assert(s.subrange(a, b) =~= s.subrange(a, m) + s.subrange(m, b));
    vstd::seq_lib::lemma_multiset_commutative(s.subrange(a, m), s.subrange(m, b));
}

} // verus!
