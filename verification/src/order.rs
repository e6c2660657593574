//! Sorting of pairs of integers.
use vstd::prelude::*;

verus! {

/// The lexicographic order of pairs.
pub open spec fn pair_le(a: (u32, u64), b: (u32, u64)) -> bool {
    a.0 < b.0 || (a.0 == b.0 && a.1 <= b.1)
}

/// The pairs of `pairs`, in lexicographic order.
pub open spec fn in_order(pairs: Seq<(u32, u64)>) -> Seq<(u32, u64)> {
    pairs.sort_by(|a: (u32, u64), b: (u32, u64)| pair_le(a, b))
}

/// Whether each pair comes before, or equals, all that follow it.
pub open spec fn is_ordered(pairs: Seq<(u32, u64)>) -> bool {
    forall|i: int, j: int| 0 <= i < j < pairs.len() ==> pair_le(#[trigger] pairs[i], #[trigger] pairs[j])
}

/// A list in order with the same pairs is the only one.
pub proof fn lemma_in_order(pairs: Seq<(u32, u64)>, sorted: Seq<(u32, u64)>)
    requires
        is_ordered(sorted),
        sorted.to_multiset() == pairs.to_multiset(),
    ensures
        sorted == in_order(pairs),
{
    let le = |a: (u32, u64), b: (u32, u64)| pair_le(a, b);
    assert(vstd::relations::total_ordering(le));
    pairs.lemma_sort_by_ensures(le);
    assert(vstd::relations::sorted_by(sorted, le)) by {
        assert forall|i: int, j: int| 0 <= i < j < sorted.len() implies #[trigger] le(
            sorted[i],
            sorted[j],
        ) by {
            assert(pair_le(sorted[i], sorted[j]));
        }
    }
    vstd::seq_lib::lemma_sorted_unique(sorted, in_order(pairs), le);
}

/// What sorting promises: order, and the same pairs.
pub proof fn lemma_in_order_ensures(pairs: Seq<(u32, u64)>)
    ensures
        is_ordered(in_order(pairs)),
        in_order(pairs).to_multiset() == pairs.to_multiset(),
        in_order(pairs).len() == pairs.len(),
{
    broadcast use vstd::seq_lib::group_to_multiset_ensures;

    let le = |a: (u32, u64), b: (u32, u64)| pair_le(a, b);
    assert(vstd::relations::total_ordering(le));
    pairs.lemma_sort_by_ensures(le);
    let sorted = in_order(pairs);
    sorted.to_multiset_ensures();
    pairs.to_multiset_ensures();
    assert forall|i: int, j: int| 0 <= i < j < sorted.len() implies pair_le(
        #[trigger] sorted[i],
        #[trigger] sorted[j],
    ) by {
        assert(le(sorted[i], sorted[j]));
    }
}

/// One ordered list out of two.
fn merge_pairs(a: Vec<(u32, u64)>, b: Vec<(u32, u64)>) -> (out: Vec<(u32, u64)>)
    requires
        is_ordered(a@),
        is_ordered(b@),
    ensures
        is_ordered(out@),
        out@.to_multiset() == a@.to_multiset().add(b@.to_multiset()),
{
    broadcast use vstd::seq_lib::group_to_multiset_ensures;

    let mut out: Vec<(u32, u64)> = Vec::new();
    let mut i: usize = 0;
    let mut j: usize = 0;
    assert(out@.to_multiset() =~= a@.take(0).to_multiset().add(b@.take(0).to_multiset()));
    while i < a.len() || j < b.len()
        invariant
            i <= a@.len(),
            j <= b@.len(),
            is_ordered(a@),
            is_ordered(b@),
            is_ordered(out@),
            forall|k: int| 0 <= k < out@.len() && i < a@.len() ==> pair_le(#[trigger] out@[k], a@[i as int]),
            forall|k: int| 0 <= k < out@.len() && j < b@.len() ==> pair_le(#[trigger] out@[k], b@[j as int]),
            out@.to_multiset() =~= a@.take(i as int).to_multiset().add(
                b@.take(j as int).to_multiset(),
            ),
        decreases a@.len() - i + b@.len() - j,
    {
        let left: bool = if i == a.len() {
            false
        } else if j == b.len() {
            true
        } else {
            a[i].0 < b[j].0 || (a[i].0 == b[j].0 && a[i].1 <= b[j].1)
        };
        if left {
            proof {
                assert(a@.take(i + 1) =~= a@.take(i as int).push(a@[i as int]));
                vstd::seq_lib::to_multiset_build(a@.take(i as int), a@[i as int]);
                vstd::seq_lib::to_multiset_build(out@, a@[i as int]);
            }
            out.push(a[i]);
            i += 1;
        } else {
            proof {
                assert(b@.take(j + 1) =~= b@.take(j as int).push(b@[j as int]));
                vstd::seq_lib::to_multiset_build(b@.take(j as int), b@[j as int]);
                vstd::seq_lib::to_multiset_build(out@, b@[j as int]);
            }
            out.push(b[j]);
            j += 1;
        }
    }
    assert(a@.take(i as int) =~= a@);
    assert(b@.take(j as int) =~= b@);
    out
}

/// The pairs in order, before they are known to be [`in_order`].
fn sorted_pairs(pairs: &[(u32, u64)], from: usize, to: usize) -> (out: Vec<(u32, u64)>)
    requires
        from <= to <= pairs@.len(),
    ensures
        is_ordered(out@),
        out@.to_multiset() == pairs@.subrange(from as int, to as int).to_multiset(),
    decreases to - from,
{
    broadcast use vstd::seq_lib::group_to_multiset_ensures;

    if to - from <= 1 {
        let mut out: Vec<(u32, u64)> = Vec::new();
        if to > from {
            out.push(pairs[from]);
        }
        assert(out@ =~= pairs@.subrange(from as int, to as int));
        return out;
    }
    let mid: usize = from + (to - from) / 2;
    let left = sorted_pairs(pairs, from, mid);
    let right = sorted_pairs(pairs, mid, to);
    proof {
        let a = pairs@.subrange(from as int, mid as int);
        let b = pairs@.subrange(mid as int, to as int);
        assert(a + b =~= pairs@.subrange(from as int, to as int));
        vstd::seq_lib::lemma_multiset_commutative(a, b);
    }
    merge_pairs(left, right)
}

/// Sorts pairs lexicographically.
pub fn sort_pairs(pairs: &[(u32, u64)]) -> (out: Vec<(u32, u64)>)
    ensures
        out@ == in_order(pairs@),
{
    let out = sorted_pairs(pairs, 0, pairs.len());
    proof {
        assert(pairs@.subrange(0, pairs@.len() as int) =~= pairs@);
        lemma_in_order(pairs@, out@);
    }
    out
}

} // verus!
