//! Order-parameterized merge sort and an online shape descriptor for
//! bounded integer samples.
use vstd::prelude::*;

mod shape;

pub use shape::ShapeModel;
pub use shape::Shape;
pub use shape::empty_model;
pub use shape::model_add;
pub use shape::model_add_null;
pub use shape::shape_model;
pub use shape::non_decreasing;
pub use shape::non_increasing;
pub use shape::seq_sum;
pub use shape::seq_sum_sq;
pub use shape::lemma_shape_model;
pub use shape::lemma_sorted_shape;
pub use shape::lemma_structural_equality;

verus! {

/// The direction a sort targets: smallest-first or largest-first.
#[derive(Clone, Copy, PartialEq, Eq, Structural, Debug)]
pub enum SortOrder {
    Ascending,
    Descending,
}

/// Whether `a` may stand before `b` in a sequence sorted under `order`.
pub open spec fn in_order(order: SortOrder, a: i32, b: i32) -> bool {
    match order {
        SortOrder::Ascending => a <= b,
        SortOrder::Descending => a >= b,
    }
}

/// A sequence is ordered when every earlier element may stand before
/// every later one under the given order.
pub open spec fn ordered(s: Seq<i32>, order: SortOrder) -> bool {
    forall|i: int, j: int| #![trigger s[i], s[j]] 0 <= i < j < s.len() ==> in_order(order, s[i], s[j])
}

/// Decides `in_order` at run time.
fn cmp_in_order(order: SortOrder, a: i32, b: i32) -> (r: bool)
    ensures
        r == in_order(order, a, b),
{
    match order {
        SortOrder::Ascending => a <= b,
        SortOrder::Descending => a >= b,
    }
}

/// Appending an element that every element of an ordered sequence may
/// precede keeps the sequence ordered.
proof fn lemma_ordered_push(s: Seq<i32>, x: i32, order: SortOrder)
    requires
        ordered(s, order),
        s.len() > 0 ==> in_order(order, s.last(), x),
    ensures
        ordered(s.push(x), order),
{
    assert forall|i: int, j: int| 0 <= i < j < s.push(x).len() implies in_order(
        order,
        s.push(x)[i],
        s.push(x)[j],
    ) by {
        if j < s.len() {
        } else {
            assert(s.push(x)[j] == x);
            if i < s.len() - 1 {
                assert(in_order(order, s[i], s[s.len() - 1]));
            }
        }
    }
}

/// Merges the two already-ordered halves `[lo, mid)` and `[mid, hi)` of
/// `v` into one ordered run over `[lo, hi)`, preferring the left half on
/// ties.  Elements outside `[lo, hi)` are untouched.
fn merge_range(v: &mut Vec<i32>, lo: usize, mid: usize, hi: usize, order: SortOrder)
    requires
        lo <= mid <= hi <= old(v).len(),
        ordered(old(v)@.subrange(lo as int, mid as int), order),
        ordered(old(v)@.subrange(mid as int, hi as int), order),
    ensures
        final(v)@.len() == old(v)@.len(),
        ordered(final(v)@.subrange(lo as int, hi as int), order),
        final(v)@.subrange(lo as int, hi as int).to_multiset() == old(v)@.subrange(
            lo as int,
            hi as int,
        ).to_multiset(),
        forall|k: int|
            0 <= k < old(v)@.len() && !(lo <= k < hi) ==> final(v)@[k] == old(v)@[k],
{
    broadcast use vstd::seq_lib::group_to_multiset_ensures;

    let ghost v0 = v@;
    let mut merged: Vec<i32> = Vec::new();
    let mut i: usize = lo;
    let mut j: usize = mid;
    while i < mid || j < hi
        invariant
            lo <= i <= mid <= j <= hi <= v@.len(),
            v@ == v0,
            ordered(v0.subrange(lo as int, mid as int), order),
            ordered(v0.subrange(mid as int, hi as int), order),
            merged@.len() == (i - lo) + (j - mid),
            ordered(merged@, order),
            merged@.to_multiset() == v0.subrange(lo as int, i as int).to_multiset().add(
                v0.subrange(mid as int, j as int).to_multiset(),
            ),
            merged@.len() > 0 ==> forall|k: int|
                i <= k < mid ==> in_order(order, merged@.last(), v0[k]),
            merged@.len() > 0 ==> forall|k: int|
                j <= k < hi ==> in_order(order, merged@.last(), v0[k]),
        decreases (mid - i) + (hi - j),
    {
        broadcast use vstd::seq_lib::group_to_multiset_ensures;

        let ghost merged0 = merged@;
        let take_left: bool = if i < mid {
            if j < hi {
                cmp_in_order(order, v[i], v[j])
            } else {
                true
            }
        } else {
            false
        };
        if take_left {
            let x: i32 = v[i];
            proof {
                assert forall|k: int| i < k < mid implies in_order(order, v0[i as int], v0[k]) by {
                    let sub = v0.subrange(lo as int, mid as int);
                    assert(sub[i - lo] == v0[i as int]);
                    assert(sub[k - lo] == v0[k]);
                    assert(in_order(order, sub[i - lo], sub[k - lo]));
                }
                if j < hi {
                    assert forall|k: int| j < k < hi implies in_order(
                        order,
                        v0[j as int],
                        v0[k],
                    ) by {
                        let sub = v0.subrange(mid as int, hi as int);
                        assert(sub[j - mid] == v0[j as int]);
                        assert(sub[k - mid] == v0[k]);
                        assert(in_order(order, sub[j - mid], sub[k - mid]));
                    }
                }
                lemma_ordered_push(merged0, x, order);
            }
            merged.push(x);
            i = i + 1;
            proof {
                assert(v0.subrange(lo as int, i as int) =~= v0.subrange(
                    lo as int,
                    i - 1,
                ).push(x));
                assert(merged@.to_multiset() =~= v0.subrange(lo as int, i as int)
                    .to_multiset().add(v0.subrange(mid as int, j as int).to_multiset()));
            }
        } else {
            let x: i32 = v[j];
            proof {
                assert forall|k: int| j < k < hi implies in_order(order, v0[j as int], v0[k]) by {
                    let sub = v0.subrange(mid as int, hi as int);
                    assert(sub[j - mid] == v0[j as int]);
                    assert(sub[k - mid] == v0[k]);
                    assert(in_order(order, sub[j - mid], sub[k - mid]));
                }
                if i < mid {
                    assert forall|k: int| i <= k < mid implies in_order(
                        order,
                        v0[j as int],
                        v0[k],
                    ) by {
                        let sub = v0.subrange(lo as int, mid as int);
                        assert(sub[i - lo] == v0[i as int]);
                        assert(sub[k - lo] == v0[k]);
                        if i < k {
                            assert(in_order(order, sub[i - lo], sub[k - lo]));
                        }
                    }
                }
                lemma_ordered_push(merged0, x, order);
            }
            merged.push(x);
            j = j + 1;
            proof {
                assert(v0.subrange(mid as int, j as int) =~= v0.subrange(
                    mid as int,
                    j - 1,
                ).push(x));
                assert(merged@.to_multiset() =~= v0.subrange(lo as int, i as int)
                    .to_multiset().add(v0.subrange(mid as int, j as int).to_multiset()));
            }
        }
    }
    proof {
        assert(v0.subrange(lo as int, hi as int) =~= v0.subrange(lo as int, mid as int)
            + v0.subrange(mid as int, hi as int));
        vstd::seq_lib::lemma_multiset_commutative(
            v0.subrange(lo as int, mid as int),
            v0.subrange(mid as int, hi as int),
        );
        assert(merged@.to_multiset() == v0.subrange(lo as int, hi as int).to_multiset());
    }
    let mut k: usize = 0;
    let n: usize = merged.len();
    while k < n
        invariant
            n == merged@.len(),
            lo + n == hi,
            hi <= v@.len(),
            v@.len() == v0.len(),
            k <= n,
            forall|t: int| 0 <= t < k ==> v@[lo + t] == merged@[t],
            forall|t: int| 0 <= t < v0.len() && !(lo <= t < lo + k) ==> v@[t] == v0[t],
        decreases n - k,
    {
        let val: i32 = merged[k];
        v[lo + k] = val;
        k = k + 1;
    }
    proof {
        assert(v@.subrange(lo as int, hi as int) =~= merged@);
    }
}

/// Divide-and-merge sort of the range `[lo, hi)` of `v` under `order`;
/// the rest of `v` is untouched.
fn sort_range(v: &mut Vec<i32>, lo: usize, hi: usize, order: SortOrder)
    requires
        lo <= hi <= old(v).len(),
    ensures
        final(v)@.len() == old(v)@.len(),
        ordered(final(v)@.subrange(lo as int, hi as int), order),
        final(v)@.subrange(lo as int, hi as int).to_multiset() == old(v)@.subrange(
            lo as int,
            hi as int,
        ).to_multiset(),
        forall|k: int|
            0 <= k < old(v)@.len() && !(lo <= k < hi) ==> final(v)@[k] == old(v)@[k],
    decreases hi - lo,
{
    if hi - lo < 2 {
        return;
    }
    let ghost v0 = v@;
    let mid: usize = lo + (hi - lo) / 2;
    sort_range(v, lo, mid, order);
    let ghost v1 = v@;
    sort_range(v, mid, hi, order);
    let ghost v2 = v@;
    proof {
        assert(v1.subrange(mid as int, hi as int) =~= v0.subrange(mid as int, hi as int));
        assert(v2.subrange(lo as int, mid as int) =~= v1.subrange(lo as int, mid as int));
    }
    merge_range(v, lo, mid, hi, order);
    proof {
        assert(v0.subrange(lo as int, hi as int) =~= v0.subrange(lo as int, mid as int)
            + v0.subrange(mid as int, hi as int));
        assert(v2.subrange(lo as int, hi as int) =~= v2.subrange(lo as int, mid as int)
            + v2.subrange(mid as int, hi as int));
        vstd::seq_lib::lemma_multiset_commutative(
            v0.subrange(lo as int, mid as int),
            v0.subrange(mid as int, hi as int),
        );
        vstd::seq_lib::lemma_multiset_commutative(
            v2.subrange(lo as int, mid as int),
            v2.subrange(mid as int, hi as int),
        );
    }
}

/// Merge sort of the whole vector under the chosen order: the result is
/// ordered, holds exactly the values that came in, and an input that was
/// already ordered comes back unchanged.
pub fn moej_sort(vals: &mut Vec<i32>, order: SortOrder)
    ensures
        final(vals)@.len() == old(vals)@.len(),
        ordered(final(vals)@, order),
        final(vals)@.to_multiset() == old(vals)@.to_multiset(),
        ordered(old(vals)@, order) ==> final(vals)@ == old(vals)@,
{
    let n: usize = vals.len();
    sort_range(vals, 0, n, order);
    proof {
        assert(old(vals)@.subrange(0, old(vals)@.len() as int) =~= old(vals)@);
        assert(final(vals)@.subrange(0, final(vals)@.len() as int) =~= final(vals)@);
        if ordered(old(vals)@, order) {
            lemma_sort_idempotent(final(vals)@, old(vals)@, order);
        }
    }
}

/// Sorts the vector into ascending order.
pub fn joe_sort(vals: &mut Vec<i32>)
    ensures
        final(vals)@.len() == old(vals)@.len(),
        ordered(final(vals)@, SortOrder::Ascending),
        final(vals)@.to_multiset() == old(vals)@.to_multiset(),
        ordered(old(vals)@, SortOrder::Ascending) ==> final(vals)@ == old(vals)@,
{
    moej_sort(vals, SortOrder::Ascending);
}

/// Sorting is idempotent: an ordered sequence is the only ordered
/// arrangement of its values, so a sort that (per its contract) returns an
/// ordered permutation leaves an already-ordered input unchanged.
pub proof fn lemma_sort_idempotent(s: Seq<i32>, t: Seq<i32>, order: SortOrder)
    requires
        ordered(s, order),
        ordered(t, order),
        s.to_multiset() == t.to_multiset(),
    ensures
        s == t,
{
    let leq = |a: i32, b: i32| in_order(order, a, b);
    assert forall|x: i32, y: i32| #[trigger] leq(x, y) || #[trigger] leq(y, x) by {
        assert(in_order(order, x, y) || in_order(order, y, x));
    }
    assert(vstd::relations::total_ordering(leq));
    assert(vstd::relations::sorted_by(s, leq));
    assert(vstd::relations::sorted_by(t, leq));
    vstd::seq_lib::lemma_sorted_unique(s, t, leq);
}

} // verus!
