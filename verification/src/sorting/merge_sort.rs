use vstd::prelude::*;
use vstd::std_specs::cmp::PartialOrdSpec;

use crate::sorting::{leq, sorted_leq, total_order_obeyed};

verus! {

broadcast use vstd::seq_lib::group_to_multiset_ensures, vstd::seq_lib::lemma_multiset_commutative;

/// Sorts the vector in place by merge sort: the result holds the same
/// elements (as a multiset); whenever the element type's comparison is a
/// total order that the executable operators follow, the result is ordered.
pub fn merge_sort<T: PartialOrd + Copy>(v: &mut Vec<T>)
    ensures
        final(v)@.to_multiset() == old(v)@.to_multiset(),
        final(v)@.len() == old(v)@.len(),
        total_order_obeyed::<T>() ==> sorted_leq(final(v)@),
{
    let mut tmp: Vec<T> = Vec::new();
    core::mem::swap(v, &mut tmp);
    let mut sorted = msort(tmp);
    core::mem::swap(v, &mut sorted);
}

/// Recursive merge sort: split in half, sort the halves, merge them.
fn msort<T: PartialOrd + Copy>(v: Vec<T>) -> (r: Vec<T>)
    ensures
        r@.to_multiset() == v@.to_multiset(),
        r@.len() == v@.len(),
        total_order_obeyed::<T>() ==> sorted_leq(r@),
    decreases v@.len(),
{
    if v.len() < 2 {
        return v;
    }
    let mid = v.len() / 2;
    let mut left: Vec<T> = Vec::new();
    let mut right: Vec<T> = Vec::new();
    let mut i: usize = 0;
    while i < mid
        invariant
            i <= mid <= v@.len(),
            left@ == v@.take(i as int),
        decreases mid - i,
    {
        left.push(v[i]);
        proof {
            assert(v@.take(i as int + 1) =~= v@.take(i as int).push(v@[i as int]));
        }
        i += 1;
    }
    while i < v.len()
        invariant
            mid <= i <= v@.len(),
            left@ == v@.take(mid as int),
            right@ == v@.subrange(mid as int, i as int),
        decreases v@.len() - i,
    {
        right.push(v[i]);
        proof {
            assert(v@.subrange(mid as int, i as int + 1) =~= v@.subrange(mid as int, i as int).push(
                v@[i as int],
            ));
        }
        i += 1;
    }
    proof {
        assert(v@.take(mid as int) + v@.subrange(mid as int, v@.len() as int) =~= v@);
        assert((left@ + right@).to_multiset() == left@.to_multiset().add(right@.to_multiset()));
    }
    let ls = msort(left);
    let rs = msort(right);
    merge(ls, rs)
}

/// Merges two sequences, taking the smaller head first; when both inputs are
/// ordered the result is ordered, and its multiset is the sum of theirs.
fn merge<T: PartialOrd + Copy>(a: Vec<T>, b: Vec<T>) -> (r: Vec<T>)
    requires
        total_order_obeyed::<T>() ==> sorted_leq(a@) && sorted_leq(b@),
    ensures
        r@.to_multiset() == a@.to_multiset().add(b@.to_multiset()),
        r@.len() == a@.len() + b@.len(),
        total_order_obeyed::<T>() ==> sorted_leq(r@),
{
    let mut r: Vec<T> = Vec::new();
    let mut i: usize = 0;
    let mut j: usize = 0;
    while i < a.len() || j < b.len()
        invariant
            i <= a@.len(),
            j <= b@.len(),
            r@.len() == i + j,
            total_order_obeyed::<T>() ==> sorted_leq(a@) && sorted_leq(b@),
            r@.to_multiset() == a@.take(i as int).to_multiset().add(
                b@.take(j as int).to_multiset(),
            ),
            total_order_obeyed::<T>() ==> sorted_leq(r@),
            total_order_obeyed::<T>() ==> forall|x: int, y: int|
                #![trigger leq(r@[x], a@[y])]
                0 <= x < r@.len() && i <= y < a@.len() ==> leq(r@[x], a@[y]),
            total_order_obeyed::<T>() ==> forall|x: int, y: int|
                #![trigger leq(r@[x], b@[y])]
                0 <= x < r@.len() && j <= y < b@.len() ==> leq(r@[x], b@[y]),
        decreases a@.len() + b@.len() - i - j,
    {
        let take_left: bool = if j >= b.len() {
            true
        } else if i >= a.len() {
            false
        } else {
            a[i] < b[j]
        };
        if take_left {
            let e = a[i];
            proof {
                assert(a@.take(i as int + 1) =~= a@.take(i as int).push(e));
                if total_order_obeyed::<T>() && (j as int) < b@.len() {
                    assert(leq(e, b@[j as int]));
                }
            }
            r.push(e);
            i += 1;
        } else {
            let e = b[j];
            proof {
                assert(b@.take(j as int + 1) =~= b@.take(j as int).push(e));
                if total_order_obeyed::<T>() && (i as int) < a@.len() {
                    assert(a@[i as int].partial_cmp_spec(&b@[j as int]) != Some(
                        core::cmp::Ordering::Less,
                    ));
                    assert(leq(e, a@[i as int]));
                }
            }
            r.push(e);
            j += 1;
        }
        proof {
            assert(a@.take(i as int).to_multiset().add(b@.take(j as int).to_multiset()) =~= r@.to_multiset());
        }
    }
    proof {
        assert(a@.take(i as int) =~= a@);
        assert(b@.take(j as int) =~= b@);
    }
    r
}

} // verus!
