use vstd::prelude::*;
use vstd::std_specs::cmp::PartialOrdSpec;

use crate::sorting::{leq, sorted_leq, swap_in_vec, total_order_obeyed};

verus! {

broadcast use vstd::seq_lib::group_to_multiset_ensures;

/// Sorts the vector in place by quicksort with Lomuto partitioning: the
/// result holds the same elements (as a multiset); whenever the element
/// type's comparison is a total order that the executable operators follow,
/// the result is ordered.
pub fn quicksort<T: PartialOrd>(v: &mut Vec<T>)
    ensures
        final(v)@.to_multiset() == old(v)@.to_multiset(),
        final(v)@.len() == old(v)@.len(),
        total_order_obeyed::<T>() ==> sorted_leq(final(v)@),
{
    let n = v.len();
    quicksort_range(v, 0, n);
    proof {
        assert(v@.subrange(0, v@.len() as int) =~= v@);
        assert(old(v)@.subrange(0, old(v)@.len() as int) =~= old(v)@);
        if total_order_obeyed::<T>() {
            assert(sorted_leq(v@));
        }
    }
}

/// Sorts the half-open range `[lo, hi)` in place, leaving the rest untouched.
fn quicksort_range<T: PartialOrd>(v: &mut Vec<T>, lo: usize, hi: usize)
    requires
        lo <= hi <= old(v)@.len(),
    ensures
        final(v)@.len() == old(v)@.len(),
        final(v)@.subrange(lo as int, hi as int).to_multiset() == old(v)@.subrange(
            lo as int,
            hi as int,
        ).to_multiset(),
        forall|x: int|
            0 <= x < final(v)@.len() && !(lo <= x < hi) ==> final(v)@[x] == old(v)@[x],
        total_order_obeyed::<T>() ==> sorted_leq(final(v)@.subrange(lo as int, hi as int)),
    decreases hi - lo,
{
    if hi - lo < 2 {
        return ;
    }
    let p = lomuto_partition(v, lo, hi);
    let ghost s1 = v@;
    quicksort_range(v, lo, p);
    let ghost s2 = v@;
    quicksort_range(v, p + 1, hi);
    let ghost s3 = v@;
    proof {
        // frame: the pivot and the other half are untouched by each call
        assert(s2[p as int] == s1[p as int]);
        assert(s3[p as int] == s1[p as int]);
        let pv = s1[p as int];
        let left1 = s1.subrange(lo as int, p as int);
        let left2 = s2.subrange(lo as int, p as int);
        let left3 = s3.subrange(lo as int, p as int);
        assert(left3 =~= left2);
        let right1 = s1.subrange(p as int + 1, hi as int);
        let right2 = s2.subrange(p as int + 1, hi as int);
        assert(right2 =~= right1);
        let right3 = s3.subrange(p as int + 1, hi as int);
        // every element of the sorted left half was in the unsorted left half
        if total_order_obeyed::<T>() {
            assert forall|x: int| 0 <= x < left3.len() implies leq(#[trigger] left3[x], pv) by {
                assert(left3.to_multiset() == left1.to_multiset());
                assert(left3.contains(left3[x]));
                assert(left3.to_multiset().count(left3[x]) > 0);
                assert(left1.contains(left3[x]));
                let y = choose|y: int| 0 <= y < left1.len() && left1[y] == left3[x];
                assert(leq(s1[lo + y], pv));
            }
            assert forall|x: int| 0 <= x < right3.len() implies leq(pv, #[trigger] right3[x]) by {
                assert(right3.to_multiset() == right1.to_multiset());
                assert(right3.contains(right3[x]));
                assert(right3.to_multiset().count(right3[x]) > 0);
                assert(right1.contains(right3[x]));
                let y = choose|y: int| 0 <= y < right1.len() && right1[y] == right3[x];
                assert(leq(pv, s1[p + 1 + y]));
            }
            let whole = s3.subrange(lo as int, hi as int);
            assert forall|x: int, y: int| 0 <= x < y < whole.len() implies leq(
                #[trigger] whole[x],
                #[trigger] whole[y],
            ) by {
                let pi = p - lo;
                assert(whole.len() == hi - lo);
                if x < pi && y < pi {
                    assert(whole[x] == left3[x]);
                    assert(whole[y] == left3[y]);
                    assert(leq(left3[x], left3[y]));
                } else if x < pi {
                    assert(whole[x] == left3[x]);
                    assert(leq(left3[x], pv));
                    if y == pi {
                        assert(whole[y] == pv);
                    } else {
                        assert(whole[y] == right3[y - pi - 1]);
                        assert(leq(pv, right3[y - pi - 1]));
                    }
                } else if x == pi {
                    assert(whole[x] == pv);
                    assert(whole[y] == right3[y - pi - 1]);
                    assert(leq(pv, right3[y - pi - 1]));
                } else {
                    assert(whole[x] == right3[x - pi - 1]);
                    assert(whole[y] == right3[y - pi - 1]);
                    assert(leq(right3[x - pi - 1], right3[y - pi - 1]));
                }
            }
        }
        // multiset: the range splits into left, pivot, right at every stage
        lemma_split_three(s1, lo as int, p as int, hi as int);
        lemma_split_three(s3, lo as int, p as int, hi as int);
        assert(left3.to_multiset() == left1.to_multiset());
        assert(right3.to_multiset() == right1.to_multiset());
        assert(seq![s3[p as int]] =~= seq![s1[p as int]]);
    }
}

/// The multiset of `[lo, hi)` is left part plus the element at `p` plus the
/// right part.
proof fn lemma_split_three<T>(s: Seq<T>, lo: int, p: int, hi: int)
    requires
        0 <= lo <= p < hi <= s.len(),
    ensures
        s.subrange(lo, hi).to_multiset() == s.subrange(lo, p).to_multiset().add(
            seq![s[p]].to_multiset(),
        ).add(s.subrange(p + 1, hi).to_multiset()),
{
    broadcast use vstd::seq_lib::lemma_multiset_commutative;

    assert(s.subrange(lo, hi) =~= s.subrange(lo, p) + seq![s[p]] + s.subrange(p + 1, hi));
    assert((s.subrange(lo, p) + seq![s[p]] + s.subrange(p + 1, hi)).to_multiset() == (s.subrange(
        lo,
        p,
    ) + seq![s[p]]).to_multiset().add(s.subrange(p + 1, hi).to_multiset()));
}

/// Lomuto partitioning of `[lo, hi)` around the last element: returns the
/// pivot's final position; smaller-or-equal elements end up before it, the
/// rest after it.
fn lomuto_partition<T: PartialOrd>(v: &mut Vec<T>, lo: usize, hi: usize) -> (p: usize)
    requires
        lo + 2 <= hi <= old(v)@.len(),
    ensures
        lo <= p < hi,
        final(v)@.len() == old(v)@.len(),
        final(v)@.subrange(lo as int, hi as int).to_multiset() == old(v)@.subrange(
            lo as int,
            hi as int,
        ).to_multiset(),
        forall|x: int|
            0 <= x < final(v)@.len() && !(lo <= x < hi) ==> final(v)@[x] == old(v)@[x],
        final(v)@[p as int] == old(v)@[hi as int - 1],
        total_order_obeyed::<T>() ==> forall|x: int|
            lo <= x < p ==> leq(#[trigger] final(v)@[x], final(v)@[p as int]),
        total_order_obeyed::<T>() ==> forall|x: int|
            p < x < hi ==> leq(final(v)@[p as int], #[trigger] final(v)@[x]),
        total_order_obeyed::<T>() ==> forall|x: int|
            p < x < hi ==> !leq(#[trigger] final(v)@[x], final(v)@[p as int]),
    decreases hi - lo,
{
    let pivot_idx = hi - 1;
    let mut i = lo;
    let mut j = lo;
    while j < hi - 1
        invariant
            lo <= i <= j <= hi - 1 < old(v)@.len(),
            v@.len() == old(v)@.len(),
            v@[pivot_idx as int] == old(v)@[pivot_idx as int],
            pivot_idx == hi - 1,
            v@.subrange(lo as int, hi as int).to_multiset() == old(v)@.subrange(
                lo as int,
                hi as int,
            ).to_multiset(),
            forall|x: int|
                0 <= x < v@.len() && !(lo <= x < hi) ==> v@[x] == old(v)@[x],
            total_order_obeyed::<T>() ==> forall|x: int|
                lo <= x < i ==> leq(#[trigger] v@[x], v@[pivot_idx as int]),
            total_order_obeyed::<T>() ==> forall|x: int|
                i <= x < j ==> leq(v@[pivot_idx as int], #[trigger] v@[x]),
            total_order_obeyed::<T>() ==> forall|x: int|
                i <= x < j ==> !leq(#[trigger] v@[x], v@[pivot_idx as int]),
        decreases hi - 1 - j,
    {
        let le = {
            let a = &v[j];
            let b = &v[pivot_idx];
            a.le(b)
        };
        let ghost before = v@;
        if le {
            swap_in_vec(v, i, j);
            proof {
                assert(v@ =~= before.update(i as int, before[j as int]).update(
                    j as int,
                    before[i as int],
                ));
                assert(v@.subrange(lo as int, hi as int).to_multiset() == before.subrange(
                    lo as int,
                    hi as int,
                ).to_multiset()) by {
                    lemma_swap_multiset(before, lo as int, hi as int, i as int, j as int);
                }
            }
            i += 1;
        }
        j += 1;
    }
    let ghost before = v@;
    swap_in_vec(v, i, pivot_idx);
    proof {
        assert(v@ =~= before.update(i as int, before[pivot_idx as int]).update(
            pivot_idx as int,
            before[i as int],
        ));
        lemma_swap_multiset(before, lo as int, hi as int, i as int, pivot_idx as int);
    }
    i
}

/// Swapping two positions inside `[lo, hi)` keeps the range's multiset.
proof fn lemma_swap_multiset<T>(s: Seq<T>, lo: int, hi: int, x: int, y: int)
    requires
        0 <= lo <= x <= hi,
        lo <= y < hi,
        x < hi,
        hi <= s.len(),
    ensures
        s.update(x, s[y]).update(y, s[x]).subrange(lo, hi).to_multiset() == s.subrange(
            lo,
            hi,
        ).to_multiset(),
{
    let s2 = s.update(x, s[y]).update(y, s[x]);
    let r = s.subrange(lo, hi);
    let r2 = s2.subrange(lo, hi);
    if x == y {
        assert(r2 =~= r);
    } else {
        let a = if x < y {
            x
        } else {
            y
        };
        let b = if x < y {
            y
        } else {
            x
        };
        assert(r2 =~= r.update(a - lo, r[b - lo]).update(b - lo, r[a - lo]));
        lemma_swap_multiset_whole(r, a - lo, b - lo);
    }
}

/// Swapping two positions of a sequence keeps its multiset.
proof fn lemma_swap_multiset_whole<T>(s: Seq<T>, x: int, y: int)
    requires
        0 <= x < y < s.len(),
    ensures
        s.update(x, s[y]).update(y, s[x]).to_multiset() == s.to_multiset(),
{
    broadcast use vstd::seq_lib::group_to_multiset_ensures;

    let s2 = s.update(x, s[y]).update(y, s[x]);
    assert(s2.remove(y) =~= s.remove(y).update(x, s[y]));
    assert(s2.to_multiset() == s2.remove(y).to_multiset().insert(s2[y]));
    assert(s.to_multiset() == s.remove(y).to_multiset().insert(s[y]));
    lemma_update_multiset(s.remove(y), x, s[y]);
    assert(s.remove(y).update(x, s[y]).to_multiset() == s.remove(y).to_multiset().remove(
        s.remove(y)[x],
    ).insert(s[y]));
    assert(s.remove(y)[x] == s[x]);
    assert(s2.to_multiset() =~= s.to_multiset()) by {
        assert(s2.to_multiset() == s.remove(y).to_multiset().remove(s[x]).insert(s[y]).insert(
            s2[y],
        ));
        assert(s2[y] == s[x]);
        assert(s.remove(y).to_multiset().count(s[x]) > 0) by {
            assert(s.remove(y)[x] == s[x]);
            assert(s.remove(y).contains(s[x]));
        }
    }
}

/// Updating one position removes the old element from the multiset and
/// inserts the new one.
proof fn lemma_update_multiset<T>(s: Seq<T>, x: int, e: T)
    requires
        0 <= x < s.len(),
    ensures
        s.update(x, e).to_multiset() == s.to_multiset().remove(s[x]).insert(e),
{
    broadcast use vstd::seq_lib::group_to_multiset_ensures;

    let s2 = s.update(x, e);
    assert(s2.remove(x) =~= s.remove(x));
    assert(s2.to_multiset() == s2.remove(x).to_multiset().insert(e));
    assert(s.remove(x).to_multiset() =~= s.to_multiset().remove(s[x]));
}

} // verus!
