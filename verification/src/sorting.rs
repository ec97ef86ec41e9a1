pub mod merge_sort;
pub mod quicksort;

use vstd::prelude::*;
use vstd::std_specs::cmp::PartialOrdSpec;

verus! {

/// Less-or-equal under the type's comparison specification.
pub open spec fn leq<T: PartialOrd>(a: T, b: T) -> bool {
    a.partial_cmp_spec(&b) matches Some(
        core::cmp::Ordering::Less
        | core::cmp::Ordering::Equal,
    )
}

/// The type's comparison behaves like a total order: the executable operators
/// follow `partial_cmp_spec`, any two values compare (a comparison that is not
/// `Less` puts the right operand first), and the order is transitive. The
/// integer and unsigned types satisfy all of this.
pub open spec fn total_order_obeyed<T: PartialOrd>() -> bool {
    &&& T::obeys_partial_cmp_spec()
    &&& forall|a: T, b: T| #[trigger]
        a.partial_cmp_spec(&b) != Some(core::cmp::Ordering::Less) ==> leq(b, a)
    &&& forall|a: T, b: T, c: T|
        #![trigger leq(a, b), leq(b, c)]
        leq(a, b) && leq(b, c) ==> leq(a, c)
}

/// The sequence is ordered under `leq`.
pub open spec fn sorted_leq<T: PartialOrd>(s: Seq<T>) -> bool {
    forall|x: int, y: int|
        #![trigger s[x], s[y]]
        0 <= x < y < s.len() ==> leq(s[x], s[y])
}

/// The total-order condition is met by real key types: for the 64-bit
/// unsigned integers, whose comparison specification is their numeric order,
/// the sorting routines promise an ordered result unconditionally.
pub proof fn lemma_u64_total_order()
    ensures
        total_order_obeyed::<u64>(),
{
    assert forall|a: u64, b: u64| #[trigger]
        a.partial_cmp_spec(&b) != Some(core::cmp::Ordering::Less) implies leq(b, a) by {}
    assert forall|a: u64, b: u64, c: u64|
        #![trigger leq(a, b), leq(b, c)]
        leq(a, b) && leq(b, c) implies leq(a, c) by {}
}

/// Swaps two elements of a vector.
pub fn swap_in_vec<T>(v: &mut Vec<T>, x: usize, y: usize)
    requires
        x <= y < old(v)@.len(),
    ensures
        final(v)@ == old(v)@.update(x as int, old(v)@[y as int]).update(
            y as int,
            old(v)@[x as int],
        ),
{
    if x == y {
        proof {
            assert(old(v)@.update(x as int, old(v)@[y as int]).update(y as int, old(v)@[x as int])
                =~= old(v)@);
        }
        return ;
    }
    let ey = v.remove(y);
    let ex = v.remove(x);
    v.insert(x, ey);
    v.insert(y, ex);
    proof {
        assert(v@ =~= old(v)@.update(x as int, old(v)@[y as int]).update(
            y as int,
            old(v)@[x as int],
        ));
    }
}

} // verus!
