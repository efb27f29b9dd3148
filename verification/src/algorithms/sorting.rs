//! Sorting algorithms.

use core::cmp::Ordering;
use vstd::prelude::*;
use vstd::seq_lib::{group_to_multiset_ensures, to_multiset_update};
use vstd::std_specs::cmp::PartialOrdSpec;

verus! {

/// `a` compares greater than `b`.
pub open spec fn above<T: PartialOrd>(a: T, b: T) -> bool {
    a.partial_cmp_spec(&b) == Some(Ordering::Greater)
}

/// The comparison of `T` does what its specification says, never puts two
/// values each above the other, and where `x` is not above `y` nor `y`
/// above `z`, `x` is not above `z`: as for every total order.
pub open spec fn ordered<T: PartialOrd>() -> bool {
    &&& T::obeys_partial_cmp_spec()
    &&& forall|x: T, y: T| #[trigger] above(x, y) ==> !above(y, x)
    &&& forall|x: T, y: T, z: T|
        !#[trigger] above(x, y) && !#[trigger] above(y, z) ==> !above(x, z)
}

/// No element is above a later one.
pub open spec fn sorted<T: PartialOrd>(s: Seq<T>) -> bool {
    forall|p: int, q: int| 0 <= p < q < s.len() ==> !above(s[p], s[q])
}

/// Writing `key` one place further left, and what was there one place
/// further right, moves two elements and loses none.
proof fn lemma_shift<T>(before: Seq<T>, hole: int, key: T)
    requires
        0 < hole < before.len(),
    ensures
        before.update(hole, before[hole - 1]).update(hole - 1, key).to_multiset()
            == before.update(hole, key).to_multiset(),
{
    broadcast use group_to_multiset_ensures;

    let moved = before[hole - 1];
    let full = before.update(hole, key);
    let left = full.update(hole - 1, key);
    let both = left.update(hole, moved);
    assert(before.update(hole, moved).update(hole - 1, key) =~= both);
    to_multiset_update(full, hole - 1, key);
    to_multiset_update(left, hole, moved);
    assert(full[hole - 1] == moved);
    assert(full.to_multiset().count(moved) > 0);
    assert(left[hole] == key);
    assert(both.to_multiset() =~= full.to_multiset());
}

/// Sorts `array` in place by insertion: each element in turn is moved left
/// past the elements above it. The result holds what `array` held, and
/// where `T` is [`ordered`] it is [`sorted`].
pub fn insertion_sort<T: PartialOrd + Copy>(array: &mut [T])
    ensures
        final(array)@.len() == old(array)@.len(),
        final(array)@.to_multiset() == old(array)@.to_multiset(),
        ordered::<T>() ==> sorted(final(array)@),
{
    let n = array.len();
    let mut j: usize = 1;
    while j < n
        invariant
            array@.len() == n,
            1 <= j,
            array@.to_multiset() == old(array)@.to_multiset(),
            ordered::<T>() ==> forall|p: int, q: int|
                0 <= p < q < j && q < n ==> !above(array@[p], array@[q]),
        decreases n - j,
    {
        let key: T = array[j];
        let mut i: usize = j;
        proof {
            assert(array@.update(i as int, key) =~= array@);
        }
        while i > 0 && array[i - 1] > key
            invariant
                i <= j < n,
                array@.len() == n,
                array@.update(i as int, key).to_multiset() == old(array)@.to_multiset(),
                ordered::<T>() ==> forall|p: int, q: int|
                    0 <= p < q <= j && p != i && q != i ==> !above(array@[p], array@[q]),
                ordered::<T>() ==> forall|q: int| i < q <= j ==> above(#[trigger] array@[q], key),
            decreases i,
        {
            proof {
                lemma_shift(array@, i as int, key);
            }
            array[i] = array[i - 1];
            i -= 1;
        }
        let ghost open = array@;
        array[i] = key;
        proof {
            if ordered::<T>() {
                assert(i == 0 || !above(open[i - 1], key));
                assert forall|p: int, q: int| 0 <= p < q < j + 1 implies !above(
                    array@[p],
                    array@[q],
                ) by {
                    if q == i {
                        if p < i - 1 {
                            assert(!above(open[p], open[i - 1]));
                            assert(!above(open[i - 1], key));
                        }
                    } else if p == i {
                        assert(above(open[q], key));
                    } else {
                        assert(!above(open[p], open[q]));
                    }
                }
            }
        }
        j += 1;
    }
}

} // verus!
