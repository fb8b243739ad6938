use vstd::prelude::*;

use crate::partitionable::{is_ordering_of, orderings};

verus! {

/// Every ordering of the list's positions: each number in turn taken last,
/// after an ordering of the others. There are as many as the factorial of
/// the length, each a rearrangement of the list, and every rearrangement is
/// among them; an empty list has one ordering, the empty one; with no number
/// listed twice, each permutation comes once.
pub fn permutations(items: &Vec<u32>) -> (r: Vec<Vec<u32>>)
    ensures
        items@.len() == 0 ==> r@.len() == 1 && r@[0]@.len() == 0,
        r@.len() == crate::util::factorial_spec(items@.len()),
        forall|i: int| 0 <= i < r@.len() ==> (#[trigger] r@[i])@.to_multiset() == items@.to_multiset(),
        forall|t: Seq<u32>| #[trigger] t.to_multiset() == items@.to_multiset() ==> exists|i: int|
            0 <= i < r@.len() && #[trigger] r@[i]@ == t,
        items@.no_duplicates() ==> forall|t: Seq<u32>| is_ordering_of(t, items@) <==> exists|i: int|
            0 <= i < r@.len() && #[trigger] r@[i]@ == t,
        items@.no_duplicates() ==> forall|i: int, j: int| 0 <= i < j < r@.len() ==> r@[i]@ != r@[j]@,
        items@.no_duplicates() ==> r@.len() == crate::util::factorial_spec(items@.len()),
{
    let r = orderings(items, false);
    proof {
        if items@.len() == 0 {
            assert(is_ordering_of(Seq::<u32>::empty(), items@)) by {
                assert(Seq::<u32>::empty().to_set() =~= items@.to_set());
            }
            let i = choose|i: int| 0 <= i < r@.len() && #[trigger] r@[i]@ == Seq::<u32>::empty();
            assert forall|j: int| 0 <= j < r@.len() implies r@[j]@ == Seq::<u32>::empty() by {
                assert(is_ordering_of(r@[j]@, items@));
            }
            if r@.len() > 1 {
                if i == 0 {
                    assert(r@[0]@ != r@[1]@);
                } else {
                    assert(r@[0]@ != r@[i]@);
                }
            }
        }
    }
    r
}

} // verus!
