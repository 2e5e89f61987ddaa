use vstd::prelude::*;
use crate::sorting::lemma_swap_to_multiset;
use crate::sorting::sorted;

verus! {

/// Insertion sort: each element is swapped backwards through the already
/// sorted prefix. The vector is sorted in place and a copy of it is returned.
pub fn insert_sort(arr: &mut Vec<i32>) -> (r: Vec<i32>)
    ensures
        final(arr).len() == old(arr).len(),
        sorted(final(arr)@),
        final(arr)@.to_multiset() == old(arr)@.to_multiset(),
        r@ == final(arr)@,
{
    let size: usize = arr.len();
    let mut i: usize = 1;
    while i < size
        invariant
            arr.len() == size,
            1 <= i,
            arr@.to_multiset() == old(arr)@.to_multiset(),
            forall|p: int, q: int| 0 <= p < q < i ==> #[trigger] arr@[p] <= #[trigger] arr@[q],
        decreases size - i,
    {
        for j in 0..i
            invariant
                arr.len() == size,
                i < size,
                j <= i,
                arr@.to_multiset() == old(arr)@.to_multiset(),
                forall|p: int, q: int|
                    0 <= p < q < j ==> #[trigger] arr@[p] <= #[trigger] arr@[q],
                forall|p: int, q: int|
                    j <= p < q < i ==> #[trigger] arr@[p] <= #[trigger] arr@[q],
                forall|p: int, q: int|
                    0 <= p < j <= q < i ==> #[trigger] arr@[p] <= #[trigger] arr@[q],
                forall|p: int| 0 <= p < j ==> #[trigger] arr@[p] <= arr@[i as int],
        {
            if arr[i] < arr[j] {
                proof {
                    lemma_swap_to_multiset(arr@, i as int, j as int);
                }
                let moving: i32 = arr[i];
                let displaced: i32 = arr[j];
                arr[i] = displaced;
                arr[j] = moving;
            }
        }
        i = i + 1;
    }
    vstd::slice::slice_to_vec(arr.as_slice())
}

} // verus!
