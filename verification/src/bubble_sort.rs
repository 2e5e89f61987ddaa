use vstd::prelude::*;
use crate::sorting::lemma_swap_to_multiset;
use crate::sorting::sorted;

verus! {

/// Bubble sort: each pass floats the largest remaining element to the end.
/// The vector is sorted in place and a copy of it is returned.
pub fn bubble_sorting(v: &mut Vec<i32>) -> (r: Vec<i32>)
    requires
        old(v).len() >= 1,
    ensures
        final(v).len() == old(v).len(),
        sorted(final(v)@),
        final(v)@.to_multiset() == old(v)@.to_multiset(),
        r@ == final(v)@,
{
    let n: usize = v.len();
    for i in 0..n - 1
        invariant
            v.len() == n,
            n >= 1,
            i < n,
            v@.to_multiset() == old(v)@.to_multiset(),
            forall|p: int, q: int|
                n - i <= p < q < n ==> #[trigger] v@[p] <= #[trigger] v@[q],
            forall|p: int, q: int|
                0 <= p < n - i <= q < n ==> #[trigger] v@[p] <= #[trigger] v@[q],
    {
        for j in 0..n - 1 - i
            invariant
                v.len() == n,
                n >= 1,
                i < n,
                j < n - i,
                v@.to_multiset() == old(v)@.to_multiset(),
                forall|p: int, q: int|
                    n - i <= p < q < n ==> #[trigger] v@[p] <= #[trigger] v@[q],
                forall|p: int, q: int|
                    0 <= p < n - i <= q < n ==> #[trigger] v@[p] <= #[trigger] v@[q],
                forall|k: int| 0 <= k <= j ==> #[trigger] v@[k] <= v@[j as int],
        {
            if v[j] > v[j + 1] {
                proof {
                    lemma_swap_to_multiset(v@, j as int, j + 1);
                }
                let lower: i32 = v[j + 1];
                let upper: i32 = v[j];
                v[j] = lower;
                v[j + 1] = upper;
            }
        }
    }
    proof {
        assert forall|p: int, q: int| 0 <= p < q < n implies v@[p] <= v@[q] by {
            if p >= 1 {
                assert(v@[p] <= v@[q]);
            }
        }
    }
    vstd::slice::slice_to_vec(v.as_slice())
}

} // verus!
