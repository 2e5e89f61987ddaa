use vstd::prelude::*;
use crate::sorting::lemma_swap_to_multiset;
use crate::sorting::sorted;

verus! {

/// Selection sort: repeatedly move the smallest remaining element to the
/// front. The vector is sorted in place and a copy of it is returned.
pub fn selection_sort(vec: &mut Vec<i32>) -> (r: Vec<i32>)
    requires
        old(vec).len() >= 1,
    ensures
        final(vec).len() == old(vec).len(),
        sorted(final(vec)@),
        final(vec)@.to_multiset() == old(vec)@.to_multiset(),
        r@ == final(vec)@,
{
    let n: usize = vec.len();
    for i in 0..n - 1
        invariant
            vec.len() == n,
            n >= 1,
            vec@.to_multiset() == old(vec)@.to_multiset(),
            forall|p: int, q: int| 0 <= p < q < i ==> #[trigger] vec@[p] <= #[trigger] vec@[q],
            forall|p: int, q: int|
                0 <= p < i <= q < n ==> #[trigger] vec@[p] <= #[trigger] vec@[q],
    {
        let mut smallest: usize = i;
        for j in (i + 1)..n
            invariant
                vec.len() == n,
                i < n,
                i <= smallest < n,
                i < j <= n,
                forall|k: int| i <= k < j ==> vec@[smallest as int] <= #[trigger] vec@[k],
        {
            if vec[j] < vec[smallest] {
                smallest = j;
            }
        }
        proof {
            lemma_swap_to_multiset(vec@, smallest as int, i as int);
        }
        let chosen: i32 = vec[smallest];
        let displaced: i32 = vec[i];
        vec[smallest] = displaced;
        vec[i] = chosen;
    }
    proof {
        assert forall|p: int, q: int| 0 <= p < q < n implies vec@[p] <= vec@[q] by {
            if q < n - 1 {
                assert(vec@[p] <= vec@[q]);
            }
        }
    }
    vstd::slice::slice_to_vec(vec.as_slice())
}

} // verus!
