use vstd::prelude::*;
use crate::sorting::lemma_add_to_multiset;
use crate::sorting::lemma_same_multiset_members;
use crate::sorting::lemma_swap_subrange_multiset;
use crate::sorting::sorted;

verus! {

/// Hoists everything below the pivot (the last element of the window) in
/// front of it and puts the pivot between the two parts, reporting where it
/// landed.
fn partition(arr: &mut Vec<i32>, start: usize, end: usize) -> (part: usize)
    requires
        start < end < old(arr).len(),
    ensures
        final(arr).len() == old(arr).len(),
        forall|k: int| 0 <= k < start ==> #[trigger] final(arr)@[k] == old(arr)@[k],
        forall|k: int| end < k < old(arr).len() ==> #[trigger] final(arr)@[k] == old(arr)@[k],
        start <= part <= end,
        final(arr)@.subrange(start as int, end + 1).to_multiset() == old(arr)@.subrange(
            start as int,
            end + 1,
        ).to_multiset(),
        forall|k: int| start <= k < part ==> #[trigger] final(arr)@[k] < final(arr)@[part as int],
        forall|k: int| part < k <= end ==> #[trigger] final(arr)@[k] >= final(arr)@[part as int],
{
    let mut i: usize = start;
    let mut j: usize = start;
    while j < end
        invariant
            start <= i <= j <= end < arr.len(),
            arr.len() == old(arr).len(),
            forall|k: int| 0 <= k < start ==> #[trigger] arr@[k] == old(arr)@[k],
            forall|k: int| end < k < arr@.len() ==> #[trigger] arr@[k] == old(arr)@[k],
            arr@.subrange(start as int, end + 1).to_multiset() == old(arr)@.subrange(
                start as int,
                end + 1,
            ).to_multiset(),
            arr@[end as int] == old(arr)@[end as int],
            forall|k: int| start <= k < i ==> #[trigger] arr@[k] < arr@[end as int],
            forall|k: int| i <= k < j ==> #[trigger] arr@[k] >= arr@[end as int],
        decreases end - j,
    {
        if arr[j] < arr[end] {
            proof {
                lemma_swap_subrange_multiset(arr@, start as int, end + 1, i as int, j as int);
            }
            let lower: i32 = arr[j];
            let higher: i32 = arr[i];
            arr[i] = lower;
            arr[j] = higher;
            i = i + 1;
        }
        j = j + 1;
    }
    proof {
        lemma_swap_subrange_multiset(arr@, start as int, end + 1, i as int, end as int);
    }
    let pivot_value: i32 = arr[end];
    let displaced: i32 = arr[i];
    arr[i] = pivot_value;
    arr[end] = displaced;
    i
}

/// Quicksort over the window from start to end, both included. The window
/// is sorted in place and a copy of the whole vector is returned.
pub fn quicksort(arr: &mut Vec<i32>, start: usize, end: usize) -> (r: Vec<i32>)
    requires
        start < end ==> end < old(arr).len(),
    ensures
        final(arr).len() == old(arr).len(),
        forall|k: int|
            0 <= k < old(arr).len() && !(start <= k <= end) ==> #[trigger] final(arr)@[k] == old(
                arr,
            )@[k],
        start <= end < old(arr).len() ==> sorted(final(arr)@.subrange(start as int, end + 1))
            && final(arr)@.subrange(start as int, end + 1).to_multiset() == old(arr)@.subrange(
            start as int,
            end + 1,
        ).to_multiset(),
        start >= end ==> final(arr)@ == old(arr)@,
        r@ == final(arr)@,
    decreases end + 1 - start,
{
    if start < end {
        let ghost s0 = arr@;
        let part = partition(arr, start, end);
        let ghost s1 = arr@;
        if part > start {
            quicksort(arr, start, part - 1);
        }
        let ghost s2 = arr@;
        proof {
            if part > start {
                assert(s2.subrange(start as int, part as int).to_multiset() == s1.subrange(
                    start as int,
                    part as int,
                ).to_multiset()) by {
                    assert(s2.subrange(start as int, part as int) =~= s2.subrange(
                        start as int,
                        part - 1 + 1,
                    ));
                    assert(s1.subrange(start as int, part as int) =~= s1.subrange(
                        start as int,
                        part - 1 + 1,
                    ));
                }
            } else {
                assert(s2.subrange(start as int, part as int) =~= s1.subrange(
                    start as int,
                    part as int,
                ));
            }
            assert(s2[part as int] == s1[part as int]);
            assert(s2.subrange(part + 1, end + 1) =~= s1.subrange(part + 1, end + 1));
        }
        quicksort(arr, part + 1, end);
        let ghost s3 = arr@;
        proof {
            // the two sorted parts still flank the pivot
            assert(s3.subrange(start as int, part as int) =~= s2.subrange(
                start as int,
                part as int,
            ));
            assert(s3[part as int] == s2[part as int]);
            if part + 1 <= end {
                assert(s3.subrange(part + 1, end + 1).to_multiset() == s2.subrange(
                    part + 1,
                    end + 1,
                ).to_multiset());
            } else {
                assert(s3.subrange(part + 1, end + 1) =~= s2.subrange(part + 1, end + 1));
            }
            // everything in front of the pivot is still below it, and
            // everything after it still is not
            lemma_same_multiset_members(
                s3.subrange(start as int, part as int),
                s1.subrange(start as int, part as int),
            );
            lemma_same_multiset_members(
                s3.subrange(part + 1, end + 1),
                s2.subrange(part + 1, end + 1),
            );
            assert forall|k: int| start <= k < part implies #[trigger] s3[k] < s3[part as int] by {
                assert(s3.subrange(start as int, part as int)[k - start] == s3[k]);
                let w = s1.subrange(start as int, part as int);
                assert(w.contains(s3[k]));
                let q = choose|q: int| 0 <= q < w.len() && w[q] == s3[k];
                assert(s1[start + q] == s3[k]);
            }
            assert forall|k: int| part < k <= end implies #[trigger] s3[k] >= s3[part as int] by {
                assert(s3.subrange(part + 1, end + 1)[k - part - 1] == s3[k]);
                let w = s2.subrange(part + 1, end + 1);
                assert(w.contains(s3[k]));
                let q = choose|q: int| 0 <= q < w.len() && w[q] == s3[k];
                assert(s2[part + 1 + q] == s3[k]);
                assert(s1[part + 1 + q] == s2[part + 1 + q]);
            }
            // the window is sorted
            assert forall|k1: int, k2: int|
                start <= k1 < k2 <= end implies #[trigger] s3[k1] <= #[trigger] s3[k2] by {
                if k1 < part && k2 < part {
                    assert(s3.subrange(start as int, part as int)[k1 - start] == s3[k1]);
                    assert(s3.subrange(start as int, part as int)[k2 - start] == s3[k2]);
                } else if k1 > part && k2 > part {
                    assert(s3.subrange(part + 1, end + 1)[k1 - part - 1] == s3[k1]);
                    assert(s3.subrange(part + 1, end + 1)[k2 - part - 1] == s3[k2]);
                }
            }
            assert(sorted(s3.subrange(start as int, end + 1))) by {
                assert forall|p: int, q: int|
                    0 <= p < q < s3.subrange(start as int, end + 1).len() implies #[trigger]
                s3.subrange(start as int, end + 1)[p] <= #[trigger] s3.subrange(
                    start as int,
                    end + 1,
                )[q] by {
                    assert(s3[start + p] <= s3[start + q]);
                }
            }
            // the window's multiset of elements is preserved throughout
            assert(s3.subrange(start as int, end + 1).to_multiset() == s1.subrange(
                start as int,
                end + 1,
            ).to_multiset()) by {
                lemma_add_to_multiset(
                    s1.subrange(start as int, part as int),
                    s1.subrange(part as int, part + 1),
                );
                lemma_add_to_multiset(
                    s1.subrange(start as int, part + 1),
                    s1.subrange(part + 1, end + 1),
                );
                lemma_add_to_multiset(
                    s3.subrange(start as int, part as int),
                    s3.subrange(part as int, part + 1),
                );
                lemma_add_to_multiset(
                    s3.subrange(start as int, part + 1),
                    s3.subrange(part + 1, end + 1),
                );
                assert(s1.subrange(start as int, part + 1) =~= s1.subrange(start as int, part as int)
                    + s1.subrange(part as int, part + 1));
                assert(s1.subrange(start as int, end + 1) =~= s1.subrange(start as int, part + 1)
                    + s1.subrange(part + 1, end + 1));
                assert(s3.subrange(start as int, part + 1) =~= s3.subrange(start as int, part as int)
                    + s3.subrange(part as int, part + 1));
                assert(s3.subrange(start as int, end + 1) =~= s3.subrange(start as int, part + 1)
                    + s3.subrange(part + 1, end + 1));
                assert(s3.subrange(part as int, part + 1) =~= s1.subrange(part as int, part + 1));
                assert(s3.subrange(part + 1, end + 1).to_multiset() == s1.subrange(
                    part + 1,
                    end + 1,
                ).to_multiset());
            }
        }
    }
    vstd::slice::slice_to_vec(arr.as_slice())
}

} // verus!
