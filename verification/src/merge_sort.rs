use vstd::prelude::*;
use vstd::multiset::group_multiset_axioms;
use vstd::seq_lib::group_to_multiset_ensures;
use crate::sorting::lemma_add_to_multiset;
use crate::sorting::sorted;

verus! {

/// Merges the sorted runs before and after mid into one sorted run, working
/// from copies of both halves.
fn merge(arr: &mut Vec<i32>, lo: usize, mid: usize, hi: usize)
    requires
        lo <= mid <= hi <= old(arr).len(),
        sorted(old(arr)@.subrange(lo as int, mid as int)),
        sorted(old(arr)@.subrange(mid as int, hi as int)),
    ensures
        final(arr).len() == old(arr).len(),
        forall|k: int| 0 <= k < lo ==> #[trigger] final(arr)@[k] == old(arr)@[k],
        forall|k: int| hi <= k < old(arr).len() ==> #[trigger] final(arr)@[k] == old(arr)@[k],
        sorted(final(arr)@.subrange(lo as int, hi as int)),
        final(arr)@.subrange(lo as int, hi as int).to_multiset() == old(arr)@.subrange(
            lo as int,
            hi as int,
        ).to_multiset(),
{
    broadcast use group_multiset_axioms;
    broadcast use group_to_multiset_ensures;
    broadcast use vstd::multiset::group_multiset_properties;

    let mut left: Vec<i32> = Vec::new();
    let mut t: usize = lo;
    while t < mid
        invariant
            lo <= t <= mid <= hi <= arr.len(),
            arr@ == old(arr)@,
            left@ =~= arr@.subrange(lo as int, t as int),
        decreases mid - t,
    {
        let moved: i32 = arr[t];
        left.push(moved);
        t = t + 1;
    }
    let mut right: Vec<i32> = Vec::new();
    let mut u: usize = mid;
    while u < hi
        invariant
            lo <= mid <= u <= hi <= arr.len(),
            arr@ == old(arr)@,
            right@ =~= arr@.subrange(mid as int, u as int),
        decreases hi - u,
    {
        let moved: i32 = arr[u];
        right.push(moved);
        u = u + 1;
    }
    proof {
        assert(left@ == old(arr)@.subrange(lo as int, mid as int));
        assert(right@ == old(arr)@.subrange(mid as int, hi as int));
        assert(arr@.subrange(lo as int, lo as int) =~= Seq::<i32>::empty());
        assert(left@.subrange(0, 0) =~= Seq::<i32>::empty());
        assert(right@.subrange(0, 0) =~= Seq::<i32>::empty());
        assert(Seq::<i32>::empty().to_multiset() =~= Seq::<i32>::empty().to_multiset().add(
            Seq::<i32>::empty().to_multiset(),
        ));
    }
    let mut l: usize = 0;
    let mut r: usize = 0;
    let mut pos: usize = lo;
    while pos < hi
        invariant
            lo <= mid <= hi <= arr.len(),
            arr.len() == old(arr).len(),
            left@ == old(arr)@.subrange(lo as int, mid as int),
            right@ == old(arr)@.subrange(mid as int, hi as int),
            sorted(left@),
            sorted(right@),
            l <= left@.len(),
            r <= right@.len(),
            lo <= pos <= hi,
            l + r == pos - lo,
            forall|k: int| 0 <= k < lo ==> #[trigger] arr@[k] == old(arr)@[k],
            forall|k: int| hi <= k < arr@.len() ==> #[trigger] arr@[k] == old(arr)@[k],
            sorted(arr@.subrange(lo as int, pos as int)),
            arr@.subrange(lo as int, pos as int).to_multiset() == left@.subrange(
                0,
                l as int,
            ).to_multiset().add(right@.subrange(0, r as int).to_multiset()),
            forall|k: int, m: int|
                lo <= k < pos && l <= m < left@.len() ==> #[trigger] arr@[k] <= #[trigger] left@[m],
            forall|k: int, m: int|
                lo <= k < pos && r <= m < right@.len() ==> #[trigger] arr@[k] <= #[trigger] right@[m],
        decreases hi - pos,
    {
        let ghost before = arr@;
        let take_left: bool = if r == right.len() {
            true
        } else if l < left.len() && left[l] < right[r] {
            true
        } else {
            false
        };
        if take_left {
            let chosen: i32 = left[l];
            arr[pos] = chosen;
            proof {
                let whole = before.subrange(lo as int, pos as int);
                let part = left@.subrange(0, l as int);
                whole.to_multiset_ensures();
                part.to_multiset_ensures();
                assert(arr@.subrange(lo as int, pos + 1) =~= whole.push(chosen));
                assert(whole.push(chosen).to_multiset() =~= whole.to_multiset().insert(chosen));
                assert(left@.subrange(0, l + 1) =~= part.push(chosen));
                assert(part.push(chosen).to_multiset() =~= part.to_multiset().insert(chosen));
                assert(whole.to_multiset().insert(chosen) =~= part.to_multiset().insert(
                    chosen,
                ).add(right@.subrange(0, r as int).to_multiset()));
                assert(arr@.subrange(lo as int, pos as int) =~= whole);
            }
            l = l + 1;
        } else {
            let chosen: i32 = right[r];
            arr[pos] = chosen;
            proof {
                let whole = before.subrange(lo as int, pos as int);
                let part = right@.subrange(0, r as int);
                whole.to_multiset_ensures();
                part.to_multiset_ensures();
                assert(arr@.subrange(lo as int, pos + 1) =~= whole.push(chosen));
                assert(whole.push(chosen).to_multiset() =~= whole.to_multiset().insert(chosen));
                assert(right@.subrange(0, r + 1) =~= part.push(chosen));
                assert(part.push(chosen).to_multiset() =~= part.to_multiset().insert(chosen));
                assert(whole.to_multiset().insert(chosen) =~= left@.subrange(
                    0,
                    l as int,
                ).to_multiset().add(part.to_multiset().insert(chosen)));
                assert(arr@.subrange(lo as int, pos as int) =~= whole);
            }
            r = r + 1;
        }
        pos = pos + 1;
    }
    proof {
        assert(left@.subrange(0, l as int) =~= left@);
        assert(right@.subrange(0, r as int) =~= right@);
        assert(old(arr)@.subrange(lo as int, hi as int) =~= left@ + right@);
        lemma_add_to_multiset(left@, right@);
    }
}

/// Sorts the window between lo and hi by halving, recursion, and a merge.
fn merge_sort_range(arr: &mut Vec<i32>, lo: usize, hi: usize)
    requires
        lo <= hi <= old(arr).len(),
    ensures
        final(arr).len() == old(arr).len(),
        forall|k: int| 0 <= k < lo ==> #[trigger] final(arr)@[k] == old(arr)@[k],
        forall|k: int| hi <= k < old(arr).len() ==> #[trigger] final(arr)@[k] == old(arr)@[k],
        sorted(final(arr)@.subrange(lo as int, hi as int)),
        final(arr)@.subrange(lo as int, hi as int).to_multiset() == old(arr)@.subrange(
            lo as int,
            hi as int,
        ).to_multiset(),
    decreases hi - lo,
{
    if hi - lo > 1 {
        let mid: usize = lo + (hi - lo) / 2;
        let ghost s0 = arr@;
        merge_sort_range(arr, lo, mid);
        let ghost s1 = arr@;
        merge_sort_range(arr, mid, hi);
        let ghost s2 = arr@;
        proof {
            assert(s2.subrange(lo as int, mid as int) =~= s1.subrange(lo as int, mid as int));
            assert(s1.subrange(mid as int, hi as int) =~= s0.subrange(mid as int, hi as int));
        }
        merge(arr, lo, mid, hi);
        proof {
            lemma_add_to_multiset(
                s0.subrange(lo as int, mid as int),
                s0.subrange(mid as int, hi as int),
            );
            lemma_add_to_multiset(
                s2.subrange(lo as int, mid as int),
                s2.subrange(mid as int, hi as int),
            );
            assert(s0.subrange(lo as int, hi as int) =~= s0.subrange(lo as int, mid as int)
                + s0.subrange(mid as int, hi as int));
            assert(s2.subrange(lo as int, hi as int) =~= s2.subrange(lo as int, mid as int)
                + s2.subrange(mid as int, hi as int));
        }
    } else {
        proof {
            let w = arr@.subrange(lo as int, hi as int);
            assert(sorted(w));
        }
    }
}

/// Merge sort: the vector is sorted in place and a copy of it is returned.
pub fn merge_sort(arr: &mut Vec<i32>) -> (r: Vec<i32>)
    ensures
        final(arr).len() == old(arr).len(),
        sorted(final(arr)@),
        final(arr)@.to_multiset() == old(arr)@.to_multiset(),
        r@ == final(arr)@,
{
    let len: usize = arr.len();
    merge_sort_range(arr, 0, len);
    proof {
        assert(arr@.subrange(0, len as int) =~= arr@);
        assert(old(arr)@.subrange(0, len as int) =~= old(arr)@);
    }
    vstd::slice::slice_to_vec(arr.as_slice())
}

} // verus!
