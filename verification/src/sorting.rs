use vstd::prelude::*;
use vstd::seq_lib::group_to_multiset_ensures;
use vstd::multiset::group_multiset_axioms;
use vstd::multiset::Multiset;

verus! {

/// The elements of s appear in nondecreasing order.
pub open spec fn sorted(s: Seq<i32>) -> bool {
    forall|p: int, q: int| 0 <= p < q < s.len() ==> #[trigger] s[p] <= #[trigger] s[q]
}

/// Splicing an element into a sequence adds it, once, to the multiset of
/// elements.
pub proof fn lemma_insert_to_multiset<A>(s: Seq<A>, k: int, x: A)
    requires
        0 <= k <= s.len(),
    ensures
        s.insert(k, x).to_multiset() == s.to_multiset().insert(x),
{
    broadcast use group_to_multiset_ensures;
    broadcast use group_multiset_axioms;

    let t = s.insert(k, x);
    assert(t.remove(k) =~= s);
    assert(t[k] == x);
    assert(t.contains(x));
    assert(s.to_multiset() == t.to_multiset().remove(x));
    assert(t.to_multiset() =~= s.to_multiset().insert(x));
}

/// Overwriting one position trades the old element for the new one in the
/// multiset of elements.
pub proof fn lemma_update_to_multiset<A>(s: Seq<A>, i: int, x: A)
    requires
        0 <= i < s.len(),
    ensures
        s.update(i, x).to_multiset() == s.to_multiset().remove(s[i]).insert(x),
{
    broadcast use group_to_multiset_ensures;
    broadcast use group_multiset_axioms;

    assert(s.update(i, x) =~= s.remove(i).insert(i, x));
    lemma_insert_to_multiset(s.remove(i), i, x);
}

/// Exchanging two positions leaves the multiset of elements unchanged.
pub proof fn lemma_swap_to_multiset<A>(s: Seq<A>, i: int, j: int)
    requires
        0 <= i < s.len(),
        0 <= j < s.len(),
    ensures
        s.update(i, s[j]).update(j, s[i]).to_multiset() == s.to_multiset(),
{
    broadcast use group_to_multiset_ensures;
    broadcast use group_multiset_axioms;

    let t = s.update(i, s[j]);
    lemma_update_to_multiset(s, i, s[j]);
    lemma_update_to_multiset(t, j, s[i]);
    assert(t[j] == s[j]);
    assert(s.contains(s[i]));
    assert(t.update(j, s[i]).to_multiset() =~= s.to_multiset());
}

/// Exchanging two positions inside a window leaves the window's multiset of
/// elements unchanged.
pub proof fn lemma_swap_subrange_multiset<A>(s: Seq<A>, a: int, b: int, i: int, j: int)
    requires
        0 <= a <= i < b <= s.len(),
        a <= j < b,
    ensures
        s.update(i, s[j]).update(j, s[i]).subrange(a, b).to_multiset() == s.subrange(
            a,
            b,
        ).to_multiset(),
{
    let t = s.update(i, s[j]).update(j, s[i]);
    let w = s.subrange(a, b);
    assert(t.subrange(a, b) =~= w.update(i - a, w[j - a]).update(j - a, w[i - a]));
    lemma_swap_to_multiset(w, i - a, j - a);
}

/// Two sequences with one multiset of elements have the same members.
pub proof fn lemma_same_multiset_members<A>(s1: Seq<A>, s2: Seq<A>)
    requires
        s1.to_multiset() == s2.to_multiset(),
    ensures
        forall|k: int| 0 <= k < s1.len() ==> s2.contains(#[trigger] s1[k]),
{
    broadcast use group_to_multiset_ensures;

    assert forall|k: int| 0 <= k < s1.len() implies s2.contains(#[trigger] s1[k]) by {
        assert(s1.contains(s1[k]));
        assert(s1.to_multiset().count(s1[k]) > 0);
        assert(s2.to_multiset().count(s1[k]) > 0);
    }
}

/// The multiset of a concatenation is the sum of the two multisets.
pub proof fn lemma_add_to_multiset<A>(s1: Seq<A>, s2: Seq<A>)
    ensures
        (s1 + s2).to_multiset() == s1.to_multiset().add(s2.to_multiset()),
    decreases s2.len(),
{
    broadcast use group_to_multiset_ensures;
    broadcast use group_multiset_axioms;

    if s2.len() == 0 {
        assert(s1 + s2 =~= s1);
        assert(s2.to_multiset() =~= Multiset::<A>::empty());
        assert((s1 + s2).to_multiset() =~= s1.to_multiset().add(s2.to_multiset()));
    } else {
        let last = s2[s2.len() - 1];
        lemma_add_to_multiset(s1, s2.drop_last());
        assert(s1 + s2 =~= (s1 + s2.drop_last()).push(last));
        assert(s2 =~= s2.drop_last().push(last));
        assert((s1 + s2).to_multiset() =~= s1.to_multiset().add(s2.to_multiset()));
    }
}

} // verus!
