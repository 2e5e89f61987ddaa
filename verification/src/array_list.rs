use vstd::prelude::*;

verus! {

/// A list backed by a fixed-size buffer plus a manual length, grown by
/// doubling whenever it fills up. Buffer slots beyond the length always
/// hold zero.
pub struct ArrayList {
    pub length: usize,
    pub inner: Vec<i64>,
    pub capacity: usize,
}

impl View for ArrayList {
    type V = Seq<i64>;

    open spec fn view(&self) -> Seq<i64> {
        self.inner@.subrange(0, self.length as int)
    }
}

impl ArrayList {
    pub open spec fn wf(&self) -> bool {
        &&& self.capacity >= 1
        &&& self.inner@.len() == self.capacity
        &&& self.length <= self.capacity
        &&& forall|k: int| self.length <= k < self.capacity ==> #[trigger] self.inner@[k] == 0
    }

    pub fn new(capacity: usize) -> (r: ArrayList)
        requires
            capacity >= 1,
        ensures
            r.wf(),
            r@ == Seq::<i64>::empty(),
            r.length == 0,
            r.capacity == capacity,
    {
        let mut inner: Vec<i64> = Vec::new();
        let mut k: usize = 0;
        while k < capacity
            invariant
                k <= capacity,
                inner@.len() == k,
                forall|p: int| 0 <= p < k ==> #[trigger] inner@[p] == 0,
            decreases capacity - k,
        {
            inner.push(0);
            k = k + 1;
        }
        let r = ArrayList { length: 0, capacity, inner };
        proof {
            assert(r@ =~= Seq::<i64>::empty());
        }
        r
    }

    /// Doubles the buffer, keeping every slot's contents.
    fn shrink(&mut self)
        requires
            old(self).wf(),
            old(self).capacity <= usize::MAX / 2,
        ensures
            final(self).wf(),
            final(self)@ == old(self)@,
            final(self).length == old(self).length,
            final(self).capacity == 2 * old(self).capacity,
    {
        let new_capacity: usize = self.capacity * 2;
        self.capacity = new_capacity;
        let mut new_inner: Vec<i64> = Vec::new();
        let mut k: usize = 0;
        while k < new_capacity
            invariant
                k <= new_capacity,
                new_inner@.len() == k,
                forall|p: int| 0 <= p < k ==> #[trigger] new_inner@[p] == 0,
            decreases new_capacity - k,
        {
            new_inner.push(0);
            k = k + 1;
        }
        let prev_len: usize = self.inner.len();
        let mut i: usize = 0;
        while i < prev_len
            invariant
                prev_len == self.inner@.len(),
                prev_len <= new_capacity,
                i <= prev_len,
                new_inner@.len() == new_capacity,
                forall|p: int| 0 <= p < i ==> #[trigger] new_inner@[p] == self.inner@[p],
                forall|p: int| i <= p < new_capacity ==> #[trigger] new_inner@[p] == 0,
            decreases prev_len - i,
        {
            let moved: i64 = self.inner[i];
            new_inner[i] = moved;
            i = i + 1;
        }
        self.inner = new_inner;
        proof {
            assert(self@ =~= old(self)@);
        }
    }

    /// Appends an element at the end, growing the buffer if it is full.
    pub fn append(&mut self, item: i64)
        requires
            old(self).wf(),
            old(self).capacity <= usize::MAX / 2,
        ensures
            final(self).wf(),
            final(self)@ == old(self)@.push(item),
            final(self).length == old(self).length + 1,
    {
        if self.inner.len() == self.length {
            self.shrink();
        }
        self.inner[self.length] = item;
        self.length = self.length + 1;
        proof {
            assert(self@ =~= old(self)@.push(item));
        }
    }

    /// Removes and returns the last element; the vacated slot is zeroed.
    pub fn pop(&mut self) -> (r: i64)
        requires
            old(self).wf(),
            old(self).length >= 1,
        ensures
            final(self).wf(),
            r == old(self)@.last(),
            final(self)@ == old(self)@.drop_last(),
            final(self).length == old(self).length - 1,
            final(self).capacity == old(self).capacity,
    {
        let item: i64 = self.inner[self.length - 1];
        self.inner[self.length - 1] = 0;
        self.length = self.length - 1;
        proof {
            assert(self@ =~= old(self)@.drop_last());
        }
        item
    }

    pub fn get(&self, idx: usize) -> (r: Option<&i64>)
        requires
            self.wf(),
        ensures
            idx < self.length ==> r is Some && *r.unwrap() == self@[idx as int],
            idx >= self.length ==> r is None,
    {
        match idx < self.length {
            true => Some(&self.inner[idx]),
            _ => None,
        }
    }

    /// Inserts an element at the given position, shifting the rest up.
    pub fn insert_at(&mut self, item: i64, idx: usize)
        requires
            old(self).wf(),
            idx <= old(self).length,
            old(self).capacity <= usize::MAX / 2,
        ensures
            final(self).wf(),
            final(self)@ == old(self)@.insert(idx as int, item),
            final(self).length == old(self).length + 1,
    {
        if self.inner.len() == self.length {
            self.shrink();
        }
        let ghost snap = self.inner@;
        let mut i: usize = self.length;
        while i > idx
            invariant
                idx <= i <= self.length,
                self.length < self.inner@.len(),
                self.inner@.len() == snap.len(),
                self.length == old(self).length,
                self.capacity == self.inner@.len(),
                forall|p: int| 0 <= p <= i ==> #[trigger] self.inner@[p] == snap[p],
                forall|p: int| i < p <= self.length ==> #[trigger] self.inner@[p] == snap[p - 1],
                forall|p: int|
                    self.length < p < self.inner@.len() ==> #[trigger] self.inner@[p] == snap[p],
            decreases i,
        {
            let moved: i64 = self.inner[i - 1];
            self.inner[i] = moved;
            i = i - 1;
        }
        self.inner[idx] = item;
        self.length = self.length + 1;
        proof {
            assert(self@ =~= old(self)@.insert(idx as int, item));
        }
    }

    /// Inserts at the front.
    pub fn preprend(&mut self, item: i64)
        requires
            old(self).wf(),
            old(self).capacity <= usize::MAX / 2,
        ensures
            final(self).wf(),
            final(self)@ == old(self)@.insert(0, item),
            final(self).length == old(self).length + 1,
    {
        self.insert_at(item, 0);
    }

    /// Removes the first occurrence of the given element, if there is one.
    pub fn remove(&mut self, item: &i64) -> (r: Option<i64>)
        requires
            old(self).wf(),
        ensures
            final(self).wf(),
            old(self)@.contains(*item) ==> r == Some(*item) && final(self)@ == old(self)@.remove(
                old(self)@.index_of_first(*item).unwrap(),
            ),
            !old(self)@.contains(*item) ==> r is None && *final(self) == *old(self),
    {
        let mut i: usize = 0;
        while i < self.length
            invariant
                *self == *old(self),
                self.wf(),
                i <= self.length,
                forall|p: int| 0 <= p < i ==> #[trigger] self.inner@[p] != *item,
            decreases self.length - i,
        {
            if self.inner[i] == *item {
                proof {
                    assert(old(self)@[i as int] == *item);
                    assert(old(self)@.contains(*item));
                    old(self)@.index_of_first_ensures(*item);
                    assert(old(self)@.index_of_first(*item) == Some(i as int));
                }
                let removed = self.remove_at(i);
                match removed {
                    Ok(found) => {
                        return found;
                    },
                    Err(_) => {
                        return None;
                    },
                }
            }
            i = i + 1;
        }
        proof {
            assert forall|p: int| 0 <= p < old(self)@.len() implies old(self)@[p] != *item by {
                assert(self.inner@[p] != *item);
            }
        }
        None
    }

    /// Removes the element at the given position, shifting the rest down;
    /// rejects an out-of-bounds position.
    pub fn remove_at(&mut self, idx: usize) -> (r: Result<Option<i64>, &'static str>)
        requires
            old(self).wf(),
        ensures
            final(self).wf(),
            r is Ok <==> idx < old(self).length,
            idx < old(self).length ==> r == Ok::<Option<i64>, &'static str>(
                Some(old(self)@[idx as int]),
            ) && final(self)@
                == old(self)@.remove(idx as int) && final(self).length == old(self).length - 1
                && final(self).capacity == old(self).capacity,
            idx >= old(self).length ==> *final(self) == *old(self),
    {
        match idx < self.length {
            true => {
                let item: i64 = self.inner[idx];
                let ghost snap = self.inner@;
                let mut i: usize = idx;
                while i < self.length - 1
                    invariant
                        idx <= i <= self.length - 1,
                        1 <= self.length,
                        self.length <= self.inner@.len(),
                        self.inner@.len() == snap.len(),
                        self.length == old(self).length,
                        self.capacity == self.inner@.len(),
                        forall|p: int| 0 <= p < idx ==> #[trigger] self.inner@[p] == snap[p],
                        forall|p: int| idx <= p < i ==> #[trigger] self.inner@[p] == snap[p + 1],
                        forall|p: int|
                            i <= p < self.inner@.len() ==> #[trigger] self.inner@[p] == snap[p],
                    decreases self.length - i,
                {
                    let moved: i64 = self.inner[i + 1];
                    self.inner[i] = moved;
                    i = i + 1;
                }
                self.inner[self.length - 1] = 0;
                self.length = self.length - 1;
                proof {
                    assert(self@ =~= old(self)@.remove(idx as int));
                }
                Ok(Some(item))
            },
            _ => Err("Index out of bounds"),
        }
    }
}

} // verus!
