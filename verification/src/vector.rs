use vstd::prelude::*;

verus! {

/// A growable array that manages its own capacity: empty at first, four
/// slots on the first push, doubling whenever it is full.
pub struct MyVec<T> {
    inner: Vec<T>,
    capacity: usize,
    len: usize,
}

impl<T> View for MyVec<T> {
    type V = Seq<T>;

    closed spec fn view(&self) -> Seq<T> {
        self.inner@
    }
}

impl<T> MyVec<T> {
    pub closed spec fn wf(&self) -> bool {
        &&& self.len == self.inner@.len()
        &&& self.len <= self.capacity
        &&& (self.capacity == 0 ==> self.len == 0)
    }

    pub closed spec fn spec_capacity(&self) -> usize {
        self.capacity
    }

    pub fn new() -> (r: Self)
        ensures
            r.wf(),
            r@ == Seq::<T>::empty(),
            r.spec_capacity() == 0,
    {
        MyVec { inner: Vec::new(), capacity: 0, len: 0 }
    }

    pub fn capacity(&self) -> (r: usize)
        ensures
            r == self.spec_capacity(),
    {
        self.capacity
    }

    /// Appends an element, growing the capacity by the doubling policy.
    pub fn push(&mut self, item: T)
        requires
            old(self).wf(),
            old(self).spec_capacity() <= usize::MAX / 2,
        ensures
            final(self).wf(),
            final(self)@ == old(self)@.push(item),
            final(self).spec_capacity() == if old(self).spec_capacity() == 0 {
                4int
            } else if old(self)@.len() < old(self).spec_capacity() {
                old(self).spec_capacity() as int
            } else {
                2 * old(self).spec_capacity()
            },
    {
        if self.capacity == 0 {
            self.inner.push(item);
            self.capacity = 4;
            self.len = 1;
        } else if self.len < self.capacity {
            self.inner.push(item);
            self.len = self.len + 1;
        } else {
            let new_capacity = self.capacity * 2;
            self.inner.push(item);
            self.len = self.len + 1;
            self.capacity = new_capacity;
        }
    }

    pub fn get(&self, index: usize) -> (r: Option<&T>)
        requires
            self.wf(),
        ensures
            index < self@.len() ==> r is Some && *r.unwrap() == self@[index as int],
            index >= self@.len() ==> r is None,
    {
        if index >= self.len {
            return None;
        }
        Some(&self.inner[index])
    }

    pub fn len(&self) -> (r: usize)
        requires
            self.wf(),
        ensures
            r == self@.len(),
    {
        self.len
    }
}

} // verus!
