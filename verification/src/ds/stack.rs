use vstd::prelude::*;
use crate::linked_list::List;

verus! {

/// First in, first out: a queue fed by the front-pushing linked list.
pub struct Queue<T> {
    pub head: List<T>,
}

} // verus!
