//! Positional, cloning access to a `VecDeque` through its two contiguous halves.

use vstd::prelude::*;
use std::collections::VecDeque;

verus! {

/// The two slices that hold a deque's elements (`VecDeque::as_slices`): the
/// documentation says they contain, in order, the contents of the deque.
#[verifier::external_body]
fn deque_as_slices<T>(v: &VecDeque<T>) -> (r: (&[T], &[T]))
    ensures
        r.0@ + r.1@ == v@,
{
    v.as_slices()
}

/// A deque read by position; what it hands out are clones.
pub struct VecDequeIndex<T> {
    value: VecDeque<T>,
}

impl<T> View for VecDequeIndex<T> {
    type V = Seq<T>;

    closed spec fn view(&self) -> Seq<T> {
        self.value@
    }
}

impl<T> VecDequeIndex<T> {
    /// Wraps `value`.
    pub fn from_deque(value: VecDeque<T>) -> (r: VecDequeIndex<T>)
        ensures
            r@ == value@,
    {
        VecDequeIndex { value }
    }

    /// The number of elements.
    pub fn len(&self) -> (n: usize)
        ensures
            n == self@.len(),
    {
        self.value.len()
    }
}

impl<T: Clone> VecDequeIndex<T> {
    /// A clone of the element at position `i`, or `None` past the end.
    pub fn get(&self, i: usize) -> (r: Option<T>)
        ensures
            i < self@.len() ==> (r matches Some(x) && cloned(self@[i as int], x)),
            i >= self@.len() ==> r is None,
    {
        let (a, b) = deque_as_slices(&self.value);
        if i < a.len() {
            Some(a[i].clone())
        } else if i - a.len() < b.len() {
            let j = i - a.len();
            assert((a@ + b@)[i as int] == b@[j as int]);
            Some(b[j].clone())
        } else {
            None
        }
    }
}

} // verus!
