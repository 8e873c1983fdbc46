//! The bounded selector.

use crate::heap::MinHeap;
use crate::model::{front_of, popped, pushed};
use vstd::multiset::Multiset;
use vstd::prelude::*;
use vstd::std_specs::iter::IteratorSpec;

verus! {

/// Collects the greatest `capacity` items of those pushed into it.
///
/// Its view is the multiset of the items it retains. Pushing into a full
/// selector evicts a least item at once, so the view never holds more than
/// `capacity` items. Popping between pushes is allowed; the selector then
/// selects among the items still resident, not among all that were pushed.
pub struct TopN<T: Ord> {
    capacity: usize,
    heap: MinHeap<T>,
}

impl<T: Ord> View for TopN<T> {
    type V = Multiset<T>;

    closed spec fn view(&self) -> Multiset<T> {
        self.heap@
    }
}

impl<T: Ord> TopN<T> {
    #[verifier::type_invariant]
    spec fn within_capacity(self) -> bool {
        self.heap@.len() <= self.capacity
    }

    /// The capacity the selector was made with.
    pub closed spec fn spec_capacity(&self) -> usize {
        self.capacity
    }

    /// An empty selector that retains at most `capacity` items. With a
    /// `capacity` of 0 it discards whatever is pushed.
    pub fn new(capacity: usize) -> (topn: TopN<T>)
        ensures
            topn@ == Multiset::<T>::empty(),
            topn.capacity() == capacity,
    {
        let heap = match capacity.checked_add(1) {
            Some(room) => MinHeap::with_capacity(room),
            None => MinHeap::new(),
        };
        TopN { capacity, heap }
    }

    /// Offers `item`: it is retained, and where that exceeds the capacity a
    /// least item of those now held is evicted.
    pub fn push(&mut self, item: T)
        ensures
            final(self).capacity() == old(self).capacity(),
            pushed(old(self)@, old(self).capacity() as nat, item, final(self)@),
            final(self)@.len() <= final(self).capacity(),
    {
        proof {
            use_type_invariant(&*self);
        }
        let mut heap = self.take_heap();
        heap.push(item);
        if heap.len() > self.capacity {
            heap.pop();
        }
        self.heap = heap;
    }

    /// Removes the least retained item and returns it, or returns `None`
    /// where nothing is retained. Popping until `None` yields the retained
    /// items in ascending order.
    pub fn pop(&mut self) -> (least: Option<T>)
        ensures
            final(self).capacity() == old(self).capacity(),
            popped(old(self)@, least, final(self)@),
            least is None <==> old(self)@.len() == 0,
    {
        proof {
            use_type_invariant(&*self);
        }
        let mut heap = self.take_heap();
        let least = heap.pop();
        self.heap = heap;
        least
    }

    /// The number of items retained, as `len` returns it.
    pub closed spec fn spec_len(&self) -> usize {
        self.heap.len()
    }

    /// `len` counts the items of the view.
    pub proof fn lemma_len_counts_view(&self)
        ensures
            self.len() == self@.len(),
    {
        self.heap.lemma_len_counts_view();
    }

    /// The number of items retained. It never exceeds the capacity.
    #[verifier::when_used_as_spec(spec_len)]
    pub fn len(&self) -> (n: usize)
        ensures
            n == self.spec_len(),
            n == self@.len(),
            n <= self.capacity(),
    {
        proof {
            use_type_invariant(self);
            self.lemma_len_counts_view();
        }
        self.heap.len()
    }

    /// The greatest number of items the selector retains.
    #[verifier::when_used_as_spec(spec_capacity)]
    pub fn capacity(&self) -> (capacity: usize)
        ensures
            capacity == self.spec_capacity(),
    {
        self.capacity
    }

    /// Whether nothing is retained: whether `len` is 0.
    pub fn is_empty(&self) -> (b: bool)
        ensures
            b == (self.len() == 0),
            b == (self@.len() == 0),
    {
        self.heap.is_empty()
    }

    /// The least retained item, or `None` where nothing is retained. The
    /// selector keeps it.
    pub fn peek(&self) -> (least: Option<&T>)
        ensures
            front_of(
                self@,
                match least {
                    Some(item) => Some(*item),
                    None => None,
                },
            ),
    {
        self.heap.peek()
    }

    /// Hands out the heap and leaves the selector empty.
    fn take_heap(&mut self) -> (heap: MinHeap<T>)
        ensures
            heap@ == old(self)@,
            final(self)@ == Multiset::<T>::empty(),
            final(self).capacity() == old(self).capacity(),
    {
        let mut heap = MinHeap::new();
        core::mem::swap(&mut heap, &mut self.heap);
        heap
    }
}

impl<T: Ord> IntoIterator for TopN<T> {
    type Item = T;

    type IntoIter = std::vec::IntoIter<T>;

    /// Hands out the retained items in no particular order. A caller that
    /// needs them sorted sorts them, or pops them one by one.
    fn into_iter(self) -> (items: std::vec::IntoIter<T>)
        ensures
            items.remaining().to_multiset() == self@,
            items.decrease() is Some,
            items.initial_value_relation(&items),
    {
        self.heap.into_vec().into_iter()
    }
}

} // verus!
