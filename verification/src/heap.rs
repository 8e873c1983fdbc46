//! An array-backed binary min-heap.

use crate::model::{front_of, popped};
use crate::order::{at_most, le, lemma_le_reflexive, lemma_le_total, lemma_le_transitive, total_order};
use vstd::multiset::{lemma_multiset_empty_len, Multiset};
use vstd::prelude::*;
use vstd::seq_lib::{to_multiset_build, to_multiset_contains, to_multiset_len, to_multiset_remove, to_multiset_update};

verus! {

/// `s` with the items at `i` and `j` exchanged.
spec fn swapped<T>(s: Seq<T>, i: int, j: int) -> Seq<T> {
    s.update(i, s[j]).update(j, s[i])
}

/// Exchanging two items keeps the multiset of items.
proof fn lemma_swapped_same_items<T>(s: Seq<T>, i: int, j: int)
    requires
        0 <= i < s.len(),
        0 <= j < s.len(),
    ensures
        swapped(s, i, j).to_multiset() == s.to_multiset(),
        swapped(s, i, j).len() == s.len(),
{
    let t = s.update(i, s[j]);
    to_multiset_update(s, i, s[j]);
    to_multiset_update(t, j, s[i]);
    to_multiset_contains(s, s[i]);
    to_multiset_contains(s, s[j]);
    assert(s.contains(s[i]));
    assert(s.contains(s[j]));
    assert(swapped(s, i, j).to_multiset() =~= s.to_multiset());
}

/// Exchanges the items at `i` and `j`.
fn swap_at<T>(v: &mut Vec<T>, i: usize, j: usize)
    requires
        i < j < old(v)@.len(),
    ensures
        final(v)@ == swapped(old(v)@, i as int, j as int),
{
    let (low, high) = v.as_mut_slice().split_at_mut(j);
    let (_, mid) = low.split_at_mut(i);
    match (mid.first_mut(), high.first_mut()) {
        (Some(a), Some(b)) => core::mem::swap(a, b),
        _ => {},
    }
}

/// The slot above `i` in the implicit binary tree.
spec fn parent(i: int) -> int {
    (i - 1) / 2
}

/// The item at `i` is ordered no earlier than the one in the slot above it.
spec fn rests_on_parent<T: Ord>(s: Seq<T>, i: int) -> bool {
    le(s[parent(i)], s[i])
}

/// The item at `i` is ordered no earlier than the one two slots above it.
spec fn rests_on_grandparent<T: Ord>(s: Seq<T>, i: int) -> bool {
    le(s[parent(parent(i))], s[i])
}

/// The heap order: every item but the first rests on its parent.
spec fn heap_ordered<T: Ord>(s: Seq<T>) -> bool {
    forall|i: int| 1 <= i < s.len() ==> #[trigger] rests_on_parent(s, i)
}

/// The heap order with a gap at `hole` while an item travels towards the
/// front: every other item rests on its parent, and the items just below
/// `hole` rest on the item just above it.
spec fn ordered_around_rising<T: Ord>(s: Seq<T>, hole: int) -> bool {
    &&& forall|i: int| 1 <= i < s.len() && i != hole ==> #[trigger] rests_on_parent(s, i)
    &&& forall|i: int|
        1 <= i < s.len() && parent(i) == hole && hole >= 1 ==> #[trigger] rests_on_grandparent(
            s,
            i,
        )
}

/// The heap order with a gap below `hole` while an item travels towards the
/// back: every item not just below `hole` rests on its parent, and the items
/// just below `hole` rest on the item just above it.
spec fn ordered_around_sinking<T: Ord>(s: Seq<T>, hole: int) -> bool {
    &&& forall|i: int| 1 <= i < s.len() && parent(i) != hole ==> #[trigger] rests_on_parent(s, i)
    &&& forall|i: int|
        1 <= i < s.len() && parent(i) == hole && hole >= 1 ==> #[trigger] rests_on_grandparent(
            s,
            i,
        )
}

/// In a heap-ordered sequence nothing is ordered before the first item.
proof fn lemma_first_is_least<T: Ord>(s: Seq<T>, i: int)
    requires
        total_order::<T>(),
        heap_ordered(s),
        0 <= i < s.len(),
    ensures
        le(s[0], s[i]),
    decreases i,
{
    if i == 0 {
        lemma_le_reflexive(s[0]);
    } else {
        lemma_first_is_least(s, parent(i));
        assert(rests_on_parent(s, i));
        lemma_le_transitive(s[0], s[parent(i)], s[i]);
    }
}

/// The first item of a heap-ordered sequence is a front of its items.
proof fn lemma_first_is_front<T: Ord>(s: Seq<T>)
    requires
        total_order::<T>() ==> heap_ordered(s),
        s.len() > 0,
    ensures
        front_of(s.to_multiset(), Some(s[0])),
{
    let items = s.to_multiset();
    to_multiset_contains(s, s[0]);
    assert(s.contains(s[0]));
    if total_order::<T>() {
        assert forall|x: T| #[trigger] items.contains(x) implies le(s[0], x) by {
            to_multiset_contains(s, x);
            let i = choose|i: int| 0 <= i < s.len() && s[i] == x;
            lemma_first_is_least(s, i);
        }
    }
}

/// One step of a rising item: where the item at `pos` does not rest on its
/// parent, exchanging the two moves the gap one slot up.
proof fn lemma_rising_step<T: Ord>(s: Seq<T>, pos: int)
    requires
        total_order::<T>(),
        1 <= pos < s.len(),
        ordered_around_rising(s, pos),
        !le(s[parent(pos)], s[pos]),
    ensures
        ordered_around_rising(swapped(s, parent(pos), pos), parent(pos)),
{
    let up = parent(pos);
    let t = swapped(s, up, pos);
    lemma_le_total(s[up], s[pos]);
    assert forall|i: int| 1 <= i < t.len() && i != up implies #[trigger] rests_on_parent(t, i) by {
        if i == pos {
        } else if parent(i) == up {
            assert(rests_on_parent(s, i));
            lemma_le_transitive(s[pos], s[up], s[i]);
        } else if parent(i) == pos {
            assert(rests_on_grandparent(s, i));
        } else {
            assert(rests_on_parent(s, i));
        }
    }
    assert forall|i: int| 1 <= i < t.len() && parent(i) == up && up >= 1 implies #[trigger] rests_on_grandparent(t, i) by {
        assert(rests_on_parent(s, up));
        if i != pos {
            assert(rests_on_parent(s, i));
            lemma_le_transitive(s[parent(up)], s[up], s[i]);
        }
    }
}

/// Moves the last item towards the front until it rests on its parent.
fn sift_up<T: Ord>(v: &mut Vec<T>)
    requires
        old(v)@.len() > 0,
        total_order::<T>() ==> ordered_around_rising(old(v)@, old(v)@.len() - 1),
    ensures
        final(v)@.len() == old(v)@.len(),
        final(v)@.to_multiset() == old(v)@.to_multiset(),
        total_order::<T>() ==> heap_ordered(final(v)@),
{
    let mut pos = v.len() - 1;
    while pos > 0
        invariant
            pos < v@.len(),
            v@.len() == old(v)@.len(),
            v@.to_multiset() == old(v)@.to_multiset(),
            total_order::<T>() ==> ordered_around_rising(v@, pos as int),
        ensures
            v@.len() == old(v)@.len(),
            v@.to_multiset() == old(v)@.to_multiset(),
            total_order::<T>() ==> heap_ordered(v@),
        decreases pos,
    {
        let up = (pos - 1) / 2;
        if at_most(&v[up], &v[pos]) {
            proof {
                if total_order::<T>() {
                    assert(rests_on_parent(v@, pos as int));
                }
            }
            break;
        }
        let ghost before = v@;
        swap_at(v, up, pos);
        proof {
            lemma_swapped_same_items(before, up as int, pos as int);
            if total_order::<T>() {
                lemma_rising_step(before, pos as int);
            }
        }
        pos = up;
    }
}

/// One step of a sinking item: where the item at `pos` is ordered after the
/// least item just below it, exchanging the two moves the gap one slot down.
proof fn lemma_sinking_step<T: Ord>(s: Seq<T>, pos: int, child: int)
    requires
        total_order::<T>(),
        0 <= pos,
        1 <= child < s.len(),
        parent(child) == pos,
        ordered_around_sinking(s, pos),
        forall|i: int| 1 <= i < s.len() && parent(i) == pos ==> le(s[child], #[trigger] s[i]),
        !le(s[pos], s[child]),
    ensures
        ordered_around_sinking(swapped(s, pos, child), child),
{
    let t = swapped(s, pos, child);
    lemma_le_total(s[pos], s[child]);
    assert forall|i: int| 1 <= i < t.len() && parent(i) != child implies #[trigger] rests_on_parent(
        t,
        i,
    ) by {
        if i == child {
        } else if parent(i) == pos {
            assert(le(s[child], s[i]));
        } else if i == pos {
            assert(rests_on_grandparent(s, child));
        } else {
            assert(rests_on_parent(s, i));
        }
    }
    assert forall|i: int|
        1 <= i < t.len() && parent(i) == child && child >= 1 implies #[trigger] rests_on_grandparent(
        t,
        i,
    ) by {
        assert(rests_on_parent(s, i));
    }
}

/// Moves the first item towards the back until the items just below it rest
/// on it.
fn sift_down<T: Ord>(v: &mut Vec<T>)
    requires
        total_order::<T>() ==> ordered_around_sinking(old(v)@, 0),
    ensures
        final(v)@.len() == old(v)@.len(),
        final(v)@.to_multiset() == old(v)@.to_multiset(),
        total_order::<T>() ==> heap_ordered(final(v)@),
{
    let n = v.len();
    let mut pos: usize = 0;
    while n >= 2 && pos <= (n - 2) / 2
        invariant
            n == v@.len(),
            n == old(v)@.len(),
            pos < n || n == 0,
            v@.to_multiset() == old(v)@.to_multiset(),
            total_order::<T>() ==> ordered_around_sinking(v@, pos as int),
        ensures
            v@.len() == old(v)@.len(),
            v@.to_multiset() == old(v)@.to_multiset(),
            total_order::<T>() ==> heap_ordered(v@),
        decreases n - pos,
    {
        let left = 2 * pos + 1;
        let mut child = left;
        if left < n - 1 && at_most(&v[left + 1], &v[left]) {
            child = left + 1;
        }
        let ghost before = v@;
        proof {
            if total_order::<T>() {
                assert forall|i: int| 1 <= i < before.len() && parent(i) == pos implies le(
                    before[child as int],
                    #[trigger] before[i],
                ) by {
                    assert(i == left || i == left + 1);
                    lemma_le_reflexive(before[child as int]);
                    if left < n - 1 {
                        lemma_le_total(before[left + 1], before[left as int]);
                    }
                }
            }
        }
        if at_most(&v[pos], &v[child]) {
            proof {
                if total_order::<T>() {
                    assert forall|i: int| 1 <= i < before.len() implies #[trigger] rests_on_parent(
                        before,
                        i,
                    ) by {
                        if parent(i) == pos {
                            lemma_le_transitive(before[pos as int], before[child as int], before[i]);
                        }
                    }
                }
            }
            break;
        }
        swap_at(v, pos, child);
        proof {
            lemma_swapped_same_items(before, pos as int, child as int);
            if total_order::<T>() {
                lemma_sinking_step(before, pos as int, child as int);
            }
        }
        pos = child;
    }
}

/// Taking the first item of a heap-ordered sequence away by putting the last
/// in its place removes one occurrence of it and leaves a gap below the
/// front.
proof fn lemma_front_removed<T: Ord>(s: Seq<T>)
    requires
        s.len() > 0,
        total_order::<T>() ==> heap_ordered(s),
    ensures
        s.update(0, s.last()).drop_last().to_multiset() == s.to_multiset().remove(s[0]),
        total_order::<T>() ==> ordered_around_sinking(s.update(0, s.last()).drop_last(), 0),
{
    let last = s.len() - 1;
    let t = s.update(0, s.last()).drop_last();
    lemma_swapped_same_items(s, 0, last);
    to_multiset_remove(swapped(s, 0, last), last);
    assert(t =~= swapped(s, 0, last).remove(last));
    if total_order::<T>() {
        assert forall|i: int| 1 <= i < t.len() && parent(i) != 0 implies #[trigger] rests_on_parent(
            t,
            i,
        ) by {
            assert(rests_on_parent(s, i));
        }
    }
}

/// A sequence of no items has the empty multiset of items.
proof fn lemma_no_items<T>(s: Seq<T>)
    requires
        s.len() == 0,
    ensures
        s.to_multiset() == Multiset::<T>::empty(),
{
    to_multiset_len(s);
    lemma_multiset_empty_len(s.to_multiset());
}

/// Appending an item to a heap-ordered sequence adds it to the items and
/// leaves a gap at the last slot.
proof fn lemma_appended_leaves_gap<T: Ord>(s: Seq<T>, item: T)
    requires
        total_order::<T>() ==> heap_ordered(s),
    ensures
        s.push(item).to_multiset() == s.to_multiset().insert(item),
        total_order::<T>() ==> ordered_around_rising(s.push(item), s.len() as int),
{
    let t = s.push(item);
    to_multiset_build(s, item);
    if total_order::<T>() {
        assert forall|i: int| 1 <= i < t.len() && i != s.len() implies #[trigger] rests_on_parent(
            t,
            i,
        ) by {
            assert(rests_on_parent(s, i));
        }
    }
}

/// A binary min-heap: a collection whose least item is at hand.
///
/// Its view is the multiset of the items it holds.
pub struct MinHeap<T: Ord> {
    items: Vec<T>,
}

impl<T: Ord> View for MinHeap<T> {
    type V = Multiset<T>;

    closed spec fn view(&self) -> Multiset<T> {
        self.items@.to_multiset()
    }
}

impl<T: Ord> MinHeap<T> {
    #[verifier::type_invariant]
    spec fn well_ordered(self) -> bool {
        total_order::<T>() ==> heap_ordered(self.items@)
    }

    /// An empty heap.
    pub fn new() -> (heap: Self)
        ensures
            heap@ == Multiset::<T>::empty(),
    {
        let heap = MinHeap { items: Vec::new() };
        proof {
            lemma_no_items(heap.items@);
        }
        heap
    }

    /// An empty heap with room for `capacity` items before it has to grow.
    pub fn with_capacity(capacity: usize) -> (heap: Self)
        ensures
            heap@ == Multiset::<T>::empty(),
    {
        let heap = MinHeap { items: Vec::with_capacity(capacity) };
        proof {
            lemma_no_items(heap.items@);
        }
        heap
    }

    /// The number of items held, as `len` returns it.
    pub closed spec fn spec_len(&self) -> usize {
        self.items.len()
    }

    /// `len` counts the items of the view.
    pub proof fn lemma_len_counts_view(&self)
        ensures
            self.len() == self@.len(),
    {
        to_multiset_len(self.items@);
    }

    /// The number of items held.
    #[verifier::when_used_as_spec(spec_len)]
    pub fn len(&self) -> (n: usize)
        ensures
            n == self.spec_len(),
            n == self@.len(),
    {
        proof {
            self.lemma_len_counts_view();
        }
        self.items.len()
    }

    /// Whether no item is held.
    pub fn is_empty(&self) -> (b: bool)
        ensures
            b == (self.len() == 0),
            b == (self@.len() == 0),
    {
        proof {
            self.lemma_len_counts_view();
        }
        self.items.len() == 0
    }

    /// The front, or `None` where the heap is empty. The heap keeps it.
    pub fn peek(&self) -> (front: Option<&T>)
        ensures
            front_of(
                self@,
                match front {
                    Some(item) => Some(*item),
                    None => None,
                },
            ),
    {
        proof {
            use_type_invariant(self);
            to_multiset_len(self.items@);
        }
        if self.items.len() == 0 {
            None
        } else {
            proof {
                lemma_first_is_front(self.items@);
            }
            Some(&self.items[0])
        }
    }

    /// The items held, in no particular order.
    pub fn into_vec(self) -> (items: Vec<T>)
        ensures
            items@.to_multiset() == self@,
    {
        self.items
    }

    /// Adds `item`.
    pub fn push(&mut self, item: T)
        ensures
            final(self)@ == old(self)@.insert(item),
    {
        proof {
            use_type_invariant(&*self);
        }
        let mut items = self.take_items();
        proof {
            lemma_appended_leaves_gap(items@, item);
        }
        items.push(item);
        sift_up(&mut items);
        self.items = items;
    }

    /// Removes the front and returns it, or returns `None` where the heap is
    /// empty.
    pub fn pop(&mut self) -> (front: Option<T>)
        ensures
            popped(old(self)@, front, final(self)@),
    {
        proof {
            use_type_invariant(&*self);
            to_multiset_len(self.items@);
        }
        let mut items = self.take_items();
        if items.len() == 0 {
            self.items = items;
            return None;
        }
        let ghost before = items@;
        let front = items.swap_remove(0);
        proof {
            lemma_first_is_front(before);
            lemma_front_removed(before);
        }
        sift_down(&mut items);
        self.items = items;
        Some(front)
    }

    /// Hands out the stored items and leaves the heap empty.
    fn take_items(&mut self) -> (items: Vec<T>)
        ensures
            items@ == old(self).items@,
            final(self).items@ == Seq::<T>::empty(),
    {
        let mut items = Vec::new();
        core::mem::swap(&mut items, &mut self.items);
        items
    }
}

} // verus!
