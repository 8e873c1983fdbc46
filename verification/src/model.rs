//! What a selector retains, stated over multisets of items.
//!
//! The relations here are the vocabulary of the executable contracts: one
//! call of `push` or `pop` is one step of [`pushed`] or [`popped`].

use crate::order::{le, lemma_le_transitive, strict_order, total_order};
use vstd::multiset::{lemma_multiset_empty_len, Multiset};
use vstd::prelude::*;
use vstd::seq_lib::{to_multiset_build, to_multiset_contains, to_multiset_insert, to_multiset_len};

verus! {

/// `out` is what the front of `s` may be: nothing when `s` is empty, otherwise
/// an item of `s`. Where `T` is totally ordered, no item of `s` is ordered
/// before it. Among several least items any one may be the front.
pub open spec fn front_of<T: Ord>(s: Multiset<T>, out: Option<T>) -> bool {
    match out {
        None => s.len() == 0,
        Some(m) => {
            &&& s.contains(m)
            &&& total_order::<T>() ==> forall|x: T| #[trigger] s.contains(x) ==> le(m, x)
        },
    }
}

/// Taking the front away: `out` is a front of `before`, and `after` is `before`
/// without one occurrence of it.
pub open spec fn popped<T: Ord>(before: Multiset<T>, out: Option<T>, after: Multiset<T>) -> bool {
    &&& front_of(before, out)
    &&& after == match out {
        Some(m) => before.remove(m),
        None => before,
    }
}

/// Offering `item` to a selector that retains at most `cap` items: the item
/// joins `before`, and if that makes more than `cap`, a front of the enlarged
/// multiset leaves again.
pub open spec fn pushed<T: Ord>(before: Multiset<T>, cap: nat, item: T, after: Multiset<T>) -> bool {
    if before.len() < cap {
        after == before.insert(item)
    } else {
        exists|m: T| #[trigger] popped(before.insert(item), Some(m), after)
    }
}

/// `kept` is a possible content of a selector of capacity `cap` after `items`
/// were pushed into an empty one, first to last.
pub open spec fn retained_after<T: Ord>(items: Seq<T>, cap: nat, kept: Multiset<T>) -> bool
    decreases items.len(),
{
    if items.len() == 0 {
        kept == Multiset::<T>::empty()
    } else {
        exists|prev: Multiset<T>|
            retained_after(items.drop_last(), cap, prev) && #[trigger] pushed(
                prev,
                cap,
                items.last(),
                kept,
            )
    }
}

/// `out` is a possible result of popping `kept` until a pop returns `None`,
/// first pop first.
pub open spec fn drains_to<T: Ord>(kept: Multiset<T>, out: Seq<T>) -> bool
    decreases out.len(),
{
    if out.len() == 0 {
        popped(kept, None, kept)
    } else {
        &&& popped(kept, Some(out.first()), kept.remove(out.first()))
        &&& drains_to(kept.remove(out.first()), out.drop_first())
    }
}

/// `s` ascends: no item is ordered before an earlier one.
pub open spec fn ascending<T: Ord>(s: Seq<T>) -> bool {
    forall|i: int, j: int| 0 <= i <= j < s.len() ==> le(#[trigger] s[i], #[trigger] s[j])
}

/// `kept` holds greatest items of `all`, as many as `cap` allows: it is taken
/// from `all`, has `min(cap, all.len())` items, and nothing left out is ordered
/// after anything kept.
pub open spec fn is_top<T: Ord>(kept: Multiset<T>, all: Multiset<T>, cap: nat) -> bool {
    &&& kept.subset_of(all)
    &&& kept.len() == if all.len() < cap { all.len() } else { cap }
    &&& forall|x: T, y: T|
        #[trigger] kept.contains(x) && #[trigger] all.sub(kept).contains(y) ==> le(y, x)
}

/// A push adds one item until the capacity is reached and none from then on.
pub proof fn lemma_pushed_len<T: Ord>(before: Multiset<T>, cap: nat, item: T, after: Multiset<T>)
    requires
        pushed(before, cap, item, after),
    ensures
        after.len() == if before.len() < cap { before.len() + 1 } else { before.len() },
{
    if before.len() >= cap {
        let m = choose|m: T| #[trigger] popped(before.insert(item), Some(m), after);
        lemma_remove_len(before.insert(item), m);
    }
}

/// Removing an item that occurs takes one off the length.
pub proof fn lemma_remove_len<T>(s: Multiset<T>, m: T)
    requires
        s.contains(m),
    ensures
        s.remove(m).len() == s.len() - 1,
{
    assert(Multiset::singleton(m).subset_of(s)) by {
        assert forall|v: T| Multiset::singleton(m).count(v) <= s.count(v) by {
            if v != m {
                assert(Multiset::singleton(m).count(v) == 0);
            }
        }
    }
}

/// However many items are pushed, no more than the capacity are retained.
pub proof fn lemma_retained_within_capacity<T: Ord>(items: Seq<T>, cap: nat, kept: Multiset<T>)
    requires
        retained_after(items, cap, kept),
    ensures
        kept.len() <= cap,
    decreases items.len(),
{
    if items.len() > 0 {
        let prev = choose|prev: Multiset<T>|
            retained_after(items.drop_last(), cap, prev) && #[trigger] pushed(
                prev,
                cap,
                items.last(),
                kept,
            );
        lemma_retained_within_capacity(items.drop_last(), cap, prev);
        lemma_pushed_len(prev, cap, items.last(), kept);
    }
}

/// A selector of capacity 0 retains nothing, whatever is pushed, and a pop
/// from it returns `None` and changes nothing.
pub proof fn lemma_zero_capacity_discards<T: Ord>(items: Seq<T>, kept: Multiset<T>)
    requires
        retained_after(items, 0, kept),
    ensures
        kept.len() == 0,
        forall|out: Option<T>, after: Multiset<T>| #[trigger]
            popped(kept, out, after) ==> out is None && after == kept,
{
    lemma_retained_within_capacity(items, 0, kept);
}

/// One push keeps the selection: where `kept` holds the greatest items of
/// `all`, what a push of `item` leaves holds the greatest of `all` and `item`.
pub proof fn lemma_pushed_keeps_top<T: Ord>(
    kept: Multiset<T>,
    all: Multiset<T>,
    cap: nat,
    item: T,
    after: Multiset<T>,
)
    requires
        total_order::<T>(),
        is_top(kept, all, cap),
        pushed(kept, cap, item, after),
    ensures
        is_top(after, all.insert(item), cap),
{
    let more = all.insert(item);
    lemma_pushed_len(kept, cap, item, after);
    if kept.len() < cap {
        assert(all.sub(kept).len() == 0);
        lemma_multiset_empty_len(all.sub(kept));
        assert(after.subset_of(more));
        assert forall|x: T, y: T| #[trigger]
            after.contains(x) && #[trigger] more.sub(after).contains(y) implies le(y, x) by {
            assert(more.sub(after).count(y) == all.sub(kept).count(y));
        }
    } else {
        let held = kept.insert(item);
        let m = choose|m: T| #[trigger] popped(held, Some(m), after);
        assert(after.subset_of(more));
        assert forall|x: T, y: T| #[trigger]
            after.contains(x) && #[trigger] more.sub(after).contains(y) implies le(y, x) by {
            assert(held.contains(x));
            if y != m {
                assert(all.sub(kept).contains(y));
                if !kept.contains(x) {
                    assert(x == item);
                    assert(kept.contains(m));
                    lemma_le_transitive(y, m, x);
                }
            }
        }
    }
}

/// After any pushes into an empty selector, what is retained holds the
/// greatest of the pushed items, as many as the capacity allows. Among equal
/// items any may be retained, but never an item in place of one ordered after
/// it.
pub proof fn lemma_retained_is_top<T: Ord>(items: Seq<T>, cap: nat, kept: Multiset<T>)
    requires
        total_order::<T>(),
        retained_after(items, cap, kept),
    ensures
        is_top(kept, items.to_multiset(), cap),
    decreases items.len(),
{
    if items.len() == 0 {
        to_multiset_len(items);
        lemma_multiset_empty_len(items.to_multiset());
        assert(items.to_multiset().sub(kept) =~= Multiset::<T>::empty());
    } else {
        let prev = choose|prev: Multiset<T>|
            retained_after(items.drop_last(), cap, prev) && #[trigger] pushed(
                prev,
                cap,
                items.last(),
                kept,
            );
        lemma_retained_is_top(items.drop_last(), cap, prev);
        lemma_pushed_keeps_top(prev, items.drop_last().to_multiset(), cap, items.last(), kept);
        to_multiset_build(items.drop_last(), items.last());
        assert(items.drop_last().push(items.last()) =~= items);
    }
}

/// Popping until `None` yields every retained item once, in ascending order,
/// and `None` comes exactly when all of them are out.
pub proof fn lemma_drain_ascending<T: Ord>(kept: Multiset<T>, out: Seq<T>)
    requires
        total_order::<T>(),
        drains_to(kept, out),
    ensures
        ascending(out),
        out.to_multiset() == kept,
        out.len() == kept.len(),
    decreases out.len(),
{
    to_multiset_len(out);
    if out.len() == 0 {
        lemma_multiset_empty_len(kept);
        lemma_multiset_empty_len(out.to_multiset());
    } else {
        let first = out.first();
        let rest = out.drop_first();
        lemma_drain_ascending(kept.remove(first), rest);
        to_multiset_insert(rest, 0, first);
        assert(rest.insert(0, first) =~= out);
        assert(kept.remove(first).insert(first) =~= kept);
        assert forall|i: int, j: int| 0 <= i <= j < out.len() implies le(
            #[trigger] out[i],
            #[trigger] out[j],
        ) by {
            if i == 0 {
                to_multiset_contains(out, out[j]);
                assert(kept.contains(out[j]));
            } else {
                assert(le(rest[i - 1], rest[j - 1]));
            }
        }
    }
}

/// Where the order tells items apart, a multiset has one front.
pub proof fn lemma_front_unique<T: Ord>(s: Multiset<T>, a: Option<T>, b: Option<T>)
    requires
        total_order::<T>(),
        strict_order::<T>(),
        front_of(s, a),
        front_of(s, b),
    ensures
        a == b,
{
    match (a, b) {
        (Some(x), Some(y)) => {
            assert(le(x, y) && le(y, x));
        },
        _ => {},
    }
}

/// Where the order tells items apart, a push has one outcome.
pub proof fn lemma_pushed_unique<T: Ord>(
    before: Multiset<T>,
    cap: nat,
    item: T,
    one: Multiset<T>,
    other: Multiset<T>,
)
    requires
        total_order::<T>(),
        strict_order::<T>(),
        pushed(before, cap, item, one),
        pushed(before, cap, item, other),
    ensures
        one == other,
{
    if before.len() >= cap {
        let held = before.insert(item);
        let m = choose|m: T| #[trigger] popped(held, Some(m), one);
        let n = choose|n: T| #[trigger] popped(held, Some(n), other);
        lemma_front_unique(held, Some(m), Some(n));
    }
}

/// Where the order tells items apart, the greatest items of a multiset are
/// determined: two selections from it of one capacity are the same.
pub proof fn lemma_top_unique<T: Ord>(one: Multiset<T>, other: Multiset<T>, all: Multiset<T>, cap: nat)
    requires
        strict_order::<T>(),
        is_top(one, all, cap),
        is_top(other, all, cap),
    ensures
        one == other,
{
    if one != other {
        assert(!(one =~= other));
        let v = choose|v: T| one.count(v) != other.count(v);
        if one.count(v) > other.count(v) {
            lemma_differ_both_ways(one, other, v);
            let w = choose|w: T| other.count(w) > one.count(w);
            assert(one.contains(v) && all.sub(other).contains(v));
            assert(other.contains(w) && all.sub(one).contains(w));
            assert(le(w, v) && le(v, w));
        } else {
            lemma_differ_both_ways(other, one, v);
            let w = choose|w: T| one.count(w) > other.count(w);
            assert(other.contains(v) && all.sub(one).contains(v));
            assert(one.contains(w) && all.sub(other).contains(w));
            assert(le(w, v) && le(v, w));
        }
    }
}

/// Of two multisets of one length, where the first holds more of some item,
/// the second holds more of another.
proof fn lemma_differ_both_ways<T>(one: Multiset<T>, other: Multiset<T>, v: T)
    requires
        one.len() == other.len(),
        one.count(v) > other.count(v),
    ensures
        exists|w: T| other.count(w) > one.count(w),
{
    if other.subset_of(one) {
        assert(one.sub(other).len() == 0);
        lemma_multiset_empty_len(one.sub(other));
        assert(one.sub(other).count(v) == 0);
    }
}

} // verus!
