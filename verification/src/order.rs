//! The paint-order rule, stated over the plain list of shapes in the order in
//! which they were inserted.

use crate::bounds::Bounds;
use vstd::prelude::*;

verus! {

/// One stored shape: its rectangle, its payload and the order it was given.
#[derive(Default, Debug, Clone, PartialEq)]
pub struct Primitive<T> {
    pub data: T,
    pub bounds: Bounds,
    pub order: u32,
}

/// The largest order among the shapes of `history` that intersect `bounds`,
/// or zero when none does.
pub open spec fn max_intersecting_order<T>(history: Seq<Primitive<T>>, bounds: Bounds) -> nat
    decreases history.len(),
{
    if history.len() == 0 {
        0
    } else {
        let before = max_intersecting_order(history.drop_last(), bounds);
        let last = history.last();
        if last.bounds.intersects(bounds) && last.order > before {
            last.order as nat
        } else {
            before
        }
    }
}

/// Every shape of `history` got one more than the largest order among the
/// shapes inserted before it that it intersects.
pub open spec fn orders_consistent<T>(history: Seq<Primitive<T>>) -> bool {
    forall|j: int|
        0 <= j < history.len() ==> (#[trigger] history[j]).order == max_intersecting_order(
            history.take(j),
            history[j].bounds,
        ) + 1
}

/// `max_intersecting_order` bounds the order of every intersecting shape, and
/// is the order of one of them unless it is zero.
pub proof fn lemma_max_intersecting_order<T>(history: Seq<Primitive<T>>, bounds: Bounds)
    ensures
        forall|i: int|
            0 <= i < history.len() && (#[trigger] history[i]).bounds.intersects(bounds)
                ==> history[i].order <= max_intersecting_order(history, bounds),
        max_intersecting_order(history, bounds) == 0 || exists|i: int|
            0 <= i < history.len() && (#[trigger] history[i]).bounds.intersects(bounds)
                && history[i].order == max_intersecting_order(history, bounds),
    decreases history.len(),
{
    if history.len() > 0 {
        let init = history.drop_last();
        lemma_max_intersecting_order(init, bounds);
        assert forall|i: int|
            0 <= i < history.len() && (#[trigger] history[i]).bounds.intersects(
                bounds,
            ) implies history[i].order <= max_intersecting_order(history, bounds) by {
            if i < init.len() {
                assert(init[i] == history[i]);
            }
        }
        let m = max_intersecting_order(history, bounds);
        if m != 0 {
            if m == max_intersecting_order(init, bounds) {
                let i = choose|i: int|
                    0 <= i < init.len() && (#[trigger] init[i]).bounds.intersects(bounds)
                        && init[i].order == m;
                assert(history[i] == init[i]);
            } else {
                assert(history[history.len() - 1] == history.last());
            }
        }
    }
}

/// Any number that bounds the intersecting orders and is reached by one of
/// them (or is zero) is `max_intersecting_order`.
pub proof fn lemma_max_intersecting_order_unique<T>(
    history: Seq<Primitive<T>>,
    bounds: Bounds,
    m: nat,
)
    requires
        forall|i: int|
            0 <= i < history.len() && (#[trigger] history[i]).bounds.intersects(bounds)
                ==> history[i].order <= m,
        m == 0 || exists|i: int|
            0 <= i < history.len() && (#[trigger] history[i]).bounds.intersects(bounds)
                && history[i].order == m,
    ensures
        m == max_intersecting_order(history, bounds),
{
    lemma_max_intersecting_order(history, bounds);
}

/// Two lists that hold the same shapes, in whatever sequence, have the same
/// `max_intersecting_order`.
pub proof fn lemma_max_intersecting_order_permutation<T>(
    a: Seq<Primitive<T>>,
    b: Seq<Primitive<T>>,
    bounds: Bounds,
)
    requires
        a.to_multiset() == b.to_multiset(),
    ensures
        max_intersecting_order(a, bounds) == max_intersecting_order(b, bounds),
{
    broadcast use vstd::seq_lib::group_to_multiset_ensures;

    let m = max_intersecting_order(a, bounds);
    lemma_max_intersecting_order(a, bounds);
    assert forall|i: int|
        0 <= i < b.len() && (#[trigger] b[i]).bounds.intersects(bounds) implies b[i].order
        <= m by {
        assert(b.to_multiset().count(b[i]) > 0);
        assert(a.contains(b[i]));
        let k = choose|k: int| 0 <= k < a.len() && a[k] == b[i];
        assert(a[k].bounds.intersects(bounds));
    }
    if m != 0 {
        let i = choose|i: int|
            0 <= i < a.len() && (#[trigger] a[i]).bounds.intersects(bounds) && a[i].order == m;
        assert(a.to_multiset().count(a[i]) > 0);
        assert(b.contains(a[i]));
        let k = choose|k: int| 0 <= k < b.len() && b[k] == a[i];
        assert(b[k].bounds.intersects(bounds));
    }
    lemma_max_intersecting_order_unique(b, bounds, m);
}

/// Appending a shape with the order the rule asks for keeps a list consistent.
pub proof fn lemma_orders_consistent_push<T>(history: Seq<Primitive<T>>, last: Primitive<T>)
    requires
        orders_consistent(history),
        last.order == max_intersecting_order(history, last.bounds) + 1,
    ensures
        orders_consistent(history.push(last)),
{
    let longer = history.push(last);
    assert forall|j: int| 0 <= j < longer.len() implies (#[trigger] longer[j]).order
        == max_intersecting_order(longer.take(j), longer[j].bounds) + 1 by {
        if j < history.len() {
            assert(longer.take(j) =~= history.take(j));
            assert(longer[j] == history[j]);
        } else {
            assert(longer.take(j) =~= history);
        }
    }
}

/// In a consistent list, a shape that intersects an earlier one has a
/// strictly larger order than that earlier one.
pub proof fn lemma_later_overlap_is_above<T>(history: Seq<Primitive<T>>, i: int, j: int)
    requires
        orders_consistent(history),
        0 <= i < j < history.len(),
        history[i].bounds.intersects(history[j].bounds),
    ensures
        history[i].order < history[j].order,
{
    let before = history.take(j);
    lemma_max_intersecting_order(before, history[j].bounds);
    assert(before[i] == history[i]);
}

/// In a consistent list, orders start at one, and the shape at position `j`
/// has an order of at most `j + 1`.
pub proof fn lemma_order_range<T>(history: Seq<Primitive<T>>, j: int)
    requires
        orders_consistent(history),
        0 <= j < history.len(),
    ensures
        1 <= history[j].order <= j + 1,
    decreases j,
{
    let before = history.take(j);
    let m = max_intersecting_order(before, history[j].bounds);
    lemma_max_intersecting_order(before, history[j].bounds);
    if m != 0 {
        let i = choose|i: int|
            0 <= i < before.len() && (#[trigger] before[i]).bounds.intersects(history[j].bounds)
                && before[i].order == m;
        assert(before[i] == history[i]);
        lemma_order_range(history, i);
    }
}

/// In a consistent list, no rectangle can be asked for an order beyond the
/// number of shapes already stored plus one.
pub proof fn lemma_max_intersecting_order_bounded<T>(history: Seq<Primitive<T>>, bounds: Bounds)
    requires
        orders_consistent(history),
    ensures
        max_intersecting_order(history, bounds) <= history.len(),
{
    let m = max_intersecting_order(history, bounds);
    lemma_max_intersecting_order(history, bounds);
    if m != 0 {
        let i = choose|i: int|
            0 <= i < history.len() && (#[trigger] history[i]).bounds.intersects(bounds)
                && history[i].order == m;
        lemma_order_range(history, i);
    }
}

} // verus!
