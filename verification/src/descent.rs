//! Reasoning along one root-to-leaf path.
//!
//! An insertion walks from the root to a leaf, touches every node it passes,
//! and replaces the leaf it ends on by a small subtree. A `Frame` records one
//! step of that walk: the node passed, the side taken, and the subtree left
//! aside. A list of frames, outermost first, together with the subtree below
//! the last step gives back the whole tree.

use crate::arena::Node;
use crate::arena::Shape;
use crate::arena::higher;
use crate::arena::lemma_max_intersecting_order_concat;
use crate::arena::lemma_valid_frame;
use crate::arena::lemma_valid_indices;
use crate::arena::traversal;
use crate::arena::valid;
use crate::bounds::Bounds;
use crate::order::Primitive;
use crate::order::max_intersecting_order;
use vstd::multiset::Multiset;
use vstd::prelude::*;
use vstd::seq_lib::lemma_multiset_commutative;

verus! {

/// One step down: the internal node at `index` was passed, the walk went on
/// into its left child if `went_left` (else its right), and `other` is the
/// shape of the child that was not entered.
pub struct Frame {
    pub index: usize,
    pub went_left: bool,
    pub other: Shape,
}

impl Frame {
    /// The node of this step with `sub` as the child that was entered.
    pub open spec fn fill(self, sub: Shape) -> Shape {
        if self.went_left {
            Shape::Internal { index: self.index, left: Box::new(sub), right: Box::new(self.other) }
        } else {
            Shape::Internal { index: self.index, left: Box::new(self.other), right: Box::new(sub) }
        }
    }
}

/// The tree that has `sub` at the end of the path `ctx`.
pub open spec fn plug(ctx: Seq<Frame>, sub: Shape) -> Shape
    decreases ctx.len(),
{
    if ctx.len() == 0 {
        sub
    } else {
        plug(ctx.drop_last(), ctx.last().fill(sub))
    }
}

/// Position `i` is one of the nodes passed on the path.
pub open spec fn on_path(ctx: Seq<Frame>, i: usize) -> bool {
    exists|k: int| 0 <= k < ctx.len() && (#[trigger] ctx[k]).index == i
}

/// The largest order, among the shapes stored in the subtrees left aside
/// along the path, of one that intersects `bounds`; zero if there is none.
pub open spec fn aside_max<T>(nodes: Seq<Node<T>>, ctx: Seq<Frame>, bounds: Bounds) -> nat
    decreases ctx.len(),
{
    if ctx.len() == 0 {
        0
    } else {
        let outer = aside_max(nodes, ctx.drop_last(), bounds);
        let here = max_intersecting_order(traversal(nodes, ctx.last().other), bounds);
        if outer >= here {
            outer
        } else {
            here
        }
    }
}

/// What a finished insertion has done to the nodes it passed: each still
/// names the subtree left aside, names `tip` (at the last step) or the next
/// node of the path as its other child, has its box widened by `bounds` and
/// its maximum raised to at least `order`.
pub open spec fn rewired<T>(
    before: Seq<Node<T>>,
    after: Seq<Node<T>>,
    ctx: Seq<Frame>,
    tip: usize,
    bounds: Bounds,
    order: u32,
) -> bool {
    forall|k: int|
        0 <= k < ctx.len() ==> {
            let frame = #[trigger] ctx[k];
            let entered = if k + 1 < ctx.len() {
                ctx[k + 1].index
            } else {
                tip
            };
            after[frame.index as int] == Node::<T>::Internal {
                left: if frame.went_left {
                    entered
                } else {
                    frame.other.index()
                },
                right: if frame.went_left {
                    frame.other.index()
                } else {
                    entered
                },
                bounds: before[frame.index as int].bounds().merge(bounds),
                max_ordering: higher(before[frame.index as int].max_ordering(), order),
            }
        }
}

/// A tree that is valid as a whole is valid below every step of a path into
/// it, and the nodes passed and the subtrees left aside share no position
/// with what lies below.
pub proof fn lemma_plug_valid<T>(nodes: Seq<Node<T>>, ctx: Seq<Frame>, sub: Shape)
    requires
        valid(nodes, plug(ctx, sub)),
    ensures
        valid(nodes, sub),
        plug(ctx, sub).index() == (if ctx.len() > 0 {
            ctx[0].index
        } else {
            sub.index()
        }),
        sub.indices().subset_of(plug(ctx, sub).indices()),
        forall|i: usize| on_path(ctx, i) ==> !sub.indices().contains(i) && i < nodes.len(),
        forall|k: int|
            0 <= k < ctx.len() ==> valid(nodes, (#[trigger] ctx[k]).other)
                && ctx[k].other.indices().disjoint(sub.indices()),
    decreases ctx.len(),
{
    if ctx.len() > 0 {
        let frame = ctx.last();
        let rest = ctx.drop_last();
        let mid = frame.fill(sub);
        lemma_plug_valid(nodes, rest, mid);
        assert(mid.indices().contains(frame.index));
        assert forall|i: usize| on_path(ctx, i) implies !sub.indices().contains(i) && i
            < nodes.len() by {
            let k = choose|k: int| 0 <= k < ctx.len() && (#[trigger] ctx[k]).index == i;
            if k < rest.len() {
                assert(rest[k] == ctx[k]);
                assert(on_path(rest, i));
            }
        }
        assert forall|k: int| 0 <= k < ctx.len() implies valid(nodes, (#[trigger] ctx[k]).other)
            && ctx[k].other.indices().disjoint(sub.indices()) by {
            if k < rest.len() {
                assert(rest[k] == ctx[k]);
            }
        }
        if rest.len() > 0 {
            assert(rest[0] == ctx[0]);
        }
    }
}

/// The largest intersecting order of a whole tree is the larger of what the
/// subtrees beside a path hold and what the subtree at its end holds.
pub proof fn lemma_plug_max<T>(nodes: Seq<Node<T>>, ctx: Seq<Frame>, sub: Shape, bounds: Bounds)
    ensures
        max_intersecting_order(traversal(nodes, plug(ctx, sub)), bounds) == if aside_max(
            nodes,
            ctx,
            bounds,
        ) >= max_intersecting_order(traversal(nodes, sub), bounds) {
            aside_max(nodes, ctx, bounds)
        } else {
            max_intersecting_order(traversal(nodes, sub), bounds)
        },
    decreases ctx.len(),
{
    if ctx.len() > 0 {
        let frame = ctx.last();
        let mid = frame.fill(sub);
        lemma_plug_max(nodes, ctx.drop_last(), mid, bounds);
        if frame.went_left {
            lemma_max_intersecting_order_concat(
                traversal(nodes, frame.other),
                traversal(nodes, sub),
                bounds,
            );
        } else {
            lemma_max_intersecting_order_concat(
                traversal(nodes, sub),
                traversal(nodes, frame.other),
                bounds,
            );
        }
    }
}

/// One step of `lemma_graft`: the node of `frame`, rewired to the new
/// subtree, is valid over it and holds what it held plus `added`.
proof fn lemma_graft_step<T>(
    before: Seq<Node<T>>,
    after: Seq<Node<T>>,
    frame: Frame,
    old_sub: Shape,
    new_sub: Shape,
    bounds: Bounds,
    order: u32,
    added: Primitive<T>,
)
    requires
        valid(before, frame.fill(old_sub)),
        before.len() <= after.len(),
        valid(after, new_sub),
        old_sub.indices().subset_of(new_sub.indices()),
        forall|i: usize|
            new_sub.indices().contains(i) ==> old_sub.indices().contains(i) || i >= before.len(),
        after[new_sub.index() as int].bounds() == before[old_sub.index() as int].bounds().merge(
            bounds,
        ),
        after[new_sub.index() as int].max_ordering() == higher(
            before[old_sub.index() as int].max_ordering(),
            order,
        ),
        after[frame.index as int] == (Node::<T>::Internal {
            left: if frame.went_left {
                new_sub.index()
            } else {
                frame.other.index()
            },
            right: if frame.went_left {
                frame.other.index()
            } else {
                new_sub.index()
            },
            bounds: before[frame.index as int].bounds().merge(bounds),
            max_ordering: higher(before[frame.index as int].max_ordering(), order),
        }),
        forall|i: usize| frame.other.indices().contains(i) ==> after[i as int] == before[i as int],
        traversal(after, new_sub).to_multiset() == traversal(before, old_sub).to_multiset().insert(
            added,
        ),
    ensures
        valid(after, frame.fill(new_sub)),
        frame.fill(new_sub).indices() == frame.fill(old_sub).indices().union(new_sub.indices()),
        forall|i: usize|
            frame.fill(new_sub).indices().contains(i) ==> frame.fill(old_sub).indices().contains(i)
                || i >= before.len(),
        traversal(after, frame.fill(new_sub)).to_multiset() == traversal(
            before,
            frame.fill(old_sub),
        ).to_multiset().insert(added),
{
    let old_mid = frame.fill(old_sub);
    let new_mid = frame.fill(new_sub);
    lemma_valid_indices(before, old_sub);
    lemma_valid_indices(before, frame.other);
    lemma_valid_indices(after, new_sub);
    lemma_valid_frame(before, after, frame.other);
    assert(after[frame.other.index() as int] == before[frame.other.index() as int]);
    assert(valid(after, new_mid));
    assert(new_mid.indices() =~= old_mid.indices().union(new_sub.indices()));
    let kept = traversal(before, frame.other);
    if frame.went_left {
        lemma_multiset_commutative(kept, traversal(after, new_sub));
        lemma_multiset_commutative(kept, traversal(before, old_sub));
    } else {
        lemma_multiset_commutative(traversal(after, new_sub), kept);
        lemma_multiset_commutative(traversal(before, old_sub), kept);
    }
    assert(traversal(after, new_mid).to_multiset() =~= traversal(
        before,
        old_mid,
    ).to_multiset().insert(added));
}

/// Dropping the innermost step of a rewired path leaves a rewired path that
/// ends on the node of that step.
proof fn lemma_rewired_outer<T>(
    before: Seq<Node<T>>,
    after: Seq<Node<T>>,
    ctx: Seq<Frame>,
    tip: usize,
    bounds: Bounds,
    order: u32,
)
    requires
        ctx.len() > 0,
        rewired(before, after, ctx, tip, bounds, order),
    ensures
        rewired(before, after, ctx.drop_last(), ctx.last().index, bounds, order),
{
    let rest = ctx.drop_last();
    assert forall|k: int| 0 <= k < rest.len() implies {
        let frame = #[trigger] rest[k];
        let entered = if k + 1 < rest.len() {
            rest[k + 1].index
        } else {
            ctx.last().index
        };
        after[frame.index as int] == Node::<T>::Internal {
            left: if frame.went_left {
                entered
            } else {
                frame.other.index()
            },
            right: if frame.went_left {
                frame.other.index()
            } else {
                entered
            },
            bounds: before[frame.index as int].bounds().merge(bounds),
            max_ordering: higher(before[frame.index as int].max_ordering(), order),
        }
    } by {
        assert(rest[k] == ctx[k]);
        if k + 1 < rest.len() {
            assert(rest[k + 1] == ctx[k + 1]);
        }
    }
}

/// A position on the path is the innermost step or lies on the outer path.
pub proof fn lemma_on_path_split(ctx: Seq<Frame>, i: usize)
    requires
        ctx.len() > 0,
    ensures
        on_path(ctx, i) <==> i == ctx.last().index || on_path(ctx.drop_last(), i),
{
    let rest = ctx.drop_last();
    if on_path(ctx, i) {
        let k = choose|k: int| 0 <= k < ctx.len() && (#[trigger] ctx[k]).index == i;
        if k < rest.len() {
            assert(rest[k] == ctx[k]);
        }
    }
    if on_path(rest, i) {
        let k = choose|k: int| 0 <= k < rest.len() && (#[trigger] rest[k]).index == i;
        assert(rest[k] == ctx[k]);
    }
    assert(ctx[ctx.len() - 1] == ctx.last());
}

/// Replacing the subtree at the end of a path, in an arena whose nodes along
/// the path were rewired and widened to match and whose other nodes were left
/// alone, gives a valid tree again; it holds the shapes it held plus `added`.
pub proof fn lemma_graft<T>(
    before: Seq<Node<T>>,
    after: Seq<Node<T>>,
    ctx: Seq<Frame>,
    old_sub: Shape,
    new_sub: Shape,
    bounds: Bounds,
    order: u32,
    added: Primitive<T>,
)
    requires
        valid(before, plug(ctx, old_sub)),
        before.len() <= after.len(),
        valid(after, new_sub),
        old_sub.indices().subset_of(new_sub.indices()),
        forall|i: usize|
            new_sub.indices().contains(i) ==> old_sub.indices().contains(i) || i >= before.len(),
        after[new_sub.index() as int].bounds() == before[old_sub.index() as int].bounds().merge(
            bounds,
        ),
        after[new_sub.index() as int].max_ordering() == higher(
            before[old_sub.index() as int].max_ordering(),
            order,
        ),
        rewired(before, after, ctx, new_sub.index(), bounds, order),
        forall|i: usize|
            i < before.len() && !old_sub.indices().contains(i) && !on_path(ctx, i) ==> after[i as int]
                == before[i as int],
        traversal(after, new_sub).to_multiset() == traversal(before, old_sub).to_multiset().insert(
            added,
        ),
    ensures
        valid(after, plug(ctx, new_sub)),
        plug(ctx, new_sub).index() == (if ctx.len() > 0 {
            ctx[0].index
        } else {
            new_sub.index()
        }),
        plug(ctx, new_sub).indices() == plug(ctx, old_sub).indices().union(new_sub.indices()),
        traversal(after, plug(ctx, new_sub)).to_multiset() == traversal(
            before,
            plug(ctx, old_sub),
        ).to_multiset().insert(added),
    decreases ctx.len(),
{
    if ctx.len() == 0 {
        assert(plug(ctx, new_sub).indices() =~= plug(ctx, old_sub).indices().union(
            new_sub.indices(),
        ));
    } else {
        let frame = ctx.last();
        let rest = ctx.drop_last();
        let old_mid = frame.fill(old_sub);
        let new_mid = frame.fill(new_sub);
        assert(ctx[ctx.len() - 1] == frame);
        lemma_plug_valid(before, rest, old_mid);
        lemma_valid_indices(before, old_mid);
        assert forall|i: usize| frame.other.indices().contains(i) implies after[i as int]
            == before[i as int] by {
            lemma_on_path_split(ctx, i);
            assert(old_mid.indices().contains(i));
        }
        lemma_graft_step(before, after, frame, old_sub, new_sub, bounds, order, added);
        lemma_rewired_outer(before, after, ctx, new_sub.index(), bounds, order);
        assert forall|i: usize|
            i < before.len() && !old_mid.indices().contains(i) && !on_path(
                rest,
                i,
            ) implies after[i as int] == before[i as int] by {
            lemma_on_path_split(ctx, i);
        }
        lemma_graft(before, after, rest, old_mid, new_mid, bounds, order, added);
        if rest.len() > 0 {
            assert(rest[0] == ctx[0]);
        }
        lemma_plug_valid(after, rest, new_mid);
        assert(plug(ctx, new_sub).indices() =~= plug(ctx, old_sub).indices().union(
            new_sub.indices(),
        ));
    }
}

/// The nodes passed on a path name, as their children, the subtree left
/// aside and the next node of the path (`tip` at the last step).
pub open spec fn linked<T>(nodes: Seq<Node<T>>, ctx: Seq<Frame>, tip: usize) -> bool {
    forall|k: int|
        0 <= k < ctx.len() ==> {
            let frame = #[trigger] ctx[k];
            let entered = if k + 1 < ctx.len() {
                ctx[k + 1].index
            } else {
                tip
            };
            &&& nodes[frame.index as int] matches Node::Internal { left, right, .. }
            &&& left == if frame.went_left {
                entered
            } else {
                frame.other.index()
            }
            &&& right == if frame.went_left {
                frame.other.index()
            } else {
                entered
            }
        }
}

/// What validity says of the node of one step.
proof fn lemma_fill_valid<T>(nodes: Seq<Node<T>>, frame: Frame, sub: Shape)
    requires
        valid(nodes, frame.fill(sub)),
    ensures
        nodes[frame.index as int] matches Node::Internal { left, right, .. } && left == (if frame.went_left {
            sub.index()
        } else {
            frame.other.index()
        }) && right == (if frame.went_left {
            frame.other.index()
        } else {
            sub.index()
        }),
        frame.other.index() != sub.index(),
        frame.fill(sub).index() == frame.index,
        frame.fill(sub).indices().contains(frame.index),
{
    lemma_valid_indices(nodes, sub);
    lemma_valid_indices(nodes, frame.other);
}

/// A linked path stays linked when one more step is taken at its end.
proof fn lemma_linked_extend<T>(nodes: Seq<Node<T>>, ctx: Seq<Frame>, tip: usize)
    requires
        ctx.len() > 0,
        linked(nodes, ctx.drop_last(), ctx.last().index),
        nodes[ctx.last().index as int] matches Node::Internal { left, right, .. } && left == (if ctx.last().went_left {
            tip
        } else {
            ctx.last().other.index()
        }) && right == (if ctx.last().went_left {
            ctx.last().other.index()
        } else {
            tip
        }),
    ensures
        linked(nodes, ctx, tip),
{
    let rest = ctx.drop_last();
    assert forall|k: int| 0 <= k < ctx.len() implies {
        let f = #[trigger] ctx[k];
        let entered = if k + 1 < ctx.len() {
            ctx[k + 1].index
        } else {
            tip
        };
        &&& nodes[f.index as int] matches Node::Internal { left, right, .. }
        &&& left == if f.went_left {
            entered
        } else {
            f.other.index()
        }
        &&& right == if f.went_left {
            f.other.index()
        } else {
            entered
        }
    } by {
        if k < rest.len() {
            assert(rest[k] == ctx[k]);
            if k + 1 < rest.len() {
                assert(rest[k + 1] == ctx[k + 1]);
            }
        }
    }
}

/// No node is passed twice, if none is on the outer path and the last one is
/// not on the outer path either.
proof fn lemma_distinct_extend(ctx: Seq<Frame>)
    requires
        ctx.len() > 0,
        forall|j: int, k: int|
            0 <= j < k < ctx.len() - 1 ==> ctx.drop_last()[j].index != ctx.drop_last()[k].index,
        !on_path(ctx.drop_last(), ctx.last().index),
    ensures
        forall|j: int, k: int| 0 <= j < k < ctx.len() ==> ctx[j].index != ctx[k].index,
{
    let rest = ctx.drop_last();
    assert forall|j: int, k: int| 0 <= j < k < ctx.len() implies ctx[j].index
        != ctx[k].index by {
        assert(rest[j] == ctx[j]);
        if k < rest.len() {
            assert(rest[k] == ctx[k]);
        }
    }
}

/// In a valid tree the nodes passed on a path are linked as the path says,
/// and none is passed twice.
pub proof fn lemma_plug_linked<T>(nodes: Seq<Node<T>>, ctx: Seq<Frame>, sub: Shape)
    requires
        valid(nodes, plug(ctx, sub)),
    ensures
        linked(nodes, ctx, sub.index()),
        forall|j: int, k: int| 0 <= j < k < ctx.len() ==> ctx[j].index != ctx[k].index,
        ctx.len() > 0 ==> ctx.last().other.index() != sub.index(),
    decreases ctx.len(),
{
    if ctx.len() > 0 {
        let frame = ctx.last();
        let rest = ctx.drop_last();
        let mid = frame.fill(sub);
        lemma_plug_linked(nodes, rest, mid);
        assert(valid(nodes, mid) && !on_path(rest, frame.index)) by {
            lemma_plug_valid(nodes, rest, mid);
            lemma_fill_valid(nodes, frame, sub);
        }
        lemma_fill_valid(nodes, frame, sub);
        lemma_linked_extend(nodes, ctx, sub.index());
        lemma_distinct_extend(ctx);
    }
}

/// A node with its box widened by `bounds`.
pub open spec fn widened<T>(node: Node<T>, bounds: Bounds) -> Node<T> {
    match node {
        Node::Internal { left, right, bounds: b, max_ordering } => Node::Internal {
            left,
            right,
            bounds: b.merge(bounds),
            max_ordering,
        },
        Node::Leaf { .. } => node,
    }
}

/// A node with its maximum raised to at least `order`.
pub open spec fn raised<T>(node: Node<T>, order: u32) -> Node<T> {
    match node {
        Node::Internal { left, right, bounds, max_ordering } => Node::Internal {
            left,
            right,
            bounds,
            max_ordering: higher(max_ordering, order),
        },
        Node::Leaf { .. } => node,
    }
}

/// A node that names `to` where it named `from`: as its left child if that
/// was `from`, as its right child otherwise.
pub open spec fn redirected<T>(node: Node<T>, from: usize, to: usize) -> Node<T> {
    match node {
        Node::Internal { left, right, bounds, max_ordering } => if left == from {
            Node::Internal { left: to, right, bounds, max_ordering }
        } else {
            Node::Internal { left, right: to, bounds, max_ordering }
        },
        Node::Leaf { .. } => node,
    }
}

/// What an insertion makes of a node that was there before: nothing, unless
/// the node was passed; then its box is widened and its maximum raised, and
/// the last node passed names the new join in place of the leaf found.
pub open spec fn settled<T>(
    node: Node<T>,
    passed: bool,
    last_passed: bool,
    sibling: usize,
    join: usize,
    bounds: Bounds,
    order: u32,
) -> Node<T> {
    if !passed {
        node
    } else if last_passed {
        raised(redirected(widened(node, bounds), sibling, join), order)
    } else {
        raised(widened(node, bounds), order)
    }
}

/// The join of the leaf found and the new leaf is a valid subtree of the
/// arena after the insertion; it stores the leaf found and the new shape.
proof fn lemma_join_sub<T>(
    before: Seq<Node<T>>,
    after: Seq<Node<T>>,
    sibling: usize,
    bounds: Bounds,
    order: u32,
    data: T,
)
    requires
        sibling < before.len(),
        before[sibling as int] is Leaf,
        after.len() == before.len() + 2,
        after.len() <= usize::MAX,
        after[sibling as int] == before[sibling as int],
        after[before.len() as int] == (Node::Leaf { bounds, data, order }),
        after[before.len() as int + 1] == (Node::<T>::Internal {
            left: sibling,
            right: before.len() as usize,
            bounds: before[sibling as int].bounds().merge(bounds),
            max_ordering: higher(before[sibling as int].max_ordering(), order),
        }),
    ensures
        ({
            let old_sub = Shape::Leaf { index: sibling };
            let new_sub = Shape::Internal {
                index: (before.len() + 1) as usize,
                left: Box::new(Shape::Leaf { index: sibling }),
                right: Box::new(Shape::Leaf { index: before.len() as usize }),
            };
            &&& valid(after, new_sub)
            &&& old_sub.indices().subset_of(new_sub.indices())
            &&& new_sub.indices() == old_sub.indices().insert(before.len() as usize).insert(
                (before.len() + 1) as usize,
            )
            &&& traversal(after, new_sub).to_multiset() == traversal(
                before,
                old_sub,
            ).to_multiset().insert(Primitive { data, bounds, order })
        }),
{
    broadcast use vstd::seq_lib::group_to_multiset_ensures;

    let n = before.len() as usize;
    let old_sub = Shape::Leaf { index: sibling };
    let new_leaf = Shape::Leaf { index: n };
    let new_sub = Shape::Internal {
        index: (n + 1) as usize,
        left: Box::new(old_sub),
        right: Box::new(new_leaf),
    };
    let added = Primitive { data, bounds, order };
    assert(valid(after, old_sub));
    assert(valid(after, new_leaf));
    assert(valid(after, new_sub));
    assert(new_sub.indices() =~= old_sub.indices().insert(n).insert((n + 1) as usize));
    let kept = before[sibling as int].primitive();
    let empty = Seq::<Primitive<T>>::empty();
    assert(traversal(before, old_sub) =~= empty.push(kept));
    assert(traversal(after, new_leaf) =~= empty.push(added));
    assert(traversal(after, old_sub) =~= empty.push(kept));
    assert(traversal(after, new_sub) =~= empty.push(added).push(kept));
    assert(empty.to_multiset() =~= Multiset::<Primitive<T>>::empty());
    assert(traversal(after, new_sub).to_multiset() =~= traversal(
        before,
        old_sub,
    ).to_multiset().insert(added));
}

/// Settling the nodes of a linked path rewires it onto the new join.
proof fn lemma_join_rewired<T>(
    before: Seq<Node<T>>,
    after: Seq<Node<T>>,
    ctx: Seq<Frame>,
    sibling: usize,
    join: usize,
    bounds: Bounds,
    order: u32,
)
    requires
        linked(before, ctx, sibling),
        forall|j: int, k: int| 0 <= j < k < ctx.len() ==> ctx[j].index != ctx[k].index,
        ctx.len() > 0 ==> ctx.last().other.index() != sibling,
        forall|k: int|
            0 <= k < ctx.len() ==> after[(#[trigger] ctx[k]).index as int] == settled(
                before[ctx[k].index as int],
                true,
                ctx[k].index == ctx.last().index,
                sibling,
                join,
                bounds,
                order,
            ),
    ensures
        rewired(before, after, ctx, join, bounds, order),
{
    assert forall|k: int| 0 <= k < ctx.len() implies {
        let frame = #[trigger] ctx[k];
        let entered = if k + 1 < ctx.len() {
            ctx[k + 1].index
        } else {
            join
        };
        after[frame.index as int] == Node::<T>::Internal {
            left: if frame.went_left {
                entered
            } else {
                frame.other.index()
            },
            right: if frame.went_left {
                frame.other.index()
            } else {
                entered
            },
            bounds: before[frame.index as int].bounds().merge(bounds),
            max_ordering: higher(before[frame.index as int].max_ordering(), order),
        }
    } by {
        if k + 1 < ctx.len() {
            assert(ctx[k].index != ctx[ctx.len() - 1].index);
        }
    }
}

/// The whole of an insertion below a non-empty tree. The walk `ctx` ended on
/// the leaf `sibling`; the arena got a new leaf and, behind it, a join of
/// `sibling` and the new leaf; the nodes passed were settled. Then the arena
/// holds a valid tree again, which stores one shape more.
pub proof fn lemma_join<T>(
    before: Seq<Node<T>>,
    after: Seq<Node<T>>,
    ctx: Seq<Frame>,
    sibling: usize,
    bounds: Bounds,
    order: u32,
    data: T,
)
    requires
        valid(before, plug(ctx, Shape::Leaf { index: sibling })),
        after.len() == before.len() + 2,
        after.len() <= usize::MAX,
        after[before.len() as int] == (Node::Leaf { bounds, data, order }),
        after[before.len() as int + 1] == (Node::<T>::Internal {
            left: sibling,
            right: before.len() as usize,
            bounds: before[sibling as int].bounds().merge(bounds),
            max_ordering: higher(before[sibling as int].max_ordering(), order),
        }),
        forall|i: usize|
            i < before.len() ==> #[trigger] after[i as int] == settled(
                before[i as int],
                on_path(ctx, i),
                ctx.len() > 0 && i == ctx.last().index,
                sibling,
                (before.len() + 1) as usize,
                bounds,
                order,
            ),
    ensures
        ({
            let join = Shape::Internal {
                index: (before.len() + 1) as usize,
                left: Box::new(Shape::Leaf { index: sibling }),
                right: Box::new(Shape::Leaf { index: before.len() as usize }),
            };
            let old_whole = plug(ctx, Shape::Leaf { index: sibling });
            let new_whole = plug(ctx, join);
            &&& valid(after, new_whole)
            &&& new_whole.index() == (if ctx.len() > 0 {
                old_whole.index()
            } else {
                (before.len() + 1) as usize
            })
            &&& new_whole.indices() == old_whole.indices().insert(before.len() as usize).insert(
                (before.len() + 1) as usize,
            )
            &&& traversal(after, new_whole).to_multiset() == traversal(
                before,
                old_whole,
            ).to_multiset().insert(Primitive { data, bounds, order })
        }),
{
    let n = before.len() as usize;
    let old_sub = Shape::Leaf { index: sibling };
    let new_sub = Shape::Internal {
        index: (n + 1) as usize,
        left: Box::new(old_sub),
        right: Box::new(Shape::Leaf { index: n }),
    };
    let added = Primitive { data, bounds, order };
    lemma_plug_valid(before, ctx, old_sub);
    assert(old_sub.indices().contains(sibling));
    assert(!on_path(ctx, sibling));
    assert(after[sibling as int] == before[sibling as int]);
    lemma_join_sub(before, after, sibling, bounds, order, data);
    assert(rewired(before, after, ctx, new_sub.index(), bounds, order)) by {
        lemma_plug_linked(before, ctx, old_sub);
        assert forall|k: int| 0 <= k < ctx.len() implies after[(#[trigger] ctx[k]).index as int]
            == settled(
            before[ctx[k].index as int],
            true,
            ctx[k].index == ctx.last().index,
            sibling,
            new_sub.index(),
            bounds,
            order,
        ) by {
            assert(on_path(ctx, ctx[k].index));
        }
        lemma_join_rewired(before, after, ctx, sibling, new_sub.index(), bounds, order);
    }
    lemma_graft(before, after, ctx, old_sub, new_sub, bounds, order, added);
    assert(plug(ctx, new_sub).indices() =~= plug(ctx, old_sub).indices().insert(n).insert(
        (n + 1) as usize,
    ));
}

/// The placement rule: of two children, an insertion enters the one whose box
/// would have the smaller half-perimeter once merged with the new rectangle,
/// and the right one when both come out the same.
pub open spec fn prefers_left<T>(nodes: Seq<Node<T>>, left: usize, right: usize, bounds: Bounds) -> bool {
    bounds.merge(nodes[left as int].bounds()).spec_half_perimeter() < bounds.merge(
        nodes[right as int].bounds(),
    ).spec_half_perimeter()
}

/// The path that the placement rule takes through a tree for `bounds`.
pub open spec fn chosen_path<T>(nodes: Seq<Node<T>>, shape: Shape, bounds: Bounds) -> Seq<Frame>
    decreases shape,
{
    match shape {
        Shape::Leaf { .. } => Seq::empty(),
        Shape::Internal { index, left, right } => if prefers_left(
            nodes,
            left.index(),
            right.index(),
            bounds,
        ) {
            seq![Frame { index, went_left: true, other: *right }] + chosen_path(
                nodes,
                *left,
                bounds,
            )
        } else {
            seq![Frame { index, went_left: false, other: *left }] + chosen_path(
                nodes,
                *right,
                bounds,
            )
        },
    }
}

/// The leaf on which the placement rule ends for `bounds`.
pub open spec fn chosen_leaf<T>(nodes: Seq<Node<T>>, shape: Shape, bounds: Bounds) -> usize
    decreases shape,
{
    match shape {
        Shape::Leaf { index } => index,
        Shape::Internal { left, right, .. } => if prefers_left(
            nodes,
            left.index(),
            right.index(),
            bounds,
        ) {
            chosen_leaf(nodes, *left, bounds)
        } else {
            chosen_leaf(nodes, *right, bounds)
        },
    }
}

/// The arena after the insertion of `data` under `bounds` with `order`,
/// into the arena `nodes` that holds the tree `shape` (or nothing).
///
/// An empty arena gets the new leaf. Otherwise the nodes on the chosen path
/// are settled, every other node stays as it is, and two nodes are added at
/// the end: the new leaf, and the join of the chosen leaf with it.
pub open spec fn grown<T>(
    nodes: Seq<Node<T>>,
    shape: Option<Shape>,
    bounds: Bounds,
    data: T,
    order: u32,
) -> Seq<Node<T>> {
    match shape {
        None => nodes.push(Node::Leaf { bounds, data, order }),
        Some(whole) => {
            let path = chosen_path(nodes, whole, bounds);
            let sibling = chosen_leaf(nodes, whole, bounds);
            let join = (nodes.len() + 1) as usize;
            Seq::new(
                nodes.len(),
                |i: int|
                    settled(
                        nodes[i],
                        on_path(path, i as usize),
                        path.len() > 0 && i == path.last().index,
                        sibling,
                        join,
                        bounds,
                        order,
                    ),
            ).push(Node::Leaf { bounds, data, order }).push(
                Node::Internal {
                    left: sibling,
                    right: nodes.len() as usize,
                    bounds: nodes[sibling as int].bounds().merge(bounds),
                    max_ordering: higher(nodes[sibling as int].max_ordering(), order),
                },
            )
        },
    }
}

/// The root after that insertion: the new leaf in an empty arena, the new
/// join where the tree was a single leaf, and the old root otherwise.
pub open spec fn grown_root<T>(nodes: Seq<Node<T>>, shape: Option<Shape>) -> usize {
    match shape {
        None => nodes.len() as usize,
        Some(whole) => if whole is Leaf {
            (nodes.len() + 1) as usize
        } else {
            whole.index()
        },
    }
}

/// An insertion changes no leaf, and of an internal node at most the child it
/// names for the chosen leaf; boxes only widen and maxima only rise.
pub proof fn lemma_settled_only_widens<T>(
    node: Node<T>,
    passed: bool,
    last_passed: bool,
    sibling: usize,
    join: usize,
    bounds: Bounds,
    order: u32,
)
    ensures
        node is Leaf ==> settled(node, passed, last_passed, sibling, join, bounds, order) == node,
        node is Internal ==> ({
            let after = settled(node, passed, last_passed, sibling, join, bounds, order);
            &&& after is Internal
            &&& after.bounds().covers(node.bounds())
            &&& after.max_ordering() >= node.max_ordering()
            &&& after->left == node->left || (node->left == sibling && after->left == join)
            &&& after->right == node->right || after->right == join
        }),
{
}

} // verus!
