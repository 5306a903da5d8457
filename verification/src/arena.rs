//! The node arena and the binary tree that its indices spell out.
//!
//! Nodes live in one flat sequence and name their children by position. Which
//! positions hang below which is recorded apart from the nodes, as a `Shape`:
//! it is what makes "the subtree of a node" a well-founded notion.

use crate::bounds::Bounds;
use crate::order::Primitive;
use crate::order::lemma_max_intersecting_order;
use crate::order::max_intersecting_order;
use vstd::prelude::*;

verus! {

/// A node of the tree: a stored shape, or the join of two subtrees.
#[derive(Debug)]
pub enum Node<T> {
    Leaf { bounds: Bounds, data: T, order: u32 },
    Internal { left: usize, right: usize, bounds: Bounds, max_ordering: u32 },
}

/// The larger of two orders.
pub open spec fn higher(a: u32, b: u32) -> u32 {
    if a >= b {
        a
    } else {
        b
    }
}

pub(crate) fn higher_of(a: u32, b: u32) -> (r: u32)
    ensures
        r == higher(a, b),
{
    if a >= b {
        a
    } else {
        b
    }
}

impl<T> Node<T> {
    /// The rectangle of a leaf, or the box of an internal node.
    pub open spec fn spec_bounds(&self) -> Bounds {
        match self {
            Node::Leaf { bounds, .. } => *bounds,
            Node::Internal { bounds, .. } => *bounds,
        }
    }

    /// The order of a leaf, or the recorded maximum of an internal node.
    pub open spec fn spec_max_ordering(&self) -> u32 {
        match self {
            Node::Leaf { order, .. } => *order,
            Node::Internal { max_ordering, .. } => *max_ordering,
        }
    }

    /// What a leaf stores. Meaningful on leaves only.
    pub open spec fn primitive(self) -> Primitive<T>
        recommends
            self is Leaf,
    {
        Primitive { data: self->data, bounds: self->Leaf_bounds, order: self->order }
    }

    #[verifier::when_used_as_spec(spec_bounds)]
    pub fn bounds(&self) -> (bounds: Bounds)
        ensures
            bounds == self.spec_bounds(),
    {
        match self {
            Node::Leaf { bounds, .. } => *bounds,
            Node::Internal { bounds, .. } => *bounds,
        }
    }

    #[verifier::when_used_as_spec(spec_max_ordering)]
    pub fn max_ordering(&self) -> (max: u32)
        ensures
            max == self.spec_max_ordering(),
    {
        match self {
            Node::Leaf { order, .. } => *order,
            Node::Internal { max_ordering, .. } => *max_ordering,
        }
    }
}

/// Which arena positions form a subtree, and how they nest.
pub enum Shape {
    Leaf { index: usize },
    Internal { index: usize, left: Box<Shape>, right: Box<Shape> },
}

impl Shape {
    /// The arena position of the subtree's root.
    pub open spec fn index(self) -> usize {
        match self {
            Shape::Leaf { index } => index,
            Shape::Internal { index, .. } => index,
        }
    }

    /// Every arena position that occurs in the subtree.
    pub open spec fn indices(self) -> Set<usize>
        decreases self,
    {
        match self {
            Shape::Leaf { index } => set![index],
            Shape::Internal { index, left, right } => left.indices().union(
                right.indices(),
            ).insert(index),
        }
    }

    /// The number of nodes in the subtree.
    pub open spec fn size(self) -> nat
        decreases self,
    {
        match self {
            Shape::Leaf { .. } => 1,
            Shape::Internal { left, right, .. } => 1 + left.size() + right.size(),
        }
    }
}

/// The arena holds the tree that `shape` describes: every position is in
/// range and occurs once, leaves are leaves, and every internal node names
/// its two children, carries exactly the merge of their boxes, and records the
/// larger of their maxima.
pub open spec fn valid<T>(nodes: Seq<Node<T>>, shape: Shape) -> bool
    decreases shape,
{
    match shape {
        Shape::Leaf { index } => index < nodes.len() && nodes[index as int] is Leaf,
        Shape::Internal { index, left, right } => {
            &&& index < nodes.len()
            &&& nodes[index as int] matches Node::Internal {
                left: l,
                right: r,
                bounds,
                max_ordering,
            }
            &&& l == left.index()
            &&& r == right.index()
            &&& valid(nodes, *left)
            &&& valid(nodes, *right)
            &&& !left.indices().contains(index)
            &&& !right.indices().contains(index)
            &&& left.indices().disjoint(right.indices())
            &&& bounds == nodes[l as int].bounds().merge(nodes[r as int].bounds())
            &&& max_ordering == higher(
                nodes[l as int].max_ordering(),
                nodes[r as int].max_ordering(),
            )
        },
    }
}

/// The stored shapes of a subtree, in the sequence in which a depth-first
/// walk that takes the right child first meets them.
pub open spec fn traversal<T>(nodes: Seq<Node<T>>, shape: Shape) -> Seq<Primitive<T>>
    decreases shape,
{
    match shape {
        Shape::Leaf { index } => seq![nodes[index as int].primitive()],
        Shape::Internal { left, right, .. } => traversal(nodes, *right) + traversal(nodes, *left),
    }
}

/// The stored shapes of the whole arena, in the sequence in which they were
/// added to it.
pub open spec fn leaves<T>(nodes: Seq<Node<T>>) -> Seq<Primitive<T>>
    decreases nodes.len(),
{
    if nodes.len() == 0 {
        Seq::empty()
    } else if nodes.last() is Leaf {
        leaves(nodes.drop_last()).push(nodes.last().primitive())
    } else {
        leaves(nodes.drop_last())
    }
}

/// The largest order in a list of shapes, zero for the empty list.
pub open spec fn max_order<T>(shapes: Seq<Primitive<T>>) -> nat
    decreases shapes.len(),
{
    if shapes.len() == 0 {
        0
    } else {
        let before = max_order(shapes.drop_last());
        if shapes.last().order > before {
            shapes.last().order as nat
        } else {
            before
        }
    }
}

pub proof fn lemma_max_order_concat<T>(a: Seq<Primitive<T>>, b: Seq<Primitive<T>>)
    ensures
        max_order(a + b) == if max_order(a) >= max_order(b) {
            max_order(a)
        } else {
            max_order(b)
        },
    decreases b.len(),
{
    if b.len() == 0 {
        assert(a + b =~= a);
    } else {
        assert((a + b).drop_last() =~= a + b.drop_last());
        assert((a + b).last() == b.last());
        lemma_max_order_concat(a, b.drop_last());
    }
}

pub proof fn lemma_max_intersecting_order_concat<T>(
    a: Seq<Primitive<T>>,
    b: Seq<Primitive<T>>,
    bounds: Bounds,
)
    ensures
        max_intersecting_order(a + b, bounds) == if max_intersecting_order(a, bounds)
            >= max_intersecting_order(b, bounds) {
            max_intersecting_order(a, bounds)
        } else {
            max_intersecting_order(b, bounds)
        },
    decreases b.len(),
{
    if b.len() == 0 {
        assert(a + b =~= a);
    } else {
        assert((a + b).drop_last() =~= a + b.drop_last());
        assert((a + b).last() == b.last());
        lemma_max_intersecting_order_concat(a, b.drop_last(), bounds);
    }
}

/// Every position of a valid subtree is in range, and its root is one of them.
pub proof fn lemma_valid_indices<T>(nodes: Seq<Node<T>>, shape: Shape)
    requires
        valid(nodes, shape),
    ensures
        shape.indices().contains(shape.index()),
        shape.indices().finite(),
        forall|i: usize| shape.indices().contains(i) ==> i < nodes.len(),
    decreases shape,
{
    match shape {
        Shape::Leaf { .. } => {},
        Shape::Internal { left, right, .. } => {
            lemma_valid_indices(nodes, *left);
            lemma_valid_indices(nodes, *right);
        },
    }
}

/// A valid subtree stays valid, with the same stored shapes, in any arena that
/// agrees with the first on the subtree's positions.
pub proof fn lemma_valid_frame<T>(nodes: Seq<Node<T>>, other: Seq<Node<T>>, shape: Shape)
    requires
        valid(nodes, shape),
        nodes.len() <= other.len(),
        forall|i: usize| shape.indices().contains(i) ==> other[i as int] == nodes[i as int],
    ensures
        valid(other, shape),
        traversal(other, shape) == traversal(nodes, shape),
    decreases shape,
{
    match shape {
        Shape::Leaf { index } => {
            assert(shape.indices().contains(index));
        },
        Shape::Internal { index, left, right } => {
            lemma_valid_indices(nodes, *left);
            lemma_valid_indices(nodes, *right);
            assert(shape.indices().contains(index));
            assert(shape.indices().contains(left.index()));
            assert(shape.indices().contains(right.index()));
            lemma_valid_frame(nodes, other, *left);
            lemma_valid_frame(nodes, other, *right);
        },
    }
}

/// In a valid subtree, the root's box covers every stored rectangle, and the
/// root's maximum is the largest stored order.
pub proof fn lemma_root_summarises<T>(nodes: Seq<Node<T>>, shape: Shape)
    requires
        valid(nodes, shape),
    ensures
        forall|k: int|
            0 <= k < traversal(nodes, shape).len() ==> nodes[shape.index() as int].bounds().covers(
                (#[trigger] traversal(nodes, shape)[k]).bounds,
            ),
        nodes[shape.index() as int].max_ordering() == max_order(traversal(nodes, shape)),
        forall|k: int|
            0 <= k < traversal(nodes, shape).len() ==> (#[trigger] traversal(
                nodes,
                shape,
            )[k]).order <= nodes[shape.index() as int].max_ordering(),
    decreases shape,
{
    let all = traversal(nodes, shape);
    match shape {
        Shape::Leaf { index } => {
            assert(all.drop_last() =~= Seq::<Primitive<T>>::empty());
            assert(max_order(all.drop_last()) == 0);
            assert(all.last() == nodes[index as int].primitive());
        },
        Shape::Internal { index, left, right } => {
            lemma_root_summarises(nodes, *left);
            lemma_root_summarises(nodes, *right);
            let from_right = traversal(nodes, *right);
            let from_left = traversal(nodes, *left);
            lemma_max_order_concat(from_right, from_left);
            assert forall|k: int| 0 <= k < all.len() implies nodes[index as int].bounds().covers(
                (#[trigger] all[k]).bounds,
            ) && all[k].order <= nodes[index as int].max_ordering() by {
                if k < from_right.len() {
                    assert(all[k] == from_right[k]);
                } else {
                    assert(all[k] == from_left[k - from_right.len()]);
                }
            }
        },
    }
}

/// What pruning relies on: a subtree whose box misses `bounds`, or whose
/// maximum does not exceed `floor`, cannot raise a running maximum of `floor`.
pub proof fn lemma_pruned_subtree<T>(
    nodes: Seq<Node<T>>,
    shape: Shape,
    bounds: Bounds,
    floor: u32,
)
    requires
        valid(nodes, shape),
        !bounds.intersects(nodes[shape.index() as int].bounds()) || floor
            >= nodes[shape.index() as int].max_ordering(),
    ensures
        max_intersecting_order(traversal(nodes, shape), bounds) <= floor,
{
    lemma_root_summarises(nodes, shape);
    lemma_max_intersecting_order(traversal(nodes, shape), bounds);
}

/// Changing internal nodes in place leaves the stored shapes as they are.
pub proof fn lemma_leaves_unchanged<T>(nodes: Seq<Node<T>>, other: Seq<Node<T>>)
    requires
        nodes.len() == other.len(),
        forall|i: int|
            0 <= i < nodes.len() ==> if nodes[i] is Leaf {
                other[i] == nodes[i]
            } else {
                other[i] is Internal
            },
    ensures
        leaves(other) == leaves(nodes),
    decreases nodes.len(),
{
    if nodes.len() > 0 {
        lemma_leaves_unchanged(nodes.drop_last(), other.drop_last());
    }
}

/// Adding a leaf and then an internal node adds one stored shape, at the end.
pub proof fn lemma_leaves_grown<T>(nodes: Seq<Node<T>>, leaf: Node<T>, join: Node<T>)
    requires
        leaf is Leaf,
        join is Internal,
    ensures
        leaves(nodes.push(leaf).push(join)) == leaves(nodes).push(leaf.primitive()),
{
    let one = nodes.push(leaf);
    let two = one.push(join);
    assert(two.drop_last() =~= one);
    assert(one.drop_last() =~= nodes);
    assert(two.last() == join);
    assert(one.last() == leaf);
    assert(leaves(two) == leaves(one));
}

/// What a depth-first walk will still meet, given the subtrees it has yet to
/// enter, the next one last.
pub open spec fn pending_traversal<T>(nodes: Seq<Node<T>>, pending: Seq<Shape>) -> Seq<
    Primitive<T>,
>
    decreases pending.len(),
{
    if pending.len() == 0 {
        Seq::empty()
    } else {
        traversal(nodes, pending.last()) + pending_traversal(nodes, pending.drop_last())
    }
}

/// The number of nodes in the subtrees a walk has yet to enter.
pub open spec fn pending_size(pending: Seq<Shape>) -> nat
    decreases pending.len(),
{
    if pending.len() == 0 {
        0
    } else {
        pending.last().size() + pending_size(pending.drop_last())
    }
}

/// Putting one more subtree on top of those yet to be entered.
pub proof fn lemma_pending_push<T>(nodes: Seq<Node<T>>, pending: Seq<Shape>, top: Shape)
    ensures
        pending_traversal(nodes, pending.push(top)) == traversal(nodes, top) + pending_traversal(
            nodes,
            pending,
        ),
        pending_size(pending.push(top)) == top.size() + pending_size(pending),
{
    assert(pending.push(top).drop_last() =~= pending);
}

/// Every position of a valid tree is the root of a valid subtree of it.
pub proof fn lemma_subtree_at<T>(nodes: Seq<Node<T>>, shape: Shape, index: usize) -> (sub: Shape)
    requires
        valid(nodes, shape),
        shape.indices().contains(index),
    ensures
        valid(nodes, sub),
        sub.index() == index,
        sub.indices().subset_of(shape.indices()),
    decreases shape,
{
    match shape {
        Shape::Leaf { .. } => shape,
        Shape::Internal { index: at, left, right } => {
            if at == index {
                shape
            } else if left.indices().contains(index) {
                lemma_subtree_at(nodes, *left, index)
            } else {
                lemma_subtree_at(nodes, *right, index)
            }
        },
    }
}

/// An arena holds at most one valid tree below a given position.
pub proof fn lemma_valid_unique<T>(nodes: Seq<Node<T>>, a: Shape, b: Shape)
    requires
        valid(nodes, a),
        valid(nodes, b),
        a.index() == b.index(),
    ensures
        a == b,
    decreases a,
{
    match a {
        Shape::Leaf { .. } => {},
        Shape::Internal { left, right, .. } => {
            lemma_valid_unique(nodes, *left, *b->left);
            lemma_valid_unique(nodes, *right, *b->right);
        },
    }
}

} // verus!
