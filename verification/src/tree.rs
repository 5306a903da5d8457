//! The tree: insertion with order assignment, and traversal.

use crate::arena::Node;
use crate::arena::Shape;
use crate::arena::higher;
use crate::arena::higher_of;
use crate::arena::leaves;
use crate::arena::lemma_leaves_grown;
use crate::arena::lemma_leaves_unchanged;
use crate::arena::lemma_max_intersecting_order_concat;
use crate::arena::lemma_pending_push;
use crate::arena::lemma_pruned_subtree;
use crate::arena::lemma_root_summarises;
use crate::arena::lemma_subtree_at;
use crate::arena::lemma_valid_frame;
use crate::arena::lemma_valid_indices;
use crate::arena::lemma_valid_unique;
use crate::arena::max_order;
use crate::arena::pending_size;
use crate::arena::pending_traversal;
use crate::arena::traversal;
use crate::arena::valid;
use crate::bounds::Bounds;
use crate::descent::Frame;
use crate::descent::aside_max;
use crate::descent::chosen_leaf;
use crate::descent::chosen_path;
use crate::descent::grown;
use crate::descent::grown_root;
use crate::descent::lemma_join;
use crate::descent::lemma_on_path_split;
use crate::descent::lemma_plug_linked;
use crate::descent::lemma_plug_max;
use crate::descent::lemma_plug_valid;
use crate::descent::on_path;
use crate::descent::plug;
use crate::descent::raised;
use crate::descent::redirected;
use crate::descent::settled;
use crate::descent::widened;
use crate::order::Primitive;
use crate::order::lemma_later_overlap_is_above;
use crate::order::lemma_max_intersecting_order_bounded;
use crate::order::lemma_max_intersecting_order_permutation;
use crate::order::lemma_orders_consistent_push;
use crate::order::max_intersecting_order;
use crate::order::orders_consistent;
use vstd::pervasive::unreached;
use vstd::prelude::*;

verus! {

/// A binary bounding-box tree over an arena of nodes.
#[derive(Debug)]
pub struct BoundsTree<T> {
    root: Option<usize>,
    nodes: Vec<Node<T>>,
    stack: Vec<usize>,
}

/// `shape` is the tree that hangs below `root`, and it takes in the whole
/// arena: every position occurs in it, and it stores what the arena stores.
pub open spec fn spans<T>(nodes: Seq<Node<T>>, root: usize, shape: Shape) -> bool {
    &&& valid(nodes, shape)
    &&& shape.index() == root
    &&& forall|i: usize| shape.indices().contains(i) <==> i < nodes.len()
    &&& traversal(nodes, shape).to_multiset() == leaves(nodes).to_multiset()
}

/// The shapes a walk has handed out so far, detached from the tree they were
/// borrowed from.
pub open spec fn detached<T>(found: Seq<Primitive<&T>>) -> Seq<Primitive<T>> {
    Seq::new(
        found.len(),
        |i: int| Primitive { data: *found[i].data, bounds: found[i].bounds, order: found[i].order },
    )
}

/// The root after an insertion below a non-empty tree: as before, unless the
/// tree was a single leaf; then the new join.
spec fn joined_root(root: Option<usize>, passed: nat, join: usize) -> Option<usize> {
    if passed > 0 {
        root
    } else {
        Some(join)
    }
}

/// The node at position `i`, if it is an internal node, names two nodes of
/// the arena, carries exactly the merge of their boxes and records the larger
/// of their maxima.
pub open spec fn tight_at<T>(nodes: Seq<Node<T>>, i: int) -> bool {
    nodes[i] matches Node::Internal { left, right, bounds, max_ordering } ==> {
        &&& left < nodes.len()
        &&& right < nodes.len()
        &&& bounds == nodes[left as int].bounds().merge(nodes[right as int].bounds())
        &&& max_ordering == higher(
            nodes[left as int].max_ordering(),
            nodes[right as int].max_ordering(),
        )
    }
}

/// Every internal node of the arena is tight.
pub open spec fn tight<T>(nodes: Seq<Node<T>>) -> bool {
    forall|i: int| 0 <= i < nodes.len() ==> tight_at(nodes, i)
}

impl<T> View for BoundsTree<T> {
    type V = Seq<Primitive<T>>;

    /// Every stored shape with its order, in the sequence of insertion.
    closed spec fn view(&self) -> Seq<Primitive<T>> {
        leaves(self.nodes@)
    }
}

impl<T> BoundsTree<T> {
    /// The arena.
    pub closed spec fn nodes(&self) -> Seq<Node<T>> {
        self.nodes@
    }

    /// The arena position of the root, if the tree is not empty.
    pub closed spec fn root(&self) -> Option<usize> {
        self.root
    }

    /// The tree below the root, if the tree is not empty.
    pub closed spec fn shape(&self) -> Option<Shape> {
        match self.root {
            None => None,
            Some(root) => Some(choose|shape: Shape| spans(self.nodes@, root, shape)),
        }
    }

    /// The arena is empty, or it holds one full binary tree below the root
    /// with tight boxes and exact maxima; and the orders of the stored shapes
    /// follow the paint-order rule.
    pub closed spec fn wf(&self) -> bool {
        &&& self.stack@.len() == 0
        &&& orders_consistent(leaves(self.nodes@))
        &&& match self.root {
            None => self.nodes@.len() == 0,
            Some(root) => exists|shape: Shape| spans(self.nodes@, root, shape),
        }
    }
}

impl<T> BoundsTree<T> {
    /// The stored shapes are the leaves of the arena, in arena sequence.
    pub proof fn lemma_view(&self)
        ensures
            self@ == leaves(self.nodes()),
    {
    }

    /// A tree without a root stores nothing; a tree with a root is one full
    /// binary tree that takes in the whole arena.
    pub proof fn lemma_structure(&self)
        requires
            self.wf(),
        ensures
            match self.root() {
                None => self.shape() is None && self.nodes().len() == 0 && self@.len() == 0,
                Some(root) => self.shape() is Some && spans(self.nodes(), root, self.shape()->0),
            },
    {
    }

    /// No other tree than `shape()` hangs below the root.
    pub proof fn lemma_shape_unique(&self, other: Shape)
        requires
            self.wf(),
            self.root() is Some,
            valid(self.nodes(), other),
            other.index() == self.root()->0,
        ensures
            self.shape() == Some(other),
    {
        lemma_valid_unique(self.nodes@, self.shape()->0, other);
    }

    /// Every internal node names two different nodes of the arena as its
    /// children, its box is exactly the merge of their boxes, and its maximum
    /// the larger of theirs.
    pub proof fn lemma_tight_bounds(&self)
        requires
            self.wf(),
        ensures
            tight(self.nodes()),
            forall|i: int|
                0 <= i < self.nodes().len() ==> (#[trigger] self.nodes()[i]) is Internal
                    ==> self.nodes()[i]->left != self.nodes()[i]->right,
    {
        let nodes = self.nodes@;
        assert(nodes.len() == self.nodes.len());
        assert forall|i: int| 0 <= i < nodes.len() implies tight_at(nodes, i) && ((
        #[trigger] nodes[i]) is Internal ==> nodes[i]->left != nodes[i]->right) by {
            if nodes[i] is Internal {
                let whole = self.shape()->0;
                let sub = lemma_subtree_at(nodes, whole, i as usize);
                lemma_valid_indices(nodes, *sub->left);
                lemma_valid_indices(nodes, *sub->right);
            }
        }
    }

    /// Every node is the root of a subtree whose stored rectangles its box
    /// covers and whose largest stored order is its maximum.
    pub proof fn lemma_exact_maximum(&self, index: usize) -> (sub: Shape)
        requires
            self.wf(),
            index < self.nodes().len(),
        ensures
            valid(self.nodes(), sub),
            sub.index() == index,
            self.nodes()[index as int].max_ordering() == max_order(traversal(self.nodes(), sub)),
            forall|k: int|
                0 <= k < traversal(self.nodes(), sub).len() ==> self.nodes()[index as int].bounds().covers(
                    (#[trigger] traversal(self.nodes(), sub)[k]).bounds,
                ),
    {
        let whole = self.shape()->0;
        let sub = lemma_subtree_at(self.nodes@, whole, index);
        lemma_root_summarises(self.nodes@, sub);
        sub
    }

    /// Every stored shape has one more than the largest order among the
    /// shapes inserted before it that it intersects.
    pub proof fn lemma_orders_consistent(&self)
        requires
            self.wf(),
        ensures
            orders_consistent(self@),
    {
    }

    /// Of two stored shapes that intersect, the one inserted later has the
    /// strictly larger order.
    pub proof fn lemma_overlap_orders_by_insertion(&self, earlier: int, later: int)
        requires
            self.wf(),
            0 <= earlier < later < self@.len(),
            self@[earlier].bounds.intersects(self@[later].bounds),
        ensures
            self@[earlier].order < self@[later].order,
    {
        lemma_later_overlap_is_above(self@, earlier, later);
    }

    /// The order that the next insertion would exceed is at most the number
    /// of shapes stored: a tree with fewer than `u32::MAX` shapes takes any
    /// rectangle.
    pub proof fn lemma_room_for_order(&self, bounds: Bounds)
        requires
            self.wf(),
        ensures
            max_intersecting_order(self@, bounds) <= self@.len(),
    {
        lemma_max_intersecting_order_bounded(self@, bounds);
    }
}

impl<T: Clone> BoundsTree<T> {
    /// An empty tree.
    pub fn new() -> (tree: Self)
        ensures
            tree.wf(),
            tree@ == Seq::<Primitive<T>>::empty(),
            tree.nodes() == Seq::<Node<T>>::empty(),
            tree.root() is None,
            tree.shape() is None,
    {
        BoundsTree { root: None, nodes: Vec::new(), stack: Vec::new() }
    }

    /// Stores `data` under `new_bounds` and returns the order given to it:
    /// one more than the largest order among the stored shapes that
    /// `new_bounds` intersects, and one if it intersects none.
    pub fn insert(&mut self, new_bounds: Bounds, data: T) -> (order: u32)
        requires
            old(self).wf(),
            max_intersecting_order(old(self)@, new_bounds) < u32::MAX,
        ensures
            final(self).wf(),
            order == max_intersecting_order(old(self)@, new_bounds) + 1,
            final(self)@ == old(self)@.push(Primitive { data, bounds: new_bounds, order }),
            final(self).nodes() == grown(
                old(self).nodes(),
                old(self).shape(),
                new_bounds,
                data,
                order,
            ),
            final(self).root() == Some(grown_root(old(self).nodes(), old(self).shape())),
    {
        let ghost before = self.nodes@;
        let ghost payload = data;

        // If the tree is empty, make the root the new leaf.
        if self.root.is_none() {
            let new_node = self.push_leaf(new_bounds, data, 1);
            self.root = Some(new_node);
            proof {
                let added = Primitive { data: payload, bounds: new_bounds, order: 1u32 };
                let only = Shape::Leaf { index: new_node };
                assert(before.push(self.nodes@[0]).drop_last() =~= before);
                assert(leaves(self.nodes@) =~= leaves(before).push(added));
                assert(traversal(self.nodes@, only) =~= leaves(self.nodes@));
                assert(spans(self.nodes@, new_node, only));
                lemma_orders_consistent_push(leaves(before), added);
            }
            return 1;
        }
        let ghost whole = self.shape()->0;
        let ghost mut ctx = Seq::<Frame>::empty();
        let ghost mut cur = whole;

        // Search for the best place to add the new leaf based on heuristics.
        let mut max_intersecting_ordering: u32 = 0;
        let mut index = self.root.unwrap();
        loop
            invariant
                self.nodes@.len() == before.len(),
                self.root == old(self).root,
                valid(before, whole),
                plug(ctx, cur) == whole,
                cur.index() == index,
                self.stack@.len() == ctx.len(),
                forall|k: int| 0 <= k < ctx.len() ==> self.stack@[k] == (#[trigger] ctx[k]).index,
                forall|i: usize|
                    i < before.len() ==> #[trigger] self.nodes@[i as int] == (if on_path(ctx, i) {
                        widened(before[i as int], new_bounds)
                    } else {
                        before[i as int]
                    }),
                max_intersecting_ordering == aside_max(before, ctx, new_bounds),
                ctx + chosen_path(before, cur, new_bounds) == chosen_path(before, whole, new_bounds),
                chosen_leaf(before, cur, new_bounds) == chosen_leaf(before, whole, new_bounds),
            ensures
                cur is Leaf,
            decreases cur,
        {
            proof {
                lemma_plug_valid(before, ctx, cur);
                lemma_valid_indices(before, cur);
            }
            let (left, right, widened_bounds, node_max_ordering) = match self.node(index) {
                Node::Internal { left, right, bounds, max_ordering } => (
                    *left,
                    *right,
                    bounds.merge(new_bounds),
                    *max_ordering,
                ),
                Node::Leaf { .. } => {
                    break ;
                },
            };
            let ghost left_shape = *cur->left;
            let ghost right_shape = *cur->right;
            let ghost passed = self.nodes@;
            self.nodes.set(
                index,
                Node::Internal {
                    left,
                    right,
                    bounds: widened_bounds,
                    max_ordering: node_max_ordering,
                },
            );
            self.stack.push(index);
            proof {
                lemma_valid_indices(before, left_shape);
                lemma_valid_indices(before, right_shape);
                assert forall|i: usize| left_shape.indices().contains(i) implies self.nodes@[i as int]
                    == before[i as int] by {
                    assert(cur.indices().contains(i));
                }
                assert forall|i: usize|
                    right_shape.indices().contains(i) implies self.nodes@[i as int]
                    == before[i as int] by {
                    assert(cur.indices().contains(i));
                }
                lemma_valid_frame(before, self.nodes@, left_shape);
                lemma_valid_frame(before, self.nodes@, right_shape);
            }

            // Descend to the best-fit child, based on which one would increase
            // the surface area the least. Whatever the other child holds that
            // intersects the new bounds is ordered below the new leaf.
            let left_cost = new_bounds.merge(self.node(left).bounds()).half_perimeter();
            let right_cost = new_bounds.merge(self.node(right).bounds()).half_perimeter();
            let ghost frame;
            if left_cost < right_cost {
                max_intersecting_ordering =
                self.collect_max_ordering(
                    right,
                    new_bounds,
                    max_intersecting_ordering,
                    Ghost(right_shape),
                );
                proof {
                    frame = Frame { index, went_left: true, other: right_shape };
                    cur = left_shape;
                }
                index = left;
            } else {
                max_intersecting_ordering =
                self.collect_max_ordering(
                    left,
                    new_bounds,
                    max_intersecting_ordering,
                    Ghost(left_shape),
                );
                proof {
                    frame = Frame { index, went_left: false, other: left_shape };
                    cur = right_shape;
                }
                index = right;
            }
            proof {
                let longer = ctx.push(frame);
                assert(longer.drop_last() =~= ctx);
                assert(longer.last() == frame);
                assert(longer + chosen_path(before, cur, new_bounds) =~= ctx + (seq![frame]
                    + chosen_path(before, cur, new_bounds)));
                assert forall|i: usize| i < before.len() implies #[trigger] self.nodes@[i as int]
                    == (if on_path(longer, i) {
                    widened(before[i as int], new_bounds)
                } else {
                    before[i as int]
                }) by {
                    lemma_on_path_split(longer, i);
                }
                ctx = longer;
            }
        }

        // We've found a leaf ('index' now refers to a leaf node).
        // We'll insert a new parent node above the leaf and attach our new leaf to it.
        let sibling = index;
        let ghost descended = self.nodes@;
        proof {
            lemma_leaf_reached(before, whole, ctx, cur, new_bounds);
        }

        // Check for collision with the located leaf node
        let (sibling_bounds, sibling_ordering) = match self.node(index) {
            Node::Leaf { bounds, order, .. } => (*bounds, *order),
            Node::Internal { .. } => unreached(),
        };
        if sibling_bounds.intersects(new_bounds) {
            max_intersecting_ordering = higher_of(max_intersecting_ordering, sibling_ordering);
        }
        let ordering = max_intersecting_ordering + 1;
        let new_node = self.push_leaf(new_bounds, data, ordering);
        let new_parent = self.push_internal(sibling, new_node);

        // If there was an old parent, we need to update its children indices.
        if self.stack.len() > 0 {
            let old_parent = self.stack[self.stack.len() - 1];
            assert(ctx[ctx.len() - 1] == ctx.last());
            assert(on_path(ctx, old_parent));
            let (left, right, bounds, max_ordering) = match self.node(old_parent) {
                Node::Internal { left, right, bounds, max_ordering } => (
                    *left,
                    *right,
                    *bounds,
                    *max_ordering,
                ),
                Node::Leaf { .. } => unreached(),
            };
            if left == sibling {
                self.nodes.set(
                    old_parent,
                    Node::Internal { left: new_parent, right, bounds, max_ordering },
                );
            } else {
                self.nodes.set(
                    old_parent,
                    Node::Internal { left, right: new_parent, bounds, max_ordering },
                );
            }
        } else {
            // If the old parent was the root, the new parent is the new root.
            self.root = Some(new_parent);
        }
        let ghost joined = self.nodes@;
        assert(forall|i: usize|
            i < before.len() ==> #[trigger] joined[i as int] == (if ctx.len() > 0 && i
                == ctx.last().index {
                redirected(descended[i as int], sibling, new_parent)
            } else {
                descended[i as int]
            }));

        // Every node passed on the way down now has the new leaf below it.
        let mut i: usize = 0;
        while i < self.stack.len()
            invariant
                i <= self.stack@.len(),
                self.stack@.len() == ctx.len(),
                forall|k: int| 0 <= k < ctx.len() ==> self.stack@[k] == (#[trigger] ctx[k]).index,
                forall|k: int|
                    0 <= k < ctx.len() ==> (#[trigger] ctx[k]).index < before.len()
                        && joined[ctx[k].index as int] is Internal,
                self.nodes@.len() == joined.len(),
                joined.len() == before.len() + 2,
                self.root == joined_root(old(self).root, ctx.len(), new_parent),
                forall|j: usize|
                    j < joined.len() ==> #[trigger] self.nodes@[j as int] == (if on_path(
                        ctx.take(i as int),
                        j,
                    ) {
                        raised(joined[j as int], ordering)
                    } else {
                        joined[j as int]
                    }),
            decreases self.stack@.len() - i,
        {
            let node_index = self.stack[i];
            assert(ctx[i as int].index == node_index);
            assert(!on_path(ctx.take(i as int), node_index) ==> self.nodes@[node_index as int]
                == joined[node_index as int]);
            let (left, right, bounds, max_ordering) = match self.node(node_index) {
                Node::Internal { left, right, bounds, max_ordering } => (
                    *left,
                    *right,
                    *bounds,
                    *max_ordering,
                ),
                Node::Leaf { .. } => unreached(),
            };
            self.nodes.set(
                node_index,
                Node::Internal {
                    left,
                    right,
                    bounds,
                    max_ordering: higher_of(max_ordering, ordering),
                },
            );
            proof {
                let longer = ctx.take(i as int + 1);
                assert(longer.drop_last() =~= ctx.take(i as int));
                assert(longer.last() == ctx[i as int]);
                assert forall|j: usize| j < joined.len() implies #[trigger] self.nodes@[j as int]
                    == (if on_path(longer, j) {
                    raised(joined[j as int], ordering)
                } else {
                    joined[j as int]
                }) by {
                    lemma_on_path_split(longer, j);
                }
            }
            i += 1;
        }
        self.stack.clear();

        proof {
            assert(ctx.take(ctx.len() as int) =~= ctx);
            assert(cur == Shape::Leaf { index: sibling });
            assert(self.nodes@.len() == self.nodes.len());
            lemma_inserted(
                before,
                descended,
                joined,
                self.nodes@,
                ctx,
                sibling,
                new_bounds,
                ordering,
                payload,
            );
            let added = Primitive { data: payload, bounds: new_bounds, order: ordering };
            lemma_orders_consistent_push(leaves(before), added);
            let join = Shape::Internal {
                index: new_parent,
                left: Box::new(Shape::Leaf { index: sibling }),
                right: Box::new(Shape::Leaf { index: new_node }),
            };
            assert(spans(self.nodes@, self.root.unwrap(), plug(ctx, join)));
        }
        ordering
    }

    fn push_leaf(&mut self, bounds: Bounds, data: T, order: u32) -> (index: usize)
        ensures
            final(self).nodes@ == old(self).nodes@.push(Node::Leaf { bounds, data, order }),
            final(self).root == old(self).root,
            final(self).stack@ == old(self).stack@,
            index == old(self).nodes@.len(),
    {
        self.nodes.push(Node::Leaf { bounds, data, order });
        self.nodes.len() - 1
    }

    fn push_internal(&mut self, left: usize, right: usize) -> (index: usize)
        requires
            left < old(self).nodes@.len(),
            right < old(self).nodes@.len(),
        ensures
            final(self).nodes@ == old(self).nodes@.push(
                Node::Internal {
                    left,
                    right,
                    bounds: old(self).nodes@[left as int].bounds().merge(
                        old(self).nodes@[right as int].bounds(),
                    ),
                    max_ordering: higher(
                        old(self).nodes@[left as int].max_ordering(),
                        old(self).nodes@[right as int].max_ordering(),
                    ),
                },
            ),
            final(self).root == old(self).root,
            final(self).stack@ == old(self).stack@,
            index == old(self).nodes@.len(),
    {
        let left_node = self.node(left);
        let right_node = self.node(right);
        let new_bounds = left_node.bounds().merge(right_node.bounds());
        let max_ordering = higher_of(left_node.max_ordering(), right_node.max_ordering());
        self.nodes.push(Node::Internal { bounds: new_bounds, left, right, max_ordering });
        self.nodes.len() - 1
    }

    /// Every stored shape with its order, each exactly once, in no
    /// particular sequence.
    pub fn iter(&self) -> (found: Vec<Primitive<&T>>)
        requires
            self.wf(),
        ensures
            found@.len() == self@.len(),
            detached(found@).to_multiset() == self@.to_multiset(),
            detached(found@) == (match self.shape() {
                None => Seq::empty(),
                Some(shape) => traversal(self.nodes(), shape),
            }),
    {
        let mut found: Vec<Primitive<&T>> = Vec::new();
        let mut stack: Vec<usize> = Vec::new();
        let ghost mut pending: Seq<Shape> = Seq::empty();
        let ghost all: Seq<Primitive<T>> = match self.shape() {
            None => Seq::empty(),
            Some(shape) => traversal(self.nodes@, shape),
        };
        if let Some(root) = self.root {
            stack.push(root);
            proof {
                let whole = self.shape()->0;
                pending = Seq::<Shape>::empty().push(whole);
                lemma_pending_push(self.nodes@, Seq::<Shape>::empty(), whole);
            }
        }
        assert(detached(found@) + pending_traversal(self.nodes@, pending) =~= all);
        while stack.len() > 0
            invariant
                stack@.len() == pending.len(),
                forall|k: int|
                    0 <= k < pending.len() ==> valid(self.nodes@, #[trigger] pending[k])
                        && stack@[k] == pending[k].index(),
                detached(found@) + pending_traversal(self.nodes@, pending) == all,
            decreases pending_size(pending),
        {
            let ghost top = pending.last();
            let ghost below = pending.drop_last();
            let ghost so_far = detached(found@);
            let node_ix = stack.pop().unwrap();
            assert(pending[pending.len() - 1] == top);
            proof {
                lemma_valid_indices(self.nodes@, top);
            }
            match self.node(node_ix) {
                Node::Leaf { bounds, data, order } => {
                    found.push(Primitive { bounds: *bounds, data, order: *order });
                    proof {
                        pending = below;
                        assert(detached(found@) =~= so_far.push(
                            self.nodes@[node_ix as int].primitive(),
                        ));
                        assert(detached(found@) + pending_traversal(self.nodes@, pending) =~= all);
                    }
                },
                Node::Internal { left, right, .. } => {
                    stack.push(*left);
                    stack.push(*right);
                    proof {
                        let l = *top->left;
                        let r = *top->right;
                        let one = below.push(l);
                        pending = one.push(r);
                        lemma_pending_push(self.nodes@, below, l);
                        lemma_pending_push(self.nodes@, one, r);
                        assert(pending_traversal(self.nodes@, pending) =~= traversal(
                            self.nodes@,
                            top,
                        ) + pending_traversal(self.nodes@, below));
                        assert(detached(found@) + pending_traversal(self.nodes@, pending) =~= all);
                    }
                },
            }
        }
        proof {
            broadcast use vstd::seq_lib::group_to_multiset_ensures;

            assert(detached(found@) =~= all);
            assert(detached(found@).len() == found@.len());
            assert(all.to_multiset() == self@.to_multiset());
            assert(all.len() == all.to_multiset().len());
            assert(self@.len() == self@.to_multiset().len());
        }
        found
    }

    /// Looks at every internal node and says whether each names two nodes of
    /// the arena, carries exactly the merge of their boxes and records the
    /// larger of their maxima. On a well-formed tree the answer is yes.
    pub fn is_tight(&self) -> (ok: bool)
        ensures
            ok == tight(self.nodes()),
    {
        let mut i: usize = 0;
        while i < self.nodes.len()
            invariant
                i <= self.nodes@.len(),
                forall|k: int| 0 <= k < i ==> tight_at(self.nodes@, k),
            decreases self.nodes@.len() - i,
        {
            match self.node(i) {
                Node::Leaf { .. } => {},
                Node::Internal { left, right, bounds, max_ordering } => {
                    if *left >= self.nodes.len() || *right >= self.nodes.len() {
                        assert(!tight_at(self.nodes@, i as int));
                        return false;
                    }
                    let merged = self.node(*left).bounds().merge(self.node(*right).bounds());
                    let max = higher_of(
                        self.node(*left).max_ordering(),
                        self.node(*right).max_ordering(),
                    );
                    if *bounds != merged || *max_ordering != max {
                        assert(!tight_at(self.nodes@, i as int));
                        return false;
                    }
                },
            }
            i += 1;
        }
        true
    }

    /// Folds into `max_ordering` the largest order, in the subtree at `index`,
    /// of a shape that intersects `bounds`. Subtrees whose box misses `bounds`
    /// or whose maximum cannot raise the result are not entered.
    fn collect_max_ordering(
        &self,
        index: usize,
        bounds: Bounds,
        max_ordering: u32,
        Ghost(shape): Ghost<Shape>,
    ) -> (raised: u32)
        requires
            valid(self.nodes@, shape),
            shape.index() == index,
        ensures
            raised == (if max_ordering >= max_intersecting_order(
                traversal(self.nodes@, shape),
                bounds,
            ) {
                max_ordering as nat
            } else {
                max_intersecting_order(traversal(self.nodes@, shape), bounds)
            }),
        decreases shape,
    {
        proof {
            lemma_valid_indices(self.nodes@, shape);
        }
        match self.node(index) {
            Node::Leaf { bounds: node_bounds, order: ordering, .. } => {
                proof {
                    let only = traversal(self.nodes@, shape);
                    assert(only.drop_last() =~= Seq::<Primitive<T>>::empty());
                    assert(max_intersecting_order(only.drop_last(), bounds) == 0);
                    assert(only.last() == self.nodes@[index as int].primitive());
                }
                if bounds.intersects(*node_bounds) {
                    higher_of(*ordering, max_ordering)
                } else {
                    max_ordering
                }
            },
            Node::Internal {
                left,
                right,
                bounds: node_bounds,
                max_ordering: node_max_ordering,
            } => {
                if bounds.intersects(*node_bounds) && max_ordering < *node_max_ordering {
                    let left_max_ordering = self.collect_max_ordering(
                        *left,
                        bounds,
                        max_ordering,
                        Ghost(*shape->left),
                    );
                    let right_max_ordering = self.collect_max_ordering(
                        *right,
                        bounds,
                        max_ordering,
                        Ghost(*shape->right),
                    );
                    proof {
                        lemma_max_intersecting_order_concat(
                            traversal(self.nodes@, *shape->right),
                            traversal(self.nodes@, *shape->left),
                            bounds,
                        );
                    }
                    higher_of(left_max_ordering, right_max_ordering)
                } else {
                    proof {
                        lemma_pruned_subtree(self.nodes@, shape, bounds, max_ordering);
                    }
                    max_ordering
                }
            },
        }
    }

    fn node(&self, index: usize) -> (node: &Node<T>)
        requires
            index < self.nodes@.len(),
        ensures
            *node == self.nodes@[index as int],
    {
        &self.nodes[index]
    }
}

/// What is known once a walk down a spanning tree has reached a leaf: where
/// it stands, what it passed, and that the orders it has left to consider
/// are those beside the path and that of the leaf.
proof fn lemma_leaf_reached<T>(
    before: Seq<Node<T>>,
    whole: Shape,
    ctx: Seq<Frame>,
    cur: Shape,
    bounds: Bounds,
)
    requires
        valid(before, whole),
        plug(ctx, cur) == whole,
        cur is Leaf,
        traversal(before, whole).to_multiset() == leaves(before).to_multiset(),
    ensures
        cur.index() < before.len(),
        before[cur.index() as int] is Leaf,
        !on_path(ctx, cur.index()),
        forall|k: int|
            0 <= k < ctx.len() ==> (#[trigger] ctx[k]).index < before.len()
                && before[ctx[k].index as int] is Internal,
        max_intersecting_order(leaves(before), bounds) == ({
            let beside = aside_max(before, ctx, bounds);
            let found = before[cur.index() as int];
            if found.bounds().intersects(bounds) && found.max_ordering() > beside {
                found.max_ordering() as nat
            } else {
                beside
            }
        }),
{
    lemma_plug_valid(before, ctx, cur);
    lemma_valid_indices(before, cur);
    lemma_plug_linked(before, ctx, cur);
    lemma_plug_max(before, ctx, cur, bounds);
    lemma_max_intersecting_order_permutation(traversal(before, whole), leaves(before), bounds);
    let only = traversal(before, cur);
    assert(only.drop_last() =~= Seq::<Primitive<T>>::empty());
    assert(max_intersecting_order(only.drop_last(), bounds) == 0);
    assert(only.last() == before[cur.index() as int].primitive());
    assert forall|k: int| 0 <= k < ctx.len() implies (#[trigger] ctx[k]).index < before.len()
        && before[ctx[k].index as int] is Internal by {
        assert(on_path(ctx, ctx[k].index));
    }
}

/// The three passes of an insertion below a non-empty tree, taken together,
/// leave a tree that spans the arena and stores one shape more.
proof fn lemma_inserted<T>(
    before: Seq<Node<T>>,
    descended: Seq<Node<T>>,
    joined: Seq<Node<T>>,
    after: Seq<Node<T>>,
    ctx: Seq<Frame>,
    sibling: usize,
    bounds: Bounds,
    order: u32,
    data: T,
)
    requires
        spans(
            before,
            plug(ctx, Shape::Leaf { index: sibling }).index(),
            plug(ctx, Shape::Leaf { index: sibling }),
        ),
        descended.len() == before.len(),
        forall|i: usize|
            i < before.len() ==> #[trigger] descended[i as int] == (if on_path(ctx, i) {
                widened(before[i as int], bounds)
            } else {
                before[i as int]
            }),
        joined.len() == before.len() + 2,
        joined.len() <= usize::MAX,
        joined[before.len() as int] == (Node::Leaf { bounds, data, order }),
        joined[before.len() as int + 1] == (Node::<T>::Internal {
            left: sibling,
            right: before.len() as usize,
            bounds: before[sibling as int].bounds().merge(bounds),
            max_ordering: higher(before[sibling as int].max_ordering(), order),
        }),
        forall|i: usize|
            i < before.len() ==> #[trigger] joined[i as int] == (if ctx.len() > 0 && i
                == ctx.last().index {
                redirected(descended[i as int], sibling, (before.len() + 1) as usize)
            } else {
                descended[i as int]
            }),
        after.len() == joined.len(),
        forall|j: usize|
            j < joined.len() ==> #[trigger] after[j as int] == (if on_path(ctx, j) {
                raised(joined[j as int], order)
            } else {
                joined[j as int]
            }),
    ensures
        leaves(after) == leaves(before).push(Primitive { data, bounds, order }),
        ({
            let join = Shape::Internal {
                index: (before.len() + 1) as usize,
                left: Box::new(Shape::Leaf { index: sibling }),
                right: Box::new(Shape::Leaf { index: before.len() as usize }),
            };
            let old_whole = plug(ctx, Shape::Leaf { index: sibling });
            let new_root = if ctx.len() > 0 {
                old_whole.index()
            } else {
                (before.len() + 1) as usize
            };
            spans(after, new_root, plug(ctx, join))
        }),
{
    let n = before.len() as usize;
    let old_whole = plug(ctx, Shape::Leaf { index: sibling });
    let added = Primitive { data, bounds, order };
    lemma_plug_valid(before, ctx, Shape::Leaf { index: sibling });
    assert forall|k: int| 0 <= k < ctx.len() implies (#[trigger] ctx[k]).index < before.len() by {
        assert(on_path(ctx, ctx[k].index));
    }
    assert(!on_path(ctx, n) && !on_path(ctx, (n + 1) as usize));
    assert forall|i: usize| i < before.len() implies #[trigger] after[i as int] == settled(
        before[i as int],
        on_path(ctx, i),
        ctx.len() > 0 && i == ctx.last().index,
        sibling,
        (before.len() + 1) as usize,
        bounds,
        order,
    ) by {
        if ctx.len() > 0 && i == ctx.last().index {
            assert(ctx[ctx.len() - 1] == ctx.last());
            assert(on_path(ctx, i));
        }
        assert(joined[i as int] == joined[i as int]);
        assert(descended[i as int] == descended[i as int]);
    }
    assert(after[n as int] == joined[n as int]);
    assert(after[n as int + 1] == joined[n as int + 1]);
    lemma_join(before, after, ctx, sibling, bounds, order, data);
    assert(leaves(after) == leaves(before).push(added)) by {
        let kept = after.take(n as int);
        lemma_plug_linked(before, ctx, Shape::Leaf { index: sibling });
        assert forall|i: int| 0 <= i < before.len() implies if before[i] is Leaf {
            kept[i] == before[i]
        } else {
            kept[i] is Internal
        } by {
            let at = i as usize;
            assert(kept[i] == after[at as int]);
        }
        lemma_leaves_unchanged(before, kept);
        lemma_leaves_grown(kept, after[n as int], after[n as int + 1]);
        assert(after =~= kept.push(after[n as int]).push(after[n as int + 1]));
    }
    assert(traversal(before, old_whole).to_multiset().insert(added) == leaves(
        after,
    ).to_multiset()) by {
        broadcast use vstd::seq_lib::group_to_multiset_ensures;

    }
}

} // verus!
