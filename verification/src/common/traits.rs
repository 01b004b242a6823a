//! Core trait definitions for tree data structures.
//!
//! The traits carry contracts over abstract spec functions that every
//! implementation defines: how many values it holds, what its height is, which
//! values it holds, and in which orders a traversal meets them.

use crate::common::error::{Result, TreeError};
use crate::common::order::{lt, total_order};
use vstd::prelude::*;

verus! {

/// Common operations for all tree-like structures.
pub trait Tree<T> {
    /// What the tree's operations need of its state. Each implementation
    /// defines it; left undefined, it is a value nothing is known of.
    open spec fn well_formed(&self) -> bool {
        arbitrary()
    }

    /// Number of values in the tree. Each implementation defines it; left
    /// undefined, it is a value nothing is known of.
    open spec fn node_count(&self) -> nat {
        arbitrary()
    }

    /// The height that `height` reports. Each implementation defines it; left
    /// undefined, it is a value nothing is known of.
    open spec fn tree_height(&self) -> nat {
        arbitrary()
    }

    /// Returns the number of elements in the tree.
    fn len(&self) -> (n: usize)
        requires
            self.well_formed(),
        ensures
            n == self.node_count(),
    ;

    /// Returns `true` if the tree contains no elements.
    fn is_empty(&self) -> (b: bool)
        requires
            self.well_formed(),
        ensures
            b == (self.node_count() == 0),
    {
        self.len() == 0
    }

    /// Removes all elements from the tree.
    fn clear(&mut self)
        ensures
            final(self).well_formed(),
            final(self).node_count() == 0,
            final(self).tree_height() == 0,
    ;

    /// Returns the height of the tree.
    fn height(&self) -> (h: usize)
        requires
            self.well_formed(),
        ensures
            h == self.tree_height(),
    ;
}

/// Trees that keep their values in order and find them by comparison.
///
/// The operations rely on `T::cmp` being the total order that `Ord` promises
/// (`total_order::<T>()`).
pub trait OrderedTree<T: Ord>: Tree<T> {
    /// The set of values in the tree.
    spec fn contents(&self) -> Set<T>;

    /// Inserts a value into the tree; a value already present is left alone.
    ///
    /// Errors: implementation-specific; on success the value is in the tree.
    fn insert(&mut self, value: T) -> (r: Result<()>)
        requires
            old(self).well_formed(),
            total_order::<T>(),
            old(self).node_count() < usize::MAX,
        ensures
            final(self).well_formed(),
            r is Ok ==> final(self).contents() == old(self).contents().insert(value)
                && final(self).node_count() == old(self).node_count() + if old(
                self,
            ).contents().contains(value) {
                0nat
            } else {
                1nat
            },
    ;

    /// Removes a value from the tree and returns it.
    ///
    /// Errors: an error when the value is not in the tree, such as
    /// `NodeNotFound`.
    fn remove(&mut self, value: &T) -> (r: Result<T>)
        requires
            old(self).well_formed(),
            total_order::<T>(),
        ensures
            final(self).well_formed(),
            !old(self).contents().contains(*value) ==> r is Err,
            r is Err ==> final(self).contents() == old(self).contents() && final(self).node_count()
                == old(self).node_count(),
            old(self).contents().contains(*value) ==> r == Ok::<T, TreeError>(*value)
                && final(self).contents() == old(self).contents().remove(*value)
                && final(self).node_count() + 1 == old(self).node_count(),
    ;

    /// Returns `true` if the tree contains the value.
    fn contains(&self, value: &T) -> (b: bool)
        requires
            self.well_formed(),
            total_order::<T>(),
        ensures
            b == self.contents().contains(*value),
    ;

    /// Returns the smallest value, or `None` when the tree is empty.
    fn min(&self) -> (r: Option<&T>)
        requires
            self.well_formed(),
            total_order::<T>(),
        ensures
            r is None <==> self.contents() == Set::<T>::empty(),
            r matches Some(m) ==> self.contents().contains(*m) && forall|x: T| #[trigger]
                self.contents().contains(x) ==> !lt(x, *m),
    ;

    /// Returns the largest value, or `None` when the tree is empty.
    fn max(&self) -> (r: Option<&T>)
        requires
            self.well_formed(),
            total_order::<T>(),
        ensures
            r is None <==> self.contents() == Set::<T>::empty(),
            r matches Some(m) ==> self.contents().contains(*m) && forall|x: T| #[trigger]
                self.contents().contains(x) ==> !lt(*m, x),
    ;
}

/// The Visitor pattern for tree traversal: `visit` is called for each value in
/// the traversal order.
///
/// An implementation says, through `visit_step`, which states it may move to
/// when it visits a value; the traversals are specified by the sequence of
/// values that they hand to `visit`.
pub trait Visitor<T>: Sized {
    /// `next` is a state that `self` may move to by visiting `value`.
    spec fn visit_step(self, value: T, next: Self) -> bool;

    /// Called for each node value during traversal.
    fn visit(&mut self, value: &T)
        ensures
            old(self).visit_step(*value, *final(self)),
    ;
}

/// Visiting the values of `s`, in order, can take the visitor from `start` to `end`.
pub open spec fn visits<T, V: Visitor<T>>(start: V, s: Seq<T>, end: V) -> bool
    decreases s.len(),
{
    if s.len() == 0 {
        start == end
    } else {
        exists|m: V| #[trigger] start.visit_step(s[0], m) && visits(m, s.drop_first(), end)
    }
}

/// One more visit extends a run of visits.
pub proof fn lemma_visits_push<T, V: Visitor<T>>(a: V, s: Seq<T>, m: V, x: T, b: V)
    requires
        visits(a, s, m),
        m.visit_step(x, b),
    ensures
        visits(a, s.push(x), b),
    decreases s.len(),
{
    if s.len() == 0 {
        assert(s.push(x).drop_first() =~= Seq::<T>::empty());
        assert(visits(b, s.push(x).drop_first(), b));
        assert(a.visit_step(s.push(x)[0], b));
    } else {
        let m1 = choose|m1: V| #[trigger] a.visit_step(s[0], m1) && visits(m1, s.drop_first(), m);
        lemma_visits_push(m1, s.drop_first(), m, x, b);
        assert(s.push(x).drop_first() =~= s.drop_first().push(x));
        assert(visits(m1, s.push(x).drop_first(), b));
        assert(a.visit_step(s.push(x)[0], m1));
    }
}

/// Two runs of visits, one after the other, are one run.
pub proof fn lemma_visits_append<T, V: Visitor<T>>(a: V, s1: Seq<T>, m: V, s2: Seq<T>, b: V)
    requires
        visits(a, s1, m),
        visits(m, s2, b),
    ensures
        visits(a, s1 + s2, b),
    decreases s1.len(),
{
    if s1.len() == 0 {
        assert(s1 + s2 =~= s2);
    } else {
        let m1 = choose|m1: V| #[trigger] a.visit_step(s1[0], m1) && visits(m1, s1.drop_first(), m);
        lemma_visits_append(m1, s1.drop_first(), m, s2, b);
        assert((s1 + s2).drop_first() =~= s1.drop_first() + s2);
        assert(visits(m1, (s1 + s2).drop_first(), b));
        assert(a.visit_step((s1 + s2)[0], m1));
    }
}

/// No visits leave the visitor where it is.
pub proof fn lemma_visits_empty<T, V: Visitor<T>>(a: V)
    ensures
        visits(a, Seq::<T>::empty(), a),
{
}

/// Trees that support the four traversal orders.
pub trait Traversable<T> {
    /// Values in in-order (left subtree, node, right subtree).
    spec fn inorder_values(&self) -> Seq<T>;

    /// Values in pre-order (node, left subtree, right subtree).
    spec fn preorder_values(&self) -> Seq<T>;

    /// Values in post-order (left subtree, right subtree, node).
    spec fn postorder_values(&self) -> Seq<T>;

    /// Values level by level, each level from left to right.
    spec fn levelorder_values(&self) -> Seq<T>;

    /// Traverses the tree in in-order (left-node-right).
    fn traverse_inorder<V: Visitor<T>>(&self, visitor: &mut V)
        ensures
            visits(*old(visitor), self.inorder_values(), *final(visitor)),
    ;

    /// Traverses the tree in pre-order (node-left-right).
    fn traverse_preorder<V: Visitor<T>>(&self, visitor: &mut V)
        ensures
            visits(*old(visitor), self.preorder_values(), *final(visitor)),
    ;

    /// Traverses the tree in post-order (left-right-node).
    fn traverse_postorder<V: Visitor<T>>(&self, visitor: &mut V)
        ensures
            visits(*old(visitor), self.postorder_values(), *final(visitor)),
    ;

    /// Traverses the tree level by level (breadth-first).
    fn traverse_levelorder<V: Visitor<T>>(&self, visitor: &mut V)
        ensures
            visits(*old(visitor), self.levelorder_values(), *final(visitor)),
    ;
}

/// Trees that answer queries over ranges of positions.
pub trait RangeQueryTree<T>: Tree<T> {
    /// Performs a query over the positions `left..=right`.
    fn range_query(&self, left: usize, right: usize) -> T;

    /// Updates the value at the position `index`.
    fn update(&mut self, index: usize, value: T);
}

/// Trees with parent links allowing upward traversal.
pub trait ParentTree<T>: Tree<T> {
    /// A reference to a node of the tree.
    type NodeRef;

    /// The parent of the given node, or `None` for the root.
    fn parent(&self, node: &Self::NodeRef) -> Option<Self::NodeRef>;

    /// The root node, or `None` when the tree is empty.
    fn root(&self) -> Option<Self::NodeRef>;
}

/// A visitor that collects the values it visits, in order.
pub struct CollectVisitor {
    pub values: Vec<i32>,
}

impl Visitor<i32> for CollectVisitor {
    open spec fn visit_step(self, value: i32, next: Self) -> bool {
        next.values@ == self.values@.push(value)
    }

    fn visit(&mut self, value: &i32) {
        self.values.push(*value);
    }
}

/// A collecting visitor ends with the values it visited appended to the ones
/// it started with.
pub proof fn lemma_collect_visits(a: CollectVisitor, s: Seq<i32>, b: CollectVisitor)
    requires
        visits(a, s, b),
    ensures
        b.values@ == a.values@ + s,
    decreases s.len(),
{
    if s.len() == 0 {
        assert(a.values@ + s =~= a.values@);
    } else {
        let m = choose|m: CollectVisitor| #[trigger] a.visit_step(s[0], m) && visits(m, s.drop_first(), b);
        lemma_collect_visits(m, s.drop_first(), b);
        assert(a.values@ + s =~= a.values@.push(s[0]) + s.drop_first());
    }
}

} // verus!
