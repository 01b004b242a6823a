//! Binary search tree with boxed nodes.
//!
//! For every node, all values in its left subtree are smaller and all values in
//! its right subtree are larger; the in-order walk therefore lists the values in
//! increasing order.

use crate::common::error::{Result, TreeError};
use crate::common::order::{lemma_total_order, lt, ord_eq, ord_gt, total_order};
use crate::common::shape::{
    lemma_bst_insert, lemma_bst_leftmost, lemma_bst_remove, lemma_bst_rightmost,
    lemma_height_le_size, lemma_size_contents, Shape,
};
use crate::common::shape::{
    bfs, forest_kids, forest_weight, lemma_bfs_kids_step, lemma_bfs_single,
    lemma_forest_kids_append, lemma_forest_kids_single, lemma_roots_kids, lemma_weight_append,
    lemma_weight_kids, roots,
};
use crate::common::traits::{
    lemma_visits_append, lemma_visits_empty, lemma_visits_push, visits, OrderedTree, Traversable,
    Tree, Visitor,
};
use std::collections::VecDeque;
use core::cmp::Ordering;
use vstd::prelude::*;

verus! {

/// A node of a binary search tree.
#[derive(Debug)]
pub struct Node<T: Ord> {
    pub value: T,
    pub left: Option<Box<Node<T>>>,
    pub right: Option<Box<Node<T>>>,
}

impl<T: Ord> Node<T> {
    /// The shape of the subtree rooted at this node.
    pub open spec fn shape(self) -> Shape<T>
        decreases self,
    {
        Shape::Branch(self.value, Box::new(link_shape(self.left)), Box::new(link_shape(self.right)))
    }

    /// A node without children.
    pub fn new(value: T) -> (n: Self)
        ensures
            n.value == value,
            n.left is None,
            n.right is None,
            n.shape() == Shape::Branch(value, Box::new(Shape::<T>::Empty), Box::new(Shape::<T>::Empty)),
    {
        Node { value, left: None, right: None }
    }
}

/// The shape of an optional subtree.
pub open spec fn link_shape<T: Ord>(link: Option<Box<Node<T>>>) -> Shape<T>
    decreases link,
{
    match link {
        Some(n) => n.shape(),
        None => Shape::Empty,
    }
}

/// Number of edges on the longest root-to-leaf path; 0 for an empty tree.
pub open spec fn edge_height<T>(s: Shape<T>) -> nat {
    if s.height() == 0 {
        0
    } else {
        (s.height() - 1) as nat
    }
}

/// The tree obtained by hanging `sub` back into the path of detached ancestors
/// `path`, each marked with the side (`true` for left) that `sub` hangs from.
pub open spec fn plug<T: Ord>(path: Seq<(Box<Node<T>>, bool)>, sub: Shape<T>) -> Shape<T>
    decreases path.len(),
{
    if path.len() == 0 {
        sub
    } else {
        let (n, went_left) = path.last();
        plug(path.drop_last(), attach(*n, went_left, sub))
    }
}

/// `n` with `sub` in place of its left (`went_left`) or right child.
pub open spec fn attach<T: Ord>(n: Node<T>, went_left: bool, sub: Shape<T>) -> Shape<T> {
    if went_left {
        Shape::Branch(n.value, Box::new(sub), Box::new(link_shape(n.right)))
    } else {
        Shape::Branch(n.value, Box::new(link_shape(n.left)), Box::new(sub))
    }
}

/// The tree obtained by hanging `sub` as the right child of the last node of
/// `spine`, that node as the right child of the one before, and so on.
pub open spec fn spine_plug<T: Ord>(spine: Seq<Box<Node<T>>>, sub: Shape<T>) -> Shape<T>
    decreases spine.len(),
{
    if spine.len() == 0 {
        sub
    } else {
        spine_plug(spine.drop_last(), attach(*spine.last(), false, sub))
    }
}

/// A binary search tree that keeps its length and height.
#[derive(Debug)]
pub struct BST<T: Ord> {
    root: Option<Box<Node<T>>>,
    len: usize,
    height: usize,
}

/// Number of nodes on the longest path of a subtree.
fn node_height<T: Ord>(link: &Option<Box<Node<T>>>) -> (h: usize)
    requires
        link_shape(*link).size() <= usize::MAX,
    ensures
        h == link_shape(*link).height(),
    decreases link_shape(*link).size(),
{
    proof {
        lemma_height_le_size(link_shape(*link));
    }
    match link {
        None => 0,
        Some(n) => {
            let hl = node_height(&n.left);
            let hr = node_height(&n.right);
            if hl >= hr {
                1 + hl
            } else {
                1 + hr
            }
        },
    }
}

impl<T: Ord> BST<T> {
    /// The shape of the tree.
    pub closed spec fn shape(&self) -> Shape<T> {
        link_shape(self.root)
    }

    /// The search order holds, and the stored length and height are those of the tree.
    pub closed spec fn invariant_holds(&self) -> bool {
        &&& self.shape().is_bst()
        &&& self.len == self.shape().size()
        &&& self.height == edge_height(self.shape())
    }

    /// Creates an empty tree.
    pub fn new() -> (t: Self)
        ensures
            t.well_formed(),
            t.shape() == Shape::<T>::Empty,
            t.node_count() == 0,
            t.contents() == Set::<T>::empty(),
    {
        BST { root: None, len: 0, height: 0 }
    }

    /// Recomputes the height from the root.
    fn update_height(&mut self)
        requires
            old(self).shape().size() <= usize::MAX,
        ensures
            final(self).root == old(self).root,
            final(self).len == old(self).len,
            final(self).height == edge_height(final(self).shape()),
    {
        self.height = node_height(&self.root).saturating_sub(1);
    }

    /// Inserts into the non-empty subtree `node`; returns whether the value was new.
    fn insert_into(node: &mut Box<Node<T>>, value: T) -> (inserted: bool)
        requires
            total_order::<T>(),
            old(node).shape().is_bst(),
        ensures
            final(node).shape() == old(node).shape().bst_insert(value),
            inserted == !old(node).shape().contents().contains(value),
        decreases old(node).shape().size(),
    {
        proof {
            lemma_total_order::<T>();
            crate::common::shape::lemma_bst_descend(node.shape(), value);
        }
        match value.cmp(&node.value) {
            Ordering::Less => match node.left.take() {
                Some(mut left) => {
                    let inserted = Self::insert_into(&mut left, value);
                    node.left = Some(left);
                    inserted
                },
                None => {
                    node.left = Some(Box::new(Node::new(value)));
                    true
                },
            },
            Ordering::Greater => {
                assert(ord_gt(value, node.value));
                match node.right.take() {
                Some(mut right) => {
                    let inserted = Self::insert_into(&mut right, value);
                    node.right = Some(right);
                    inserted
                },
                None => {
                    node.right = Some(Box::new(Node::new(value)));
                    true
                },
            }},
            Ordering::Equal => {
                assert(ord_eq(value, node.value));
                false
            },
        }
    }
}

impl<T: Ord> BST<T> {
    /// Removes `value` from the subtree `link`; returns the new subtree and the
    /// removed value, or `None` for the value when it is not there.
    fn remove_from(link: Option<Box<Node<T>>>, value: &T) -> (res: (Option<Box<Node<T>>>, Option<T>))
        requires
            total_order::<T>(),
            link_shape(link).is_bst(),
        ensures
            link_shape(res.0) == link_shape(link).bst_remove(*value),
            link_shape(res.0).is_bst(),
            link_shape(res.0).contents() == link_shape(link).contents().remove(*value),
            !link_shape(link).contents().contains(*value) ==> link_shape(res.0) == link_shape(
                link,
            ),
            res.1 == if link_shape(link).contents().contains(*value) {
                Some(*value)
            } else {
                None::<T>
            },
        decreases link_shape(link).size(),
    {
        proof {
            lemma_bst_remove(link_shape(link), *value);
        }
        let node = match link {
            None => return (None, None),
            Some(n) => n,
        };
        proof {
            lemma_total_order::<T>();
            crate::common::shape::lemma_bst_descend(node.shape(), *value);
        }
        let Node { value: v, left, right } = *node;
        match value.cmp(&v) {
            Ordering::Less => {
                let (new_left, result) = Self::remove_from(left, value);
                (Some(Box::new(Node { value: v, left: new_left, right })), result)
            },
            Ordering::Greater => {
                assert(ord_gt(*value, v));
                let (new_right, result) = Self::remove_from(right, value);
                (Some(Box::new(Node { value: v, left, right: new_right })), result)
            },
            Ordering::Equal => {
                assert(ord_eq(*value, v));
                match (left, right) {
                    (None, None) => (None, Some(v)),
                    (Some(l), None) => (Some(l), Some(v)),
                    (None, Some(r)) => (Some(r), Some(v)),
                    (Some(l), Some(r)) => {
                        let (new_left, pred_value) = Self::take_rightmost(l);
                        (Some(Box::new(Node { value: pred_value, left: new_left, right: Some(r) })), Some(v))
                    },
                }
            },
        }
    }

    /// Takes the rightmost node out of a subtree; returns the rest of the subtree
    /// and the value of that node.
    fn take_rightmost(node: Box<Node<T>>) -> (res: (Option<Box<Node<T>>>, T))
        ensures
            link_shape(res.0) == node.shape().without_rightmost(),
            res.1 == node.shape().rightmost(),
        decreases node.shape().size(),
    {
        let Node { value, left, right } = *node;
        match right {
            None => (left, value),
            Some(r) => {
                let (new_right, v) = Self::take_rightmost(r);
                (Some(Box::new(Node { value, left, right: new_right })), v)
            },
        }
    }

    /// Hangs `sub` back into the detached ancestors `path`, bottom up.
    fn rebuild(path: Vec<(Box<Node<T>>, bool)>, sub: Option<Box<Node<T>>>) -> (r: Option<
        Box<Node<T>>,
    >)
        ensures
            link_shape(r) == plug(path@, link_shape(sub)),
    {
        let ghost goal = plug(path@, link_shape(sub));
        let mut path = path;
        let mut sub = sub;
        while path.len() > 0
            invariant
                plug(path@, link_shape(sub)) == goal,
            decreases path.len(),
        {
            let ghost before = path@;
            let (mut n, went_left) = path.pop().unwrap();
            proof {
                assert(before.drop_last() =~= path@);
            }
            if went_left {
                n.left = sub;
            } else {
                n.right = sub;
            }
            sub = Some(n);
        }
        sub
    }

    /// Takes the rightmost node out of a subtree by walking down its right
    /// spine; returns the rest of the subtree and the value of that node.
    fn take_rightmost_iter(node: Box<Node<T>>) -> (res: (Option<Box<Node<T>>>, T))
        ensures
            link_shape(res.0) == node.shape().without_rightmost(),
            res.1 == node.shape().rightmost(),
    {
        let ghost whole = node.shape();
        let mut spine: Vec<Box<Node<T>>> = Vec::new();
        let mut cur = node;
        while cur.right.is_some()
            invariant
                spine_plug(spine@, cur.shape()) == whole,
                spine_plug(spine@, cur.shape().without_rightmost()) == whole.without_rightmost(),
                cur.shape().rightmost() == whole.rightmost(),
                forall|i: int| 0 <= i < spine@.len() ==> (#[trigger] spine@[i]).right is None,
            decreases cur.shape().size(),
        {
            let ghost before = spine@;
            let r = cur.right.take().unwrap();
            spine.push(cur);
            proof {
                assert(spine@.drop_last() =~= before);
            }
            cur = r;
        }
        let Node { value, left, right: _ } = *cur;
        let mut sub = left;
        while spine.len() > 0
            invariant
                spine_plug(spine@, link_shape(sub)) == whole.without_rightmost(),
                forall|i: int| 0 <= i < spine@.len() ==> (#[trigger] spine@[i]).right is None,
            decreases spine.len(),
        {
            let ghost before = spine@;
            let mut p = spine.pop().unwrap();
            proof {
                assert(before.drop_last() =~= spine@);
            }
            p.right = sub;
            sub = Some(p);
        }
        (sub, value)
    }

    /// Removes a value with an iterative walk: the ancestors are detached on the
    /// way down and hung back on the way up. Same results as `remove`.
    pub fn remove_iterative(&mut self, value: &T) -> (r: Result<T>)
        requires
            old(self).well_formed(),
            total_order::<T>(),
        ensures
            final(self).well_formed(),
            final(self).shape() == old(self).shape().bst_remove(*value),
            !old(self).contents().contains(*value) ==> final(self).shape() == old(self).shape(),
            old(self).node_count() == 0 ==> r == Err::<T, TreeError>(TreeError::EmptyTree),
            old(self).node_count() != 0 && !old(self).contents().contains(*value) ==> r == Err::<
                T,
                TreeError,
            >(TreeError::NodeNotFound),
            r is Err ==> final(self).contents() == old(self).contents() && final(self).node_count()
                == old(self).node_count(),
            old(self).contents().contains(*value) ==> r == Ok::<T, TreeError>(*value)
                && final(self).contents() == old(self).contents().remove(*value)
                && final(self).node_count() + 1 == old(self).node_count(),
    {
        proof {
            lemma_bst_remove(self.shape(), *value);
            lemma_size_contents(self.shape());
            lemma_total_order::<T>();
        }
        if self.root.is_none() {
            return Err(TreeError::EmptyTree);
        }
        let ghost whole = self.shape();
        let mut path: Vec<(Box<Node<T>>, bool)> = Vec::new();
        let mut curr = self.root.take();
        loop
            invariant
                total_order::<T>(),
                whole.is_bst(),
                whole == old(self).shape(),
                self.len == old(self).len,
                self.height == old(self).height,
                self.height == edge_height(whole),
                whole.size() != 0,
                self.len == whole.size(),
                link_shape(curr).is_bst(),
                plug(path@, link_shape(curr)) == whole,
                plug(path@, link_shape(curr).bst_remove(*value)) == whole.bst_remove(*value),
                whole.contents().contains(*value) <==> link_shape(curr).contents().contains(*value),
            decreases link_shape(curr).size(),
        {
            let mut node = match curr {
                None => {
                    self.root = Self::rebuild(path, None);
                    return Err(TreeError::NodeNotFound);
                },
                Some(n) => n,
            };
            proof {
                lemma_total_order::<T>();
                crate::common::shape::lemma_bst_descend(node.shape(), *value);
            }
            let ghost before = path@;
            match value.cmp(&node.value) {
                Ordering::Less => {
                    let child = node.left.take();
                    path.push((node, true));
                    proof {
                        assert(path@.drop_last() =~= before);
                    }
                    curr = child;
                },
                Ordering::Greater => {
                    assert(ord_gt(*value, node.value));
                    let child = node.right.take();
                    path.push((node, false));
                    proof {
                        assert(path@.drop_last() =~= before);
                    }
                    curr = child;
                },
                Ordering::Equal => {
                    assert(ord_eq(*value, node.value));
                    proof {
                        lemma_bst_remove(whole, *value);
                    }
                    self.len -= 1;
                    let ghost ns = node.shape();
                    let Node { value: removed, left, right } = *node;
                    assert(*value == removed);
                    assert(!lt(removed, removed));
                    assert(ns.bst_remove(*value) == if link_shape(left) is Empty {
                        link_shape(right)
                    } else if link_shape(right) is Empty {
                        link_shape(left)
                    } else {
                        Shape::Branch(
                            link_shape(left).rightmost(),
                            Box::new(link_shape(left).without_rightmost()),
                            Box::new(link_shape(right)),
                        )
                    });
                    let sub = match (left, right) {
                        (None, None) => None,
                        (Some(l), None) => Some(l),
                        (None, Some(r)) => Some(r),
                        (Some(l), Some(r)) => {
                            let (new_left, pred_value) = Self::take_rightmost_iter(l);
                            Some(Box::new(Node { value: pred_value, left: new_left, right: Some(r) }))
                        },
                    };
                    assert(link_shape(sub) == ns.bst_remove(*value));
                    self.root = Self::rebuild(path, sub);
                    assert(self.shape() == whole.bst_remove(*value));
                    self.update_height();
                    return Ok(removed);
                },
            }
        }
    }

    /// Whether the value is in the subtree `link`.
    fn find_node(link: &Option<Box<Node<T>>>, value: &T) -> (b: bool)
        requires
            total_order::<T>(),
            link_shape(*link).is_bst(),
        ensures
            b == link_shape(*link).contents().contains(*value),
        decreases link_shape(*link).size(),
    {
        match link {
            None => false,
            Some(n) => {
                proof {
                    lemma_total_order::<T>();
                    crate::common::shape::lemma_bst_descend(n.shape(), *value);
                }
                match value.cmp(&n.value) {
                    Ordering::Equal => {
                        assert(ord_eq(*value, n.value));
                        true
                    },
                    Ordering::Less => Self::find_node(&n.left, value),
                    Ordering::Greater => {
                        assert(ord_gt(*value, n.value));
                        Self::find_node(&n.right, value)
                    },
                }
            },
        }
    }

    /// The value of the leftmost node of a subtree.
    fn most_left(node: &Box<Node<T>>) -> (r: &T)
        ensures
            *r == node.shape().leftmost(),
        decreases node.shape().size(),
    {
        match &node.left {
            None => &node.value,
            Some(left) => Self::most_left(left),
        }
    }

    /// The value of the rightmost node of a subtree.
    fn most_right(node: &Node<T>) -> (r: &T)
        ensures
            *r == node.shape().rightmost(),
        decreases node.shape().size(),
    {
        match &node.right {
            None => &node.value,
            Some(right) => Self::most_right(right),
        }
    }
}

impl<T: Ord> Tree<T> for BST<T> {
    open spec fn well_formed(&self) -> bool {
        self.invariant_holds()
    }

    open spec fn node_count(&self) -> nat {
        self.shape().size()
    }

    open spec fn tree_height(&self) -> nat {
        edge_height(self.shape())
    }

    fn is_empty(&self) -> (b: bool) {
        self.len == 0
    }

    fn len(&self) -> (n: usize) {
        self.len
    }

    fn height(&self) -> (h: usize) {
        self.height
    }

    fn clear(&mut self) {
        self.root = None;
        self.len = 0;
        self.height = 0;
    }
}

impl<T: Ord> OrderedTree<T> for BST<T> {
    open spec fn contents(&self) -> Set<T> {
        self.shape().contents()
    }

    /// The new value hangs as a leaf where the search for it ends.
    fn insert(&mut self, value: T) -> (r: Result<()>)
        ensures
            r is Ok,
            final(self).contents() == old(self).contents().insert(value),
            final(self).node_count() == old(self).node_count() + if old(self).contents().contains(
                value,
            ) {
                0nat
            } else {
                1nat
            },
            final(self).shape() == old(self).shape().bst_insert(value),
            old(self).contents().contains(value) ==> final(self).shape() == old(self).shape()
                && final(self).tree_height() == old(self).tree_height(),
    {
        proof {
            lemma_bst_insert(self.shape(), value);
        }
        if self.root.is_none() {
            self.root = Some(Box::new(Node::new(value)));
            self.len += 1;
            self.update_height();
            return Ok(());
        }
        let inserted = match self.root.take() {
            Some(mut root) => {
                let inserted = Self::insert_into(&mut root, value);
                self.root = Some(root);
                inserted
            },
            None => false,
        };
        if inserted {
            self.len += 1;
            self.update_height();
        }
        Ok(())
    }

    /// Removes the value with the recursive implementation.
    ///
    /// Errors: `EmptyTree` when the tree is empty, `NodeNotFound` when the
    /// value is not in it.
    fn remove(&mut self, value: &T) -> (r: Result<T>)
        ensures
            old(self).node_count() == 0 ==> r == Err::<T, TreeError>(TreeError::EmptyTree),
            old(self).node_count() != 0 && !old(self).contents().contains(*value) ==> r == Err::<
                T,
                TreeError,
            >(TreeError::NodeNotFound),
            final(self).shape() == old(self).shape().bst_remove(*value),
            !old(self).contents().contains(*value) ==> final(self).shape() == old(self).shape(),
    {
        proof {
            lemma_bst_remove(self.shape(), *value);
            lemma_size_contents(self.shape());
        }
        if self.root.is_none() {
            return Err(TreeError::EmptyTree);
        }
        let (new_root, result) = Self::remove_from(self.root.take(), value);
        self.root = new_root;
        match result {
            None => Err(TreeError::NodeNotFound),
            Some(v) => {
                self.len -= 1;
                self.update_height();
                Ok(v)
            },
        }
    }

    fn contains(&self, value: &T) -> (b: bool) {
        Self::find_node(&self.root, value)
    }

    fn min(&self) -> (r: Option<&T>) {
        proof {
            lemma_size_contents(self.shape());
        }
        match &self.root {
            None => None,
            Some(root) => {
                proof {
                    lemma_bst_leftmost(root.shape());
                }
                Some(Self::most_left(root))
            },
        }
    }

    fn max(&self) -> (r: Option<&T>) {
        proof {
            lemma_size_contents(self.shape());
        }
        match &self.root {
            None => None,
            Some(root) => {
                proof {
                    lemma_bst_rightmost(root.shape());
                    lemma_total_order::<T>();
                }
                Some(Self::most_right(root))
            },
        }
    }
}


/// The shapes of a sequence of subtrees.
pub open spec fn shapes<T: Ord>(q: Seq<&Box<Node<T>>>) -> Seq<Shape<T>> {
    q.map_values(|n: &Box<Node<T>>| n.shape())
}

/// The pre-order walks of a sequence of subtrees, one after the other.
pub open spec fn preorder_all<T: Ord>(q: Seq<&Box<Node<T>>>) -> Seq<T>
    decreases q.len(),
{
    if q.len() == 0 {
        Seq::empty()
    } else {
        q[0].shape().preorder() + preorder_all(q.drop_first())
    }
}

/// What is left to visit of a post-order walk whose pending work is `stack`:
/// from the top of the stack down, a node marked as expanded stands for its own
/// value, an unexpanded one for its whole post-order walk.
pub open spec fn postorder_pending<T: Ord>(stack: Seq<(&Box<Node<T>>, bool)>) -> Seq<T>
    decreases stack.len(),
{
    if stack.len() == 0 {
        Seq::empty()
    } else {
        let (n, expanded) = stack.last();
        (if expanded {
            seq![n.value]
        } else {
            n.shape().postorder()
        }) + postorder_pending(stack.drop_last())
    }
}

/// A measure that every step of the post-order walk decreases.
pub open spec fn pending_weight<T: Ord>(stack: Seq<(&Box<Node<T>>, bool)>) -> nat
    decreases stack.len(),
{
    if stack.len() == 0 {
        0
    } else {
        let (n, expanded) = stack.last();
        (if expanded {
            1
        } else {
            2 * n.shape().size()
        }) + pending_weight(stack.drop_last())
    }
}

proof fn lemma_preorder_all_cons<T: Ord>(x: &Box<Node<T>>, q: Seq<&Box<Node<T>>>)
    ensures
        preorder_all(seq![x] + q) == x.shape().preorder() + preorder_all(q),
{
    assert((seq![x] + q).drop_first() =~= q);
    assert((seq![x] + q)[0] == x);
}

proof fn lemma_pending_push<T: Ord>(q: Seq<(&Box<Node<T>>, bool)>, e: (&Box<Node<T>>, bool))
    ensures
        postorder_pending(q.push(e)) == (if e.1 {
            seq![e.0.value]
        } else {
            e.0.shape().postorder()
        }) + postorder_pending(q),
        pending_weight(q.push(e)) == (if e.1 {
            1
        } else {
            2 * e.0.shape().size()
        }) + pending_weight(q),
{
    assert(q.push(e).drop_last() =~= q);
    assert(q.push(e).last() == e);
}

/// Visits the subtree `link` in in-order.
fn inorder_walk<T: Ord, V: Visitor<T>>(link: &Option<Box<Node<T>>>, visitor: &mut V)
    ensures
        visits(*old(visitor), link_shape(*link).inorder(), *final(visitor)),
    decreases link_shape(*link).size(),
{
    match link {
        None => {},
        Some(n) => {
            let ghost v0 = *visitor;
            inorder_walk(&n.left, visitor);
            let ghost v1 = *visitor;
            visitor.visit(&n.value);
            let ghost v2 = *visitor;
            inorder_walk(&n.right, visitor);
            proof {
                let l = link_shape(n.left).inorder();
                let r = link_shape(n.right).inorder();
                lemma_visits_push(v0, l, v1, n.value, v2);
                lemma_visits_append(v0, l.push(n.value), v2, r, *visitor);
                assert(l.push(n.value) + r =~= link_shape(*link).inorder());
            }
        },
    }
}

impl<T: Ord> Traversable<T> for BST<T> {
    open spec fn inorder_values(&self) -> Seq<T> {
        self.shape().inorder()
    }

    open spec fn preorder_values(&self) -> Seq<T> {
        self.shape().preorder()
    }

    open spec fn postorder_values(&self) -> Seq<T> {
        self.shape().postorder()
    }

    open spec fn levelorder_values(&self) -> Seq<T> {
        self.shape().levelorder()
    }

    fn traverse_inorder<V: Visitor<T>>(&self, visitor: &mut V) {
        inorder_walk(&self.root, visitor);
    }

    /// Pre-order with a deque used as a stack.
    fn traverse_preorder<V: Visitor<T>>(&self, visitor: &mut V) {
        let ghost v0 = *visitor;
        if self.root.is_none() {
            proof {
                lemma_visits_empty::<T, V>(v0);
            }
            return;
        }
        let mut q = VecDeque::<&Box<Node<T>>>::new();
        let root = self.root.as_ref().unwrap();
        q.push_back(root);
        let ghost mut done: Seq<T> = Seq::empty();
        proof {
            lemma_visits_empty::<T, V>(v0);
            let e = Seq::<&Box<Node<T>>>::empty();
            lemma_preorder_all_cons(root, e);
            assert(seq![root] + e =~= q@);
            assert(preorder_all(e) =~= Seq::<T>::empty());
            assert(preorder_all(q@) =~= self.shape().preorder());
        }
        while q.len() > 0
            invariant
                visits(v0, done, *visitor),
                done + preorder_all(q@) == self.shape().preorder(),
            decreases preorder_all(q@).len(),
        {
            let ghost before = q@;
            let node = q.pop_front().unwrap();
            proof {
                assert(seq![node] + q@ =~= before);
                lemma_preorder_all_cons(node, q@);
            }
            let ghost rest = q@;
            let ghost vb = *visitor;
            visitor.visit(&node.value);
            proof {
                lemma_visits_push(v0, done, vb, node.value, *visitor);
                done = done.push(node.value);
            }
            if let Some(r) = &node.right {
                let ghost b = q@;
                q.push_front(r);
                proof {
                    assert(q@ =~= seq![r] + b);
                    lemma_preorder_all_cons(r, b);
                }
            }
            if let Some(l) = &node.left {
                let ghost b = q@;
                q.push_front(l);
                proof {
                    assert(q@ =~= seq![l] + b);
                    lemma_preorder_all_cons(l, b);
                }
            }
            proof {
                let lp = link_shape(node.left).preorder();
                let rp = link_shape(node.right).preorder();
                assert(preorder_all(q@) =~= lp + rp + preorder_all(rest));
                assert(done + preorder_all(q@) =~= self.shape().preorder());
            }
        }
        proof {
            assert(done + preorder_all(q@) =~= done);
        }
    }

    /// Post-order with one stack whose entries record whether a node's children
    /// have been scheduled already.
    fn traverse_postorder<V: Visitor<T>>(&self, visitor: &mut V) {
        let ghost v0 = *visitor;
        proof {
            lemma_visits_empty::<T, V>(v0);
        }
        if self.root.is_none() {
            return;
        }
        let root = self.root.as_ref().unwrap();
        let mut stack: Vec<(&Box<Node<T>>, bool)> = Vec::new();
        stack.push((root, false));
        let ghost mut done: Seq<T> = Seq::empty();
        proof {
            let e = Seq::<(&Box<Node<T>>, bool)>::empty();
            assert(e.push((root, false)) =~= stack@);
            lemma_pending_push(e, (root, false));
            assert(postorder_pending(stack@) =~= self.shape().postorder());
        }
        while stack.len() > 0
            invariant
                visits(v0, done, *visitor),
                done + postorder_pending(stack@) == self.shape().postorder(),
            decreases pending_weight(stack@),
        {
            let ghost before = stack@;
            let (node, expanded) = stack.pop().unwrap();
            proof {
                assert(stack@.push((node, expanded)) =~= before);
                lemma_pending_push(stack@, (node, expanded));
            }
            let ghost rest = stack@;
            if expanded {
                let ghost vb = *visitor;
                visitor.visit(&node.value);
                proof {
                    lemma_visits_push(v0, done, vb, node.value, *visitor);
                    assert(done.push(node.value) + postorder_pending(rest) =~= done + (seq![
                        node.value,
                    ] + postorder_pending(rest)));
                    done = done.push(node.value);
                }
            } else {
                stack.push((node, true));
                proof {
                    lemma_pending_push(rest, (node, true));
                }
                if let Some(r) = &node.right {
                    let ghost b = stack@;
                    stack.push((r, false));
                    proof {
                        lemma_pending_push(b, (r, false));
                    }
                }
                if let Some(l) = &node.left {
                    let ghost b = stack@;
                    stack.push((l, false));
                    proof {
                        lemma_pending_push(b, (l, false));
                    }
                }
                proof {
                    let lp = link_shape(node.left).postorder();
                    let rp = link_shape(node.right).postorder();
                    assert(postorder_pending(stack@) =~= lp + rp + seq![node.value]
                        + postorder_pending(rest));
                    assert(done + postorder_pending(stack@) =~= self.shape().postorder());
                }
            }
        }
        proof {
            assert(done + postorder_pending(stack@) =~= done);
        }
    }

    /// Level order: the root is visited first, then each node's children as
    /// they are queued, one level per round.
    fn traverse_levelorder<V: Visitor<T>>(&self, visitor: &mut V) {
        let ghost v0 = *visitor;
        proof {
            lemma_visits_empty::<T, V>(v0);
            lemma_bfs_single(self.shape());
        }
        if self.root.is_none() {
            proof {
                assert(self.shape().levelorder() =~= Seq::<T>::empty());
            }
            return;
        }
        let mut q = VecDeque::<&Box<Node<T>>>::new();
        let root = self.root.as_ref().unwrap();
        q.push_back(root);
        let ghost vb = *visitor;
        visitor.visit(&root.value);
        let ghost mut done: Seq<T> = seq![root.value];
        proof {
            lemma_visits_push(v0, Seq::<T>::empty(), vb, root.value, *visitor);
            assert(Seq::<T>::empty().push(root.value) =~= done);
            let f = seq![root.shape()];
            assert(f.drop_first() =~= Seq::<Shape<T>>::empty());
            assert(shapes(q@) =~= f);
            lemma_forest_kids_single(root.shape());
            assert(f.drop_first() + f[0].kids() =~= forest_kids(shapes(q@)));
            assert(bfs(f) == seq![root.value] + bfs(f.drop_first() + f[0].kids()));
        }
        while q.len() > 0
            invariant
                visits(v0, done, *visitor),
                done + bfs(forest_kids(shapes(q@))) == self.shape().levelorder(),
            decreases forest_weight(shapes(q@)),
        {
            let n = q.len();
            let mut i: usize = 0;
            let ghost w0 = forest_weight(shapes(q@));
            while i < n
                invariant
                    0 <= i <= n,
                    q.len() + i >= n,
                    i > 0 ==> forest_weight(shapes(q@)) < w0,
                    i == 0 ==> forest_weight(shapes(q@)) == w0,
                    visits(v0, done, *visitor),
                    done + bfs(forest_kids(shapes(q@))) == self.shape().levelorder(),
                decreases n - i,
            {
                let ghost before = q@;
                let node = q.pop_front().unwrap();
                let ghost rest = q@;
                proof {
                    assert(before.drop_first() =~= rest);
                    assert(shapes(before).drop_first() =~= shapes(rest));
                    assert(shapes(before)[0] == node.shape());
                    lemma_weight_append(shapes(rest), node.shape().kids());
                    lemma_weight_kids(node.shape());
                }
                let ghost done0 = done;
                if let Some(left) = &node.left {
                    let ghost vb = *visitor;
                    visitor.visit(&left.value);
                    proof {
                        lemma_visits_push(v0, done, vb, left.value, *visitor);
                        done = done.push(left.value);
                    }
                    q.push_back(left);
                }
                if let Some(right) = &node.right {
                    let ghost vb = *visitor;
                    visitor.visit(&right.value);
                    proof {
                        lemma_visits_push(v0, done, vb, right.value, *visitor);
                        done = done.push(right.value);
                    }
                    q.push_back(right);
                }
                proof {
                    let k = forest_kids(shapes(rest));
                    let ks = node.shape().kids();
                    assert(shapes(q@) =~= shapes(rest) + ks);
                    lemma_forest_kids_append(shapes(rest), ks);
                    lemma_weight_append(shapes(rest), ks);
                    assert(forest_kids(shapes(before)) =~= ks + k);
                    lemma_bfs_kids_step(node.shape(), k);
                    let e = Seq::<Shape<T>>::empty();
                    assert(roots(e) =~= Seq::<T>::empty());
                    if link_shape(node.left) is Branch && link_shape(node.right) is Branch {
                        assert(ks =~= seq![link_shape(node.left), link_shape(node.right)]);
                        assert(ks.drop_first().drop_first() =~= e);
                    } else if link_shape(node.left) is Branch {
                        assert(ks =~= seq![link_shape(node.left)]);
                        assert(ks.drop_first() =~= e);
                    } else if link_shape(node.right) is Branch {
                        assert(ks =~= seq![link_shape(node.right)]);
                        assert(ks.drop_first() =~= e);
                    } else {
                        assert(ks =~= e);
                    }
                    lemma_roots_kids(node.shape());
                    assert(done =~= done0 + roots(ks));
                    assert(done + bfs(forest_kids(shapes(q@))) =~= self.shape().levelorder());
                }
                i = i + 1;
            }
        }
        proof {
            assert(shapes(q@) =~= Seq::<Shape<T>>::empty());
            assert(forest_kids(shapes(q@)) =~= Seq::<Shape<T>>::empty());
            assert(done + bfs(forest_kids(shapes(q@))) =~= done);
        }
    }
}

impl<T: Ord> Default for BST<T> {
    fn default() -> (t: Self)
        ensures
            t.well_formed(),
            t.node_count() == 0,
            t.contents() == Set::<T>::empty(),
    {
        Self::new()
    }
}

/// The value behind an optional reference.
pub open spec fn deref_bound<T>(o: Option<&T>) -> Option<T> {
    match o {
        Some(x) => Some(*x),
        None => None,
    }
}

/// Whether `link` is a search tree whose values lie strictly between the bounds.
fn check_bst<T: Ord>(link: &Option<Box<Node<T>>>, lo: Option<&T>, hi: Option<&T>) -> (b: bool)
    requires
        total_order::<T>(),
    ensures
        b == (link_shape(*link).is_bst() && link_shape(*link).within(
            deref_bound(lo),
            deref_bound(hi),
        )),
    decreases link_shape(*link).size(),
{
    proof {
        lemma_total_order::<T>();
    }
    match link {
        None => true,
        Some(n) => {
            let lo_ok = match lo {
                None => true,
                Some(a) => match a.cmp(&n.value) {
                    Ordering::Less => true,
                    _ => false,
                },
            };
            let hi_ok = match hi {
                None => true,
                Some(b) => match n.value.cmp(b) {
                    Ordering::Less => true,
                    _ => false,
                },
            };
            let ok = lo_ok && hi_ok && check_bst(&n.left, lo, Some(&n.value)) && check_bst(
                &n.right,
                Some(&n.value),
                hi,
            );
            proof {
                let t = n.shape();
                let l = link_shape(n.left);
                let r = link_shape(n.right);
                let v = n.value;
                let slo = deref_bound(lo);
                let shi = deref_bound(hi);
                assert(deref_bound(Some(&n.value)) == Some(v));
                if t.is_bst() && t.within(slo, shi) {
                    assert(t.contents().contains(v));
                    assert(lo_ok);
                    assert(hi_ok);
                    assert forall|x: T| #[trigger] l.contents().contains(x) implies (slo matches Some(
                        a,
                    ) ==> lt(a, x)) && lt(x, v) by {
                        assert(t.contents().contains(x));
                    }
                    assert forall|x: T| #[trigger] r.contents().contains(x) implies lt(v, x) && (
                    shi matches Some(b) ==> lt(x, b)) by {
                        assert(t.contents().contains(x));
                    }
                }
                if ok {
                    assert forall|x: T| #[trigger] t.contents().contains(x) implies (slo matches Some(
                        a,
                    ) ==> lt(a, x)) && (shi matches Some(b) ==> lt(x, b)) by {
                        if l.contents().contains(x) {
                            assert(lt(x, v));
                        } else if r.contents().contains(x) {
                            assert(lt(v, x));
                        }
                    }
                }
            }
            ok
        },
    }
}

/// The number of nodes of `link`, or `None` when it does not fit in `usize`.
fn count_nodes<T: Ord>(link: &Option<Box<Node<T>>>) -> (c: Option<usize>)
    ensures
        c == if link_shape(*link).size() <= usize::MAX {
            Some(link_shape(*link).size() as usize)
        } else {
            None::<usize>
        },
    decreases link_shape(*link).size(),
{
    match link {
        None => Some(0),
        Some(n) => {
            let l = count_nodes(&n.left)?;
            let r = count_nodes(&n.right)?;
            let s = l.checked_add(r)?;
            s.checked_add(1)
        },
    }
}

impl<T: Ord> BST<T> {
    /// Builds a tree from a hand-made root, computing its length and height.
    ///
    /// Errors: `InvariantViolation` when the nodes are not in search order,
    /// `Overflow` when the number of nodes does not fit in `usize`.
    pub fn from_root(root: Option<Box<Node<T>>>) -> (r: Result<Self>)
        requires
            total_order::<T>(),
        ensures
            r is Ok <==> link_shape(root).is_bst() && link_shape(root).size() <= usize::MAX,
            r matches Ok(t) ==> t.well_formed() && t.shape() == link_shape(root),
            !link_shape(root).is_bst() ==> r matches Err(TreeError::InvariantViolation { .. }),
            link_shape(root).is_bst() && link_shape(root).size() > usize::MAX ==> r matches Err(
                TreeError::Overflow { .. },
            ),
    {
        if !check_bst(&root, None, None) {
            return Err(TreeError::invariant_violation("BST property violated"));
        }
        let len = match count_nodes(&root) {
            None => return Err(TreeError::overflow("size counter")),
            Some(n) => n,
        };
        let mut tree = BST { root, len, height: 0 };
        tree.update_height();
        Ok(tree)
    }

    /// The root node, if any.
    pub fn root(&self) -> (r: Option<&Node<T>>)
        ensures
            r matches Some(n) ==> n.shape() == self.shape(),
            r is None <==> self.shape() is Empty,
    {
        match &self.root {
            None => None,
            Some(n) => Some(&**n),
        }
    }
}

/// The in-order walk of a search tree lists its values in increasing order,
/// each once.
pub proof fn lemma_inorder_sorted<T: Ord>(t: &BST<T>)
    requires
        t.well_formed(),
        total_order::<T>(),
    ensures
        crate::common::shape::strictly_sorted(t.inorder_values()),
        t.inorder_values().to_set() == t.contents(),
        t.inorder_values().len() == t.node_count(),
{
    crate::common::shape::lemma_bst_inorder_sorted(t.shape());
    crate::common::shape::lemma_inorder_contents(t.shape());
}

/// The number of values equals the number of distinct values.
pub proof fn lemma_len_counts_values<T: Ord>(t: &BST<T>)
    requires
        t.well_formed(),
        total_order::<T>(),
    ensures
        t.contents().finite(),
        t.contents().len() == t.node_count(),
{
    crate::common::shape::lemma_bst_inorder_sorted(t.shape());
    crate::common::shape::lemma_inorder_contents(t.shape());
    lemma_size_contents(t.shape());
    let s = t.inorder_values();
    assert(s.no_duplicates()) by {
        assert forall|i: int, j: int| 0 <= i < s.len() && 0 <= j < s.len() && i != j implies s[i]
            != s[j] by {
            lemma_total_order::<T>();
            if i < j {
                assert(lt(s[i], s[j]));
            } else {
                assert(lt(s[j], s[i]));
            }
        }
    }
    s.unique_seq_to_set();
}

/// After inserting `x`, a lookup finds `x`, and finds every other value
/// exactly when it found it before.
pub proof fn lemma_insert_then_contains<T: Ord>(before: BST<T>, after: BST<T>, x: T, y: T)
    requires
        after.contents() == before.contents().insert(x),
    ensures
        after.contents().contains(x),
        y != x ==> (after.contents().contains(y) <==> before.contents().contains(y)),
{
}

/// After removing `x`, a lookup no longer finds `x`, and finds every other
/// value exactly when it found it before.
pub proof fn lemma_remove_then_contains<T: Ord>(before: BST<T>, after: BST<T>, x: T, y: T)
    requires
        after.contents() == before.contents().remove(x),
    ensures
        !after.contents().contains(x),
        y != x ==> (after.contents().contains(y) <==> before.contents().contains(y)),
{
}

/// The recursive and the iterative removal leave the same tree.
pub proof fn lemma_removals_agree<T: Ord>(before: BST<T>, by_recursion: BST<T>, by_iteration: BST<T>, x: T)
    requires
        by_recursion.shape() == before.shape().bst_remove(x),
        by_iteration.shape() == before.shape().bst_remove(x),
    ensures
        by_recursion.shape() == by_iteration.shape(),
        by_recursion.contents() == by_iteration.contents(),
{
}

/// Removing a value that was just inserted into a search tree without it gives
/// back the tree as it was: the value went in as a leaf, and a leaf comes out
/// without changing anything else.
pub proof fn lemma_insert_then_remove<T: Ord>(t: Shape<T>, x: T)
    requires
        total_order::<T>(),
        t.is_bst(),
        !t.contents().contains(x),
    ensures
        t.bst_insert(x).bst_remove(x) == t,
    decreases t,
{
    lemma_total_order::<T>();
    if let Shape::Branch(v, l, r) = t {
        assert(x != v);
        if lt(x, v) {
            lemma_insert_then_remove(*l, x);
        } else {
            assert(lt(v, x)) by {
                assert(!ord_eq(x, v));
            }
            lemma_insert_then_remove(*r, x);
        }
    }
}

/// For trees: inserting a value that is not there and then removing it gives
/// back a tree of the same shape.
pub proof fn lemma_insert_then_remove_tree<T: Ord>(t0: BST<T>, t1: BST<T>, t2: BST<T>, x: T)
    requires
        total_order::<T>(),
        t0.well_formed(),
        !t0.contents().contains(x),
        t1.shape() == t0.shape().bst_insert(x),
        t2.shape() == t1.shape().bst_remove(x),
    ensures
        t2.shape() == t0.shape(),
        t2.contents() == t0.contents(),
{
    lemma_insert_then_remove(t0.shape(), x);
}

/// The four walks visit the same values, each as often: they are
/// rearrangements of one another.
pub proof fn lemma_walks_visit_same_values<T: Ord>(t: BST<T>)
    ensures
        t.preorder_values().to_multiset() == t.inorder_values().to_multiset(),
        t.postorder_values().to_multiset() == t.inorder_values().to_multiset(),
        t.levelorder_values().to_multiset() == t.inorder_values().to_multiset(),
{
    crate::common::shape::lemma_walks_permute(t.shape());
}

} // verus!
