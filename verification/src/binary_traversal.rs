//! Traversals of the plain binary tree: iterative ones behind `Traversable`,
//! recursive ones as free functions, and an in-order iterator.
//!
//! A visitor separates the traversal from the action taken at each node.

use crate::binary::{count_nodes, link_shape, BinaryTree, Node};
use crate::common::shape::{
    bfs, concat_upto, forest_weight, lemma_bfs_single, lemma_inorder_len, lemma_rev_postorder,
    lemma_set_inorder, lemma_weight_append, lemma_weight_kids, Shape,
};
use crate::common::traits::{
    lemma_visits_append, lemma_visits_empty, lemma_visits_push, visits, Traversable, Visitor,
};
use std::collections::VecDeque;
use vstd::prelude::*;

verus! {

/// The shape of an optional subtree given by reference.
pub open spec fn opt_shape<T>(c: Option<&Node<T>>) -> Shape<T> {
    match c {
        Some(n) => n.shape(),
        None => Shape::Empty,
    }
}

/// The node of an optional subtree, by reference.
fn child<'a, T>(link: &'a Option<Box<Node<T>>>) -> (r: Option<&'a Node<T>>)
    ensures
        r matches Some(n) ==> (link matches Some(b) && *n == *b),
        r is None <==> link is None,
        opt_shape(r) == link_shape(*link),
{
    match link {
        Some(b) => Some(&**b),
        None => None,
    }
}

/// The in-order walk of an optional subtree given by reference.
pub open spec fn opt_inorder<T>(c: Option<&Node<T>>) -> Seq<T> {
    opt_shape(c).inorder()
}

/// The pre-order walk of an optional subtree given by reference.
pub open spec fn opt_preorder<T>(c: Option<&Node<T>>) -> Seq<T> {
    opt_shape(c).preorder()
}

/// What an in-order walk still owes for the nodes on its stack: from the top
/// down, each node's value followed by its right subtree.
pub open spec fn inorder_pending<T>(s: Seq<&Node<T>>) -> Seq<T>
    decreases s.len(),
{
    if s.len() == 0 {
        Seq::empty()
    } else {
        seq![s.last().value] + link_shape(s.last().right).inorder() + inorder_pending(s.drop_last())
    }
}

/// What a pre-order walk still owes for the nodes on its stack: from the top
/// down, each node's right subtree.
pub open spec fn preorder_pending<T>(s: Seq<&Node<T>>) -> Seq<T>
    decreases s.len(),
{
    if s.len() == 0 {
        Seq::empty()
    } else {
        link_shape(s.last().right).preorder() + preorder_pending(s.drop_last())
    }
}

/// Reverse post-order walks of the subtrees on a stack, from the top down.
pub open spec fn rev_postorder_pending<T>(s: Seq<&Node<T>>) -> Seq<T>
    decreases s.len(),
{
    if s.len() == 0 {
        Seq::empty()
    } else {
        s.last().shape().rev_postorder() + rev_postorder_pending(s.drop_last())
    }
}

/// Total size of the subtrees on a stack.
pub open spec fn ref_stack_weight<T>(s: Seq<&Node<T>>) -> nat
    decreases s.len(),
{
    if s.len() == 0 {
        0
    } else {
        s.last().shape().size() + ref_stack_weight(s.drop_last())
    }
}

/// The values of the nodes on a stack, bottom first.
pub open spec fn stack_values<T>(s: Seq<&Node<T>>) -> Seq<T> {
    s.map_values(|n: &Node<T>| n.value)
}

/// The shapes of the subtrees in a queue, front first.
pub open spec fn queue_shapes<T>(q: Seq<&Node<T>>) -> Seq<Shape<T>> {
    q.map_values(|n: &Node<T>| n.shape())
}

proof fn lemma_queue_push<T>(q: Seq<&Node<T>>, n: &Node<T>)
    ensures
        queue_shapes(q.push(n)) == queue_shapes(q).push(n.shape()),
{
    assert(queue_shapes(q.push(n)) =~= queue_shapes(q).push(n.shape()));
}

proof fn lemma_stack_push<T>(s: Seq<&Node<T>>, n: &Node<T>)
    ensures
        inorder_pending(s.push(n)) == seq![n.value] + link_shape(n.right).inorder()
            + inorder_pending(s),
        preorder_pending(s.push(n)) == link_shape(n.right).preorder() + preorder_pending(s),
        rev_postorder_pending(s.push(n)) == n.shape().rev_postorder() + rev_postorder_pending(s),
        ref_stack_weight(s.push(n)) == n.shape().size() + ref_stack_weight(s),
        stack_values(s.push(n)) == stack_values(s).push(n.value),
{
    assert(s.push(n).drop_last() =~= s);
    assert(s.push(n).last() == n);
    assert(stack_values(s.push(n)) =~= stack_values(s).push(n.value));
}

/// An in-order iterator over a binary tree.
pub struct InOrderIter<'a, T> {
    stack: Vec<&'a Node<T>>,
    current: Option<&'a Node<T>>,
}

impl<'a, T> InOrderIter<'a, T> {
    /// The values that the iterator has yet to yield, in order.
    pub closed spec fn remaining(&self) -> Seq<T> {
        opt_inorder(self.current) + inorder_pending(self.stack@)
    }

    /// Yields the next value in in-order, or `None` when all have been yielded.
    pub fn next(&mut self) -> (r: Option<&'a T>)
        ensures
            old(self).remaining().len() == 0 ==> r is None && final(self).remaining() == old(
                self,
            ).remaining(),
            old(self).remaining().len() > 0 ==> (r matches Some(x) && *x == old(self).remaining()[0]
                && final(self).remaining() == old(self).remaining().drop_first()),
    {
        let ghost rem = self.remaining();
        while self.current.is_some()
            invariant
                self.remaining() == rem,
            decreases opt_inorder(self.current).len(),
        {
            let node = self.current.unwrap();
            let ghost b = self.stack@;
            self.stack.push(node);
            self.current = child(&node.left);
            proof {
                lemma_stack_push(b, node);
                assert(self.remaining() =~= rem);
            }
        }
        let ghost before = self.stack@;
        match self.stack.pop() {
            None => {
                proof {
                    assert(self.remaining() =~= rem);
                }
                None
            },
            Some(node) => {
                proof {
                    assert(self.stack@.push(node) =~= before);
                    lemma_stack_push(self.stack@, node);
                }
                self.current = child(&node.right);
                proof {
                    assert(self.remaining() =~= rem.drop_first());
                }
                Some(&node.value)
            },
        }
    }
}

/// A mutable reference to the value at position `index` of the in-order walk
/// of the subtree under `node`.
fn node_inorder_value_mut<T>(node: &mut Node<T>, index: usize) -> (r: &mut T)
    requires
        index < old(node).shape().size(),
        old(node).shape().size() <= usize::MAX,
    ensures
        *r == old(node).shape().inorder()[index as int],
        final(node).shape() == old(node).shape().set_inorder(index as int, *final(r)),
    decreases old(node).shape().size(),
{
    proof {
        lemma_inorder_len(link_shape(node.left));
        lemma_inorder_len(link_shape(node.right));
    }
    let n = count_nodes(&node.left);
    if index < n {
        match &mut node.left {
            Some(b) => node_inorder_value_mut(&mut **b, index),
            None => &mut node.value,
        }
    } else if index == n {
        &mut node.value
    } else {
        match &mut node.right {
            Some(b) => node_inorder_value_mut(&mut **b, index - n - 1),
            None => &mut node.value,
        }
    }
}

impl<T> BinaryTree<T> {
    /// A mutable reference to the root node, if any.
    pub fn get_root_mut(&mut self) -> (r: Option<&mut Node<T>>)
        ensures
            old(self).root is None ==> r is None && final(self).root is None,
            old(self).root matches Some(b) ==> (r matches Some(n) && *n == *b && final(self).root
                == Some(Box::new(*final(n)))),
    {
        match &mut self.root {
            Some(b) => Some(&mut **b),
            None => None,
        }
    }

    /// A mutable reference to the value at position `index` of the in-order
    /// walk; `None` past its end. A write through it changes that value and
    /// leaves every node where it is.
    pub fn inorder_value_mut(&mut self, index: usize) -> (r: Option<&mut T>)
        requires
            old(self).shape().size() <= usize::MAX,
        ensures
            index >= old(self).shape().inorder().len() ==> r is None && *final(self) == *old(self),
            index < old(self).shape().inorder().len() ==> (r matches Some(v) && *v == old(
                self,
            ).shape().inorder()[index as int] && final(self).shape() == old(
                self,
            ).shape().set_inorder(index as int, *final(v))),
    {
        proof {
            lemma_inorder_len(self.shape());
        }
        let n = count_nodes(&self.root);
        if index >= n {
            return None;
        }
        match &mut self.root {
            Some(b) => Some(node_inorder_value_mut(&mut **b, index)),
            None => None,
        }
    }

    /// An iterator over the values in in-order.
    pub fn inorder_iter(&self) -> (it: InOrderIter<'_, T>)
        ensures
            it.remaining() == self.shape().inorder(),
    {
        let it = InOrderIter { stack: Vec::new(), current: self.get_root() };
        proof {
            assert(it.remaining() =~= self.shape().inorder());
        }
        it
    }
}

impl<T> Traversable<T> for BinaryTree<T> {
    open spec fn inorder_values(&self) -> Seq<T> {
        self.shape().inorder()
    }

    open spec fn preorder_values(&self) -> Seq<T> {
        self.shape().preorder()
    }

    open spec fn postorder_values(&self) -> Seq<T> {
        self.shape().postorder()
    }

    open spec fn levelorder_values(&self) -> Seq<T> {
        self.shape().levelorder()
    }

    /// Breadth-first with a queue.
    fn traverse_levelorder<V: Visitor<T>>(&self, visitor: &mut V) {
        let ghost v0 = *visitor;
        let mut q: VecDeque<&Node<T>> = VecDeque::new();
        if let Some(root) = self.get_root() {
            q.push_back(root);
        }
        let ghost mut done: Seq<T> = Seq::empty();
        proof {
            lemma_visits_empty::<T, V>(v0);
            lemma_bfs_single(self.shape());
            if self.root is Some {
                assert(queue_shapes(q@) =~= seq![self.shape()]);
            } else {
                assert(queue_shapes(q@) =~= Seq::<Shape<T>>::empty());
                let f = seq![self.shape()];
                assert(f.drop_first() =~= Seq::<Shape<T>>::empty());
                assert(bfs(f) == bfs(f.drop_first()));
            }
        }
        while q.len() > 0
            invariant
                visits(v0, done, *visitor),
                done + bfs(queue_shapes(q@)) == self.shape().levelorder(),
            decreases forest_weight(queue_shapes(q@)),
        {
            let ghost before = q@;
            let node = q.pop_front().unwrap();
            let ghost rest = q@;
            proof {
                assert(before.drop_first() =~= rest);
                assert(queue_shapes(before).drop_first() =~= queue_shapes(rest));
                assert(queue_shapes(before)[0] == node.shape());
                lemma_weight_append(queue_shapes(rest), node.shape().kids());
                lemma_weight_kids(node.shape());
            }
            let ghost vb = *visitor;
            visitor.visit(&node.value);
            proof {
                lemma_visits_push(v0, done, vb, node.value, *visitor);
                done = done.push(node.value);
            }
            if let Some(left) = child(&node.left) {
                let ghost b = q@;
                q.push_back(left);
                proof {
                    lemma_queue_push(b, left);
                }
            }
            if let Some(right) = child(&node.right) {
                let ghost b = q@;
                q.push_back(right);
                proof {
                    lemma_queue_push(b, right);
                }
            }
            proof {
                assert(queue_shapes(q@) =~= queue_shapes(rest) + node.shape().kids());
                assert(done + bfs(queue_shapes(q@)) =~= self.shape().levelorder());
            }
        }
        proof {
            assert(queue_shapes(q@) =~= Seq::<Shape<T>>::empty());
            assert(done + bfs(queue_shapes(q@)) =~= done);
        }
    }

    /// Iterative pre-order: visit while walking down left edges, then resume
    /// from the right child of the last node left behind.
    fn traverse_preorder<V: Visitor<T>>(&self, visitor: &mut V) {
        let ghost v0 = *visitor;
        let mut stack: Vec<&Node<T>> = Vec::new();
        let mut current = self.get_root();
        let ghost mut done: Seq<T> = Seq::empty();
        proof {
            lemma_visits_empty::<T, V>(v0);
            assert(done + opt_preorder(current) + preorder_pending(stack@) =~= self.shape().preorder());
        }
        while current.is_some() || stack.len() > 0
            invariant
                visits(v0, done, *visitor),
                done + opt_preorder(current) + preorder_pending(stack@) == self.shape().preorder(),
            decreases 2 * (opt_preorder(current) + preorder_pending(stack@)).len() + stack@.len(),
        {
            if let Some(node) = current {
                let ghost vb = *visitor;
                visitor.visit(&node.value);
                proof {
                    lemma_visits_push(v0, done, vb, node.value, *visitor);
                }
                let ghost b = stack@;
                let ghost d0 = done;
                stack.push(node);
                current = child(&node.left);
                proof {
                    lemma_stack_push(b, node);
                    done = done.push(node.value);
                    assert(done + opt_preorder(current) + preorder_pending(stack@) =~= d0
                        + opt_preorder(Some(node)) + preorder_pending(b));
                }
            } else {
                let ghost before = stack@;
                let node = stack.pop().unwrap();
                proof {
                    assert(stack@.push(node) =~= before);
                    lemma_stack_push(stack@, node);
                }
                current = child(&node.right);
                proof {
                    assert(opt_preorder(current) + preorder_pending(stack@) =~= preorder_pending(
                        before,
                    ));
                }
            }
        }
        proof {
            assert(done + opt_preorder(current) + preorder_pending(stack@) =~= done);
        }
    }

    /// Iterative in-order: walk down left edges pushing nodes, then visit the
    /// last node left behind and resume from its right child.
    fn traverse_inorder<V: Visitor<T>>(&self, visitor: &mut V) {
        let ghost v0 = *visitor;
        let mut stack: Vec<&Node<T>> = Vec::new();
        let mut current = self.get_root();
        let ghost mut done: Seq<T> = Seq::empty();
        proof {
            lemma_visits_empty::<T, V>(v0);
            assert(done + opt_inorder(current) + inorder_pending(stack@) =~= self.shape().inorder());
        }
        while current.is_some() || stack.len() > 0
            invariant
                visits(v0, done, *visitor),
                done + opt_inorder(current) + inorder_pending(stack@) == self.shape().inorder(),
            decreases (opt_inorder(current) + inorder_pending(stack@)).len(), opt_inorder(
                current,
            ).len(),
        {
            let ghost rem = opt_inorder(current) + inorder_pending(stack@);
            if let Some(node) = current {
                let ghost b = stack@;
                stack.push(node);
                current = child(&node.left);
                proof {
                    lemma_stack_push(b, node);
                    assert(opt_inorder(current) + inorder_pending(stack@) =~= rem);
                }
            } else {
                let ghost before = stack@;
                let node = stack.pop().unwrap();
                proof {
                    assert(stack@.push(node) =~= before);
                    lemma_stack_push(stack@, node);
                }
                let ghost vb = *visitor;
                visitor.visit(&node.value);
                proof {
                    lemma_visits_push(v0, done, vb, node.value, *visitor);
                }
                let ghost d0 = done;
                current = child(&node.right);
                proof {
                    done = done.push(node.value);
                    assert(done + opt_inorder(current) + inorder_pending(stack@) =~= d0 + rem);
                }
            }
        }
        proof {
            assert(done + opt_inorder(current) + inorder_pending(stack@) =~= done);
        }
    }

    /// Iterative post-order with two stacks: the first produces the nodes in
    /// reverse post-order onto the second, which is then emptied.
    fn traverse_postorder<V: Visitor<T>>(&self, visitor: &mut V) {
        let ghost v0 = *visitor;
        let mut stack1: Vec<&Node<T>> = Vec::new();
        let mut stack2: Vec<&Node<T>> = Vec::new();
        if let Some(root) = self.get_root() {
            stack1.push(root);
        }
        proof {
            lemma_rev_postorder(self.shape());
            let e = Seq::<&Node<T>>::empty();
            assert(stack_values(stack2@) =~= Seq::<T>::empty());
            if self.root is Some {
                lemma_stack_push(e, stack1@[0]);
                assert(e.push(stack1@[0]) =~= stack1@);
            }
            assert(stack_values(stack2@) + rev_postorder_pending(stack1@) =~= self.shape().rev_postorder());
        }
        while stack1.len() > 0
            invariant
                stack_values(stack2@) + rev_postorder_pending(stack1@)
                    == self.shape().rev_postorder(),
            decreases ref_stack_weight(stack1@),
        {
            let ghost before = stack1@;
            let node = stack1.pop().unwrap();
            proof {
                assert(stack1@.push(node) =~= before);
                lemma_stack_push(stack1@, node);
            }
            let ghost rest = stack1@;
            let ghost b2 = stack2@;
            stack2.push(node);
            proof {
                lemma_stack_push(b2, node);
            }
            let ghost lrev = link_shape(node.left).rev_postorder();
            let ghost rrev = link_shape(node.right).rev_postorder();
            if let Some(left) = child(&node.left) {
                let ghost b = stack1@;
                stack1.push(left);
                proof {
                    lemma_stack_push(b, left);
                }
            }
            proof {
                assert(rev_postorder_pending(stack1@) =~= lrev + rev_postorder_pending(rest));
            }
            if let Some(right) = child(&node.right) {
                let ghost b = stack1@;
                stack1.push(right);
                proof {
                    lemma_stack_push(b, right);
                }
            }
            proof {
                assert(rev_postorder_pending(stack1@) =~= rrev + lrev + rev_postorder_pending(rest));
                assert(node.shape().rev_postorder() == seq![node.value] + rrev + lrev);
                assert(stack_values(stack2@) == stack_values(b2).push(node.value));
                assert(rev_postorder_pending(before) == node.shape().rev_postorder()
                    + rev_postorder_pending(rest));
                assert(stack_values(stack2@) + rev_postorder_pending(stack1@) =~= stack_values(b2)
                    + rev_postorder_pending(before));
            }
        }
        let ghost mut done: Seq<T> = Seq::empty();
        proof {
            lemma_visits_empty::<T, V>(v0);
            assert(stack_values(stack2@) + rev_postorder_pending(stack1@) =~= stack_values(stack2@));
            assert(stack_values(stack2@).reverse().reverse() =~= stack_values(stack2@));
            assert(self.shape().postorder().reverse().reverse() =~= self.shape().postorder());
        }
        while stack2.len() > 0
            invariant
                visits(v0, done, *visitor),
                done + stack_values(stack2@).reverse() == self.shape().postorder(),
            decreases stack2@.len(),
        {
            let ghost before = stack2@;
            let node = stack2.pop().unwrap();
            proof {
                assert(stack2@.push(node) =~= before);
                lemma_stack_push(stack2@, node);
            }
            let ghost vb = *visitor;
            visitor.visit(&node.value);
            proof {
                lemma_visits_push(v0, done, vb, node.value, *visitor);
                assert(stack_values(before).reverse() =~= seq![node.value] + stack_values(
                    stack2@,
                ).reverse());
                done = done.push(node.value);
                assert(done + stack_values(stack2@).reverse() =~= self.shape().postorder());
            }
        }
        proof {
            assert(done + stack_values(stack2@).reverse() =~= done);
        }
    }
}

/// Visits a subtree in in-order, recursively.
fn inorder_helper<T, V: Visitor<T>>(link: &Option<Box<Node<T>>>, visitor: &mut V)
    ensures
        visits(*old(visitor), link_shape(*link).inorder(), *final(visitor)),
    decreases link_shape(*link).size(),
{
    if let Some(n) = link {
        let ghost v0 = *visitor;
        inorder_helper(&n.left, visitor);
        let ghost v1 = *visitor;
        visitor.visit(&n.value);
        let ghost v2 = *visitor;
        inorder_helper(&n.right, visitor);
        proof {
            let l = link_shape(n.left).inorder();
            let r = link_shape(n.right).inorder();
            lemma_visits_push(v0, l, v1, n.value, v2);
            lemma_visits_append(v0, l.push(n.value), v2, r, *visitor);
            assert(l.push(n.value) + r =~= link_shape(*link).inorder());
        }
    } else {
        proof {
            lemma_visits_empty::<T, V>(*visitor);
        }
    }
}

/// Visits a subtree in pre-order, recursively.
fn preorder_helper<T, V: Visitor<T>>(link: &Option<Box<Node<T>>>, visitor: &mut V)
    ensures
        visits(*old(visitor), link_shape(*link).preorder(), *final(visitor)),
    decreases link_shape(*link).size(),
{
    if let Some(n) = link {
        let ghost v0 = *visitor;
        visitor.visit(&n.value);
        let ghost v1 = *visitor;
        preorder_helper(&n.left, visitor);
        let ghost v2 = *visitor;
        preorder_helper(&n.right, visitor);
        proof {
            let l = link_shape(n.left).preorder();
            let r = link_shape(n.right).preorder();
            lemma_visits_empty::<T, V>(v0);
            lemma_visits_push(v0, Seq::<T>::empty(), v0, n.value, v1);
            assert(Seq::<T>::empty().push(n.value) =~= seq![n.value]);
            lemma_visits_append(v0, seq![n.value], v1, l, v2);
            lemma_visits_append(v0, seq![n.value] + l, v2, r, *visitor);
        }
    } else {
        proof {
            lemma_visits_empty::<T, V>(*visitor);
        }
    }
}

/// Visits a subtree in post-order, recursively.
fn postorder_helper<T, V: Visitor<T>>(link: &Option<Box<Node<T>>>, visitor: &mut V)
    ensures
        visits(*old(visitor), link_shape(*link).postorder(), *final(visitor)),
    decreases link_shape(*link).size(),
{
    if let Some(n) = link {
        let ghost v0 = *visitor;
        postorder_helper(&n.left, visitor);
        let ghost v1 = *visitor;
        postorder_helper(&n.right, visitor);
        let ghost v2 = *visitor;
        visitor.visit(&n.value);
        proof {
            let l = link_shape(n.left).postorder();
            let r = link_shape(n.right).postorder();
            lemma_visits_append(v0, l, v1, r, v2);
            lemma_visits_push(v0, l + r, v2, n.value, *visitor);
            assert((l + r).push(n.value) =~= link_shape(*link).postorder());
        }
    } else {
        proof {
            lemma_visits_empty::<T, V>(*visitor);
        }
    }
}

/// Visits the values at depth `level` of a subtree, from left to right.
fn level_helper<T, V: Visitor<T>>(link: &Option<Box<Node<T>>>, level: usize, visitor: &mut V)
    ensures
        visits(*old(visitor), link_shape(*link).level(level as nat), *final(visitor)),
    decreases link_shape(*link).size(),
{
    if let Some(n) = link {
        if level == 0 {
            let ghost v0 = *visitor;
            visitor.visit(&n.value);
            proof {
                lemma_visits_empty::<T, V>(v0);
                lemma_visits_push(v0, Seq::<T>::empty(), v0, n.value, *visitor);
                assert(Seq::<T>::empty().push(n.value) =~= link_shape(*link).level(0));
            }
        } else {
            let ghost v0 = *visitor;
            level_helper(&n.left, level - 1, visitor);
            let ghost v1 = *visitor;
            level_helper(&n.right, level - 1, visitor);
            proof {
                lemma_visits_append(
                    v0,
                    link_shape(n.left).level((level - 1) as nat),
                    v1,
                    link_shape(n.right).level((level - 1) as nat),
                    *visitor,
                );
            }
        }
    } else {
        proof {
            lemma_visits_empty::<T, V>(*visitor);
        }
    }
}

/// Recursive in-order traversal.
pub fn inoder_traversal<T, V: Visitor<T>>(tree: &BinaryTree<T>, visitor: &mut V)
    ensures
        visits(*old(visitor), tree.shape().inorder(), *final(visitor)),
{
    inorder_helper(&tree.root, visitor);
}

/// Recursive pre-order traversal.
pub fn preorder_traversal<T, V: Visitor<T>>(tree: &BinaryTree<T>, visitor: &mut V)
    ensures
        visits(*old(visitor), tree.shape().preorder(), *final(visitor)),
{
    preorder_helper(&tree.root, visitor);
}

/// Recursive post-order traversal.
pub fn postorder_traversal<T, V: Visitor<T>>(tree: &BinaryTree<T>, visitor: &mut V)
    ensures
        visits(*old(visitor), tree.shape().postorder(), *final(visitor)),
{
    postorder_helper(&tree.root, visitor);
}

/// Level-order traversal that walks down from the root once per level.
pub fn levelorder_traversal<T, V: Visitor<T>>(tree: &BinaryTree<T>, visitor: &mut V)
    requires
        tree.shape().size() <= usize::MAX,
    ensures
        visits(*old(visitor), tree.shape().levelorder(), *final(visitor)),
{
    let ghost v0 = *visitor;
    let height = tree.height();
    let ghost f = |d: nat| tree.shape().level(d);
    let mut level: usize = 0;
    proof {
        lemma_visits_empty::<T, V>(v0);
    }
    while level < height
        invariant
            level <= height,
            height == tree.shape().height(),
            f == (|d: nat| tree.shape().level(d)),
            visits(v0, concat_upto(f, level as nat), *visitor),
        decreases height - level,
    {
        let ghost vb = *visitor;
        level_helper(&tree.root, level, visitor);
        proof {
            lemma_visits_append(v0, concat_upto(f, level as nat), vb, f(level as nat), *visitor);
            assert(concat_upto(f, (level + 1) as nat) == concat_upto(f, level as nat) + f(
                level as nat,
            ));
        }
        level = level + 1;
    }
}

/// The four walks visit the same values, each as often: they are
/// rearrangements of one another.
pub proof fn lemma_walks_visit_same_values<T>(t: BinaryTree<T>)
    ensures
        t.preorder_values().to_multiset() == t.inorder_values().to_multiset(),
        t.postorder_values().to_multiset() == t.inorder_values().to_multiset(),
        t.levelorder_values().to_multiset() == t.inorder_values().to_multiset(),
{
    crate::common::shape::lemma_walks_permute(t.shape());
}

/// The recursive walks (`inoder_traversal` and the others) hand the visitor
/// the same sequences as the trait's iterative walks.
pub proof fn lemma_recursive_walks_agree<T>(t: BinaryTree<T>)
    ensures
        t.inorder_values() == t.shape().inorder(),
        t.preorder_values() == t.shape().preorder(),
        t.postorder_values() == t.shape().postorder(),
        t.levelorder_values() == t.shape().levelorder(),
{
}

} // verus!
