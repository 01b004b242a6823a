//! AVL tree: a binary search tree that keeps, at every node, the heights of the
//! two subtrees within one of each other by rotating after each insertion.

use crate::common::order::{lemma_total_order, lt, ord_eq, ord_gt, total_order};
use crate::bst::edge_height;
use crate::common::shape::{
    lemma_bst_inorder_sorted, lemma_bst_insert, lemma_height_le_size, lemma_inorder_contents,
    lemma_size_contents, lemma_sorted_inorder_is_bst, max_nat, Shape,
};
use crate::common::traits::Tree;
use core::cmp::Ordering;
use vstd::prelude::*;

verus! {

impl<T> Shape<T> {
    /// Height of the left subtree minus height of the right subtree.
    pub open spec fn balance(self) -> int {
        self.left().height() - self.right().height()
    }

    /// At every node the two subtrees differ in height by at most one.
    pub open spec fn is_avl(self) -> bool
        decreases self,
    {
        match self {
            Shape::Empty => true,
            Shape::Branch(_, l, r) => {
                &&& l.is_avl()
                &&& r.is_avl()
                &&& l.height() <= r.height() + 1
                &&& r.height() <= l.height() + 1
            },
        }
    }

    /// The left child moves up and the root becomes its right child.
    pub open spec fn rotate_right(self) -> Shape<T> {
        match self {
            Shape::Branch(v, l, c) => match *l {
                Shape::Branch(lv, a, b) => Shape::Branch(
                    lv,
                    a,
                    Box::new(Shape::Branch(v, b, c)),
                ),
                Shape::Empty => self,
            },
            Shape::Empty => self,
        }
    }

    /// The right child moves up and the root becomes its left child.
    pub open spec fn rotate_left(self) -> Shape<T> {
        match self {
            Shape::Branch(v, a, r) => match *r {
                Shape::Branch(rv, b, c) => Shape::Branch(
                    rv,
                    Box::new(Shape::Branch(v, a, b)),
                    c,
                ),
                Shape::Empty => self,
            },
            Shape::Empty => self,
        }
    }

    /// The root after restoring balance: a single or double rotation when one
    /// side is two levels taller than the other, otherwise unchanged.
    pub open spec fn rebalanced(self) -> Shape<T> {
        match self {
            Shape::Empty => self,
            Shape::Branch(v, l, r) => if self.balance() == 2 {
                if l.balance() < 0 {
                    Shape::Branch(v, Box::new(l.rotate_left()), r).rotate_right()
                } else {
                    self.rotate_right()
                }
            } else if self.balance() == -2 {
                if r.balance() > 0 {
                    Shape::Branch(v, l, Box::new(r.rotate_right())).rotate_left()
                } else {
                    self.rotate_left()
                }
            } else {
                self
            },
        }
    }
}

impl<T: Ord> Shape<T> {
    /// The tree after an AVL insertion: insert in search order, then restore the
    /// balance of every node on the way back up; unchanged when `x` is present.
    pub open spec fn avl_insert(self, x: T) -> Shape<T>
        decreases self,
    {
        match self {
            Shape::Empty => Shape::leaf(x),
            Shape::Branch(v, l, r) => if lt(x, v) {
                Shape::Branch(v, Box::new(l.avl_insert(x)), r).rebalanced()
            } else if lt(v, x) {
                Shape::Branch(v, l, Box::new(r.avl_insert(x))).rebalanced()
            } else {
                self
            },
        }
    }
}

proof fn lemma_rotate_size<T>(t: Shape<T>)
    ensures
        t.rotate_right().size() == t.size(),
        t.rotate_left().size() == t.size(),
{
    lemma_rotate_right_inorder(t);
    lemma_rotate_left_inorder(t);
    lemma_inorder_contents(t);
    lemma_inorder_contents(t.rotate_right());
    lemma_inorder_contents(t.rotate_left());
}

proof fn lemma_rotate_right_inorder<T>(t: Shape<T>)
    ensures
        t.rotate_right().inorder() == t.inorder(),
{
    match t {
        Shape::Branch(v, l, c) => match *l {
            Shape::Branch(lv, a, b) => {
                let inner = Shape::Branch(v, b, c);
                assert(inner.inorder() == b.inorder() + seq![v] + c.inorder());
                assert(l.inorder() == a.inorder() + seq![lv] + b.inorder());
                assert(t.rotate_right() == Shape::Branch(lv, a, Box::new(inner)));
                assert(t.rotate_right().inorder() == a.inorder() + seq![lv] + inner.inorder());
                assert(t.rotate_right().inorder() =~= t.inorder());
            },
            Shape::Empty => {},
        },
        Shape::Empty => {},
    }
}

proof fn lemma_rotate_left_inorder<T>(t: Shape<T>)
    ensures
        t.rotate_left().inorder() == t.inorder(),
{
    match t {
        Shape::Branch(v, a, r) => match *r {
            Shape::Branch(rv, b, c) => {
                let inner = Shape::Branch(v, a, b);
                assert(inner.inorder() == a.inorder() + seq![v] + b.inorder());
                assert(r.inorder() == b.inorder() + seq![rv] + c.inorder());
                assert(t.rotate_left() == Shape::Branch(rv, Box::new(inner), c));
                assert(t.rotate_left().inorder() == inner.inorder() + seq![rv] + c.inorder());
                assert(t.rotate_left().inorder() =~= t.inorder());
            },
            Shape::Empty => {},
        },
        Shape::Empty => {},
    }
}

/// Restoring balance keeps the in-order walk, yields an AVL tree, and leaves
/// the height between the taller child's and one more; a node already within
/// balance is left as it is.
pub proof fn lemma_rebalance<T>(t: Shape<T>)
    requires
        t is Branch,
        t.left().is_avl(),
        t.right().is_avl(),
        -2 <= t.balance() <= 2,
    ensures
        t.rebalanced().is_avl(),
        t.rebalanced().inorder() == t.inorder(),
        max_nat(t.left().height(), t.right().height()) <= t.rebalanced().height(),
        t.rebalanced().height() <= max_nat(t.left().height(), t.right().height()) + 1,
        -1 <= t.balance() <= 1 ==> t.rebalanced() == t,
{
    match t {
        Shape::Empty => {},
        Shape::Branch(v, l, r) => {
            let hl = l.height();
            let hr = r.height();
            if t.balance() == 2 {
                match *l {
                    Shape::Empty => {},
                    Shape::Branch(lv, a, b) => {
                        let ha = a.height();
                        let hb = b.height();
                        if l.balance() < 0 {
                            match *b {
                                Shape::Empty => {},
                                Shape::Branch(bv, b1, b2) => {
                                    let l2 = l.rotate_left();
                                    lemma_rotate_left_inorder(*l);
                                    let t2 = Shape::Branch(v, Box::new(l2), r);
                                    lemma_rotate_right_inorder(t2);
                                    assert(t2.inorder() =~= t.inorder());
                                    let res = t2.rotate_right();
                                    assert(res == Shape::Branch(
                                        bv,
                                        Box::new(Shape::Branch(lv, a, b1)),
                                        Box::new(Shape::Branch(v, b2, r)),
                                    ));
                                    assert(l.is_avl());
                                    assert(b.is_avl());
                                    assert(Shape::Branch(lv, a, b1).height() == hr + 1);
                                    assert(Shape::Branch(v, b2, r).height() == hr + 1);
                                    assert(Shape::Branch(lv, a, b1).is_avl());
                                    assert(Shape::Branch(v, b2, r).is_avl());
                                    assert(res.is_avl());
                                },
                            }
                        } else {
                            lemma_rotate_right_inorder(t);
                            let inner = Shape::Branch(v, b, r);
                            assert(t.rotate_right() == Shape::Branch(lv, a, Box::new(inner)));
                            assert(inner.height() == 1 + max_nat(hb, hr));
                            assert(l.is_avl());
                            assert(inner.is_avl());
                            assert(t.rotate_right().is_avl());
                        }
                    },
                }
            } else if t.balance() == -2 {
                match *r {
                    Shape::Empty => {},
                    Shape::Branch(rv, b, c) => {
                        let hb = b.height();
                        let hc = c.height();
                        if r.balance() > 0 {
                            match *b {
                                Shape::Empty => {},
                                Shape::Branch(bv, b1, b2) => {
                                    let r2 = r.rotate_right();
                                    lemma_rotate_right_inorder(*r);
                                    let t2 = Shape::Branch(v, l, Box::new(r2));
                                    lemma_rotate_left_inorder(t2);
                                    assert(t2.inorder() =~= t.inorder());
                                    let res = t2.rotate_left();
                                    assert(res == Shape::Branch(
                                        bv,
                                        Box::new(Shape::Branch(v, l, b1)),
                                        Box::new(Shape::Branch(rv, b2, c)),
                                    ));
                                    assert(r.is_avl());
                                    assert(b.is_avl());
                                    assert(Shape::Branch(v, l, b1).height() == hl + 1);
                                    assert(Shape::Branch(rv, b2, c).height() == hl + 1);
                                    assert(Shape::Branch(v, l, b1).is_avl());
                                    assert(Shape::Branch(rv, b2, c).is_avl());
                                    assert(res.is_avl());
                                },
                            }
                        } else {
                            lemma_rotate_left_inorder(t);
                            let inner = Shape::Branch(v, l, b);
                            assert(t.rotate_left() == Shape::Branch(rv, Box::new(inner), c));
                            assert(inner.height() == 1 + max_nat(hl, hb));
                            assert(r.is_avl());
                            assert(inner.is_avl());
                            assert(t.rotate_left().is_avl());
                        }
                    },
                }
            }
        },
    }
}

/// AVL insertion keeps the tree a balanced search tree with the same in-order
/// walk as plain search-tree insertion, adds the value, grows by one node
/// exactly when the value was absent, and raises the height by at most one.
pub proof fn lemma_avl_insert<T: Ord>(t: Shape<T>, x: T)
    requires
        total_order::<T>(),
        t.is_avl(),
        t.is_bst(),
    ensures
        t.avl_insert(x).is_avl(),
        t.avl_insert(x).is_bst(),
        t.avl_insert(x).inorder() == t.bst_insert(x).inorder(),
        t.avl_insert(x).contents() == t.contents().insert(x),
        t.avl_insert(x).size() == t.size() + if t.contents().contains(x) {
            0nat
        } else {
            1nat
        },
        t.height() <= t.avl_insert(x).height() <= t.height() + 1,
        t.contents().contains(x) ==> t.avl_insert(x) == t,
    decreases t,
{
    lemma_total_order::<T>();
    lemma_bst_insert(t, x);
    match t {
        Shape::Empty => {
            crate::common::shape::lemma_leaf(x);
            assert(t.avl_insert(x).contents() =~= t.contents().insert(x));
        },
        Shape::Branch(v, l, r) => {
            crate::common::shape::lemma_bst_descend(t, x);
            if lt(x, v) || lt(v, x) {
                let goes_left = lt(x, v);
                let u = if goes_left {
                    lemma_avl_insert(*l, x);
                    Shape::Branch(v, Box::new(l.avl_insert(x)), r)
                } else {
                    lemma_avl_insert(*r, x);
                    Shape::Branch(v, l, Box::new(r.avl_insert(x)))
                };
                assert(t.avl_insert(x) == u.rebalanced());
                lemma_rebalance(u);
                assert(u.inorder() == t.bst_insert(x).inorder());
                let res = u.rebalanced();
                lemma_bst_inorder_sorted(t.bst_insert(x));
                lemma_sorted_inorder_is_bst(res);
                lemma_inorder_contents(res);
                lemma_inorder_contents(t.bst_insert(x));
                if t.contents().contains(x) {
                    assert(u == t);
                }
            } else {
                assert(ord_eq(x, v));
            }
        },
    }
}

/// A node of an AVL tree; `height` is the number of edges on the longest path
/// down from it (0 for a leaf).
#[derive(Debug)]
pub struct AvlNode<T: Ord> {
    pub value: T,
    pub height: usize,
    pub left: Option<Box<AvlNode<T>>>,
    pub right: Option<Box<AvlNode<T>>>,
}

impl<T: Ord> AvlNode<T> {
    /// The shape of the subtree rooted at this node.
    pub open spec fn shape(self) -> Shape<T>
        decreases self,
    {
        Shape::Branch(
            self.value,
            Box::new(avl_link_shape(self.left)),
            Box::new(avl_link_shape(self.right)),
        )
    }

    /// A leaf.
    pub fn new(value: T) -> (n: Self)
        ensures
            n.value == value,
            n.height == 0,
            n.left is None,
            n.right is None,
    {
        AvlNode { value, height: 0, left: None, right: None }
    }

    /// A leaf holding the default value.
    pub fn new_empty() -> (n: Self) where T: Default
        ensures
            n.height == 0,
            n.left is None,
            n.right is None,
    {
        AvlNode { value: T::default(), height: 0, left: None, right: None }
    }
}

/// The shape of an optional subtree.
pub open spec fn avl_link_shape<T: Ord>(link: Option<Box<AvlNode<T>>>) -> Shape<T>
    decreases link,
{
    match link {
        Some(n) => n.shape(),
        None => Shape::Empty,
    }
}

/// Every node stores the number of edges on its longest downward path.
pub open spec fn heights_ok<T: Ord>(link: Option<Box<AvlNode<T>>>) -> bool
    decreases link,
{
    match link {
        Some(n) => {
            &&& n.height == n.shape().height() - 1
            &&& heights_ok(n.left)
            &&& heights_ok(n.right)
        },
        None => true,
    }
}

/// A self-balancing binary search tree.
#[derive(Debug)]
pub struct AvlTree<T: Ord> {
    root: Option<Box<AvlNode<T>>>,
    len: usize,
    height: usize,
}

#[derive(Clone, Copy)]
enum Direction {
    Left,
    Right,
}

/// The node `n` with `sub` hung on the side `dir`.
spec fn avl_attach<T: Ord>(n: AvlNode<T>, dir: Direction, sub: Shape<T>) -> Shape<T> {
    match dir {
        Direction::Left => Shape::Branch(n.value, Box::new(sub), Box::new(avl_link_shape(n.right))),
        Direction::Right => Shape::Branch(n.value, Box::new(avl_link_shape(n.left)), Box::new(sub)),
    }
}

/// A detached ancestor on the way down to `x`: the side taken is empty, the
/// other side keeps correct heights, and the side agrees with the search order.
spec fn entry_ok<T: Ord>(e: (Box<AvlNode<T>>, Direction), x: T) -> bool {
    match e.1 {
        Direction::Left => e.0.left is None && lt(x, e.0.value) && heights_ok(e.0.right),
        Direction::Right => e.0.right is None && lt(e.0.value, x) && heights_ok(e.0.left),
    }
}

impl<T: Ord> AvlTree<T> {
    /// The shape of the tree.
    pub closed spec fn shape(&self) -> Shape<T> {
        avl_link_shape(self.root)
    }

    /// A balanced search tree with correct stored heights, length and height.
    pub closed spec fn invariant_holds(&self) -> bool {
        &&& self.shape().is_bst()
        &&& self.shape().is_avl()
        &&& heights_ok(self.root)
        &&& self.len == self.shape().size()
        &&& self.len <= isize::MAX
        &&& self.height == edge_height(self.shape())
    }

    /// Creates an empty tree.
    pub fn new() -> (t: Self)
        ensures
            t.well_formed(),
            t.shape() == Shape::<T>::Empty,
    {
        AvlTree { root: None, len: 0, height: 0 }
    }

    /// The root node, if any.
    pub fn root(&self) -> (r: Option<&AvlNode<T>>)
        ensures
            r matches Some(n) ==> n.shape() == self.shape(),
            r is None <==> self.shape() is Empty,
    {
        match &self.root {
            None => None,
            Some(n) => Some(&**n),
        }
    }

    /// Stored height of a subtree; -1 when empty.
    fn height_of(node: &Option<Box<AvlNode<T>>>) -> (h: isize)
        requires
            heights_ok(*node),
            avl_link_shape(*node).size() <= isize::MAX,
        ensures
            h == avl_link_shape(*node).height() - 1,
    {
        proof {
            lemma_height_le_size(avl_link_shape(*node));
        }
        match node {
            None => -1,
            Some(n) => n.height as isize,
        }
    }

    /// Stores the height computed from the children.
    fn update_node_height(node: &mut AvlNode<T>)
        requires
            heights_ok(old(node).left),
            heights_ok(old(node).right),
            old(node).shape().size() <= isize::MAX,
        ensures
            final(node).value == old(node).value,
            final(node).left == old(node).left,
            final(node).right == old(node).right,
            final(node).height == final(node).shape().height() - 1,
    {
        proof {
            lemma_height_le_size(avl_link_shape(node.left));
            lemma_height_le_size(avl_link_shape(node.right));
        }
        let hl = Self::height_of(&node.left);
        let hr = Self::height_of(&node.right);
        let m = if hl >= hr {
            hl
        } else {
            hr
        };
        node.height = (1 + m) as usize;
    }

    /// Stores the height of the root of a subtree, if any.
    fn update_height(node: &mut Option<Box<AvlNode<T>>>)
        requires
            *old(node) matches Some(n) ==> heights_ok(n.left) && heights_ok(n.right),
            avl_link_shape(*old(node)).size() <= isize::MAX,
        ensures
            avl_link_shape(*final(node)) == avl_link_shape(*old(node)),
            heights_ok(*final(node)),
    {
        if let Some(n) = node {
            Self::update_node_height(n);
        }
    }

    /// Height of the left subtree minus height of the right subtree.
    fn balance_factor(node: &AvlNode<T>) -> (b: isize)
        requires
            heights_ok(node.left),
            heights_ok(node.right),
            node.shape().size() <= isize::MAX,
        ensures
            b == node.shape().balance(),
    {
        proof {
            lemma_height_le_size(avl_link_shape(node.left));
            lemma_height_le_size(avl_link_shape(node.right));
        }
        Self::height_of(&node.left) - Self::height_of(&node.right)
    }

    /// Rotates the subtree right: the left child becomes its root.
    fn rotate_right(node: AvlNode<T>) -> (r: Box<AvlNode<T>>)
        requires
            node.left is Some,
            heights_ok(node.left),
            heights_ok(node.right),
            node.shape().size() <= isize::MAX,
        ensures
            r.shape() == node.shape().rotate_right(),
            heights_ok(Some(r)),
    {
        let ghost whole = node.shape();
        let mut node = node;
        let mut new_root = node.left.take().unwrap();
        let ghost a = avl_link_shape(new_root.left);
        let ghost b = avl_link_shape(new_root.right);
        let ghost c = avl_link_shape(node.right);
        assert(new_root.shape().size() == 1 + a.size() + b.size());
        assert(whole.left() == new_root.shape());
        assert(whole.size() == 2 + a.size() + b.size() + c.size());
        node.left = new_root.right.take();
        assert(node.shape().size() == 1 + b.size() + c.size());
        Self::update_node_height(&mut node);
        new_root.right = Some(Box::new(node));
        assert(new_root.shape().size() == whole.size());
        Self::update_node_height(&mut new_root);
        new_root
    }

    /// Rotates the subtree left: the right child becomes its root.
    fn rotate_left(node: AvlNode<T>) -> (r: Box<AvlNode<T>>)
        requires
            node.right is Some,
            heights_ok(node.left),
            heights_ok(node.right),
            node.shape().size() <= isize::MAX,
        ensures
            r.shape() == node.shape().rotate_left(),
            heights_ok(Some(r)),
    {
        let ghost whole = node.shape();
        let mut node = node;
        let mut new_root = node.right.take().unwrap();
        let ghost a = avl_link_shape(node.left);
        let ghost b = avl_link_shape(new_root.left);
        let ghost c = avl_link_shape(new_root.right);
        assert(new_root.shape().size() == 1 + b.size() + c.size());
        assert(whole.right() == new_root.shape());
        assert(whole.size() == 2 + a.size() + b.size() + c.size());
        node.right = new_root.left.take();
        assert(node.shape().size() == 1 + a.size() + b.size());
        Self::update_node_height(&mut node);
        new_root.left = Some(Box::new(node));
        assert(new_root.shape().size() == whole.size());
        Self::update_node_height(&mut new_root);
        new_root
    }

    /// Restores the balance of the root of a subtree whose two sides differ in
    /// height by at most two.
    fn rebalance(tree: &mut Option<Box<AvlNode<T>>>)
        requires
            *old(tree) is Some,
            heights_ok(old(tree).unwrap().left),
            heights_ok(old(tree).unwrap().right),
            avl_link_shape(*old(tree)).left().is_avl(),
            avl_link_shape(*old(tree)).right().is_avl(),
            -2 <= avl_link_shape(*old(tree)).balance() <= 2,
            avl_link_shape(*old(tree)).size() <= isize::MAX,
        ensures
            avl_link_shape(*final(tree)) == avl_link_shape(*old(tree)).rebalanced(),
            heights_ok(*final(tree)),
            *final(tree) is Some,
            avl_link_shape(*final(tree)).is_avl(),
            avl_link_shape(*final(tree)).inorder() == avl_link_shape(*old(tree)).inorder(),
    {
        proof {
            lemma_rebalance(avl_link_shape(*tree));
        }
        let mut node = *tree.take().unwrap();
        Self::update_node_height(&mut node);
        let bf = Self::balance_factor(&node);
        match bf {
            2 => {
                proof {
                    lemma_height_le_size(avl_link_shape(node.left));
                }
                if Self::balance_factor(node.left.as_ref().unwrap()) < 0 {
                    let ghost before = node.shape();
                    let left_child = *node.left.take().unwrap();
                    proof {
                        assert(left_child.shape().size() < before.size());
                        lemma_height_le_size(avl_link_shape(left_child.right));
                    }
                    node.left = Some(Self::rotate_left(left_child));
                    proof {
                        lemma_rotate_size(before.left());
                        assert(node.shape().size() == before.size());
                    }
                    Self::update_node_height(&mut node);
                }
                *tree = Some(Self::rotate_right(node));
            },
            -2 => {
                proof {
                    lemma_height_le_size(avl_link_shape(node.right));
                }
                if Self::balance_factor(node.right.as_ref().unwrap()) > 0 {
                    let ghost before = node.shape();
                    let right_child = *node.right.take().unwrap();
                    proof {
                        assert(right_child.shape().size() < before.size());
                        lemma_height_le_size(avl_link_shape(right_child.left));
                    }
                    node.right = Some(Self::rotate_right(right_child));
                    proof {
                        lemma_rotate_size(before.right());
                        assert(node.shape().size() == before.size());
                    }
                    Self::update_node_height(&mut node);
                }
                *tree = Some(Self::rotate_left(node));
            },
            _ => *tree = Some(Box::new(node)),
        }
    }
}

impl<T: Ord> AvlTree<T> {
    /// Inserts into a subtree and rebalances each node on the way back up;
    /// returns whether the value was new.
    fn insert_recursive(tree: &mut Option<Box<AvlNode<T>>>, value: T) -> (inserted: bool)
        requires
            total_order::<T>(),
            heights_ok(*old(tree)),
            avl_link_shape(*old(tree)).is_avl(),
            avl_link_shape(*old(tree)).is_bst(),
            avl_link_shape(*old(tree)).size() < isize::MAX,
        ensures
            avl_link_shape(*final(tree)) == avl_link_shape(*old(tree)).avl_insert(value),
            heights_ok(*final(tree)),
            inserted == !avl_link_shape(*old(tree)).contents().contains(value),
        decreases avl_link_shape(*old(tree)).size(),
    {
        proof {
            lemma_total_order::<T>();
            lemma_avl_insert(avl_link_shape(*tree), value);
        }
        match tree.take() {
            None => {
                *tree = Some(Box::new(AvlNode::new(value)));
                proof {
                    crate::common::shape::lemma_leaf(value);
                }
                true
            },
            Some(mut node) => {
                let ghost t = node.shape();
                proof {
                    crate::common::shape::lemma_bst_descend(t, value);
                }
                let inserted = match value.cmp(&node.value) {
                    Ordering::Less => {
                        proof {
                            lemma_avl_insert(avl_link_shape(node.left), value);
                        }
                        Self::insert_recursive(&mut node.left, value)
                    },
                    Ordering::Greater => {
                        assert(ord_gt(value, node.value));
                        proof {
                            lemma_avl_insert(avl_link_shape(node.right), value);
                        }
                        Self::insert_recursive(&mut node.right, value)
                    },
                    Ordering::Equal => {
                        assert(ord_eq(value, node.value));
                        *tree = Some(node);
                        return false;
                    },
                };
                *tree = Some(node);
                proof {
                    let u = avl_link_shape(*tree);
                    lemma_rebalance(u);
                }
                if inserted {
                    Self::rebalance(tree);
                }
                inserted
            },
        }
    }

    /// Inserts a value, rebalancing recursively; returns whether it was new.
    pub fn insert(&mut self, value: T) -> (inserted: bool)
        requires
            old(self).well_formed(),
            total_order::<T>(),
            old(self).node_count() < isize::MAX,
        ensures
            final(self).well_formed(),
            final(self).shape() == old(self).shape().avl_insert(value),
            inserted == !old(self).shape().contents().contains(value),
            final(self).shape().contents() == old(self).shape().contents().insert(value),
            final(self).node_count() == old(self).node_count() + if inserted {
                1nat
            } else {
                0nat
            },
            !inserted ==> final(self).shape() == old(self).shape(),
    {
        proof {
            lemma_avl_insert(self.shape(), value);
        }
        let inserted = Self::insert_recursive(&mut self.root, value);
        if inserted {
            self.len += 1;
        }
        self.store_height();
        inserted
    }

    /// Inserts a value iteratively: the nodes on the way down are detached onto
    /// a path, then hung back from the bottom up, rebalancing each one.
    /// Builds the same tree as `insert`.
    pub fn insert_iter(&mut self, value: T) -> (inserted: bool)
        requires
            old(self).well_formed(),
            total_order::<T>(),
            old(self).node_count() < isize::MAX,
        ensures
            final(self).well_formed(),
            final(self).shape() == old(self).shape().avl_insert(value),
            inserted == !old(self).shape().contents().contains(value),
            final(self).shape().contents() == old(self).shape().contents().insert(value),
            final(self).node_count() == old(self).node_count() + if inserted {
                1nat
            } else {
                0nat
            },
            !inserted ==> final(self).shape() == old(self).shape(),
    {
        proof {
            lemma_avl_insert(self.shape(), value);
            lemma_total_order::<T>();
        }
        if self.root.is_none() {
            self.root = Some(Box::new(AvlNode::new(value)));
            self.len += 1;
            proof {
                crate::common::shape::lemma_leaf(value);
            }
            return true;
        }
        let ghost whole = self.shape();
        let mut curr = self.root.take();
        let mut path: Vec<(Box<AvlNode<T>>, Direction)> = Vec::new();
        let ghost mut subs: Seq<Shape<T>> = Seq::empty();
        let mut stop = false;
        while !stop && curr.is_some()
            invariant
                total_order::<T>(),
                whole.is_avl(),
                whole.is_bst(),
                whole.size() < isize::MAX,
                path@.len() == subs.len(),
                forall|i: int| 0 <= i < path@.len() ==> entry_ok(#[trigger] path@[i], value),
                forall|i: int|
                    0 <= i < subs.len() ==> (#[trigger] subs[i]).is_avl() && subs[i].is_bst()
                        && subs[i].size() <= whole.size(),
                forall|i: int|
                    0 <= i < subs.len() - 1 ==> #[trigger] subs[i] == avl_attach(
                        *path@[i].0,
                        path@[i].1,
                        subs[i + 1],
                    ),
                subs.len() > 0 ==> subs[subs.len() - 1] == avl_attach(
                    *path@[subs.len() - 1].0,
                    path@[subs.len() - 1].1,
                    avl_link_shape(curr),
                ) && subs[0] == whole,
                subs.len() == 0 ==> avl_link_shape(curr) == whole,
                heights_ok(curr),
                avl_link_shape(curr).is_avl(),
                avl_link_shape(curr).is_bst(),
                avl_link_shape(curr).size() <= whole.size(),
                whole.contents().contains(value) <==> avl_link_shape(curr).contents().contains(
                    value,
                ),
                stop ==> avl_link_shape(curr).contents().contains(value),
            decreases avl_link_shape(curr).size() + if stop {
                0int
            } else {
                1int
            },
        {
            let mut node = curr.take().unwrap();
            let ghost t = node.shape();
            proof {
                lemma_total_order::<T>();
                crate::common::shape::lemma_bst_descend(t, value);
            }
            match value.cmp(&node.value) {
                Ordering::Less => {
                    let child = node.left.take();
                    path.push((node, Direction::Left));
                    proof {
                        subs = subs.push(t);
                    }
                    curr = child;
                },
                Ordering::Greater => {
                    assert(ord_gt(value, node.value));
                    let child = node.right.take();
                    path.push((node, Direction::Right));
                    proof {
                        subs = subs.push(t);
                    }
                    curr = child;
                },
                Ordering::Equal => {
                    assert(ord_eq(value, node.value));
                    curr = Some(node);
                    stop = true;
                },
            }
        }
        let ghost s0 = avl_link_shape(curr);
        let inserted = curr.is_none();
        proof {
            lemma_avl_insert(s0, value);
        }
        let mut sub = if inserted {
            proof {
                crate::common::shape::lemma_leaf(value);
            }
            Some(Box::new(AvlNode::new(value)))
        } else {
            curr
        };
        let sub = Self::rebuild_rebalancing(path, sub, Ghost(subs), Ghost(s0), Ghost(whole), Ghost(value));
        self.root = sub;
        if inserted {
            self.len += 1;
        }
        self.store_height();
        inserted
    }

    /// Records the height of the root as the tree's height.
    fn store_height(&mut self)
        requires
            heights_ok(old(self).root),
            old(self).shape().size() <= isize::MAX,
        ensures
            final(self).root == old(self).root,
            final(self).len == old(self).len,
            final(self).height == edge_height(final(self).shape()),
    {
        proof {
            lemma_height_le_size(self.shape());
        }
        let h = Self::height_of(&self.root);
        self.height = if h < 0 {
            0
        } else {
            h as usize
        };
    }

    /// Hangs the rebalanced subtree `sub` back into the detached ancestors
    /// `path`, from the bottom up, rebalancing each of them.
    fn rebuild_rebalancing(
        path: Vec<(Box<AvlNode<T>>, Direction)>,
        sub: Option<Box<AvlNode<T>>>,
        Ghost(subs): Ghost<Seq<Shape<T>>>,
        Ghost(s0): Ghost<Shape<T>>,
        Ghost(whole): Ghost<Shape<T>>,
        Ghost(value): Ghost<T>,
    ) -> (r: Option<Box<AvlNode<T>>>)
        requires
            total_order::<T>(),
            whole.size() < isize::MAX,
            path@.len() == subs.len(),
            forall|i: int| 0 <= i < path@.len() ==> entry_ok(#[trigger] path@[i], value),
            forall|i: int|
                0 <= i < subs.len() ==> (#[trigger] subs[i]).is_avl() && subs[i].is_bst()
                    && subs[i].size() <= whole.size(),
            forall|i: int|
                0 <= i < subs.len() - 1 ==> #[trigger] subs[i] == avl_attach(
                    *path@[i].0,
                    path@[i].1,
                    subs[i + 1],
                ),
            subs.len() > 0 ==> subs[subs.len() - 1] == avl_attach(
                *path@[subs.len() - 1].0,
                path@[subs.len() - 1].1,
                s0,
            ) && subs[0] == whole,
            subs.len() == 0 ==> s0 == whole,
            s0.is_avl(),
            s0.is_bst(),
            s0.size() <= whole.size(),
            avl_link_shape(sub) == s0.avl_insert(value),
            heights_ok(sub),
        ensures
            avl_link_shape(r) == whole.avl_insert(value),
            heights_ok(r),
    {
        let ghost full = subs.len();
        let mut path = path;
        let mut sub = sub;
        while path.len() > 0
            invariant
                total_order::<T>(),
                whole.size() < isize::MAX,
                full == subs.len(),
                path@.len() <= full,
                forall|i: int| 0 <= i < path@.len() ==> entry_ok(#[trigger] path@[i], value),
                forall|i: int|
                    0 <= i < full ==> (#[trigger] subs[i]).is_avl() && subs[i].is_bst()
                        && subs[i].size() <= whole.size(),
                forall|i: int|
                    0 <= i < path@.len() - 1 ==> #[trigger] subs[i] == avl_attach(
                        *path@[i].0,
                        path@[i].1,
                        subs[i + 1],
                    ),
                path@.len() > 0 ==> subs[path@.len() - 1] == avl_attach(
                    *path@[path@.len() - 1].0,
                    path@[path@.len() - 1].1,
                    if path@.len() == full {
                        s0
                    } else {
                        subs[path@.len() as int]
                    },
                ),
                s0.is_avl(),
                s0.is_bst(),
                s0.size() <= whole.size(),
                full > 0 ==> subs[0] == whole,
                full == 0 ==> s0 == whole,
                avl_link_shape(sub) == (if path@.len() == full {
                    s0
                } else {
                    subs[path@.len() as int]
                }).avl_insert(value),
                heights_ok(sub),
            decreases path@.len(),
        {
            let ghost k = path@.len();
            let ghost cs = if k == full {
                s0
            } else {
                subs[k as int]
            };
            let ghost before = path@;
            let (mut n, dir) = path.pop().unwrap();
            proof {
                assert(before[k - 1] == (n, dir));
                assert(entry_ok(before[k - 1], value));
                lemma_avl_insert(cs, value);
                lemma_avl_insert(subs[k - 1], value);
                lemma_total_order::<T>();
            }
            match dir {
                Direction::Left => n.left = sub,
                Direction::Right => n.right = sub,
            }
            let mut t = Some(n);
            proof {
                let parent = subs[k - 1];
                assert(parent.is_avl());
                assert(avl_link_shape(t).size() <= parent.size() + 1);
                assert(parent.avl_insert(value) == avl_link_shape(t).rebalanced());
            }
            Self::rebalance(&mut t);
            sub = t;
        }
        sub
    }

    /// Whether the value is in the tree, by an iterative search.
    pub fn contains(&self, value: &T) -> (b: bool)
        requires
            self.well_formed(),
            total_order::<T>(),
        ensures
            b == self.shape().contents().contains(*value),
    {
        let mut curr = &self.root;
        while curr.is_some()
            invariant
                total_order::<T>(),
                avl_link_shape(*curr).is_bst(),
                self.shape().contents().contains(*value) <==> avl_link_shape(
                    *curr,
                ).contents().contains(*value),
            decreases avl_link_shape(*curr).size(),
        {
            let node = curr.as_ref().unwrap();
            proof {
                lemma_total_order::<T>();
                crate::common::shape::lemma_bst_descend(node.shape(), *value);
            }
            match value.cmp(&node.value) {
                Ordering::Less => curr = &node.left,
                Ordering::Greater => {
                    assert(ord_gt(*value, node.value));
                    curr = &node.right;
                },
                Ordering::Equal => {
                    assert(ord_eq(*value, node.value));
                    return true;
                },
            }
        }
        false
    }
}

impl<T: Ord> Tree<T> for AvlTree<T> {
    open spec fn well_formed(&self) -> bool {
        self.invariant_holds()
    }

    open spec fn node_count(&self) -> nat {
        self.shape().size()
    }

    open spec fn tree_height(&self) -> nat {
        edge_height(self.shape())
    }

    fn len(&self) -> (n: usize) {
        self.len
    }

    fn height(&self) -> (h: usize) {
        self.height
    }

    fn is_empty(&self) -> (b: bool) {
        self.len == 0
    }

    fn clear(&mut self) {
        self.root = None;
        self.len = 0;
        self.height = 0;
    }
}

/// The Fibonacci numbers: 0, 1, 1, 2, 3, 5, ...
pub open spec fn fib(n: nat) -> nat
    decreases n,
{
    if n < 2 {
        n
    } else {
        fib((n - 1) as nat) + fib((n - 2) as nat)
    }
}

/// The Fibonacci numbers never decrease.
proof fn lemma_fib_monotone(i: nat, j: nat)
    requires
        i <= j,
    ensures
        fib(i) <= fib(j),
    decreases j,
{
    if i < j {
        lemma_fib_monotone(i, (j - 1) as nat);
        if j >= 2 {
            assert(fib(j) == fib((j - 1) as nat) + fib((j - 2) as nat));
        }
    }
}

/// A balanced tree of height `h` holds at least `fib(h + 2) - 1` values, so its
/// height grows with the logarithm of its size.
pub proof fn lemma_avl_size_bound<T>(t: Shape<T>)
    requires
        t.is_avl(),
    ensures
        fib(t.height() + 2) <= t.size() + 1,
    decreases t,
{
    assert(fib(0) == 0 && fib(1) == 1);
    assert(fib(2) == 1);
    if let Shape::Branch(_, l, r) = t {
        lemma_avl_size_bound(*l);
        lemma_avl_size_bound(*r);
        let hl = l.height();
        let hr = r.height();
        let hi = max_nat(hl, hr);
        assert(fib(hi + 3) == fib(hi + 2) + fib(hi + 1));
        if hl >= hr {
            lemma_fib_monotone(hi + 1, hr + 2);
        } else {
            lemma_fib_monotone(hi + 1, hl + 2);
        }
        assert(t.height() + 2 == hi + 3);
        assert(t.size() + 1 == (l.size() + 1) + (r.size() + 1));
    }
}

/// An AVL tree's shape is balanced, so the bound on its height holds.
pub proof fn lemma_avl_tree_size_bound<T: Ord>(t: AvlTree<T>)
    requires
        t.well_formed(),
    ensures
        fib(t.shape().height() + 2) <= t.node_count() + 1,
{
    lemma_avl_size_bound(t.shape());
}

/// The recursive and the iterative insertion build the same tree.
pub proof fn lemma_inserts_agree<T: Ord>(
    before: AvlTree<T>,
    by_recursion: AvlTree<T>,
    by_iteration: AvlTree<T>,
    x: T,
)
    requires
        by_recursion.shape() == before.shape().avl_insert(x),
        by_iteration.shape() == before.shape().avl_insert(x),
    ensures
        by_recursion.shape() == by_iteration.shape(),
        by_recursion.node_count() == by_iteration.node_count(),
        by_recursion.shape().contents() == by_iteration.shape().contents(),
{
}

} // verus!
