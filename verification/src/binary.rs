//! A plain binary tree with boxed nodes: each node has at most a left and a
//! right child, and the values follow no order.

use crate::common::shape::{lemma_height_le_size, lemma_push_leftmost, lemma_push_rightmost, Shape};
use crate::bst::edge_height;
use crate::common::traits::Tree;
use crate::common::visualize::{
    branch_mark, indentation, lines_joined, shows, TreeVisualBuilder, Visualize,
};
use vstd::prelude::*;
use vstd::string::StringExecFns;

verus! {

/// A node of a binary tree.
#[derive(Debug)]
pub struct Node<T> {
    pub value: T,
    pub left: Option<Box<Node<T>>>,
    pub right: Option<Box<Node<T>>>,
}

impl<T> Node<T> {
    /// The shape of the subtree rooted at this node.
    pub open spec fn shape(self) -> Shape<T>
        decreases self,
    {
        Shape::Branch(self.value, Box::new(link_shape(self.left)), Box::new(link_shape(self.right)))
    }

    /// A node without children.
    pub fn new(value: T) -> (n: Self)
        ensures
            n.value == value,
            n.left is None,
            n.right is None,
            n.shape() == Shape::leaf(value),
    {
        Self { value, left: None, right: None }
    }
}

/// The shape of an optional subtree.
pub open spec fn link_shape<T>(link: Option<Box<Node<T>>>) -> Shape<T>
    decreases link,
{
    match link {
        Some(n) => n.shape(),
        None => Shape::Empty,
    }
}

/// Hangs `sub` as the left child of the last node of `spine`, that node as the
/// left child of the one before, and so on.
pub open spec fn left_spine_plug<T>(spine: Seq<Box<Node<T>>>, sub: Shape<T>) -> Shape<T>
    decreases spine.len(),
{
    if spine.len() == 0 {
        sub
    } else {
        let n = spine.last();
        left_spine_plug(
            spine.drop_last(),
            Shape::Branch(n.value, Box::new(sub), Box::new(link_shape(n.right))),
        )
    }
}

/// Hangs `sub` as the right child of the last node of `spine`, that node as the
/// right child of the one before, and so on.
pub open spec fn right_spine_plug<T>(spine: Seq<Box<Node<T>>>, sub: Shape<T>) -> Shape<T>
    decreases spine.len(),
{
    if spine.len() == 0 {
        sub
    } else {
        let n = spine.last();
        right_spine_plug(
            spine.drop_last(),
            Shape::Branch(n.value, Box::new(link_shape(n.left)), Box::new(sub)),
        )
    }
}

/// A binary tree.
#[derive(Debug)]
pub struct BinaryTree<T> {
    pub root: Option<Box<Node<T>>>,
}

/// Number of nodes on the longest path of a subtree.
fn node_height<T>(link: &Option<Box<Node<T>>>) -> (h: usize)
    requires
        link_shape(*link).size() <= usize::MAX,
    ensures
        h == link_shape(*link).height(),
    decreases link_shape(*link).size(),
{
    proof {
        lemma_height_le_size(link_shape(*link));
    }
    match link {
        Some(n) => {
            let hl = node_height(&n.left);
            let hr = node_height(&n.right);
            if hl >= hr {
                1 + hl
            } else {
                1 + hr
            }
        },
        None => 0,
    }
}

/// Number of nodes of a subtree.
pub(crate) fn count_nodes<T>(link: &Option<Box<Node<T>>>) -> (n: usize)
    requires
        link_shape(*link).size() <= usize::MAX,
    ensures
        n == link_shape(*link).size(),
    decreases link_shape(*link).size(),
{
    match link {
        Some(n) => 1 + count_nodes(&n.left) + count_nodes(&n.right),
        None => 0,
    }
}

impl<T> BinaryTree<T> {
    /// The shape of the tree.
    pub open spec fn shape(&self) -> Shape<T> {
        link_shape(self.root)
    }

    /// Creates a new empty binary tree.
    pub fn new() -> (t: Self)
        ensures
            t.root is None,
            t.shape() == Shape::<T>::Empty,
    {
        Self { root: None }
    }

    /// Whether the tree has no root.
    pub fn is_empty(&self) -> (b: bool)
        ensures
            b == self.root is None,
            b == (self.shape() is Empty),
    {
        self.root.is_none()
    }

    /// Number of nodes on the longest path from the root down; 0 when empty.
    pub fn height(&self) -> (h: usize)
        requires
            self.shape().size() <= usize::MAX,
        ensures
            h == self.shape().height(),
    {
        node_height(&self.root)
    }

    /// Empties the tree node by node, with an explicit stack in place of recursion.
    #[allow(dead_code)]
    fn clear_it(&mut self)
        ensures
            final(self).root is None,
    {
        if self.root.is_none() {
            return;
        }
        let mut stack: Vec<Box<Node<T>>> = Vec::new();
        if let Some(root) = self.root.take() {
            stack.push(root);
        }
        while stack.len() > 0
            invariant
                self.root is None,
            decreases stack_weight(stack@),
        {
            let ghost before = stack@;
            let node = stack.pop().unwrap();
            proof {
                assert(stack@.push(node) =~= before);
                lemma_stack_weight_push(stack@, node);
            }
            let Node { value: _, left, right } = *node;
            if let Some(left) = left {
                let ghost b = stack@;
                stack.push(left);
                proof {
                    lemma_stack_weight_push(b, left);
                }
            }
            if let Some(right) = right {
                let ghost b = stack@;
                stack.push(right);
                proof {
                    lemma_stack_weight_push(b, right);
                }
            }
        }
    }

    /// Hangs a new leaf as the left child of the leftmost node; does nothing on
    /// an empty tree.
    pub fn add_left(&mut self, value: T)
        ensures
            final(self).shape() == old(self).shape().push_leftmost(value),
    {
        let root = match self.root.take() {
            None => return,
            Some(r) => r,
        };
        let ghost whole = root.shape();
        let mut spine: Vec<Box<Node<T>>> = Vec::new();
        let mut cur = root;
        while cur.left.is_some()
            invariant
                left_spine_plug(spine@, cur.shape().push_leftmost(value)) == whole.push_leftmost(
                    value,
                ),
                forall|i: int| 0 <= i < spine@.len() ==> (#[trigger] spine@[i]).left is None,
                self.root is None,
            decreases cur.shape().size(),
        {
            let ghost before = spine@;
            let l = cur.left.take().unwrap();
            spine.push(cur);
            proof {
                assert(spine@.drop_last() =~= before);
            }
            cur = l;
        }
        cur.left = Some(Box::new(Node::new(value)));
        let mut sub = cur;
        while spine.len() > 0
            invariant
                left_spine_plug(spine@, sub.shape()) == whole.push_leftmost(value),
                forall|i: int| 0 <= i < spine@.len() ==> (#[trigger] spine@[i]).left is None,
                self.root is None,
            decreases spine.len(),
        {
            let ghost before = spine@;
            let mut p = spine.pop().unwrap();
            proof {
                assert(before.drop_last() =~= spine@);
            }
            p.left = Some(sub);
            sub = p;
        }
        self.root = Some(sub);
    }

    /// Hangs a new leaf as the right child of the rightmost node; does nothing
    /// on an empty tree.
    pub fn add_right(&mut self, value: T)
        ensures
            final(self).shape() == old(self).shape().push_rightmost(value),
    {
        let root = match self.root.take() {
            None => return,
            Some(r) => r,
        };
        let ghost whole = root.shape();
        let mut spine: Vec<Box<Node<T>>> = Vec::new();
        let mut cur = root;
        while cur.right.is_some()
            invariant
                right_spine_plug(spine@, cur.shape().push_rightmost(value))
                    == whole.push_rightmost(value),
                forall|i: int| 0 <= i < spine@.len() ==> (#[trigger] spine@[i]).right is None,
                self.root is None,
            decreases cur.shape().size(),
        {
            let ghost before = spine@;
            let r = cur.right.take().unwrap();
            spine.push(cur);
            proof {
                assert(spine@.drop_last() =~= before);
            }
            cur = r;
        }
        cur.right = Some(Box::new(Node::new(value)));
        let mut sub = cur;
        while spine.len() > 0
            invariant
                right_spine_plug(spine@, sub.shape()) == whole.push_rightmost(value),
                forall|i: int| 0 <= i < spine@.len() ==> (#[trigger] spine@[i]).right is None,
                self.root is None,
            decreases spine.len(),
        {
            let ghost before = spine@;
            let mut p = spine.pop().unwrap();
            proof {
                assert(before.drop_last() =~= spine@);
            }
            p.right = Some(sub);
            sub = p;
        }
        self.root = Some(sub);
    }

    /// Replaces the whole tree with a single node.
    pub fn add_root(&mut self, value: T)
        ensures
            final(self).shape() == Shape::leaf(value),
    {
        self.root = Some(Box::new(Node::new(value)));
    }

    /// The root node, if any.
    pub fn get_root(&self) -> (r: Option<&Node<T>>)
        ensures
            r matches Some(n) ==> (self.root matches Some(b) && *n == *b),
            r is None <==> self.root is None,
    {
        match &self.root {
            Some(b) => Some(&**b),
            None => None,
        }
    }

    /// Inserts a value on a side chosen at random.
    pub fn insert(&mut self, value: T)
        ensures
            old(self).shape() is Empty ==> final(self).shape() == Shape::leaf(value),
            old(self).shape() is Branch ==> final(self).shape() == old(self).shape().push_leftmost(
                value,
            ) || final(self).shape() == old(self).shape().push_rightmost(value),
    {
        self.insert_random(value);
    }

    /// Inserts a value into an empty tree as its root; otherwise picks a side at
    /// random and hangs the value below the outermost node on that side.
    pub fn insert_random(&mut self, value: T)
        ensures
            old(self).shape() is Empty ==> final(self).shape() == Shape::leaf(value),
            old(self).shape() is Branch ==> final(self).shape() == old(self).shape().push_leftmost(
                value,
            ) || final(self).shape() == old(self).shape().push_rightmost(value),
    {
        if self.root.is_none() {
            self.root = Some(Box::new(Node::new(value)));
            return;
        }
        let choose = [true, false];
        let side = choose[(random_u64() % 2) as usize];
        self.insert_on_side(value, side);
    }

    /// Inserts a value into an empty tree as its root; otherwise hangs it below
    /// the leftmost node (`go_left`) or the rightmost node.
    pub fn insert_on_side(&mut self, value: T, go_left: bool)
        ensures
            old(self).shape() is Empty ==> final(self).shape() == Shape::leaf(value),
            old(self).shape() is Branch && go_left ==> final(self).shape() == old(
                self,
            ).shape().push_leftmost(value),
            old(self).shape() is Branch && !go_left ==> final(self).shape() == old(
                self,
            ).shape().push_rightmost(value),
    {
        if self.root.is_none() {
            self.root = Some(Box::new(Node::new(value)));
            return;
        }
        if go_left {
            self.add_left(value);
        } else {
            self.add_right(value);
        }
    }
}

/// A number drawn by `rand::random` from the thread-local generator; nothing is
/// known of its value.
#[verifier::external_body]
fn random_u64() -> u64 {
    rand::random::<u64>()
}

/// Total size of the subtrees on a stack.
pub open spec fn stack_weight<T>(s: Seq<Box<Node<T>>>) -> nat
    decreases s.len(),
{
    if s.len() == 0 {
        0
    } else {
        s.last().shape().size() + stack_weight(s.drop_last())
    }
}

proof fn lemma_stack_weight_push<T>(s: Seq<Box<Node<T>>>, n: Box<Node<T>>)
    ensures
        stack_weight(s.push(n)) == n.shape().size() + stack_weight(s),
{
    assert(s.push(n).drop_last() =~= s);
}

/// Adding a leaf on the left puts it first in in-order; on the right, last.
pub proof fn lemma_add_sides_inorder<T>(t: Shape<T>, v: T)
    requires
        t is Branch,
    ensures
        t.push_leftmost(v).inorder() == seq![v] + t.inorder(),
        t.push_rightmost(v).inorder() == t.inorder().push(v),
        t.push_leftmost(v).size() == t.size() + 1,
        t.push_rightmost(v).size() == t.size() + 1,
{
    lemma_push_leftmost(t, v);
    lemma_push_rightmost(t, v);
}

/// How far down the nodes on a stack of (node, depth) reach: the largest
/// `depth + height - 1` over its entries.
pub open spec fn reach<T>(s: Seq<(&Node<T>, usize)>) -> nat
    decreases s.len(),
{
    if s.len() == 0 {
        0
    } else {
        let (n, d) = s.last();
        crate::common::shape::max_nat((d + n.shape().height() - 1) as nat, reach(s.drop_last()))
    }
}

/// Total size of the subtrees on a stack of (node, depth).
pub open spec fn depth_stack_weight<T>(s: Seq<(&Node<T>, usize)>) -> nat
    decreases s.len(),
{
    if s.len() == 0 {
        0
    } else {
        s.last().0.shape().size() + depth_stack_weight(s.drop_last())
    }
}

proof fn lemma_depth_stack_push<T>(s: Seq<(&Node<T>, usize)>, e: (&Node<T>, usize))
    ensures
        reach(s.push(e)) == crate::common::shape::max_nat(
            (e.1 + e.0.shape().height() - 1) as nat,
            reach(s),
        ),
        depth_stack_weight(s.push(e)) == e.0.shape().size() + depth_stack_weight(s),
{
    assert(s.push(e).drop_last() =~= s);
    assert(s.push(e).last() == e);
}

impl<T> Tree<T> for BinaryTree<T> {
    open spec fn well_formed(&self) -> bool {
        self.shape().size() <= usize::MAX
    }

    open spec fn node_count(&self) -> nat {
        self.shape().size()
    }

    open spec fn tree_height(&self) -> nat {
        edge_height(self.shape())
    }

    fn len(&self) -> (n: usize) {
        count_nodes(&self.root)
    }

    fn clear(&mut self) {
        self.root = None;
    }

    /// Number of edges on the longest root-to-leaf path, 0 for an empty tree,
    /// found with an explicit stack of (node, depth in nodes) pairs in place of
    /// recursion.
    fn height(&self) -> (h: usize) {
        let ghost whole = self.shape();
        proof {
            lemma_height_le_size(whole);
        }
        let mut max_height: usize = 0;
        if self.root.is_none() {
            return 0;
        }
        let mut stack: Vec<(&Node<T>, usize)> = Vec::new();
        let root = self.get_root().unwrap();
        stack.push((root, 1));
        proof {
            lemma_depth_stack_push(Seq::<(&Node<T>, usize)>::empty(), (root, 1usize));
            assert(Seq::<(&Node<T>, usize)>::empty().push((root, 1usize)) =~= stack@);
        }
        while stack.len() > 0
            invariant
                whole == self.shape(),
                whole.height() <= usize::MAX,
                crate::common::shape::max_nat(max_height as nat, reach(stack@)) == whole.height(),
                forall|i: int| 0 <= i < stack@.len() ==> (#[trigger] stack@[i]).1 >= 1,
            decreases depth_stack_weight(stack@),
        {
            let ghost before = stack@;
            let (node, height) = stack.pop().unwrap();
            proof {
                assert(stack@.push((node, height)) =~= before);
                lemma_depth_stack_push(stack@, (node, height));
                assert(before[before.len() - 1].1 >= 1);
            }
            let ghost rest = stack@;
            let ghost hl = link_shape(node.left).height();
            let ghost hr = link_shape(node.right).height();
            proof {
                assert(node.shape().height() == 1 + crate::common::shape::max_nat(hl, hr));
                assert(reach(before) <= whole.height());
                assert(height + hl <= whole.height());
                assert(height + hr <= whole.height());
                if node.left is Some {
                    assert(hl >= 1);
                }
                if node.right is Some {
                    assert(hr >= 1);
                }
            }
            let ghost old_max = max_height;
            if height > max_height {
                max_height = height;
            }
            if let Some(left) = &node.left {
                let ghost b = stack@;
                stack.push((&**left, height + 1));
                proof {
                    lemma_depth_stack_push(b, (&**left, (height + 1) as usize));
                }
            }
            if let Some(right) = &node.right {
                let ghost b = stack@;
                stack.push((&**right, height + 1));
                proof {
                    lemma_depth_stack_push(b, (&**right, (height + 1) as usize));
                }
            }
            proof {
                assert(crate::common::shape::max_nat(max_height as nat, reach(stack@))
                    == crate::common::shape::max_nat(
                    old_max as nat,
                    reach(before),
                ));
                assert forall|i: int| 0 <= i < stack@.len() implies (#[trigger] stack@[i]).1 >= 1 by {
                    if i < rest.len() {
                        assert(stack@[i] == before[i]);
                    }
                }
            }
        }
        proof {
            assert(max_height == whole.height());
            assert(whole.height() >= 1);
        }
        max_height - 1
    }
}

/// The beginnings of the lines that draw subtree `t` below `prefix`, in
/// preorder: the prefix, a corner mark for the last child or a branch mark
/// otherwise, and a space. The children are drawn below the prefix extended by
/// a bar, or by a blank under a corner, and two spaces; the left child is the
/// last one when there is no right child.
pub open spec fn drawing_heads<T>(t: Shape<T>, prefix: Seq<char>, is_last: bool) -> Seq<
    Seq<char>,
>
    decreases t,
{
    match t {
        Shape::Empty => Seq::empty(),
        Shape::Branch(_, l, r) => {
            let below = prefix + (if is_last {
                seq![' ']
            } else {
                seq!['│']
            }) + seq![' ', ' '];
            seq![prefix + branch_mark(!is_last) + seq![' ']] + drawing_heads(
                *l,
                below,
                *r is Empty,
            ) + drawing_heads(*r, below, true)
        },
    }
}

/// `ls` draws subtree `t` below `prefix`, indented to `level`: one line per
/// node in preorder, each the indentation and the head of that node followed
/// by what `Display` writes for its value.
pub open spec fn draws<T: std::fmt::Display>(
    ls: Seq<Seq<char>>,
    t: Shape<T>,
    prefix: Seq<char>,
    is_last: bool,
    level: nat,
) -> bool {
    let heads = drawing_heads(t, prefix, is_last);
    &&& ls.len() == heads.len()
    &&& forall|i: int|
        #![trigger ls[i]]
        0 <= i < ls.len() ==> {
            &&& (indentation(level) + heads[i]).is_prefix_of(ls[i])
            &&& shows(&t.preorder()[i], ls[i].skip((indentation(level) + heads[i]).len() as int))
        }
}

/// A subtree has as many heads as nodes.
proof fn lemma_heads_len<T>(t: Shape<T>, prefix: Seq<char>, is_last: bool)
    ensures
        drawing_heads(t, prefix, is_last).len() == t.preorder().len(),
    decreases t,
{
    if let Shape::Branch(_, l, r) = t {
        let below = prefix + (if is_last {
            seq![' ']
        } else {
            seq!['│']
        }) + seq![' ', ' '];
        lemma_heads_len(*l, below, *r is Empty);
        lemma_heads_len(*r, below, true);
    }
}

/// The line of a node followed by the drawings of its children draws the node.
proof fn lemma_draws_branch<T: std::fmt::Display>(
    first: Seq<char>,
    ls: Seq<Seq<char>>,
    rs: Seq<Seq<char>>,
    v: T,
    l: Shape<T>,
    r: Shape<T>,
    prefix: Seq<char>,
    is_last: bool,
    level: nat,
)
    requires
        ({
            let head = indentation(level) + prefix + branch_mark(!is_last) + seq![' '];
            head.is_prefix_of(first) && shows(&v, first.skip(head.len() as int))
        }),
        ({
            let below = prefix + (if is_last {
                seq![' ']
            } else {
                seq!['│']
            }) + seq![' ', ' '];
            draws(ls, l, below, r is Empty, level) && draws(rs, r, below, true, level)
        }),
    ensures
        draws(seq![first] + ls + rs, Shape::Branch(v, Box::new(l), Box::new(r)), prefix, is_last, level),
{
    let t = Shape::Branch(v, Box::new(l), Box::new(r));
    let below = prefix + (if is_last {
        seq![' ']
    } else {
        seq!['│']
    }) + seq![' ', ' '];
    let hl = drawing_heads(l, below, r is Empty);
    let hr = drawing_heads(r, below, true);
    let heads = drawing_heads(t, prefix, is_last);
    let all = seq![first] + ls + rs;
    lemma_heads_len(l, below, r is Empty);
    lemma_heads_len(r, below, true);
    assert(indentation(level) + heads[0] =~= indentation(level) + prefix + branch_mark(!is_last)
        + seq![' ']);
    assert forall|i: int| #![trigger all[i]] 0 <= i < all.len() implies {
        &&& (indentation(level) + heads[i]).is_prefix_of(all[i])
        &&& shows(&t.preorder()[i], all[i].skip((indentation(level) + heads[i]).len() as int))
    } by {
        if i == 0 {
        } else if i < 1 + ls.len() {
            assert(all[i] == ls[i - 1]);
            assert(heads[i] == hl[i - 1]);
            assert(t.preorder()[i] == l.preorder()[i - 1]);
        } else {
            let j = i - 1 - ls.len();
            assert(all[i] == rs[j]);
            assert(heads[i] == hr[j]);
            assert(t.preorder()[i] == r.preorder()[j]);
        }
    }
}

/// Draws the subtree of `node` below `prefix`, one line per node in preorder.
fn visualize_node<T: std::fmt::Display>(
    node: &Node<T>,
    builder: &mut TreeVisualBuilder,
    prefix: &str,
    is_last: bool,
)
    ensures
        final(builder).indent_level == old(builder).indent_level,
        final(builder).line_texts().len() >= old(builder).line_texts().len(),
        final(builder).line_texts().take(old(builder).line_texts().len() as int)
            == old(builder).line_texts(),
        draws(
            final(builder).line_texts().skip(old(builder).line_texts().len() as int),
            node.shape(),
            prefix@,
            is_last,
            old(builder).indent_level as nat,
        ),
    decreases node,
{
    proof {
        reveal_strlit("└─");
        reveal_strlit("├─");
        reveal_strlit(" ");
        reveal_strlit("│");
        reveal_strlit("  ");
    }
    let ghost b0 = builder.line_texts();
    let connector = if is_last {
        "└─"
    } else {
        "├─"
    };
    let text = node.value.to_string();
    let line = prefix.to_owned().concat(connector).concat(" ").concat(text.as_str());
    builder.add_line(line.as_str());
    let ghost b1 = builder.line_texts();
    let new_prefix = prefix.to_owned().concat(
        if is_last {
            " "
        } else {
            "│"
        },
    ).concat("  ");
    if let Some(ref left) = node.left {
        visualize_node(left, builder, new_prefix.as_str(), node.right.is_none());
    }
    let ghost b2 = builder.line_texts();
    if let Some(ref right) = node.right {
        visualize_node(right, builder, new_prefix.as_str(), true);
    }
    proof {
        let b3 = builder.line_texts();
        let level = builder.indent_level as nat;
        let below = prefix@ + (if is_last {
            seq![' ']
        } else {
            seq!['│']
        }) + seq![' ', ' '];
        assert(new_prefix@ =~= below);
        let first = b1.last();
        let head = indentation(level) + prefix@ + branch_mark(!is_last) + seq![' '];
        assert(first =~= head + text@);
        assert(first.skip(head.len() as int) =~= text@);
        let ls = b2.skip(b1.len() as int);
        let rs = b3.skip(b2.len() as int);
        if node.left.is_none() {
            assert(ls =~= Seq::<Seq<char>>::empty());
            assert(b2 == b1);
        }
        if node.right.is_none() {
            assert(rs =~= Seq::<Seq<char>>::empty());
            assert(b3 == b2);
        }
        lemma_draws_branch(first, ls, rs, node.value, link_shape(node.left), link_shape(node.right), prefix@, is_last, level);
        assert(b1.len() == b0.len() + 1 && b1.take(b0.len() as int) =~= b0);
        assert forall|i: int| 0 <= i < b0.len() implies b3[i] == b0[i] by {
            assert(b3.take(b2.len() as int)[i] == b3[i]);
            assert(b2.take(b1.len() as int)[i] == b2[i]);
            assert(b1.take(b0.len() as int)[i] == b1[i]);
        }
        assert(b3.take(b0.len() as int) =~= b0);
        assert(b3.skip(b0.len() as int) =~= seq![first] + ls + rs);
    }
}

impl<T: std::fmt::Display> Visualize for BinaryTree<T> {
    /// An empty tree is drawn as `(empty tree)`; any other as the lines that
    /// draw it below an empty prefix, joined by newlines.
    open spec fn drawn_as(&self, text: Seq<char>) -> bool {
        &&& self.root is None ==> text == "(empty tree)"@
        &&& self.root is Some ==> exists|ls: Seq<Seq<char>>|
            draws(ls, self.shape(), Seq::empty(), true, 0) && text == lines_joined(ls)
    }

    /// Draws the tree one node per line, in preorder, below an empty prefix;
    /// an empty tree is drawn as `(empty tree)`.
    fn visualize(&self) -> (s: String)
        ensures
            self.root is None ==> s@ == "(empty tree)"@,
            self.root is Some ==> exists|ls: Seq<Seq<char>>|
                draws(ls, self.shape(), Seq::empty(), true, 0) && s@ == lines_joined(ls),
    {
        let mut builder = TreeVisualBuilder::new();
        if let Some(root) = &self.root {
            visualize_node(root, &mut builder, "", true);
            proof {
                reveal_strlit("");
                assert(""@ =~= Seq::<char>::empty());
                assert(builder.line_texts().skip(0) =~= builder.line_texts());
            }
        } else {
            builder.add_line("(empty tree)");
            proof {
                reveal_strlit("(empty tree)");
                assert(indentation(0) + "(empty tree)"@ =~= "(empty tree)"@);
            }
        }
        builder.build()
    }
}

impl<T> Default for BinaryTree<T> {
    fn default() -> (t: Self)
        ensures
            t.root is None,
    {
        Self::new()
    }
}

} // verus!
