//! The mathematical model of a binary tree: its shape, and the traversal
//! orders, sizes, heights and contents that the trees of this crate are
//! specified by.

use crate::common::order::{lemma_total_order, lt, ord_eq, total_order};
use vstd::multiset::Multiset;
use vstd::prelude::*;
use vstd::seq_lib::lemma_multiset_commutative;

verus! {

/// The shape of a binary tree holding values of type `T`.
pub enum Shape<T> {
    Empty,
    Branch(T, Box<Shape<T>>, Box<Shape<T>>),
}

/// The concatenation `f(0) + f(1) + ... + f(n - 1)`.
pub open spec fn concat_upto<T>(f: spec_fn(nat) -> Seq<T>, n: nat) -> Seq<T>
    decreases n,
{
    if n == 0 {
        Seq::empty()
    } else {
        concat_upto(f, (n - 1) as nat) + f((n - 1) as nat)
    }
}

pub open spec fn max_nat(a: nat, b: nat) -> nat {
    if a >= b {
        a
    } else {
        b
    }
}

impl<T> Shape<T> {
    /// Number of values in the tree.
    pub open spec fn size(self) -> nat
        decreases self,
    {
        match self {
            Shape::Empty => 0,
            Shape::Branch(_, l, r) => 1 + l.size() + r.size(),
        }
    }

    /// Number of nodes on the longest path from the root down; 0 for the empty tree.
    pub open spec fn height(self) -> nat
        decreases self,
    {
        match self {
            Shape::Empty => 0,
            Shape::Branch(_, l, r) => 1 + max_nat(l.height(), r.height()),
        }
    }

    /// Left subtree, node, right subtree.
    pub open spec fn inorder(self) -> Seq<T>
        decreases self,
    {
        match self {
            Shape::Empty => Seq::empty(),
            Shape::Branch(v, l, r) => l.inorder() + seq![v] + r.inorder(),
        }
    }

    /// The tree with the value at position `i` of its in-order walk replaced
    /// by `v`, every node left where it is.
    pub open spec fn set_inorder(self, i: int, v: T) -> Shape<T>
        decreases self,
    {
        match self {
            Shape::Empty => Shape::Empty,
            Shape::Branch(x, l, r) => {
                let n = l.inorder().len() as int;
                if i < n {
                    Shape::Branch(x, Box::new(l.set_inorder(i, v)), r)
                } else if i == n {
                    Shape::Branch(v, l, r)
                } else {
                    Shape::Branch(x, l, Box::new(r.set_inorder(i - n - 1, v)))
                }
            },
        }
    }

    /// Node, left subtree, right subtree.
    pub open spec fn preorder(self) -> Seq<T>
        decreases self,
    {
        match self {
            Shape::Empty => Seq::empty(),
            Shape::Branch(v, l, r) => seq![v] + l.preorder() + r.preorder(),
        }
    }

    /// Left subtree, right subtree, node.
    pub open spec fn postorder(self) -> Seq<T>
        decreases self,
    {
        match self {
            Shape::Empty => Seq::empty(),
            Shape::Branch(v, l, r) => l.postorder() + r.postorder() + seq![v],
        }
    }

    /// The values at depth `d` (the root has depth 0), from left to right.
    pub open spec fn level(self, d: nat) -> Seq<T>
        decreases self,
    {
        match self {
            Shape::Empty => Seq::empty(),
            Shape::Branch(v, l, r) => if d == 0 {
                seq![v]
            } else {
                l.level((d - 1) as nat) + r.level((d - 1) as nat)
            },
        }
    }

    /// Level by level from the root down, each level from left to right.
    pub open spec fn levelorder(self) -> Seq<T> {
        concat_upto(|d: nat| self.level(d), self.height())
    }

    /// The set of values in the tree.
    pub open spec fn contents(self) -> Set<T>
        decreases self,
    {
        match self {
            Shape::Empty => Set::empty(),
            Shape::Branch(v, l, r) => l.contents().union(r.contents()).insert(v),
        }
    }

    /// The value at the root.
    pub open spec fn root_value(self) -> T {
        match self {
            Shape::Empty => arbitrary(),
            Shape::Branch(v, _, _) => v,
        }
    }

    /// The left subtree of the root.
    pub open spec fn left(self) -> Shape<T> {
        match self {
            Shape::Empty => Shape::Empty,
            Shape::Branch(_, l, _) => *l,
        }
    }

    /// The right subtree of the root.
    pub open spec fn right(self) -> Shape<T> {
        match self {
            Shape::Empty => Shape::Empty,
            Shape::Branch(_, _, r) => *r,
        }
    }

    /// The non-empty children of the root, left before right.
    pub open spec fn kids(self) -> Seq<Shape<T>> {
        match self {
            Shape::Empty => Seq::empty(),
            Shape::Branch(_, l, r) => (if *l is Empty {
                Seq::empty()
            } else {
                seq![*l]
            }) + (if *r is Empty {
                Seq::empty()
            } else {
                seq![*r]
            }),
        }
    }
}

impl<T: Ord> Shape<T> {
    /// Every value of the left subtree is smaller than the node's, every value of
    /// the right subtree larger, at every node.
    pub open spec fn is_bst(self) -> bool
        decreases self,
    {
        match self {
            Shape::Empty => true,
            Shape::Branch(v, l, r) => {
                &&& l.is_bst()
                &&& r.is_bst()
                &&& forall|x: T| #[trigger] l.contents().contains(x) ==> lt(x, v)
                &&& forall|x: T| #[trigger] r.contents().contains(x) ==> lt(v, x)
            },
        }
    }
}

/// A sequence is strictly increasing.
pub open spec fn strictly_sorted<T: Ord>(s: Seq<T>) -> bool {
    forall|i: int, j: int| 0 <= i < j < s.len() ==> lt(#[trigger] s[i], #[trigger] s[j])
}

// ---------------------------------------------------------------------------
// Forests and breadth-first order
// ---------------------------------------------------------------------------

/// A measure that every step of a breadth-first walk decreases.
pub open spec fn forest_weight<T>(f: Seq<Shape<T>>) -> nat
    decreases f.len(),
{
    if f.len() == 0 {
        0
    } else {
        2 * f[0].size() + 1 + forest_weight(f.drop_first())
    }
}

/// The values at depth `d` of each tree of the forest, tree after tree.
pub open spec fn forest_level<T>(f: Seq<Shape<T>>, d: nat) -> Seq<T>
    decreases f.len(),
{
    if f.len() == 0 {
        Seq::empty()
    } else {
        f[0].level(d) + forest_level(f.drop_first(), d)
    }
}

/// The largest height of a tree of the forest.
pub open spec fn forest_height<T>(f: Seq<Shape<T>>) -> nat
    decreases f.len(),
{
    if f.len() == 0 {
        0
    } else {
        max_nat(f[0].height(), forest_height(f.drop_first()))
    }
}

/// The non-empty children of each tree of the forest, in order.
pub open spec fn forest_kids<T>(f: Seq<Shape<T>>) -> Seq<Shape<T>>
    decreases f.len(),
{
    if f.len() == 0 {
        Seq::empty()
    } else {
        f[0].kids() + forest_kids(f.drop_first())
    }
}

pub proof fn lemma_forest_single<T>(t: Shape<T>, d: nat)
    ensures
        forest_weight(seq![t]) == 2 * t.size() + 1,
        forest_level(seq![t], d) == t.level(d),
        forest_height(seq![t]) == t.height(),
{
    let f = seq![t];
    let e = Seq::<Shape<T>>::empty();
    assert(f.drop_first() =~= e);
    assert(forest_weight(e) == 0);
    assert(forest_level(e, d) == Seq::<T>::empty());
    assert(forest_height(e) == 0);
    assert(forest_level(f, d) =~= t.level(d));
}

pub proof fn lemma_forest_kids_append<T>(a: Seq<Shape<T>>, b: Seq<Shape<T>>)
    ensures
        forest_kids(a + b) == forest_kids(a) + forest_kids(b),
    decreases a.len(),
{
    if a.len() == 0 {
        assert(a + b =~= b);
        assert(forest_kids(a) =~= Seq::<Shape<T>>::empty());
        assert(forest_kids(a + b) =~= forest_kids(a) + forest_kids(b));
    } else {
        assert((a + b).drop_first() =~= a.drop_first() + b);
        lemma_forest_kids_append(a.drop_first(), b);
        assert(forest_kids(a + b) =~= forest_kids(a) + forest_kids(b));
    }
}

pub proof fn lemma_forest_kids_single<T>(t: Shape<T>)
    ensures
        forest_kids(seq![t]) == t.kids(),
{
    let f = seq![t];
    assert(f.drop_first() =~= Seq::<Shape<T>>::empty());
    assert(forest_kids(f.drop_first()) =~= Seq::<Shape<T>>::empty());
    assert(forest_kids(f) =~= t.kids());
}

pub proof fn lemma_weight_append<T>(a: Seq<Shape<T>>, b: Seq<Shape<T>>)
    ensures
        forest_weight(a + b) == forest_weight(a) + forest_weight(b),
    decreases a.len(),
{
    if a.len() == 0 {
        assert(a + b =~= b);
    } else {
        assert((a + b).drop_first() =~= a.drop_first() + b);
        lemma_weight_append(a.drop_first(), b);
    }
}

pub proof fn lemma_weight_kids<T>(t: Shape<T>)
    ensures
        forest_weight(t.kids()) < 2 * t.size() + 1,
{
    match t {
        Shape::Empty => {},
        Shape::Branch(_, l, r) => {
            let sl: Seq<Shape<T>> = if *l is Empty {
                Seq::empty()
            } else {
                seq![*l]
            };
            let sr: Seq<Shape<T>> = if *r is Empty {
                Seq::empty()
            } else {
                seq![*r]
            };
            lemma_weight_append(sl, sr);
            lemma_forest_single(*l, 0);
            lemma_forest_single(*r, 0);
            assert(forest_weight(Seq::<Shape<T>>::empty()) == 0);
        },
    }
}

/// Breadth-first order of a forest: a queue that starts with the forest's trees,
/// takes the front tree, emits its root and appends its non-empty children.
pub open spec fn bfs<T>(f: Seq<Shape<T>>) -> Seq<T>
    decreases forest_weight(f),
{
    if f.len() == 0 {
        Seq::empty()
    } else {
        proof {
            lemma_weight_append(f.drop_first(), f[0].kids());
            lemma_weight_kids(f[0]);
        }
        match f[0] {
            Shape::Empty => bfs(f.drop_first()),
            Shape::Branch(v, _, _) => seq![v] + bfs(f.drop_first() + f[0].kids()),
        }
    }
}

/// The root values of the non-empty trees of a forest, in order.
pub open spec fn roots<T>(f: Seq<Shape<T>>) -> Seq<T>
    decreases f.len(),
{
    if f.len() == 0 {
        Seq::empty()
    } else {
        (match f[0] {
            Shape::Empty => Seq::empty(),
            Shape::Branch(v, _, _) => seq![v],
        }) + roots(f.drop_first())
    }
}

pub proof fn lemma_roots_cons<T>(x: Shape<T>, f: Seq<Shape<T>>)
    ensures
        roots(seq![x] + f) == (match x {
            Shape::Empty => Seq::<T>::empty(),
            Shape::Branch(v, _, _) => seq![v],
        }) + roots(f),
{
    assert((seq![x] + f).drop_first() =~= f);
    assert((seq![x] + f)[0] == x);
}

/// The roots of the kids of `t`: its left child's value, then its right child's.
pub proof fn lemma_roots_kids<T>(t: Shape<T>)
    requires
        t is Branch,
    ensures
        roots(t.kids()) == (if t.left() is Branch {
            seq![t.left().root_value()]
        } else {
            Seq::<T>::empty()
        }) + (if t.right() is Branch {
            seq![t.right().root_value()]
        } else {
            Seq::<T>::empty()
        }),
{
    let e = Seq::<Shape<T>>::empty();
    assert(roots(e) =~= Seq::<T>::empty());
    match t {
        Shape::Empty => {},
        Shape::Branch(_, l, r) => {
            let sl: Seq<Shape<T>> = if *l is Empty {
                e
            } else {
                seq![*l]
            };
            let sr: Seq<Shape<T>> = if *r is Empty {
                e
            } else {
                seq![*r]
            };
            if *r is Branch {
                lemma_roots_cons(*r, e);
                assert(seq![*r] + e =~= seq![*r]);
            }
            if *l is Branch {
                lemma_roots_cons(*l, sr);
                assert(seq![*l] + sr =~= t.kids());
            } else {
                assert(sr =~= t.kids());
            }
            assert(roots(t.kids()) =~= (if t.left() is Branch {
                seq![t.left().root_value()]
            } else {
                Seq::<T>::empty()
            }) + (if t.right() is Branch {
                seq![t.right().root_value()]
            } else {
                Seq::<T>::empty()
            }));
        },
    }
}

/// A breadth-first walk that starts with the kids of `t` emits their roots
/// first and then queues their own kids behind `k`.
pub proof fn lemma_bfs_kids_step<T>(t: Shape<T>, k: Seq<Shape<T>>)
    ensures
        bfs(t.kids() + k) == roots(t.kids()) + bfs(k + forest_kids(t.kids())),
{
    let e = Seq::<Shape<T>>::empty();
    match t {
        Shape::Empty => {
            assert(t.kids() + k =~= k);
            assert(forest_kids(e) =~= e);
            assert(k + forest_kids(t.kids()) =~= k);
            assert(roots(e) =~= Seq::<T>::empty());
            assert(roots(t.kids()) + bfs(k) =~= bfs(k));
        },
        Shape::Branch(_, l, r) => {
            let ks = t.kids();
            assert(roots(e) =~= Seq::<T>::empty());
            assert(forest_kids(e) =~= e);
            if *l is Empty && *r is Empty {
                assert(ks =~= e);
                assert(ks + k =~= k);
                assert(k + forest_kids(ks) =~= k);
                assert(roots(ks) + bfs(k) =~= bfs(k));
            } else if *l is Empty || *r is Empty {
                let x = if *l is Empty {
                    *r
                } else {
                    *l
                };
                assert(ks =~= seq![x]);
                assert((ks + k).drop_first() =~= k);
                assert((ks + k)[0] == x);
                lemma_forest_kids_single(x);
                assert(ks.drop_first() =~= e);
                assert(roots(ks) =~= seq![x.root_value()]);
                assert(bfs(ks + k) =~= roots(ks) + bfs(k + forest_kids(ks)));
            } else {
                assert(ks =~= seq![*l, *r]);
                let f1 = ks + k;
                assert(f1[0] == *l);
                assert(f1.drop_first() =~= seq![*r] + k);
                let f2 = f1.drop_first() + l.kids();
                assert(f2[0] == *r);
                assert(f2.drop_first() =~= k + l.kids());
                lemma_forest_kids_append(seq![*l], seq![*r]);
                lemma_forest_kids_single(*l);
                lemma_forest_kids_single(*r);
                assert(seq![*l] + seq![*r] =~= ks);
                assert(f2.drop_first() + r.kids() =~= k + forest_kids(ks));
                lemma_roots_kids(t);
                assert(roots(ks) =~= seq![l.root_value(), r.root_value()]);
                assert(bfs(f1) == seq![l.root_value()] + bfs(f2));
                assert(bfs(f2) == seq![r.root_value()] + bfs(f2.drop_first() + r.kids()));
                assert(bfs(f1) =~= roots(ks) + bfs(k + forest_kids(ks)));
            }
        },
    }
}

pub proof fn lemma_level_beyond_height<T>(t: Shape<T>, d: nat)
    requires
        d >= t.height(),
    ensures
        t.level(d) == Seq::<T>::empty(),
    decreases t,
{
    match t {
        Shape::Empty => {},
        Shape::Branch(_, l, r) => {
            lemma_level_beyond_height(*l, (d - 1) as nat);
            lemma_level_beyond_height(*r, (d - 1) as nat);
        },
    }
}

pub proof fn lemma_forest_level_append<T>(a: Seq<Shape<T>>, b: Seq<Shape<T>>, d: nat)
    ensures
        forest_level(a + b, d) == forest_level(a, d) + forest_level(b, d),
    decreases a.len(),
{
    if a.len() == 0 {
        assert(a + b =~= b);
    } else {
        assert((a + b).drop_first() =~= a.drop_first() + b);
        lemma_forest_level_append(a.drop_first(), b, d);
        assert(forest_level(a + b, d) =~= forest_level(a, d) + forest_level(b, d));
    }
}

pub proof fn lemma_forest_height_append<T>(a: Seq<Shape<T>>, b: Seq<Shape<T>>)
    ensures
        forest_height(a + b) == max_nat(forest_height(a), forest_height(b)),
    decreases a.len(),
{
    if a.len() == 0 {
        assert(a + b =~= b);
    } else {
        assert((a + b).drop_first() =~= a.drop_first() + b);
        lemma_forest_height_append(a.drop_first(), b);
    }
}

/// The kids of a tree sit one level lower than the tree's own root.
pub proof fn lemma_kids_level<T>(t: Shape<T>, d: nat)
    requires
        t is Branch,
    ensures
        forest_level(t.kids(), d) == t.level(d + 1),
        forest_height(t.kids()) + 1 == t.height(),
{
    match t {
        Shape::Empty => {},
        Shape::Branch(_, l, r) => {
            let sl: Seq<Shape<T>> = if *l is Empty {
                Seq::empty()
            } else {
                seq![*l]
            };
            let sr: Seq<Shape<T>> = if *r is Empty {
                Seq::empty()
            } else {
                seq![*r]
            };
            lemma_forest_level_append(sl, sr, d);
            lemma_forest_height_append(sl, sr);
            lemma_forest_single(*l, d);
            lemma_forest_single(*r, d);
            assert(forest_level(Seq::<Shape<T>>::empty(), d) == Seq::<T>::empty());
            assert(forest_height(Seq::<Shape<T>>::empty()) == 0);
            assert(forest_level(sl, d) =~= l.level(d));
            assert(forest_level(sr, d) =~= r.level(d));
        },
    }
}

pub proof fn lemma_concat_empty<T>(f: spec_fn(nat) -> Seq<T>, n: nat)
    requires
        forall|d: nat| d < n ==> #[trigger] f(d) == Seq::<T>::empty(),
    ensures
        concat_upto(f, n) == Seq::<T>::empty(),
    decreases n,
{
    if n > 0 {
        lemma_concat_empty(f, (n - 1) as nat);
        assert(concat_upto(f, n) =~= Seq::<T>::empty());
    }
}

/// `b(0) + (a(0) + b(1)) + ... + (a(n-1) + b(n)) == (b(0) + a(0)) + ... + (b(n-1) + a(n-1)) + b(n)`.
pub proof fn lemma_concat_shift<T>(
    a: spec_fn(nat) -> Seq<T>,
    b: spec_fn(nat) -> Seq<T>,
    n: nat,
)
    ensures
        b(0) + concat_upto(|d: nat| a(d) + b(d + 1), n) == concat_upto(|d: nat| b(d) + a(d), n) + b(
            n,
        ),
    decreases n,
{
    if n > 0 {
        let m = (n - 1) as nat;
        lemma_concat_shift(a, b, m);
        let f = |d: nat| a(d) + b(d + 1);
        let g = |d: nat| b(d) + a(d);
        assert(concat_upto(f, n) == concat_upto(f, m) + f(m));
        assert(concat_upto(g, n) == concat_upto(g, m) + g(m));
        assert(b(0) + concat_upto(f, n) =~= (b(0) + concat_upto(f, m)) + (a(m) + b(m + 1)));
        assert(concat_upto(g, n) + b(n) =~= (concat_upto(g, m) + b(m)) + (a(m) + b(n)));
    }
}

pub proof fn lemma_concat_ext<T>(f: spec_fn(nat) -> Seq<T>, g: spec_fn(nat) -> Seq<T>, n: nat)
    requires
        forall|d: nat| d < n ==> #[trigger] f(d) == g(d),
    ensures
        concat_upto(f, n) == concat_upto(g, n),
    decreases n,
{
    if n > 0 {
        lemma_concat_ext(f, g, (n - 1) as nat);
    }
}

/// Breadth-first order of a forest is its levels, one after the other.
pub proof fn lemma_bfs_levels<T>(f: Seq<Shape<T>>, h: nat)
    requires
        forest_height(f) <= h,
    ensures
        bfs(f) == concat_upto(|d: nat| forest_level(f, d), h),
    decreases forest_weight(f),
{
    if f.len() == 0 {
        lemma_concat_empty(|d: nat| forest_level(f, d), h);
    } else {
        let r = f.drop_first();
        lemma_weight_append(r, f[0].kids());
        lemma_weight_kids(f[0]);
        match f[0] {
            Shape::Empty => {
                lemma_bfs_levels(r, h);
                assert forall|d: nat| d < h implies #[trigger] forest_level(f, d) == forest_level(
                    r,
                    d,
                ) by {
                    assert(f[0].level(d) =~= Seq::<T>::empty());
                }
                lemma_concat_ext(|d: nat| forest_level(f, d), |d: nat| forest_level(r, d), h);
            },
            Shape::Branch(v, _, _) => {
                let t = f[0];
                let g = r + t.kids();
                lemma_forest_height_append(r, t.kids());
                lemma_kids_level(t, 0);
                lemma_bfs_levels(g, h);
                let a = |d: nat| forest_level(r, d);
                let b = |d: nat| t.level(d);
                assert forall|d: nat| d < h implies #[trigger] forest_level(g, d) == a(d) + b(
                    d + 1,
                ) by {
                    lemma_forest_level_append(r, t.kids(), d);
                    lemma_kids_level(t, d);
                }
                lemma_concat_ext(|d: nat| forest_level(g, d), |d: nat| a(d) + b(d + 1), h);
                assert forall|d: nat| d < h implies #[trigger] forest_level(f, d) == b(d) + a(
                    d,
                ) by {}
                lemma_concat_ext(|d: nat| forest_level(f, d), |d: nat| b(d) + a(d), h);
                lemma_concat_shift(a, b, h);
                lemma_level_beyond_height(t, h);
                assert(b(0) =~= seq![v]);
                assert(b(h) =~= Seq::<T>::empty());
                assert(concat_upto(|d: nat| b(d) + a(d), h) + b(h) =~= concat_upto(
                    |d: nat| b(d) + a(d),
                    h,
                ));
            },
        }
    }
}

/// The breadth-first walk that starts from one tree yields its level order.
pub proof fn lemma_bfs_single<T>(t: Shape<T>)
    ensures
        bfs(seq![t]) == t.levelorder(),
{
    let f = seq![t];
    lemma_forest_single(t, 0);
    lemma_bfs_levels(f, t.height());
    assert forall|d: nat| d < t.height() implies #[trigger] forest_level(f, d) == t.level(d) by {
        lemma_forest_single(t, d);
    }
    lemma_concat_ext(|d: nat| forest_level(f, d), |d: nat| t.level(d), t.height());
}

// ---------------------------------------------------------------------------
// Binary search trees
// ---------------------------------------------------------------------------

pub proof fn lemma_inorder_contents<T>(t: Shape<T>)
    ensures
        t.inorder().to_set() == t.contents(),
        t.inorder().len() == t.size(),
    decreases t,
{
    match t {
        Shape::Empty => {
            assert(t.inorder().to_set() =~= Set::<T>::empty());
        },
        Shape::Branch(v, l, r) => {
            lemma_inorder_contents(*l);
            lemma_inorder_contents(*r);
            let s = t.inorder();
            assert(s == l.inorder() + seq![v] + r.inorder());
            assert forall|x: T| s.contains(x) <==> t.contents().contains(x) by {
                if s.contains(x) {
                    let i = choose|i: int| 0 <= i < s.len() && s[i] == x;
                    if i < l.inorder().len() {
                        assert(l.inorder().contains(x));
                    } else if i == l.inorder().len() {
                    } else {
                        assert(r.inorder()[i - l.inorder().len() - 1] == x);
                        assert(r.inorder().contains(x));
                    }
                }
                if t.contents().contains(x) {
                    if l.contents().contains(x) {
                        let i = choose|i: int| 0 <= i < l.inorder().len() && l.inorder()[i] == x;
                        assert(s[i] == x);
                    } else if r.contents().contains(x) {
                        let i = choose|i: int| 0 <= i < r.inorder().len() && r.inorder()[i] == x;
                        assert(s[i + l.inorder().len() + 1] == x);
                    } else {
                        assert(s[l.inorder().len() as int] == x);
                    }
                }
            }
            assert(s.to_set() =~= t.contents());
        },
    }
}

/// The in-order walk of a binary search tree is strictly increasing and holds
/// exactly the tree's values.
pub proof fn lemma_bst_inorder_sorted<T: Ord>(t: Shape<T>)
    requires
        total_order::<T>(),
        t.is_bst(),
    ensures
        strictly_sorted(t.inorder()),
        t.inorder().to_set() == t.contents(),
    decreases t,
{
    lemma_total_order::<T>();
    lemma_inorder_contents(t);
    match t {
        Shape::Empty => {},
        Shape::Branch(v, l, r) => {
            lemma_bst_inorder_sorted(*l);
            lemma_bst_inorder_sorted(*r);
            let li = l.inorder();
            let ri = r.inorder();
            let s = t.inorder();
            assert(s == li + seq![v] + ri);
            assert forall|i: int, j: int| 0 <= i < j < s.len() implies lt(
                #[trigger] s[i],
                #[trigger] s[j],
            ) by {
                let n = li.len() as int;
                if i < n {
                    assert(l.contents().contains(li[i])) by {
                        assert(li.to_set().contains(li[i]));
                    }
                    if j < n {
                        assert(s[j] == li[j]);
                    } else if j == n {
                    } else {
                        assert(r.contents().contains(ri[j - n - 1])) by {
                            assert(ri.to_set().contains(ri[j - n - 1]));
                        }
                        assert(lt(li[i], v));
                        assert(lt(v, ri[j - n - 1]));
                    }
                } else if i == n {
                    assert(r.contents().contains(ri[j - n - 1])) by {
                        assert(ri.to_set().contains(ri[j - n - 1]));
                    }
                } else {
                    assert(s[i] == ri[i - n - 1]);
                    assert(s[j] == ri[j - n - 1]);
                }
            }
        },
    }
}


pub proof fn lemma_height_le_size<T>(t: Shape<T>)
    ensures
        t.height() <= t.size(),
    decreases t,
{
    match t {
        Shape::Empty => {},
        Shape::Branch(_, l, r) => {
            lemma_height_le_size(*l);
            lemma_height_le_size(*r);
        },
    }
}

pub proof fn lemma_size_contents<T>(t: Shape<T>)
    ensures
        t.contents().finite(),
        t.contents().len() <= t.size(),
        t.size() == 0 <==> t.contents() == Set::<T>::empty(),
    decreases t,
{
    match t {
        Shape::Empty => {},
        Shape::Branch(v, l, r) => {
            lemma_size_contents(*l);
            lemma_size_contents(*r);
            vstd::set_lib::lemma_len_union(l.contents(), r.contents());
            assert(t.contents().contains(v));
        },
    }
}

impl<T: Ord> Shape<T> {
    /// The tree after inserting `x` at its place in search order; unchanged when
    /// `x` is already present.
    pub open spec fn bst_insert(self, x: T) -> Shape<T>
        decreases self,
    {
        match self {
            Shape::Empty => Shape::Branch(x, Box::new(Shape::Empty), Box::new(Shape::Empty)),
            Shape::Branch(v, l, r) => if lt(x, v) {
                Shape::Branch(v, Box::new(l.bst_insert(x)), r)
            } else if lt(v, x) {
                Shape::Branch(v, l, Box::new(r.bst_insert(x)))
            } else {
                self
            },
        }
    }

    /// The tree after removing `x` from a node found in search order: a node with
    /// one child is replaced by that child, a node with two children takes the
    /// value of its in-order predecessor, which is removed from the left subtree.
    pub open spec fn bst_remove(self, x: T) -> Shape<T>
        decreases self,
    {
        match self {
            Shape::Empty => Shape::Empty,
            Shape::Branch(v, l, r) => if lt(x, v) {
                Shape::Branch(v, Box::new(l.bst_remove(x)), r)
            } else if lt(v, x) {
                Shape::Branch(v, l, Box::new(r.bst_remove(x)))
            } else if *l is Empty {
                *r
            } else if *r is Empty {
                *l
            } else {
                Shape::Branch(l.rightmost(), Box::new(l.without_rightmost()), r)
            },
        }
    }

    /// The values between the optional bounds, both exclusive.
    pub open spec fn within(self, lo: Option<T>, hi: Option<T>) -> bool {
        forall|x: T| #[trigger]
            self.contents().contains(x) ==> (lo matches Some(a) ==> lt(a, x)) && (hi matches Some(
                b,
            ) ==> lt(x, b))
    }
}

/// Searching a search tree by comparison with the root: a value smaller than
/// the root can only be on the left, a larger one only on the right.
pub proof fn lemma_bst_descend<T: Ord>(t: Shape<T>, x: T)
    requires
        total_order::<T>(),
        t.is_bst(),
        t is Branch,
    ensures
        lt(x, t->0) ==> (t.contents().contains(x) <==> t->1.contents().contains(x)),
        lt(t->0, x) ==> (t.contents().contains(x) <==> t->2.contents().contains(x)),
        ord_eq(x, t->0) ==> t.contents().contains(x) && x == t->0,
{
    lemma_total_order::<T>();
    match t {
        Shape::Empty => {},
        Shape::Branch(v, l, r) => {
            if lt(x, v) {
                if r.contents().contains(x) {
                    assert(lt(v, x));
                }
            }
            if lt(v, x) {
                if l.contents().contains(x) {
                    assert(lt(x, v));
                }
            }
        },
    }
}

/// A tree whose in-order walk is strictly increasing is a search tree.
pub proof fn lemma_sorted_inorder_is_bst<T: Ord>(t: Shape<T>)
    requires
        total_order::<T>(),
        strictly_sorted(t.inorder()),
    ensures
        t.is_bst(),
    decreases t,
{
    match t {
        Shape::Empty => {},
        Shape::Branch(v, l, r) => {
            let li = l.inorder();
            let ri = r.inorder();
            let s = t.inorder();
            let n = li.len() as int;
            assert(s == li + seq![v] + ri);
            assert(strictly_sorted(li)) by {
                assert forall|i: int, j: int| 0 <= i < j < li.len() implies lt(
                    #[trigger] li[i],
                    #[trigger] li[j],
                ) by {
                    assert(s[i] == li[i]);
                    assert(s[j] == li[j]);
                }
            }
            assert(strictly_sorted(ri)) by {
                assert forall|i: int, j: int| 0 <= i < j < ri.len() implies lt(
                    #[trigger] ri[i],
                    #[trigger] ri[j],
                ) by {
                    assert(s[i + n + 1] == ri[i]);
                    assert(s[j + n + 1] == ri[j]);
                }
            }
            lemma_sorted_inorder_is_bst(*l);
            lemma_sorted_inorder_is_bst(*r);
            lemma_inorder_contents(*l);
            lemma_inorder_contents(*r);
            assert forall|x: T| #[trigger] l.contents().contains(x) implies lt(x, v) by {
                assert(li.to_set().contains(x));
                let i = choose|i: int| 0 <= i < li.len() && li[i] == x;
                assert(s[i] == x);
                assert(s[n] == v);
            }
            assert forall|x: T| #[trigger] r.contents().contains(x) implies lt(v, x) by {
                assert(ri.to_set().contains(x));
                let i = choose|i: int| 0 <= i < ri.len() && ri[i] == x;
                assert(s[i + n + 1] == x);
                assert(s[n] == v);
            }
        },
    }
}

/// Insertion keeps the search order, adds the value, and grows the tree by one
/// node exactly when the value was absent.
pub proof fn lemma_bst_insert<T: Ord>(t: Shape<T>, x: T)
    requires
        total_order::<T>(),
        t.is_bst(),
    ensures
        t.bst_insert(x).is_bst(),
        t.bst_insert(x).contents() == t.contents().insert(x),
        t.bst_insert(x).size() == t.size() + if t.contents().contains(x) {
            0nat
        } else {
            1nat
        },
        t.contents().contains(x) ==> t.bst_insert(x) == t,
    decreases t,
{
    lemma_total_order::<T>();
    match t {
        Shape::Empty => {
            assert(t.bst_insert(x).contents() =~= t.contents().insert(x));
        },
        Shape::Branch(v, l, r) => {
            if lt(x, v) {
                lemma_bst_insert(*l, x);
                assert(!r.contents().contains(x));
                assert(t.bst_insert(x).contents() =~= t.contents().insert(x));
            } else if lt(v, x) {
                lemma_bst_insert(*r, x);
                assert(!l.contents().contains(x));
                assert(t.bst_insert(x).contents() =~= t.contents().insert(x));
            } else {
                assert(ord_eq(x, v));
                assert(t.contents().insert(x) =~= t.contents());
            }
        },
    }
}

/// The leftmost value of a non-empty search tree is its smallest value.
pub proof fn lemma_bst_leftmost<T: Ord>(t: Shape<T>)
    requires
        total_order::<T>(),
        t.is_bst(),
        t is Branch,
    ensures
        t.contents().contains(t.leftmost()),
        forall|y: T| #[trigger] t.contents().contains(y) ==> !lt(y, t.leftmost()),
    decreases t,
{
    lemma_total_order::<T>();
    match t {
        Shape::Empty => {},
        Shape::Branch(v, l, r) => {
            if !(*l is Empty) {
                lemma_bst_leftmost(*l);
            }
            assert forall|y: T| #[trigger] t.contents().contains(y) implies !lt(y, t.leftmost()) by {
                if *l is Empty {
                    assert(l.contents() =~= Set::<T>::empty());
                    if r.contents().contains(y) {
                        assert(lt(v, y));
                    }
                } else {
                    let m = l.leftmost();
                    assert(lt(m, v));
                    if r.contents().contains(y) {
                        assert(lt(v, y));
                        assert(lt(m, y));
                    }
                }
            }
        },
    }
}

/// The rightmost value of a non-empty search tree is its largest value, and
/// removing its node leaves a search tree of the other values.
pub proof fn lemma_bst_rightmost<T: Ord>(t: Shape<T>)
    requires
        total_order::<T>(),
        t.is_bst(),
        t is Branch,
    ensures
        t.contents().contains(t.rightmost()),
        forall|y: T| #[trigger] t.contents().contains(y) ==> y == t.rightmost() || lt(y, t.rightmost()),
        t.without_rightmost().is_bst(),
        t.without_rightmost().contents() == t.contents().remove(t.rightmost()),
        t.without_rightmost().size() + 1 == t.size(),
    decreases t,
{
    lemma_total_order::<T>();
    match t {
        Shape::Empty => {},
        Shape::Branch(v, l, r) => {
            if *r is Empty {
                assert(r.size() == 0);
                assert(!l.contents().contains(v));
                assert(r.contents() =~= Set::<T>::empty());
                assert(t.without_rightmost().contents() =~= t.contents().remove(t.rightmost()));
            } else {
                lemma_bst_rightmost(*r);
                let m = r.rightmost();
                assert(lt(v, m));
                assert(!l.contents().contains(m)) by {
                    if l.contents().contains(m) {
                        assert(lt(m, v));
                    }
                }
                assert forall|y: T| #[trigger] t.contents().contains(y) implies y == m || lt(y, m) by {
                    if l.contents().contains(y) {
                        assert(lt(y, v));
                    }
                }
                assert(t.without_rightmost().contents() =~= t.contents().remove(m));
            }
        },
    }
}

/// Removal keeps the search order, takes the value out, and shrinks the tree by
/// one node exactly when the value was present.
pub proof fn lemma_bst_remove<T: Ord>(t: Shape<T>, x: T)
    requires
        total_order::<T>(),
        t.is_bst(),
    ensures
        t.bst_remove(x).is_bst(),
        t.bst_remove(x).contents() == t.contents().remove(x),
        t.bst_remove(x).size() + (if t.contents().contains(x) {
            1nat
        } else {
            0nat
        }) == t.size(),
        !t.contents().contains(x) ==> t.bst_remove(x) == t,
    decreases t,
{
    lemma_total_order::<T>();
    match t {
        Shape::Empty => {
            assert(t.contents().remove(x) =~= Set::<T>::empty());
        },
        Shape::Branch(v, l, r) => {
            if lt(x, v) {
                lemma_bst_remove(*l, x);
                assert(!r.contents().contains(x));
                assert(t.bst_remove(x).contents() =~= t.contents().remove(x));
            } else if lt(v, x) {
                lemma_bst_remove(*r, x);
                assert(!l.contents().contains(x));
                assert(t.bst_remove(x).contents() =~= t.contents().remove(x));
            } else {
                assert(x == v) by {
                    assert(ord_eq(x, v));
                }
                assert(!l.contents().contains(v));
                assert(!r.contents().contains(v));
                if *l is Empty {
                    assert(t.bst_remove(x).contents() =~= t.contents().remove(x));
                } else if *r is Empty {
                    assert(t.bst_remove(x).contents() =~= t.contents().remove(x));
                } else {
                    lemma_bst_rightmost(*l);
                    let m = l.rightmost();
                    assert(lt(m, v));
                    assert forall|y: T| #[trigger] r.contents().contains(y) implies lt(m, y) by {
                        assert(lt(v, y));
                    }
                    assert forall|y: T| #[trigger] l.without_rightmost().contents().contains(y) implies lt(
                        y,
                        m,
                    ) by {
                        assert(l.contents().contains(y));
                    }
                    assert(t.bst_remove(x).contents() =~= t.contents().remove(x));
                }
            }
        },
    }
}

// ---------------------------------------------------------------------------
// Growing a plain binary tree along its outer edges
// ---------------------------------------------------------------------------

impl<T> Shape<T> {
    /// A tree of one node.
    pub open spec fn leaf(v: T) -> Shape<T> {
        Shape::Branch(v, Box::new(Shape::Empty), Box::new(Shape::Empty))
    }

    /// The value of the leftmost node.
    pub open spec fn leftmost(self) -> T
        decreases self,
    {
        match self {
            Shape::Empty => arbitrary(),
            Shape::Branch(v, l, _) => if *l is Empty {
                v
            } else {
                l.leftmost()
            },
        }
    }

    /// The value of the rightmost node.
    pub open spec fn rightmost(self) -> T
        decreases self,
    {
        match self {
            Shape::Empty => arbitrary(),
            Shape::Branch(v, _, r) => if *r is Empty {
                v
            } else {
                r.rightmost()
            },
        }
    }

    /// The tree without its rightmost node, whose left subtree takes its place.
    pub open spec fn without_rightmost(self) -> Shape<T>
        decreases self,
    {
        match self {
            Shape::Empty => Shape::Empty,
            Shape::Branch(v, l, r) => if *r is Empty {
                *l
            } else {
                Shape::Branch(v, l, Box::new(r.without_rightmost()))
            },
        }
    }

    /// The subtree at the end of the left spine: the leftmost node with what
    /// hangs on its right; empty for the empty tree.
    pub open spec fn leftmost_node(self) -> Shape<T>
        decreases self,
    {
        match self {
            Shape::Empty => Shape::Empty,
            Shape::Branch(_, l, _) => if *l is Empty {
                self
            } else {
                l.leftmost_node()
            },
        }
    }

    /// The subtree at the end of the right spine: the rightmost node with what
    /// hangs on its left; empty for the empty tree.
    pub open spec fn rightmost_node(self) -> Shape<T>
        decreases self,
    {
        match self {
            Shape::Empty => Shape::Empty,
            Shape::Branch(_, _, r) => if *r is Empty {
                self
            } else {
                r.rightmost_node()
            },
        }
    }

    /// The tree without its leftmost node, whose right subtree takes its place.
    pub open spec fn without_leftmost(self) -> Shape<T>
        decreases self,
    {
        match self {
            Shape::Empty => Shape::Empty,
            Shape::Branch(v, l, r) => if *l is Empty {
                *r
            } else {
                Shape::Branch(v, Box::new(l.without_leftmost()), r)
            },
        }
    }

    /// The subtree rooted at the first node, in pre-order, that holds `x`;
    /// empty when no node does.
    pub open spec fn subtree_at(self, x: T) -> Shape<T>
        decreases self,
    {
        match self {
            Shape::Empty => Shape::Empty,
            Shape::Branch(v, l, r) => if v == x {
                self
            } else if l.contents().contains(x) {
                l.subtree_at(x)
            } else {
                r.subtree_at(x)
            },
        }
    }

    /// The tree with the subtree that `subtree_at(x)` names replaced by `s`,
    /// every other node left where it is; unchanged when no node holds `x`.
    pub open spec fn graft(self, x: T, s: Shape<T>) -> Shape<T>
        decreases self,
    {
        match self {
            Shape::Empty => Shape::Empty,
            Shape::Branch(v, l, r) => if v == x {
                s
            } else if l.contents().contains(x) {
                Shape::Branch(v, Box::new(l.graft(x, s)), r)
            } else {
                Shape::Branch(v, l, Box::new(r.graft(x, s)))
            },
        }
    }

    /// The tree with a new leaf `v` hung as the left child of its leftmost node;
    /// the empty tree stays empty.
    pub open spec fn push_leftmost(self, v: T) -> Shape<T>
        decreases self,
    {
        match self {
            Shape::Empty => Shape::Empty,
            Shape::Branch(x, l, r) => if *l is Empty {
                Shape::Branch(x, Box::new(Shape::leaf(v)), r)
            } else {
                Shape::Branch(x, Box::new(l.push_leftmost(v)), r)
            },
        }
    }

    /// The tree with a new leaf `v` hung as the right child of its rightmost node;
    /// the empty tree stays empty.
    pub open spec fn push_rightmost(self, v: T) -> Shape<T>
        decreases self,
    {
        match self {
            Shape::Empty => Shape::Empty,
            Shape::Branch(x, l, r) => if *r is Empty {
                Shape::Branch(x, l, Box::new(Shape::leaf(v)))
            } else {
                Shape::Branch(x, l, Box::new(r.push_rightmost(v)))
            },
        }
    }

    /// Reverse post-order: node, right subtree, left subtree.
    pub open spec fn rev_postorder(self) -> Seq<T>
        decreases self,
    {
        match self {
            Shape::Empty => Seq::empty(),
            Shape::Branch(v, l, r) => seq![v] + r.rev_postorder() + l.rev_postorder(),
        }
    }
}

/// The values of all trees of a forest, each as often as it occurs.
pub open spec fn forest_multiset<T>(f: Seq<Shape<T>>) -> Multiset<T>
    decreases f.len(),
{
    if f.len() == 0 {
        Multiset::empty()
    } else {
        f[0].inorder().to_multiset().add(forest_multiset(f.drop_first()))
    }
}

proof fn lemma_forest_multiset_append<T>(a: Seq<Shape<T>>, b: Seq<Shape<T>>)
    ensures
        forest_multiset(a + b) == forest_multiset(a).add(forest_multiset(b)),
    decreases a.len(),
{
    broadcast use vstd::multiset::group_multiset_axioms;

    if a.len() == 0 {
        assert(a + b =~= b);
        assert(forest_multiset(a + b) =~= forest_multiset(a).add(forest_multiset(b)));
    } else {
        assert((a + b).drop_first() =~= a.drop_first() + b);
        lemma_forest_multiset_append(a.drop_first(), b);
        assert(forest_multiset(a + b) =~= forest_multiset(a).add(forest_multiset(b)));
    }
}

/// The children of a node hold its values but the root's.
proof fn lemma_kids_multiset<T>(t: Shape<T>)
    requires
        t is Branch,
    ensures
        t.inorder().to_multiset() == forest_multiset(t.kids()).insert(t->0),
{
    broadcast use vstd::multiset::group_multiset_axioms;
    broadcast use vstd::seq_lib::group_to_multiset_ensures;

    let (v, l, r) = (t->0, *t->1, *t->2);
    let e = Seq::<Shape<T>>::empty();
    let sl: Seq<Shape<T>> = if l is Empty {
        e
    } else {
        seq![l]
    };
    let sr: Seq<Shape<T>> = if r is Empty {
        e
    } else {
        seq![r]
    };
    lemma_forest_multiset_append(sl, sr);
    assert(forest_multiset(e) == Multiset::<T>::empty());
    assert(seq![l].drop_first() =~= e);
    assert(seq![r].drop_first() =~= e);
    assert(forest_multiset(sl) =~= l.inorder().to_multiset()) by {
        if l is Empty {
            assert(l.inorder() =~= Seq::<T>::empty());
        }
    }
    assert(forest_multiset(sr) =~= r.inorder().to_multiset()) by {
        if r is Empty {
            assert(r.inorder() =~= Seq::<T>::empty());
        }
    }
    lemma_multiset_commutative(l.inorder() + seq![v], r.inorder());
    lemma_multiset_commutative(l.inorder(), seq![v]);
    assert(t.inorder().to_multiset() =~= forest_multiset(t.kids()).insert(v));
}

/// The breadth-first walk of a forest meets every value of its trees once.
proof fn lemma_bfs_multiset<T>(f: Seq<Shape<T>>)
    ensures
        bfs(f).to_multiset() == forest_multiset(f),
    decreases forest_weight(f),
{
    broadcast use vstd::multiset::group_multiset_axioms;
    broadcast use vstd::seq_lib::group_to_multiset_ensures;

    if f.len() == 0 {
        assert(bfs(f).to_multiset() =~= forest_multiset(f));
    } else {
        let rest = f.drop_first();
        lemma_weight_append(rest, f[0].kids());
        lemma_weight_kids(f[0]);
        match f[0] {
            Shape::Empty => {
                lemma_bfs_multiset(rest);
                assert(f[0].inorder() =~= Seq::<T>::empty());
                assert(forest_multiset(f) =~= forest_multiset(rest));
            },
            Shape::Branch(v, _, _) => {
                let next = rest + f[0].kids();
                lemma_bfs_multiset(next);
                lemma_forest_multiset_append(rest, f[0].kids());
                lemma_kids_multiset(f[0]);
                lemma_multiset_commutative(seq![v], bfs(next));
                assert(bfs(f).to_multiset() =~= forest_multiset(f));
            },
        }
    }
}

/// Every order of walking a tree meets each of its values as often as the
/// in-order walk does: the walks are rearrangements of one another.
pub proof fn lemma_walks_permute<T>(t: Shape<T>)
    ensures
        t.preorder().to_multiset() == t.inorder().to_multiset(),
        t.postorder().to_multiset() == t.inorder().to_multiset(),
        t.levelorder().to_multiset() == t.inorder().to_multiset(),
    decreases t,
{
    broadcast use vstd::multiset::group_multiset_axioms;

    if let Shape::Branch(v, l, r) = t {
        lemma_walks_permute(*l);
        lemma_walks_permute(*r);
        let s = seq![v];
        lemma_multiset_commutative(l.inorder() + s, r.inorder());
        lemma_multiset_commutative(l.inorder(), s);
        lemma_multiset_commutative(s + l.preorder(), r.preorder());
        lemma_multiset_commutative(s, l.preorder());
        lemma_multiset_commutative(l.postorder() + r.postorder(), s);
        lemma_multiset_commutative(l.postorder(), r.postorder());
        assert(t.preorder().to_multiset() =~= t.inorder().to_multiset());
        assert(t.postorder().to_multiset() =~= t.inorder().to_multiset());
    }
    lemma_bfs_single(t);
    lemma_bfs_multiset(seq![t]);
    assert(seq![t].drop_first() =~= Seq::<Shape<T>>::empty());
    assert(forest_multiset(seq![t].drop_first()) == Multiset::<T>::empty());
    assert(forest_multiset(seq![t]) =~= t.inorder().to_multiset());
}

pub proof fn lemma_leaf<T>(v: T)
    ensures
        Shape::leaf(v).inorder() == seq![v],
        Shape::leaf(v).size() == 1,
        Shape::leaf(v).height() == 1,
{
    let e = Shape::<T>::Empty;
    assert(e.inorder() == Seq::<T>::empty());
    assert(e.size() == 0);
    assert(e.height() == 0);
    assert(Shape::leaf(v).inorder() =~= seq![v]);
}

/// A leaf pushed at the leftmost place comes first in in-order, and the tree
/// grows by one node.
pub proof fn lemma_push_leftmost<T>(t: Shape<T>, v: T)
    requires
        t is Branch,
    ensures
        t.push_leftmost(v).inorder() == seq![v] + t.inorder(),
        t.push_leftmost(v).size() == t.size() + 1,
    decreases t,
{
    match t {
        Shape::Empty => {},
        Shape::Branch(x, l, r) => {
            if *l is Empty {
                lemma_leaf(v);
                assert(t.push_leftmost(v).inorder() =~= seq![v] + t.inorder());
            } else {
                lemma_push_leftmost(*l, v);
                assert(t.push_leftmost(v).inorder() =~= seq![v] + t.inorder());
            }
        },
    }
}

/// A leaf pushed at the rightmost place comes last in in-order, and the tree
/// grows by one node.
pub proof fn lemma_push_rightmost<T>(t: Shape<T>, v: T)
    requires
        t is Branch,
    ensures
        t.push_rightmost(v).inorder() == t.inorder().push(v),
        t.push_rightmost(v).size() == t.size() + 1,
    decreases t,
{
    match t {
        Shape::Empty => {},
        Shape::Branch(x, l, r) => {
            if *r is Empty {
                lemma_leaf(v);
                assert(t.push_rightmost(v).inorder() =~= t.inorder().push(v));
            } else {
                lemma_push_rightmost(*r, v);
                assert(t.push_rightmost(v).inorder() =~= t.inorder().push(v));
            }
        },
    }
}

/// Reverse post-order is post-order read backwards.
pub proof fn lemma_rev_postorder<T>(t: Shape<T>)
    ensures
        t.rev_postorder() == t.postorder().reverse(),
    decreases t,
{
    match t {
        Shape::Empty => {
            assert(t.postorder().reverse() =~= Seq::<T>::empty());
        },
        Shape::Branch(v, l, r) => {
            lemma_rev_postorder(*l);
            lemma_rev_postorder(*r);
            let a = l.postorder();
            let b = r.postorder();
            assert((a + b + seq![v]).reverse() =~= seq![v] + b.reverse() + a.reverse());
        },
    }
}

/// An in-order walk meets every value once.
pub proof fn lemma_inorder_len<T>(t: Shape<T>)
    ensures
        t.inorder().len() == t.size(),
    decreases t,
{
    if let Shape::Branch(_, l, r) = t {
        lemma_inorder_len(*l);
        lemma_inorder_len(*r);
    }
}

/// Replacing the value at position `i` of the in-order walk changes that
/// position of the walk and nothing else, and keeps the size and height.
pub proof fn lemma_set_inorder<T>(t: Shape<T>, i: int, v: T)
    requires
        0 <= i < t.inorder().len(),
    ensures
        t.set_inorder(i, v).inorder() == t.inorder().update(i, v),
        t.set_inorder(i, v).size() == t.size(),
        t.set_inorder(i, v).height() == t.height(),
    decreases t,
{
    if let Shape::Branch(x, l, r) = t {
        let n = l.inorder().len() as int;
        if i < n {
            lemma_set_inorder(*l, i, v);
            assert(t.set_inorder(i, v).inorder() =~= t.inorder().update(i, v));
        } else if i == n {
            assert(t.set_inorder(i, v).inorder() =~= t.inorder().update(i, v));
        } else {
            lemma_set_inorder(*r, i - n - 1, v);
            assert(t.set_inorder(i, v).inorder() =~= t.inorder().update(i, v));
        }
    }
}

// ---------------------------------------------------------------------------
// Where the edits of a tree leave its nodes
// ---------------------------------------------------------------------------

/// The last value of the in-order walk is the rightmost node's.
pub proof fn lemma_rightmost_last<T>(t: Shape<T>)
    requires
        t is Branch,
    ensures
        t.inorder().len() > 0,
        t.rightmost() == t.inorder().last(),
    decreases t,
{
    if let Shape::Branch(v, l, r) = t {
        if !(*r is Empty) {
            lemma_rightmost_last(*r);
        } else {
            assert(r.inorder() =~= Seq::<T>::empty());
        }
    }
}

/// Inserting a value that a search tree does not hold hangs it as a new leaf:
/// in the result the node holding `x` has no children, and cutting that leaf
/// off gives back the tree as it was, every node in its place. A value already
/// held leaves the tree as it is.
pub proof fn lemma_bst_insert_hangs_leaf<T: Ord>(t: Shape<T>, x: T)
    requires
        total_order::<T>(),
        t.is_bst(),
    ensures
        !t.contents().contains(x) ==> t.bst_insert(x).subtree_at(x) == Shape::leaf(x),
        !t.contents().contains(x) ==> t.bst_insert(x).graft(x, Shape::Empty) == t,
        t.contents().contains(x) ==> t.bst_insert(x) == t,
    decreases t,
{
    lemma_total_order::<T>();
    lemma_bst_insert(t, x);
    if let Shape::Branch(v, l, r) = t {
        if !t.contents().contains(x) {
            assert(x != v);
            lemma_bst_insert(*l, x);
            lemma_bst_insert(*r, x);
            if lt(x, v) {
                lemma_bst_insert_hangs_leaf(*l, x);
                assert(l.bst_insert(x).contents().contains(x));
            } else if lt(v, x) {
                lemma_bst_insert_hangs_leaf(*r, x);
                assert(!l.contents().contains(x));
            } else {
                assert(ord_eq(x, v));
            }
        }
    }
}

/// In a search tree, cutting out the rightmost node and hanging its left
/// subtree in its place is grafting that subtree where the largest value sits.
pub proof fn lemma_without_rightmost_graft<T: Ord>(t: Shape<T>)
    requires
        total_order::<T>(),
        t.is_bst(),
        t is Branch,
    ensures
        t.without_rightmost() == t.graft(t.rightmost(), t.subtree_at(t.rightmost()).left()),
    decreases t,
{
    lemma_total_order::<T>();
    if let Shape::Branch(v, l, r) = t {
        if !(*r is Empty) {
            lemma_bst_rightmost(*r);
            lemma_without_rightmost_graft(*r);
            let m = r.rightmost();
            assert(lt(v, m));
            assert(!l.contents().contains(m)) by {
                if l.contents().contains(m) {
                    assert(lt(m, v));
                }
            }
        }
    }
}

/// Removing a value that a search tree holds takes out the node holding it and
/// leaves every other node where it is: a node with at most one child gives
/// way to that child (or to nothing), and a node with two children takes the
/// largest value of its left subtree, whose own node gives way to its left
/// child.
pub proof fn lemma_bst_remove_splices<T: Ord>(t: Shape<T>, x: T)
    requires
        total_order::<T>(),
        t.is_bst(),
        t.contents().contains(x),
    ensures
        t.subtree_at(x) is Branch,
        t.subtree_at(x).root_value() == x,
        t.subtree_at(x).left() is Empty ==> t.bst_remove(x) == t.graft(x, t.subtree_at(x).right()),
        t.subtree_at(x).right() is Empty ==> t.bst_remove(x) == t.graft(x, t.subtree_at(x).left()),
        ({
            let s = t.subtree_at(x);
            let l = s.left();
            let p = l.inorder().last();
            l is Branch && s.right() is Branch ==> t.bst_remove(x) == t.graft(
                x,
                Shape::Branch(p, Box::new(l.graft(p, l.subtree_at(p).left())), Box::new(s.right())),
            )
        }),
    decreases t,
{
    lemma_total_order::<T>();
    if let Shape::Branch(v, l, r) = t {
        if lt(x, v) {
            assert(x != v);
            assert(!r.contents().contains(x)) by {
                if r.contents().contains(x) {
                    assert(lt(v, x));
                }
            }
            lemma_bst_remove_splices(*l, x);
        } else if lt(v, x) {
            assert(x != v);
            assert(!l.contents().contains(x)) by {
                if l.contents().contains(x) {
                    assert(lt(x, v));
                }
            }
            lemma_bst_remove_splices(*r, x);
        } else {
            assert(ord_eq(x, v));
            assert(x == v);
            if !(*l is Empty) && !(*r is Empty) {
                lemma_rightmost_last(*l);
                lemma_without_rightmost_graft(*l);
            }
        }
    }
}

/// Growing a tree at its left edge hangs the new value as a leaf below the
/// leftmost node: the leftmost node of the result is a leaf holding `v`, and
/// taking it away gives back the tree as it was. The empty tree stays empty.
pub proof fn lemma_push_leftmost_leaf<T>(t: Shape<T>, v: T)
    ensures
        t is Empty ==> t.push_leftmost(v) is Empty,
        t is Branch ==> t.push_leftmost(v).leftmost_node() == Shape::leaf(v),
        t is Branch ==> t.push_leftmost(v).without_leftmost() == t,
    decreases t,
{
    if let Shape::Branch(x, l, r) = t {
        let e = Shape::<T>::Empty;
        let lf = Shape::leaf(v);
        assert(lf.leftmost_node() == lf);
        assert(lf.without_leftmost() == e);
        if !(*l is Empty) {
            lemma_push_leftmost_leaf(*l, v);
            let nl = l.push_leftmost(v);
            assert(nl is Branch);
            assert(t.push_leftmost(v) == Shape::Branch(x, Box::new(nl), r));
        } else {
            assert(t.push_leftmost(v) == Shape::Branch(x, Box::new(lf), r));
        }
    }
}

/// Growing a tree at its right edge hangs the new value as a leaf below the
/// rightmost node: the rightmost node of the result is a leaf holding `v`,
/// taking it away gives back the tree as it was, and the pre-order walk of
/// the result is the old one followed by `v`. The empty tree stays empty.
pub proof fn lemma_push_rightmost_leaf<T>(t: Shape<T>, v: T)
    ensures
        t is Empty ==> t.push_rightmost(v) is Empty,
        t is Branch ==> t.push_rightmost(v).rightmost_node() == Shape::leaf(v),
        t is Branch ==> t.push_rightmost(v).without_rightmost() == t,
        t is Branch ==> t.push_rightmost(v).preorder() == t.preorder().push(v),
    decreases t,
{
    if let Shape::Branch(x, l, r) = t {
        let e = Shape::<T>::Empty;
        assert(e.preorder() =~= Seq::<T>::empty());
        let lf = Shape::leaf(v);
        assert(lf.rightmost_node() == lf);
        assert(lf.without_rightmost() == e);
        if !(*r is Empty) {
            lemma_push_rightmost_leaf(*r, v);
            let nr = r.push_rightmost(v);
            assert(nr is Branch);
            assert(t.push_rightmost(v) == Shape::Branch(x, l, Box::new(nr)));
            assert(t.push_rightmost(v).preorder() =~= t.preorder().push(v));
        } else {
            assert(t.push_rightmost(v) == Shape::Branch(x, l, Box::new(lf)));
            assert(Shape::leaf(v).preorder() =~= seq![v]);
            assert(t.push_rightmost(v).preorder() =~= t.preorder().push(v));
        }
    }
}

} // verus!
