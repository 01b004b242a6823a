//! B-tree of a chosen order that splits full nodes on the way down.
//!
//! A node holds at most `order - 1` keys in increasing order; an internal node
//! with `n` keys has `n + 1` children, every key of child `i` lies between keys
//! `i - 1` and `i`, and all leaves are at the same depth.

use crate::common::weave::{
    after, before, lemma_before_last, lemma_insert_sorted, lemma_sorted_middle, lemma_weave_at,
    lemma_sorted_same_set, lemma_weave_has_key, lemma_weave_keys_sorted, lemma_weave_lift,
    lemma_sorted_nondecreasing, lemma_weave_replace, lemma_weave_split, nondecreasing, sorted,
    weave, lemma_slot, slot, Layout,
};
use vstd::prelude::*;

verus! {

/// The fewest keys that a split leaves in either half, and so the fewest a node
/// other than the root holds: `⌈order / 2⌉ - 1` for an even order. For an odd
/// order a split can leave one key less, and nothing is promised.
pub open spec fn fill(order: nat) -> nat {
    if order % 2 == 0 && order >= 2 {
        (order / 2 - 1) as nat
    } else {
        0
    }
}

/// A node of the B-tree.
#[derive(Debug)]
pub struct BTreeNode {
    keys: Vec<i32>,
    children: Vec<Option<Box<BTreeNode>>>,
    is_leaf: bool,
}

impl BTreeNode {
    /// The in-order key sequences of the children.
    pub closed spec fn child_seqs(self) -> Seq<Seq<i32>>
        decreases self, 0nat,
    {
        Seq::new(
            self.children@.len(),
            |i: int|
                if 0 <= i < self.children@.len() {
                    match self.children@[i] {
                        Some(c) => c.key_seq(),
                        None => Seq::empty(),
                    }
                } else {
                    Seq::empty()
                },
        )
    }

    /// The keys of the subtree in order.
    pub closed spec fn key_seq(self) -> Seq<i32>
        decreases self, 1nat,
    {
        if self.is_leaf {
            self.keys@
        } else {
            weave(self.keys@, self.child_seqs())
        }
    }

    /// At most `order - 1` keys; a leaf at depth `d == 0` without children, or
    /// an internal node with one child more than keys, each of them sound at
    /// depth `d - 1` and holding at least `fill(order)` keys.
    pub closed spec fn node_ok(self, order: nat, d: nat) -> bool
        decreases self,
    {
        &&& self.keys@.len() + 1 <= order
        &&& if self.is_leaf {
            self.children@.len() == 0 && d == 0
        } else {
            &&& d > 0
            &&& self.children@.len() == self.keys@.len() + 1
            &&& forall|i: int|
                0 <= i < self.children@.len() ==> match #[trigger] self.children@[i] {
                    Some(c) => c.node_ok(order, (d - 1) as nat) && c.keys@.len() >= fill(order),
                    None => false,
                }
        }
    }

    /// The layout of the subtree: keys, children's layouts and leaf flag.
    pub closed spec fn layout(self) -> Layout
        decreases self,
    {
        Layout::Node(
            self.keys@,
            Seq::new(
                self.children@.len(),
                |i: int|
                    if 0 <= i < self.children@.len() {
                        match self.children@[i] {
                            Some(c) => c.layout(),
                            None => Layout::Node(Seq::empty(), Seq::empty(), true),
                        }
                    } else {
                        Layout::Node(Seq::empty(), Seq::empty(), true)
                    },
            ),
            self.is_leaf,
        )
    }

    /// The number of levels below this node, counted down its first children.
    pub closed spec fn leaf_depth(self) -> nat
        decreases self,
    {
        if self.is_leaf || self.children@.len() == 0 {
            0
        } else {
            match self.children@[0] {
                Some(c) => 1 + c.leaf_depth(),
                None => 0,
            }
        }
    }

    /// Every leaf below this node lies `d` levels down.
    pub closed spec fn leaves_at(self, d: nat) -> bool
        decreases self,
    {
        if self.is_leaf {
            d == 0
        } else {
            &&& d > 0
            &&& forall|i: int|
                0 <= i < self.children@.len() ==> match #[trigger] self.children@[i] {
                    Some(c) => c.leaves_at((d - 1) as nat),
                    None => false,
                }
        }
    }

    /// Every node below this one holds at least `k` keys.
    pub closed spec fn fill_ok(self, k: nat) -> bool
        decreases self,
    {
        forall|i: int|
            0 <= i < self.children@.len() ==> match #[trigger] self.children@[i] {
                Some(c) => c.keys@.len() >= k && c.fill_ok(k),
                None => true,
            }
    }

    /// The number of keys in child `i`; zero where there is no child.
    pub closed spec fn child_keys_len(self, i: int) -> nat {
        match self.children@[i] {
            Some(c) => c.keys@.len(),
            None => 0,
        }
    }

    /// A leaf without keys.
    #[allow(dead_code)]
    fn new_leaf() -> (n: Self)
        ensures
            n.keys@.len() == 0,
            n.children@.len() == 0,
            n.is_leaf,
    {
        BTreeNode { keys: vec![], children: vec![], is_leaf: true }
    }

    /// An internal node without keys or children.
    fn new_internal() -> (n: Self)
        ensures
            n.keys@.len() == 0,
            n.children@.len() == 0,
            !n.is_leaf,
    {
        BTreeNode { keys: vec![], children: vec![], is_leaf: false }
    }

    /// The number of keys smaller than `key`, found by binary search.
    fn find_pos(&self, key: i32) -> (p: usize)
        requires
            nondecreasing(self.keys@),
        ensures
            p <= self.keys@.len(),
            forall|j: int| 0 <= j < p ==> self.keys@[j] < key,
            forall|j: int| p <= j < self.keys@.len() ==> self.keys@[j] >= key,
    {
        let mut left: usize = 0;
        let mut right: usize = self.keys.len();
        while left < right
            invariant
                left <= right <= self.keys@.len(),
                nondecreasing(self.keys@),
                forall|j: int| 0 <= j < left ==> self.keys@[j] < key,
                forall|j: int| right <= j < self.keys@.len() ==> self.keys@[j] >= key,
            decreases right - left,
        {
            let mid = left + (right - left) / 2;
            if self.keys[mid] < key {
                left = mid + 1;
            } else {
                right = mid;
            }
        }
        left
    }

    /// The node holds `order - 1` keys or more.
    fn is_full(&self, order: usize) -> (b: bool)
        requires
            order >= 1,
        ensures
            b == (self.keys@.len() >= order - 1),
    {
        self.keys.len() >= order - 1
    }
}

/// The layout of an optional child.
spec fn link_layout(c: Option<Box<BTreeNode>>) -> Layout {
    match c {
        Some(b) => b.layout(),
        None => Layout::Node(Seq::empty(), Seq::empty(), true),
    }
}

/// The layouts of a run of optional children.
spec fn kid_layouts(ds: Seq<Option<Box<BTreeNode>>>) -> Seq<Layout> {
    Seq::new(ds.len(), |i: int| link_layout(ds[i]))
}

proof fn lemma_layout(n: BTreeNode)
    ensures
        n.layout() == Layout::Node(n.keys@, kid_layouts(n.children@), n.is_leaf),
{
    let Layout::Node(_, ks, _) = n.layout();
    assert(ks =~= kid_layouts(n.children@));
}

/// The keys of a layout.
pub open spec fn layout_keys(l: Layout) -> Seq<i32> {
    let Layout::Node(keys, _, _) = l;
    keys
}

/// Splitting child `index` of a node of layout `p` in a tree of the given
/// order: the child keeps the keys before its key `(order - 1) / 2`, which
/// moves up into the node at `index`, and a new sibling at `index + 1` takes
/// the keys after it; an internal child's children are divided with them.
pub open spec fn split_child_layout(p: Layout, index: int, order: nat) -> Layout {
    let Layout::Node(keys, kids, leaf) = p;
    let Layout::Node(ck, ckids, cleaf) = kids[index];
    let mid = (order - 1) / 2;
    let l = Layout::Node(
        ck.take(mid),
        if cleaf {
            ckids
        } else {
            ckids.take(mid + 1)
        },
        cleaf,
    );
    let r = Layout::Node(
        ck.skip(mid + 1),
        if cleaf {
            Seq::empty()
        } else {
            ckids.skip(mid + 1)
        },
        cleaf,
    );
    Layout::Node(keys.insert(index, ck[mid]), kids.update(index, l).insert(index + 1, r), leaf)
}

/// Insertion of `k` below a node of layout `n` with room for a key, `d` levels
/// above its leaves: a key already in the node leaves it as it is; a leaf takes
/// `k` in order; an internal node first splits the child where `k` belongs if
/// that child is full, then inserts into the child on `k`'s side of the key
/// that moved up, unless that key is `k`.
pub open spec fn insert_nonfull_layout(n: Layout, k: i32, order: nat, d: nat) -> Layout
    decreases d,
{
    let Layout::Node(keys, kids, leaf) = n;
    let pos = slot(keys, k);
    if pos < keys.len() && keys[pos] == k {
        n
    } else if leaf {
        Layout::Node(keys.insert(pos, k), kids, leaf)
    } else if d == 0 || !(0 <= pos < kids.len()) {
        n
    } else {
        let full = layout_keys(kids[pos]).len() >= order - 1;
        let n1 = if full {
            split_child_layout(n, pos, order)
        } else {
            n
        };
        let Layout::Node(k1, kids1, _) = n1;
        if full && k == k1[pos] {
            n1
        } else {
            let target = if full && k > k1[pos] {
                pos + 1
            } else {
                pos
            };
            if 0 <= target < kids1.len() {
                Layout::Node(
                    k1,
                    kids1.update(
                        target,
                        insert_nonfull_layout(kids1[target], k, order, (d - 1) as nat),
                    ),
                    leaf,
                )
            } else {
                n1
            }
        }
    }
}

/// Insertion of `k` into a tree of the given order and depth whose layout is
/// `root`: an empty tree gets a leaf with `k`; a full root is first put under a
/// new root and split, which makes the tree one level deeper.
pub open spec fn tree_insert_layout(root: Option<Layout>, k: i32, order: nat, d: nat) -> Option<
    Layout,
> {
    match root {
        None => Some(Layout::Node(seq![k], Seq::empty(), true)),
        Some(r) => if layout_keys(r).len() >= order - 1 {
            let top = split_child_layout(Layout::Node(Seq::empty(), seq![r], false), 0, order);
            Some(insert_nonfull_layout(top, k, order, d + 1))
        } else {
            Some(insert_nonfull_layout(r, k, order, d))
        },
    }
}

/// A B-tree of a given order.
#[derive(Debug)]
pub struct BTree {
    root: Option<Box<BTreeNode>>,
    order: usize,
}

impl BTree {
    /// The keys of the tree in order.
    pub closed spec fn key_seq(&self) -> Seq<i32> {
        match self.root {
            Some(r) => r.key_seq(),
            None => Seq::empty(),
        }
    }

    /// The number of keys in the root; `None` for an empty tree.
    pub closed spec fn root_key_count(&self) -> Option<nat> {
        match self.root {
            Some(r) => Some(r.keys@.len()),
            None => None,
        }
    }

    /// The layout of the tree; `None` when it is empty.
    pub closed spec fn layout(&self) -> Option<Layout> {
        match self.root {
            Some(r) => Some(r.layout()),
            None => None,
        }
    }

    /// The number of levels below the root; every leaf lies that far down.
    /// Zero for an empty tree.
    pub closed spec fn depth(&self) -> nat {
        match self.root {
            Some(r) => r.leaf_depth(),
            None => 0,
        }
    }

    /// Every leaf lies `d` levels below the root.
    pub closed spec fn leaves_all_at(&self, d: nat) -> bool {
        match self.root {
            Some(r) => r.leaves_at(d),
            None => true,
        }
    }

    /// Every node but the root holds at least `k` keys.
    pub closed spec fn below_root_fill(&self, k: nat) -> bool {
        match self.root {
            Some(r) => r.fill_ok(k),
            None => true,
        }
    }

    /// The order of the tree.
    pub closed spec fn order_spec(&self) -> nat {
        self.order as nat
    }

    /// Sound nodes at a common depth, keys in increasing order, order at least 3.
    pub closed spec fn well_formed(&self) -> bool {
        &&& self.order >= 3
        &&& match self.root {
            Some(r) => (exists|d: nat| #[trigger] r.node_ok(self.order as nat, d)) && sorted(r.key_seq()),
            None => true,
        }
    }

    /// Creates an empty tree of the given order.
    pub fn new(order: usize) -> (t: Self)
        ensures
            order >= 3 ==> t.well_formed(),
            t.key_seq() == Seq::<i32>::empty(),
            t.order_spec() == order,
            t.depth() == 0,
            t.layout() is None,
    {
        BTree { root: None, order }
    }

    /// The fewest keys a node other than the root should hold: `⌈order / 2⌉ - 1`.
    pub fn kmin(&self) -> (k: usize)
        requires
            self.order_spec() >= 1,
        ensures
            k == (self.order_spec() + 1) / 2 - 1,
    {
        ((self.order / 2) + (self.order % 2)) - 1
    }

    /// The most keys a node may hold: `order - 1`.
    pub fn kmax(&self) -> (k: usize)
        requires
            self.order_spec() >= 1,
        ensures
            k == self.order_spec() - 1,
    {
        self.order - 1
    }

    /// Whether the root holds the most keys a node may hold.
    pub fn is_full(&self) -> (b: bool)
        requires
            self.order_spec() >= 1 || self.root_key_count() is None,
        ensures
            b == (self.root_key_count() matches Some(n) && n >= self.order_spec() - 1),
    {
        match &self.root {
            Some(node) => node.keys.len() >= self.kmax(),
            None => false,
        }
    }

    /// Binary search for `key` in `keys`: a position `p` whose left neighbour
    /// is smaller than `key` and whose own key is not; in a non-decreasing
    /// slice, the number of keys smaller than `key`.
    pub fn binary_search_pos(&self, keys: &[i32], key: i32) -> (p: usize)
        ensures
            p <= keys@.len(),
            p > 0 ==> keys@[p - 1] < key,
            p < keys@.len() ==> keys@[p as int] >= key,
            nondecreasing(keys@) ==> forall|j: int| 0 <= j < p ==> keys@[j] < key,
            nondecreasing(keys@) ==> forall|j: int| p <= j < keys@.len() ==> keys@[j] >= key,
    {
        let mut left: usize = 0;
        let mut right: usize = keys.len();
        while left < right
            invariant
                left <= right <= keys@.len(),
                left > 0 ==> keys@[left - 1] < key,
                right < keys@.len() ==> keys@[right as int] >= key,
                nondecreasing(keys@) ==> forall|j: int| 0 <= j < left ==> keys@[j] < key,
                nondecreasing(keys@) ==> forall|j: int| right <= j < keys@.len() ==> keys@[j] >= key,
            decreases right - left,
        {
            let mid = left + (right - left) / 2;
            if keys[mid] < key {
                left = mid + 1;
            } else {
                right = mid;
            }
        }
        left
    }
}

/// The keys of a leaf are its key sequence; those of an internal node are
/// woven with its children's.
proof fn lemma_key_seq(n: BTreeNode)
    ensures
        n.is_leaf ==> n.key_seq() == n.keys@,
        !n.is_leaf ==> n.key_seq() == weave(n.keys@, n.child_seqs()),
        n.child_seqs().len() == n.children@.len(),
        forall|i: int|
            0 <= i < n.children@.len() ==> #[trigger] n.child_seqs()[i] == match n.children@[i] {
                Some(c) => c.key_seq(),
                None => Seq::empty(),
            },
{
}

/// `l` and `r` are the parts of `c0` before and after its key `mid`: the keys
/// on each side and, for an internal node, the children on each side.
spec fn split_halves(c0: BTreeNode, l: BTreeNode, r: BTreeNode, mid: int) -> bool {
    &&& l.is_leaf == c0.is_leaf
    &&& r.is_leaf == c0.is_leaf
    &&& l.keys@ == c0.keys@.take(mid)
    &&& r.keys@ == c0.keys@.skip(mid + 1)
    &&& c0.is_leaf ==> l.children@.len() == 0 && r.children@.len() == 0
    &&& !c0.is_leaf ==> l.children@ == c0.children@.take(mid + 1) && r.children@
        == c0.children@.skip(mid + 1)
}

/// Cutting a node with `order - 1` keys at key `mid`: the parts before and after
/// it are sound nodes at the same depth, and with the key between them they
/// give the node's key sequence.
proof fn lemma_split_node(c0: BTreeNode, l: BTreeNode, r: BTreeNode, order: nat, d: nat, mid: int)
    requires
        order >= 3,
        c0.node_ok(order, d),
        c0.keys@.len() == order - 1,
        mid == (order - 1) / 2,
        l.is_leaf == c0.is_leaf,
        r.is_leaf == c0.is_leaf,
        l.keys@ == c0.keys@.take(mid),
        r.keys@ == c0.keys@.skip(mid + 1),
        c0.is_leaf ==> l.children@.len() == 0 && r.children@.len() == 0,
        !c0.is_leaf ==> l.children@ == c0.children@.take(mid + 1) && r.children@
            == c0.children@.skip(mid + 1),
    ensures
        l.node_ok(order, d),
        r.node_ok(order, d),
        c0.key_seq() == l.key_seq() + seq![c0.keys@[mid]] + r.key_seq(),
        l.keys@.len() < order - 1,
        r.keys@.len() < order - 1,
        l.keys@.len() >= fill(order),
        r.keys@.len() >= fill(order),
{
    let ks = c0.keys@;
    lemma_key_seq(c0);
    lemma_key_seq(l);
    lemma_key_seq(r);
    if c0.is_leaf {
        assert(ks =~= ks.take(mid) + seq![ks[mid]] + ks.skip(mid + 1));
    } else {
        let ccs = c0.child_seqs();
        assert(l.child_seqs() =~= ccs.take(mid + 1));
        assert(r.child_seqs() =~= ccs.skip(mid + 1));
        lemma_weave_split(ks, ccs, mid);
        assert forall|i: int| 0 <= i < l.children@.len() implies match #[trigger] l.children@[i] {
            Some(c) => c.node_ok(order, (d - 1) as nat) && c.keys@.len() >= fill(order),
            None => false,
        } by {
            assert(l.children@[i] == c0.children@[i]);
        }
        assert forall|i: int| 0 <= i < r.children@.len() implies match #[trigger] r.children@[i] {
            Some(c) => c.node_ok(order, (d - 1) as nat) && c.keys@.len() >= fill(order),
            None => false,
        } by {
            assert(r.children@[i] == c0.children@[i + mid + 1]);
        }
    }
}

/// Putting the two halves of child `j` back at `j` and `j + 1`, with the key
/// between them at `j` in the parent, keeps the parent sound and its key
/// sequence as it was.
proof fn lemma_lift_into_parent(
    p0: BTreeNode,
    p1: BTreeNode,
    l: BTreeNode,
    r: BTreeNode,
    m: i32,
    order: nat,
    d: nat,
    j: int,
)
    requires
        p0.node_ok(order, d),
        !p0.is_leaf,
        p0.keys@.len() + 2 <= order,
        0 <= j <= p0.keys@.len(),
        p0.children@[j] matches Some(c) && c.key_seq() == l.key_seq() + seq![m] + r.key_seq(),
        l.node_ok(order, (d - 1) as nat),
        r.node_ok(order, (d - 1) as nat),
        l.keys@.len() >= fill(order),
        r.keys@.len() >= fill(order),
        !p1.is_leaf,
        p1.keys@ == p0.keys@.insert(j, m),
        p1.children@ == p0.children@.update(j, Some(Box::new(l))).insert(j + 1, Some(Box::new(r))),
    ensures
        p1.node_ok(order, d),
        p1.key_seq() == p0.key_seq(),
        p1.child_keys_len(j) == l.keys@.len(),
        p1.child_keys_len(j + 1) == r.keys@.len(),
{
    let cs0 = p0.child_seqs();
    lemma_key_seq(p0);
    lemma_key_seq(p1);
    assert(p1.child_seqs() =~= cs0.update(j, l.key_seq()).insert(j + 1, r.key_seq()));
    lemma_weave_lift(p0.keys@, cs0, j, l.key_seq(), m, r.key_seq());
    assert forall|i: int| 0 <= i < p1.children@.len() implies match #[trigger] p1.children@[i] {
        Some(c) => c.node_ok(order, (d - 1) as nat) && c.keys@.len() >= fill(order),
        None => false,
    } by {
        if i < j {
            assert(p1.children@[i] == p0.children@[i]);
        } else if i > j + 1 {
            assert(p1.children@[i] == p0.children@[i - 1]);
        }
    }
}

/// Child `t` of a sound internal node is sound one level down, and its key
/// sequence is sorted when the node's is.
proof fn lemma_child(n: BTreeNode, order: nat, d: nat, t: int)
    requires
        n.node_ok(order, d),
        !n.is_leaf,
        0 <= t < n.children@.len(),
    ensures
        n.children@[t] is Some,
        n.children@[t]->0.node_ok(order, (d - 1) as nat),
        n.children@[t]->0.keys@.len() >= fill(order),
        sorted(n.key_seq()) ==> sorted(n.children@[t]->0.key_seq()),
        n.child_seqs()[t] == n.children@[t]->0.key_seq(),
        sorted(n.key_seq()) ==> sorted(n.keys@),
{
    lemma_key_seq(n);
    assert(n.children@[t] matches Some(c) && c.node_ok(order, (d - 1) as nat) && c.keys@.len()
        >= fill(order));
    if sorted(n.key_seq()) {
        let cs = n.child_seqs();
        lemma_weave_at(n.keys@, cs, t);
        lemma_sorted_middle(before(n.keys@, cs, t), cs[t], after(n.keys@, cs, t));
        lemma_weave_keys_sorted(n.keys@, cs);
    }
}

/// Replacing child `t` of a sorted node by a sorted subtree with one more key,
/// which lies between the node's keys `t - 1` and `t`, keeps the node sorted
/// and adds that key to its set.
proof fn lemma_replace_child(n1: BTreeNode, n2: BTreeNode, c2: BTreeNode, order: nat, d: nat, t: int, key: i32)
    requires
        n1.node_ok(order, d),
        !n1.is_leaf,
        sorted(n1.key_seq()),
        0 <= t <= n1.keys@.len(),
        t > 0 ==> n1.keys@[t - 1] < key,
        t < n1.keys@.len() ==> key < n1.keys@[t],
        c2.node_ok(order, (d - 1) as nat),
        sorted(c2.key_seq()),
        n1.children@[t] matches Some(c) && c2.key_seq().to_set() == c.key_seq().to_set().insert(key)
            && c2.keys@.len() >= c.keys@.len(),
        n2.is_leaf == n1.is_leaf,
        n2.keys@ == n1.keys@,
        n2.children@ == n1.children@.update(t, Some(Box::new(c2))),
    ensures
        n2.node_ok(order, d),
        sorted(n2.key_seq()),
        n2.key_seq().to_set() == n1.key_seq().to_set().insert(key),
{
    let cs = n1.child_seqs();
    lemma_key_seq(n1);
    lemma_key_seq(n2);
    assert(cs[t] == n1.children@[t]->0.key_seq());
    assert(n2.child_seqs() =~= cs.update(t, c2.key_seq()));
    lemma_weave_replace(n1.keys@, cs, t, c2.key_seq(), key);
    assert(n1.children@[t] matches Some(c) && c.keys@.len() >= fill(order));
    assert forall|i: int| 0 <= i < n2.children@.len() implies match #[trigger] n2.children@[i] {
        Some(c) => c.node_ok(order, (d - 1) as nat) && c.keys@.len() >= fill(order),
        None => false,
    } by {
        if i != t {
            assert(n2.children@[i] == n1.children@[i]);
        }
    }
}

impl BTree {
    /// Inserts `key`; a key already in the tree is left alone. A full root is
    /// split first, which is the one way the tree grows taller.
    pub fn insert(&mut self, key: i32)
        requires
            old(self).well_formed(),
        ensures
            final(self).well_formed(),
            final(self).order_spec() == old(self).order_spec(),
            final(self).key_seq().to_set() == old(self).key_seq().to_set().insert(key),
            old(self).key_seq().contains(key) ==> final(self).key_seq() == old(self).key_seq(),
            final(self).depth() == old(self).depth() || final(self).depth() == old(self).depth()
                + 1,
            final(self).layout() == tree_insert_layout(
                old(self).layout(),
                key,
                old(self).order_spec(),
                old(self).depth(),
            ),
    {
        let ghost before = self.key_seq();
        let ghost l0 = self.layout();
        if self.root.is_none() {
            self.root = Some(Box::new(BTreeNode { keys: vec![key], children: vec![], is_leaf: true }));
            proof {
                let r = self.root->0;
                lemma_layout(*r);
                assert(kid_layouts(r.children@) =~= Seq::empty());
                assert(r.keys@ =~= seq![key]);
                lemma_key_seq(*r);
                assert(r.node_ok(self.order as nat, 0));
                assert(r.key_seq() =~= seq![key]);
                assert(seq![key].to_set() =~= Seq::<i32>::empty().to_set().insert(key));
            }
            return;
        }
        let ghost d = choose|d: nat| #[trigger] self.root->0.node_ok(self.order as nat, d);
        let ghost mut depth = d;
        proof {
            lemma_depth(*self.root->0, self.order as nat, d);
            lemma_layout(*self.root->0);
        }
        if self.is_full() {
            let old_root = self.root.take().unwrap();
            let mut new_root = Box::new(BTreeNode::new_internal());
            new_root.children.push(Some(old_root));
            proof {
                let n = *new_root;
                lemma_key_seq(n);
                lemma_layout(n);
                lemma_layout(*old_root);
                assert(kid_layouts(n.children@) =~= seq![old_root.layout()]);
                assert(n.keys@ =~= Seq::<i32>::empty());
                assert(n.children@[0] == Some(old_root));
                assert(n.child_seqs()[0] == old_root.key_seq());
                assert(n.key_seq() == old_root.key_seq());
                assert(n.node_ok(self.order as nat, d + 1));
            }
            Self::split_child(&mut *new_root, 0, self.order, Ghost(d + 1));
            self.root = Some(new_root);
            proof {
                depth = d + 1;
            }
        }
        let mut root = self.root.take().unwrap();
        Self::insert_non_full(&mut *root, key, self.order, Ghost(depth));
        self.root = Some(root);
        proof {
            lemma_depth(*self.root->0, self.order as nat, depth);
            if before.contains(key) {
                assert(before.to_set().insert(key) =~= before.to_set());
                lemma_sorted_same_set(self.key_seq(), before);
            }
        }
    }

    /// Inserts `key` into the subtree of `node`, which has room for one more
    /// key; a key already there is left alone. A full child is split before
    /// the descent into it, so every node on the way down has room.
    fn insert_non_full(node: &mut BTreeNode, key: i32, order: usize, Ghost(d): Ghost<nat>)
        requires
            order >= 3,
            old(node).node_ok(order as nat, d),
            old(node).keys@.len() + 2 <= order,
            sorted(old(node).key_seq()),
        ensures
            final(node).node_ok(order as nat, d),
            sorted(final(node).key_seq()),
            final(node).key_seq().to_set() == old(node).key_seq().to_set().insert(key),
            final(node).keys@.len() >= old(node).keys@.len(),
            final(node).layout() == insert_nonfull_layout(old(node).layout(), key, order as nat, d),
        decreases d,
    {
        let ghost n0 = *node;
        proof {
            lemma_layout(n0);
            lemma_key_seq(n0);
            if !n0.is_leaf {
                lemma_child(n0, order as nat, d, 0);
            }
        }
        proof {
            lemma_sorted_nondecreasing(n0.keys@);
        }
        let pos = node.find_pos(key);
        proof {
            lemma_slot(n0.keys@, key, pos as int);
        }
        if pos < node.keys.len() && node.keys[pos] == key {
            proof {
                if n0.is_leaf {
                    assert(n0.key_seq()[pos as int] == key);
                } else {
                    lemma_weave_has_key(n0.keys@, n0.child_seqs(), pos as int);
                }
                assert(n0.key_seq().to_set().insert(key) =~= n0.key_seq().to_set());
            }
            return;
        }
        if node.is_leaf {
            proof {
                lemma_insert_sorted(n0.keys@, pos as int, key);
            }
            node.keys.insert(pos, key);
            proof {
                lemma_key_seq(*node);
                lemma_layout(*node);
            }
        } else {
            let mut target = pos;
            let child_is_full = node.children[target].as_ref().unwrap().is_full(order);
            proof {
                lemma_child(n0, order as nat, d, pos as int);
                assert(kid_layouts(n0.children@)[pos as int] == n0.children@[pos as int]->0.layout());
            }
            if child_is_full {
                proof {
                    lemma_child(n0, order as nat, d, target as int);
                }
                Self::split_child(node, target, order, Ghost(d));
                proof {
                    lemma_layout(*node);
                }
                if key == node.keys[target] {
                    proof {
                        lemma_key_seq(*node);
                        lemma_weave_has_key(node.keys@, node.child_seqs(), target as int);
                        assert(n0.key_seq().to_set().insert(key) =~= n0.key_seq().to_set());
                    }
                    return;
                }
                if key > node.keys[target] {
                    target += 1;
                }
            }
            let ghost n1 = *node;
            proof {
                lemma_child(n1, order as nat, d, target as int);
                lemma_layout(n1);
                assert(kid_layouts(n1.children@)[target as int] == n1.children@[target as int]->0.layout());
            }
            let mut child = node.children[target].take().unwrap();
            Self::insert_non_full(&mut child, key, order, Ghost((d - 1) as nat));
            node.children[target] = Some(child);
            proof {
                assert(node.children@ =~= n1.children@.update(target as int, Some(child)));
                lemma_replace_child(n1, *node, *child, order as nat, d, target as int, key);
                lemma_layout(*node);
                assert(kid_layouts(node.children@) =~= kid_layouts(n1.children@).update(
                    target as int,
                    child.layout(),
                ));
            }
        }
    }

    /// Splits the full child `index` of `parent`: the child keeps the keys
    /// before its middle key, the middle key moves up into `parent` at
    /// `index`, and the keys after it go to a new sibling at `index + 1`.
    fn split_child(parent: &mut BTreeNode, index: usize, order: usize, Ghost(d): Ghost<nat>)
        requires
            order >= 3,
            old(parent).node_ok(order as nat, d),
            !old(parent).is_leaf,
            old(parent).keys@.len() + 2 <= order,
            index <= old(parent).keys@.len(),
            old(parent).child_keys_len(index as int) == order - 1,
        ensures
            final(parent).node_ok(order as nat, d),
            !final(parent).is_leaf,
            final(parent).key_seq() == old(parent).key_seq(),
            final(parent).keys@ == old(parent).keys@.insert(
                index as int,
                old(parent).children@[index as int]->0.keys@[(order - 1) / 2],
            ),
            final(parent).children@[index as int] is Some,
            final(parent).children@[index + 1] is Some,
            final(parent).children@ == old(parent).children@.update(
                index as int,
                final(parent).children@[index as int],
            ).insert(index + 1, final(parent).children@[index + 1]),
            split_halves(
                *old(parent).children@[index as int]->0,
                *final(parent).children@[index as int]->0,
                *final(parent).children@[index + 1]->0,
                (order - 1) / 2,
            ),
            final(parent).child_keys_len(index as int) < order - 1,
            final(parent).child_keys_len(index + 1) < order - 1,
            final(parent).layout() == split_child_layout(
                old(parent).layout(),
                index as int,
                order as nat,
            ),
    {
        let ghost p0 = *parent;
        let ghost cs0 = p0.child_seqs();
        proof {
            lemma_key_seq(p0);
        }
        let mut child = parent.children[index].take().unwrap();
        let ghost c0 = *child;
        proof {
            lemma_key_seq(c0);
            assert(p0.children@[index as int] == Some(child));
            assert(c0.node_ok(order as nat, (d - 1) as nat));
        }
        let kmax = order - 1;
        let mid = kmax / 2;
        let right_keys = child.keys.split_off(mid + 1);
        let median = child.keys.pop().unwrap();
        let right_children = if !child.is_leaf {
            child.children.split_off(mid + 1)
        } else {
            Vec::new()
        };
        let right_node = Box::new(
            BTreeNode { keys: right_keys, children: right_children, is_leaf: child.is_leaf },
        );
        let ghost l = *child;
        let ghost r = *right_node;
        proof {
            assert(l.keys@ =~= c0.keys@.take(mid as int));
            assert(r.keys@ =~= c0.keys@.skip(mid + 1));
            if !c0.is_leaf {
                assert(l.children@ =~= c0.children@.take(mid + 1));
                assert(r.children@ =~= c0.children@.skip(mid + 1));
            }
            lemma_split_node(c0, l, r, order as nat, (d - 1) as nat, mid as int);
        }
        parent.children[index] = Some(child);
        parent.keys.insert(index, median);
        parent.children.insert(index + 1, Some(right_node));
        proof {
            let p1 = *parent;
            assert(p1.children@ =~= p0.children@.update(index as int, Some(Box::new(l))).insert(
                index + 1,
                Some(Box::new(r)),
            ));
            lemma_lift_into_parent(p0, p1, l, r, median, order as nat, d, index as int);
            assert(p1.children@[index as int] == Some(Box::new(l)));
            assert(p1.children@[index + 1] == Some(Box::new(r)));
            assert(split_halves(c0, l, r, mid as int));
            lemma_layout(p0);
            lemma_layout(p1);
            lemma_layout(c0);
            lemma_layout(l);
            lemma_layout(r);
            let ckl = kid_layouts(c0.children@);
            if c0.is_leaf {
                assert(kid_layouts(l.children@) =~= ckl);
                assert(kid_layouts(r.children@) =~= Seq::<Layout>::empty());
            } else {
                assert(kid_layouts(l.children@) =~= ckl.take(mid + 1));
                assert(kid_layouts(r.children@) =~= ckl.skip(mid + 1));
            }
            assert(kid_layouts(p0.children@)[index as int] == c0.layout());
            assert(kid_layouts(p1.children@) =~= kid_layouts(p0.children@).update(
                index as int,
                l.layout(),
            ).insert(index + 1, r.layout()));
        }
    }
}

/// Below a sound node every node holds at least `fill(order)` keys.
proof fn lemma_fill(n: BTreeNode, order: nat, d: nat)
    requires
        n.node_ok(order, d),
    ensures
        n.fill_ok(fill(order)),
    decreases d,
{
    if !n.is_leaf {
        assert forall|i: int| 0 <= i < n.children@.len() implies match #[trigger] n.children@[i] {
            Some(c) => c.keys@.len() >= fill(order) && c.fill_ok(fill(order)),
            None => true,
        } by {
            lemma_child(n, order, d, i);
            lemma_fill(*n.children@[i]->0, order, (d - 1) as nat);
        }
    }
}

/// In a tree of even order every node but the root holds at least
/// `⌈order / 2⌉ - 1` keys, the number `kmin` returns.
pub proof fn lemma_min_occupancy(t: BTree)
    requires
        t.well_formed(),
        t.order_spec() % 2 == 0,
    ensures
        t.below_root_fill(((t.order_spec() + 1) / 2 - 1) as nat),
{
    if let Some(r) = t.root {
        let d = choose|d: nat| #[trigger] r.node_ok(t.order as nat, d);
        lemma_fill(*r, t.order as nat, d);
    }
}

/// A sound node's leaves all lie `d` levels down, and so does the first one.
proof fn lemma_depth(n: BTreeNode, order: nat, d: nat)
    requires
        n.node_ok(order, d),
    ensures
        n.leaf_depth() == d,
        n.leaves_at(d),
    decreases d,
{
    if !n.is_leaf {
        assert forall|i: int| 0 <= i < n.children@.len() implies match #[trigger] n.children@[i] {
            Some(c) => c.leaves_at((d - 1) as nat),
            None => false,
        } by {
            lemma_child(n, order, d, i);
            lemma_depth(*n.children@[i]->0, order, (d - 1) as nat);
        }
        lemma_child(n, order, d, 0);
        lemma_depth(*n.children@[0]->0, order, (d - 1) as nat);
    }
}

/// Every leaf of a tree lies `depth()` levels below the root.
pub proof fn lemma_leaves_at_depth(t: BTree)
    requires
        t.well_formed(),
    ensures
        t.leaves_all_at(t.depth()),
{
    if let Some(r) = t.root {
        let d = choose|d: nat| #[trigger] r.node_ok(t.order as nat, d);
        lemma_depth(*r, t.order as nat, d);
    }
}

} // verus!
