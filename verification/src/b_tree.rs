//! B-tree of order five that inserts bottom-up: a key goes into a leaf, and a
//! node that overflows splits and passes its middle key up to its parent.
//!
//! Every node holds at most four keys in increasing order; every node but the
//! root holds at least two; an internal node with `n` keys has `n + 1`
//! children; all leaves are at the same depth.

use crate::common::weave::{
    after, before, lemma_before_last, lemma_insert_sorted, lemma_sorted_middle, lemma_weave_at,
    lemma_weave_has_key, lemma_weave_keys_sorted, lemma_weave_lift, lemma_weave_replace,
    lemma_sorted_nondecreasing, lemma_sorted_same_set, lemma_weave_multiset, lemma_weave_split,
    lower_bound, ms_sum, sorted,
    weave, lemma_slot, slot, Layout,
};
use vstd::relations::total_ordering;
use vstd::seq_lib::{lemma_multiset_commutative, lemma_sorted_unique};
use vstd::prelude::*;

verus! {

/// The order: the most children a node may have.
pub const M: usize = 5;

/// The fewest keys a node other than the root may hold: `⌈M / 2⌉ - 1`.
pub const MIN_KEYS: usize = (M + 1) / 2 - 1;

/// A node of the B-tree.
#[derive(Debug)]
pub struct BTreeNode {
    keys: Vec<i32>,
    children: Vec<Box<BTreeNode>>,
    is_leaf: bool,
}

impl BTreeNode {
    /// The in-order key sequences of the children.
    pub closed spec fn child_seqs(self) -> Seq<Seq<i32>>
        decreases self, 0nat,
    {
        Seq::new(
            self.children@.len(),
            |i: int|
                if 0 <= i < self.children@.len() {
                    self.children@[i].key_seq()
                } else {
                    Seq::empty()
                },
        )
    }

    /// The keys of the subtree in order.
    pub closed spec fn key_seq(self) -> Seq<i32>
        decreases self, 1nat,
    {
        if self.is_leaf {
            self.keys@
        } else {
            weave(self.keys@, self.child_seqs())
        }
    }

    /// At most `M - 1` keys; a leaf at depth `d == 0` without children, or an
    /// internal node with one child more than keys, each child holding at least
    /// `MIN_KEYS` keys and sound at depth `d - 1`.
    pub closed spec fn node_ok(self, d: nat) -> bool
        decreases self,
    {
        &&& self.keys@.len() < M
        &&& if self.is_leaf {
            self.children@.len() == 0 && d == 0
        } else {
            &&& d > 0
            &&& self.children@.len() == self.keys@.len() + 1
            &&& forall|i: int|
                #![trigger self.children@[i]]
                0 <= i < self.children@.len() ==> self.children@[i].node_ok((d - 1) as nat)
                    && self.children@[i].keys@.len() >= MIN_KEYS
        }
    }

    /// The keys of the node followed by those collected from each child in turn.
    pub closed spec fn collected(self) -> Seq<i32>
        decreases self, 1nat, 0nat,
    {
        self.keys@ + self.collected_children(self.children@.len())
    }

    /// What is collected from the first `i` children, one after the other.
    pub closed spec fn collected_children(self, i: nat) -> Seq<i32>
        decreases self, 0nat, i,
    {
        if i == 0 || i > self.children@.len() {
            Seq::empty()
        } else {
            self.collected_children((i - 1) as nat) + self.children@[i - 1].collected()
        }
    }

    /// The layout of the subtree: keys, children's layouts and leaf flag.
    pub closed spec fn layout(self) -> Layout
        decreases self,
    {
        Layout::Node(
            self.keys@,
            Seq::new(
                self.children@.len(),
                |i: int|
                    if 0 <= i < self.children@.len() {
                        self.children@[i].layout()
                    } else {
                        Layout::Node(Seq::empty(), Seq::empty(), true)
                    },
            ),
            self.is_leaf,
        )
    }

    /// The same keys in the same layout as `other`, node by node.
    pub closed spec fn same_as(self, other: BTreeNode) -> bool
        decreases self,
    {
        &&& self.keys@ == other.keys@
        &&& self.is_leaf == other.is_leaf
        &&& self.children@.len() == other.children@.len()
        &&& forall|i: int|
            #![trigger self.children@[i]]
            0 <= i < self.children@.len() ==> self.children@[i].same_as(*other.children@[i])
    }

    /// The number of levels below this node, counted down its first children.
    pub closed spec fn leaf_depth(self) -> nat
        decreases self,
    {
        if self.is_leaf || self.children@.len() == 0 {
            0
        } else {
            1 + self.children@[0].leaf_depth()
        }
    }

    /// Every leaf below this node lies `d` levels down.
    pub closed spec fn leaves_at(self, d: nat) -> bool
        decreases self,
    {
        if self.is_leaf {
            d == 0
        } else {
            &&& d > 0
            &&& forall|i: int|
                #![trigger self.children@[i]]
                0 <= i < self.children@.len() ==> self.children@[i].leaves_at((d - 1) as nat)
        }
    }

    /// Every node below this one holds at least `k` keys.
    pub closed spec fn fill_ok(self, k: nat) -> bool
        decreases self,
    {
        forall|i: int|
            #![trigger self.children@[i]]
            0 <= i < self.children@.len() ==> self.children@[i].keys@.len() >= k
                && self.children@[i].fill_ok(k)
    }

    /// The number of keys in the node.
    pub closed spec fn key_count(self) -> nat {
        self.keys@.len()
    }

    /// The number of children of the node.
    pub closed spec fn child_count(self) -> nat {
        self.children@.len()
    }

    /// Whether the node is a leaf.
    pub closed spec fn leaf(self) -> bool {
        self.is_leaf
    }

    /// A leaf without keys.
    pub fn new_leaf() -> (n: Box<Self>)
        ensures
            n.key_count() == 0,
            n.child_count() == 0,
            n.leaf(),
    {
        Box::new(BTreeNode { keys: Vec::new(), children: Vec::new(), is_leaf: true })
    }

    /// An internal node without keys or children.
    pub fn new_internal() -> (n: Box<Self>)
        ensures
            n.key_count() == 0,
            n.child_count() == 0,
            !n.leaf(),
    {
        Box::new(BTreeNode { keys: Vec::new(), children: Vec::new(), is_leaf: false })
    }

    /// The node holds `M - 1` keys, the most it may hold.
    pub fn is_full(&self) -> (b: bool)
        ensures
            b == (self.key_count() == M - 1),
    {
        self.keys.len() == M - 1
    }
}

/// The facts that unfold the key sequence of a node.
proof fn lemma_key_seq(n: BTreeNode)
    ensures
        n.is_leaf ==> n.key_seq() == n.keys@,
        !n.is_leaf ==> n.key_seq() == weave(n.keys@, n.child_seqs()),
        n.child_seqs().len() == n.children@.len(),
        forall|i: int|
            0 <= i < n.children@.len() ==> #[trigger] n.child_seqs()[i]
                == n.children@[i].key_seq(),
{
}

/// Child `t` of a sound internal node is sound one level down, and sorted when
/// the node is; so are the node's own keys.
proof fn lemma_child(n: BTreeNode, d: nat, t: int)
    requires
        n.node_ok(d),
        !n.is_leaf,
        0 <= t < n.children@.len(),
    ensures
        n.children@[t].node_ok((d - 1) as nat),
        n.children@[t].keys@.len() >= MIN_KEYS,
        n.child_seqs()[t] == n.children@[t].key_seq(),
        sorted(n.key_seq()) ==> sorted(n.children@[t].key_seq()),
        sorted(n.key_seq()) ==> sorted(n.keys@),
{
    lemma_key_seq(n);
    if sorted(n.key_seq()) {
        let cs = n.child_seqs();
        lemma_weave_at(n.keys@, cs, t);
        lemma_sorted_middle(before(n.keys@, cs, t), cs[t], after(n.keys@, cs, t));
        lemma_weave_keys_sorted(n.keys@, cs);
    }
}

/// A key strictly between keys `t - 1` and `t` of a sorted node is in the
/// node's key sequence exactly when it is in that of child `t`.
proof fn lemma_search_child(n: BTreeNode, d: nat, t: int, key: i32)
    requires
        n.node_ok(d),
        !n.is_leaf,
        sorted(n.key_seq()),
        0 <= t <= n.keys@.len(),
        t > 0 ==> n.keys@[t - 1] < key,
        t < n.keys@.len() ==> key < n.keys@[t],
    ensures
        n.key_seq().contains(key) == n.children@[t].key_seq().contains(key),
{
    lemma_key_seq(n);
    let ks = n.keys@;
    let cs = n.child_seqs();
    lemma_weave_at(ks, cs, t);
    let a = before(ks, cs, t);
    let b = after(ks, cs, t);
    lemma_sorted_middle(a, cs[t], b);
    if t > 0 {
        lemma_before_last(ks, cs, t);
    }
    if t < ks.len() {
        lemma_weave_has_key(ks, cs, t);
    }
    if n.key_seq().contains(key) {
        let i = choose|i: int| 0 <= i < n.key_seq().len() && n.key_seq()[i] == key;
        let w = n.key_seq();
        if i < a.len() {
            assert(w[i] == a[i]);
            if i < a.len() - 1 {
                assert(a[i] < a[a.len() - 1]);
            }
        } else if i >= a.len() + cs[t].len() {
            let j = i - a.len() - cs[t].len();
            assert(w[i] == b[j]);
            if j > 0 {
                assert(b[0] < b[j]);
            }
        } else {
            assert(w[i] == cs[t][i - a.len()]);
        }
    }
    if cs[t].contains(key) {
        let i = choose|i: int| 0 <= i < cs[t].len() && cs[t][i] == key;
        assert(n.key_seq()[a.len() + i] == key);
    }
}

/// The key sequences of a run of subtrees.
spec fn seqs_of(ds: Seq<Box<BTreeNode>>) -> Seq<Seq<i32>> {
    Seq::new(ds.len(), |i: int| ds[i].key_seq())
}

/// Every subtree of the run is sound at depth `d` and holds at least
/// `MIN_KEYS` keys.
spec fn children_ok(ds: Seq<Box<BTreeNode>>, d: nat) -> bool {
    forall|i: int|
        #![trigger ds[i]]
        0 <= i < ds.len() ==> ds[i].node_ok(d) && ds[i].keys@.len() >= MIN_KEYS
}

/// The key sequence that keys `e` and children `ds` would give a node.
spec fn ext_seq(e: Seq<i32>, ds: Seq<Box<BTreeNode>>, leaf: bool) -> Seq<i32> {
    if leaf {
        e
    } else {
        weave(e, seqs_of(ds))
    }
}

/// A node with keys `e` and children `ds`.
spec fn has_parts(n: BTreeNode, e: Seq<i32>, ds: Seq<Box<BTreeNode>>, leaf: bool) -> bool {
    &&& n.keys@ == e
    &&& n.children@ == ds
    &&& n.is_leaf == leaf
}

/// Keys `e` with children `ds` as a leaf at depth 0 or an internal node one
/// level above sound children.
spec fn parts_ok(e: Seq<i32>, ds: Seq<Box<BTreeNode>>, leaf: bool, d: nat) -> bool {
    if leaf {
        ds.len() == 0 && d == 0
    } else {
        &&& d > 0
        &&& ds.len() == e.len() + 1
        &&& children_ok(ds, (d - 1) as nat)
    }
}

/// A node put together from parts that fit is sound, and its key sequence is
/// the one the parts give.
proof fn lemma_assemble(n: BTreeNode, e: Seq<i32>, ds: Seq<Box<BTreeNode>>, leaf: bool, d: nat)
    requires
        has_parts(n, e, ds, leaf),
        parts_ok(e, ds, leaf, d),
        e.len() < M,
    ensures
        n.node_ok(d),
        n.key_seq() == ext_seq(e, ds, leaf),
{
    lemma_key_seq(n);
    assert(n.child_seqs() =~= seqs_of(ds));
}

/// Child `b` of a sound node holding a sorted sequence, replaced by two sound
/// halves around key `pm` whose sorted keys are its own and `k`, gives parts
/// that fit one level up, whose sequence is sorted and adds `k` to the node's.
proof fn lemma_promote(
    n0: BTreeNode,
    d: nat,
    b: int,
    l: BTreeNode,
    pm: i32,
    r: BTreeNode,
    k: i32,
)
    requires
        n0.node_ok(d),
        !n0.is_leaf,
        sorted(n0.key_seq()),
        0 <= b <= n0.keys@.len(),
        b > 0 ==> n0.keys@[b - 1] < k,
        b < n0.keys@.len() ==> k < n0.keys@[b],
        l.node_ok((d - 1) as nat),
        r.node_ok((d - 1) as nat),
        l.keys@.len() >= MIN_KEYS,
        r.keys@.len() >= MIN_KEYS,
        sorted(l.key_seq() + seq![pm] + r.key_seq()),
        (l.key_seq() + seq![pm] + r.key_seq()).to_set() == n0.children@[b].key_seq().to_set().insert(
            k,
        ),
    ensures
        ({
            let e = n0.keys@.insert(b, pm);
            let ds = n0.children@.update(b, Box::new(l)).insert(b + 1, Box::new(r));
            &&& parts_ok(e, ds, false, d)
            &&& sorted(ext_seq(e, ds, false))
            &&& ext_seq(e, ds, false).to_set() == n0.key_seq().to_set().insert(k)
        }),
{
    let ks = n0.keys@;
    let cs = n0.child_seqs();
    lemma_key_seq(n0);
    let x = l.key_seq() + seq![pm] + r.key_seq();
    lemma_weave_replace(ks, cs, b, x, k);
    let cs2 = cs.update(b, x);
    lemma_weave_lift(ks, cs2, b, l.key_seq(), pm, r.key_seq());
    let e = ks.insert(b, pm);
    let ds = n0.children@.update(b, Box::new(l)).insert(b + 1, Box::new(r));
    assert(seqs_of(ds) =~= cs2.update(b, l.key_seq()).insert(b + 1, r.key_seq()));
    assert forall|i: int| #![trigger ds[i]] 0 <= i < ds.len() implies ds[i].node_ok((d - 1) as nat)
        && ds[i].keys@.len() >= MIN_KEYS by {
        if i < b {
            assert(ds[i] == n0.children@[i]);
        } else if i > b + 1 {
            assert(ds[i] == n0.children@[i - 1]);
        }
    }
}

/// Five keys with their children, cut at key `MIN_KEYS`: both parts are sound
/// with `MIN_KEYS` keys each, and with the key between them they give the
/// sequence of the whole.
proof fn lemma_cut(
    left: BTreeNode,
    right: BTreeNode,
    e: Seq<i32>,
    ds: Seq<Box<BTreeNode>>,
    leaf: bool,
    d: nat,
)
    requires
        e.len() == M,
        parts_ok(e, ds, leaf, d),
        left.is_leaf == leaf,
        right.is_leaf == leaf,
        left.keys@ == e.take(MIN_KEYS as int),
        right.keys@ == e.skip(MIN_KEYS + 1),
        leaf ==> left.children@.len() == 0 && right.children@.len() == 0,
        !leaf ==> left.children@ == ds.take(MIN_KEYS + 1) && right.children@ == ds.skip(
            MIN_KEYS + 1,
        ),
    ensures
        left.node_ok(d),
        right.node_ok(d),
        left.keys@.len() == MIN_KEYS,
        right.keys@.len() == MIN_KEYS,
        left.key_seq() + seq![e[MIN_KEYS as int]] + right.key_seq() == ext_seq(e, ds, leaf),
{
    lemma_key_seq(left);
    lemma_key_seq(right);
    let mk = MIN_KEYS as int;
    if leaf {
        assert(e =~= e.take(mk) + seq![e[mk]] + e.skip(mk + 1));
    } else {
        let dss = seqs_of(ds);
        assert(left.child_seqs() =~= dss.take(mk + 1));
        assert(right.child_seqs() =~= dss.skip(mk + 1));
        lemma_weave_split(e, dss, mk);
        assert forall|i: int| #![trigger left.children@[i]] 0 <= i < left.children@.len() implies left.children@[i].node_ok(
            (d - 1) as nat,
        ) && left.children@[i].keys@.len() >= MIN_KEYS by {
            assert(left.children@[i] == ds[i]);
        }
        assert forall|i: int| #![trigger right.children@[i]] 0 <= i < right.children@.len() implies right.children@[i].node_ok(
            (d - 1) as nat,
        ) && right.children@[i].keys@.len() >= MIN_KEYS by {
            assert(right.children@[i] == ds[i + mk + 1]);
        }
    }
}

/// A sound node collects the keys of its subtree, each as often as it occurs.
proof fn lemma_collected(n: BTreeNode, d: nat)
    requires
        n.node_ok(d),
    ensures
        n.collected().to_multiset() == n.key_seq().to_multiset(),
    decreases d, n.children@.len() + 1,
{
    broadcast use vstd::multiset::group_multiset_axioms;

    lemma_key_seq(n);
    lemma_collected_children(n, d, n.children@.len());
    lemma_multiset_commutative(n.keys@, n.collected_children(n.children@.len()));
    if n.is_leaf {
        assert(n.collected_children(0) == Seq::<i32>::empty());
        assert(n.collected() =~= n.keys@);
    } else {
        lemma_weave_multiset(n.keys@, n.child_seqs());
    }
}

/// What the first `i` children collect holds the keys of their subtrees.
proof fn lemma_collected_children(n: BTreeNode, d: nat, i: nat)
    requires
        n.node_ok(d),
        i <= n.children@.len(),
    ensures
        n.collected_children(i).to_multiset() == ms_sum(n.child_seqs(), i),
    decreases d, i,
{
    broadcast use vstd::multiset::group_multiset_axioms;
    broadcast use vstd::seq_lib::group_to_multiset_ensures;

    if i == 0 {
        assert(n.collected_children(0).to_multiset() =~= ms_sum(n.child_seqs(), 0));
    } else {
        lemma_key_seq(n);
        lemma_collected_children(n, d, (i - 1) as nat);
        lemma_child(n, d, i - 1);
        lemma_collected(*n.children@[i - 1], (d - 1) as nat);
        lemma_multiset_commutative(
            n.collected_children((i - 1) as nat),
            n.children@[i - 1].collected(),
        );
    }
}

/// Sorts `v` in ascending order by `slice::sort`, which, as its
/// documentation states, puts the same elements in non-decreasing order.
#[verifier::external_body]
fn sort_ascending(v: &mut Vec<i32>)
    ensures
        final(v)@.to_multiset() == old(v)@.to_multiset(),
        forall|i: int, j: int| 0 <= i < j < final(v)@.len() ==> final(v)@[i] <= final(v)@[j],
{
    v.sort();
}

/// A sound node's leaves all lie `d` levels down, and so does the first one.
proof fn lemma_depth(n: BTreeNode, d: nat)
    requires
        n.node_ok(d),
    ensures
        n.leaf_depth() == d,
        n.leaves_at(d),
    decreases d,
{
    if !n.is_leaf {
        assert forall|i: int| #![trigger n.children@[i]] 0 <= i < n.children@.len() implies n.children@[i].leaves_at(
            (d - 1) as nat,
        ) by {
            lemma_child(n, d, i);
            lemma_depth(*n.children@[i], (d - 1) as nat);
        }
        lemma_child(n, d, 0);
        lemma_depth(*n.children@[0], (d - 1) as nat);
    }
}

/// A sound node has the same layout as itself.
proof fn lemma_same_refl(n: BTreeNode, d: nat)
    requires
        n.node_ok(d),
    ensures
        n.same_as(n),
    decreases d,
{
    if !n.is_leaf {
        assert forall|i: int| #![trigger n.children@[i]] 0 <= i < n.children@.len() implies n.children@[i].same_as(
            *n.children@[i],
        ) by {
            lemma_child(n, d, i);
            lemma_same_refl(*n.children@[i], (d - 1) as nat);
        }
    }
}

/// Replacing child `b` of a sound internal node by one of the same layout
/// keeps the layout of the node.
proof fn lemma_same_after_child(n0: BTreeNode, n1: BTreeNode, b: int, d: nat)
    requires
        n0.node_ok(d),
        !n0.is_leaf,
        0 <= b < n0.children@.len(),
        n1.keys@ == n0.keys@,
        n1.is_leaf == n0.is_leaf,
        n1.children@.len() == n0.children@.len(),
        n1.children@[b].same_as(*n0.children@[b]),
        forall|i: int| 0 <= i < n0.children@.len() && i != b ==> n1.children@[i] == n0.children@[i],
    ensures
        n1.same_as(n0),
{
    assert forall|i: int| #![trigger n1.children@[i]] 0 <= i < n1.children@.len() implies n1.children@[i].same_as(
        *n0.children@[i],
    ) by {
        if i != b {
            lemma_child(n0, d, i);
            lemma_same_refl(*n0.children@[i], (d - 1) as nat);
        }
    }
}

/// In a tree of order `M` every leaf lies `depth()` levels below the root.
pub proof fn lemma_leaves_at_depth(t: BTree)
    requires
        t.well_formed(),
    ensures
        t.leaves_all_at(t.depth()),
{
    let d = choose|d: nat| #[trigger] t.root.node_ok(d);
    lemma_depth(*t.root, d);
}

/// The layouts of a run of subtrees.
spec fn kid_layouts(ds: Seq<Box<BTreeNode>>) -> Seq<Layout> {
    Seq::new(ds.len(), |i: int| ds[i].layout())
}

proof fn lemma_layout(n: BTreeNode)
    ensures
        n.layout() == Layout::Node(n.keys@, kid_layouts(n.children@), n.is_leaf),
{
    let Layout::Node(_, ks, _) = n.layout();
    assert(ks =~= kid_layouts(n.children@));
}

/// Insertion of `k` below a node of layout `l`, going down to a leaf: a key
/// already there leaves everything as it is; otherwise the leaf takes `k`, and
/// on the way back each node takes the key passed up from its child with the
/// new sibling after that child, or, holding `M - 1` keys already, keeps the
/// first `MIN_KEYS` of its keys and passes up the next one with a new sibling
/// holding the rest. The second part is what is passed up.
pub open spec fn insert_layout(l: Layout, k: i32) -> (Layout, Option<(i32, Layout)>)
    decreases l,
{
    let Layout::Node(keys, kids, leaf) = l;
    let b = slot(keys, k);
    if b < keys.len() && keys[b] == k {
        (l, None)
    } else {
        let below: (Seq<Layout>, Option<(i32, Option<Layout>)>) = if leaf {
            (kids, Some((k, None)))
        } else if 0 <= b < kids.len() {
            let (c, up) = insert_layout(kids[b], k);
            (
                kids.update(b, c),
                match up {
                    None => None,
                    Some((pm, r)) => Some((pm, Some(r))),
                },
            )
        } else {
            (kids, None)
        };
        let kids1 = below.0;
        match below.1 {
            None => (Layout::Node(keys, kids1, leaf), None),
            Some((pm, pr)) => {
                let e = keys.insert(b, pm);
                let ds = match pr {
                    Some(r) => kids1.insert(b + 1, r),
                    None => kids1,
                };
                let mk = MIN_KEYS as int;
                if keys.len() < M - 1 {
                    (Layout::Node(e, ds, leaf), None)
                } else if leaf {
                    (
                        Layout::Node(e.take(mk), ds, leaf),
                        Some((e[mk], Layout::Node(e.skip(mk + 1), ds, leaf))),
                    )
                } else {
                    (
                        Layout::Node(e.take(mk), ds.take(mk + 1), leaf),
                        Some((e[mk], Layout::Node(e.skip(mk + 1), ds.skip(mk + 1), leaf))),
                    )
                }
            },
        }
    }
}

/// Insertion of `k` into a tree whose root has layout `root`: when the root
/// passes a key up, a new root holds that key over the two halves.
pub open spec fn tree_insert_layout(root: Layout, k: i32) -> Layout {
    match insert_layout(root, k) {
        (r, None) => r,
        (r, Some((pm, right))) => Layout::Node(seq![pm], seq![r, right], false),
    }
}

/// A B-tree of order `M`.
#[derive(Debug)]
pub struct BTree {
    root: Box<BTreeNode>,
}

impl BTree {
    /// The keys of the tree in order.
    pub closed spec fn key_seq(&self) -> Seq<i32> {
        self.root.key_seq()
    }

    /// The number of levels below the root; every leaf lies that far down.
    pub closed spec fn depth(&self) -> nat {
        self.root.leaf_depth()
    }

    /// The layout of the tree: the keys of each node and how the nodes hang.
    pub closed spec fn layout(&self) -> Layout {
        self.root.layout()
    }

    /// Every leaf lies `d` levels below the root.
    pub closed spec fn leaves_all_at(&self, d: nat) -> bool {
        self.root.leaves_at(d)
    }

    /// The same keys in the same layout as `other`, node by node.
    pub closed spec fn same_layout(&self, other: BTree) -> bool {
        self.root.same_as(*other.root)
    }

    /// Every node but the root holds at least `k` keys.
    pub closed spec fn below_root_fill(&self, k: nat) -> bool {
        self.root.fill_ok(k)
    }

    /// Sound nodes with leaves at a common depth, keys in increasing order, and
    /// an internal root with at least one key.
    pub closed spec fn well_formed(&self) -> bool {
        &&& exists|d: nat| #[trigger] self.root.node_ok(d)
        &&& sorted(self.root.key_seq())
        &&& !self.root.is_leaf ==> self.root.keys@.len() >= 1
    }

    /// Creates an empty tree: a leaf root without keys.
    pub fn new() -> (t: Self)
        ensures
            t.well_formed(),
            t.key_seq() == Seq::<i32>::empty(),
            t.depth() == 0,
            t.layout() == Layout::Node(Seq::empty(), Seq::empty(), true),
    {
        let t = BTree { root: BTreeNode::new_leaf() };
        proof {
            assert(t.root.node_ok(0));
            lemma_layout(*t.root);
            assert(kid_layouts(t.root.children@) =~= Seq::<Layout>::empty());
        }
        t
    }

    /// Whether `key` is in the tree.
    pub fn search(&self, key: i32) -> (found: bool)
        requires
            self.well_formed(),
        ensures
            found == self.key_seq().contains(key),
    {
        let ghost d = choose|d: nat| #[trigger] self.root.node_ok(d);
        Self::search_node(&self.root, key, Ghost(d))
    }

    /// Whether `key` is in the subtree of `node`: found among its keys, or
    /// looked for in the one child whose range holds it.
    fn search_node(node: &BTreeNode, key: i32, Ghost(d): Ghost<nat>) -> (found: bool)
        requires
            node.node_ok(d),
            sorted(node.key_seq()),
        ensures
            found == node.key_seq().contains(key),
        decreases d,
    {
        proof {
            lemma_key_seq(*node);
            if !node.is_leaf {
                lemma_child(*node, d, 0);
            }
        }
        proof {
            lemma_sorted_nondecreasing(node.keys@);
        }
        let i = lower_bound(&node.keys, key);
        if i < node.keys.len() && node.keys[i] == key {
            proof {
                if node.is_leaf {
                    assert(node.key_seq()[i as int] == key);
                } else {
                    lemma_weave_has_key(node.keys@, node.child_seqs(), i as int);
                }
            }
            return true;
        }
        proof {
            if i < node.keys@.len() {
                assert forall|j: int| i <= j < node.keys@.len() implies node.keys@[j] > key by {
                    if j > i {
                        assert(node.keys@[i as int] < node.keys@[j]);
                    }
                }
            }
        }
        if node.is_leaf {
            return false;
        }
        proof {
            lemma_child(*node, d, i as int);
            lemma_search_child(*node, d, i as int, key);
        }
        Self::search_node(&node.children[i], key, Ghost((d - 1) as nat))
    }
}

impl BTree {
    /// Puts key `k` at position `b` of `node`, which is not full, and the
    /// child `pmr`, where there is one, just after child `b`.
    fn putkey(k: i32, pmr: Option<Box<BTreeNode>>, node: &mut BTreeNode, b: usize)
        requires
            old(node).keys@.len() < M - 1,
            b <= old(node).keys@.len(),
            pmr is Some ==> b + 1 <= old(node).children@.len(),
        ensures
            final(node).keys@ == old(node).keys@.insert(b as int, k),
            final(node).children@ == match pmr {
                Some(r) => old(node).children@.insert(b + 1, r),
                None => old(node).children@,
            },
            final(node).is_leaf == old(node).is_leaf,
    {
        node.keys.insert(b, k);
        if let Some(right) = pmr {
            node.children.insert(b + 1, right);
        }
    }

    /// Splits a full `node` that is to take key `k` at position `b`, with the
    /// child `pmr` just after child `b` for an internal node. Of the five keys
    /// the first `MIN_KEYS` stay, the next one is returned to go up, and the
    /// rest go to the returned new right sibling, with the children between them.
    fn split(k: i32, pmr: Option<Box<BTreeNode>>, node: &mut BTreeNode, b: usize) -> (res: (
        i32,
        Box<BTreeNode>,
    ))
        requires
            old(node).keys@.len() == M - 1,
            b <= M - 1,
            old(node).is_leaf ==> pmr is None && old(node).children@.len() == 0,
            !old(node).is_leaf ==> pmr is Some && old(node).children@.len() == M,
        ensures
            final(node).is_leaf == old(node).is_leaf,
            res.1.is_leaf == old(node).is_leaf,
            final(node).keys@ == old(node).keys@.insert(b as int, k).take(MIN_KEYS as int),
            res.0 == old(node).keys@.insert(b as int, k)[MIN_KEYS as int],
            res.1.keys@ == old(node).keys@.insert(b as int, k).skip(MIN_KEYS + 1),
            old(node).is_leaf ==> final(node).children@.len() == 0 && res.1.children@.len() == 0,
            !old(node).is_leaf ==> final(node).children@ == old(node).children@.insert(
                b + 1,
                pmr->0,
            ).take(MIN_KEYS + 1) && res.1.children@ == old(node).children@.insert(
                b + 1,
                pmr->0,
            ).skip(MIN_KEYS + 1),
    {
        let ghost ks = node.keys@;
        let ghost cs = node.children@;
        let atleast = MIN_KEYS;
        let mid = if b <= atleast {
            atleast
        } else {
            atleast + 1
        };
        let mut right = if node.is_leaf {
            BTreeNode::new_leaf()
        } else {
            BTreeNode::new_internal()
        };
        right.keys = node.keys.split_off(mid);
        if !node.is_leaf {
            right.children = node.children.split_off(mid + 1);
        }
        if b <= atleast {
            node.keys.insert(b, k);
            if let Some(r) = pmr {
                node.children.insert(b + 1, r);
            }
        } else {
            right.keys.insert(b - mid, k);
            if let Some(r) = pmr {
                right.children.insert(b - mid, r);
            }
        }
        let promoted = node.keys.pop().unwrap();
        if !node.is_leaf {
            right.children.insert(0, node.children.pop().unwrap());
        }
        proof {
            let e = ks.insert(b as int, k);
            assert(node.keys@ =~= e.take(MIN_KEYS as int));
            assert(right.keys@ =~= e.skip(MIN_KEYS + 1));
            if !node.is_leaf {
                let dd = cs.insert(b + 1, pmr->0);
                assert(node.children@ =~= dd.take(MIN_KEYS + 1));
                assert(right.children@ =~= dd.skip(MIN_KEYS + 1));
            }
        }
        (promoted, right)
    }
}

impl BTree {
    /// Inserts `key`; a key already in the tree is left alone. When the root
    /// splits, its halves go under a new root, which is the one way the tree
    /// grows taller.
    pub fn insert(&mut self, key: i32)
        requires
            old(self).well_formed(),
        ensures
            final(self).well_formed(),
            final(self).key_seq().to_set() == old(self).key_seq().to_set().insert(key),
            old(self).key_seq().contains(key) ==> final(self).key_seq() == old(self).key_seq(),
            old(self).key_seq().contains(key) ==> final(self).same_layout(*old(self)),
            final(self).depth() == old(self).depth() || final(self).depth() == old(self).depth()
                + 1,
            final(self).layout() == tree_insert_layout(old(self).layout(), key),
    {
        let ghost before = self.key_seq();
        let ghost d = choose|d: nat| #[trigger] self.root.node_ok(d);
        proof {
            lemma_depth(*self.root, d);
        }
        if let Some((pm, pmr)) = Self::movedown(key, &mut *self.root, Ghost(d)) {
            let mut old_root = BTreeNode::new_internal();
            std::mem::swap(&mut old_root, &mut self.root);
            self.root.keys.push(pm);
            self.root.children.push(old_root);
            self.root.children.push(pmr);
            proof {
                let r = *self.root;
                lemma_key_seq(r);
                assert(r.children@[0] == old_root);
                assert(r.children@[1] == pmr);
                assert(r.child_seqs() =~= seq![old_root.key_seq(), pmr.key_seq()]);
                assert(r.keys@ =~= seq![pm]);
                assert(weave(r.keys@, r.child_seqs()) =~= old_root.key_seq() + seq![pm]
                    + pmr.key_seq()) by {
                    assert(r.keys@.drop_last() =~= Seq::<i32>::empty());
                    assert(r.child_seqs().drop_last() =~= seq![old_root.key_seq()]);
                    assert(weave(r.keys@.drop_last(), r.child_seqs().drop_last())
                        == old_root.key_seq());
                }
                assert(r.node_ok(d + 1));
                lemma_depth(r, d + 1);
                lemma_layout(r);
                assert(kid_layouts(r.children@) =~= seq![old_root.layout(), pmr.layout()]);
            }
        } else {
            proof {
                lemma_depth(*self.root, d);
            }
        }
        proof {
            if before.contains(key) {
                assert(before.to_set().insert(key) =~= before.to_set());
                lemma_sorted_same_set(self.key_seq(), before);
            }
        }
    }

    /// Inserts `k` below `node`, going down to a leaf; on the way back each
    /// node takes the key passed up from its child, or, when full, splits and
    /// passes its own middle key and new right sibling up in turn.
    #[verifier::rlimit(60)]
    #[verifier::spinoff_prover]
    fn movedown(k: i32, node: &mut BTreeNode, Ghost(d): Ghost<nat>) -> (res: Option<
        (i32, Box<BTreeNode>),
    >)
        requires
            old(node).node_ok(d),
            sorted(old(node).key_seq()),
        ensures
            final(node).is_leaf == old(node).is_leaf,
            final(node).node_ok(d),
            match res {
                None => {
                    &&& sorted(final(node).key_seq())
                    &&& final(node).key_seq().to_set() == old(node).key_seq().to_set().insert(k)
                    &&& final(node).keys@.len() >= old(node).keys@.len()
                },
                Some((pm, right)) => {
                    &&& !old(node).key_seq().contains(k)
                    &&& old(node).keys@.len() == M - 1
                    &&& right.node_ok(d)
                    &&& right.is_leaf == old(node).is_leaf
                    &&& final(node).keys@.len() == MIN_KEYS
                    &&& right.keys@.len() == MIN_KEYS
                    &&& sorted(final(node).key_seq() + seq![pm] + right.key_seq())
                    &&& (final(node).key_seq() + seq![pm] + right.key_seq()).to_set()
                        == old(node).key_seq().to_set().insert(k)
                },
            },
            old(node).key_seq().contains(k) ==> res is None && final(node).same_as(*old(node)),
            insert_layout(old(node).layout(), k).0 == final(node).layout(),
            insert_layout(old(node).layout(), k).1 == match res {
                None => None,
                Some((pm, right)) => Some((pm, right.layout())),
            },
        decreases d,
    {
        let ghost n0 = *node;
        proof {
            lemma_layout(n0);
        }
        proof {
            lemma_key_seq(n0);
            if !n0.is_leaf {
                lemma_child(n0, d, 0);
            }
        }
        proof {
            lemma_sorted_nondecreasing(n0.keys@);
        }
        let b = lower_bound(&node.keys, k);
        proof {
            lemma_slot(n0.keys@, k, b as int);
        }
        if b < node.keys.len() && node.keys[b] == k {
            proof {
                if n0.is_leaf {
                    assert(n0.key_seq()[b as int] == k);
                } else {
                    lemma_weave_has_key(n0.keys@, n0.child_seqs(), b as int);
                }
                assert(n0.key_seq().to_set().insert(k) =~= n0.key_seq().to_set());
                lemma_same_refl(n0, d);
            }
            return None;
        }
        proof {
            if b < n0.keys@.len() {
                assert forall|j: int| b <= j < n0.keys@.len() implies n0.keys@[j] > k by {
                    if j > b {
                        assert(n0.keys@[b as int] < n0.keys@[j]);
                    }
                }
            }
            if n0.is_leaf {
                assert(!n0.key_seq().contains(k)) by {
                    if n0.key_seq().contains(k) {
                        let j = choose|j: int| 0 <= j < n0.keys@.len() && n0.keys@[j] == k;
                    }
                }
            } else {
                lemma_search_child(n0, d, b as int, k);
            }
        }
        let result: Option<(i32, Option<Box<BTreeNode>>)> = if node.is_leaf {
            Some((k, None))
        } else {
            proof {
                lemma_child(n0, d, b as int);
            }
            match Self::movedown(k, &mut *node.children[b], Ghost((d - 1) as nat)) {
                None => None,
                Some((pm, pmr)) => Some((pm, Some(pmr))),
            }
        };
        let ghost n1 = *node;
        match result {
            None => {
                proof {
                    let cs = n0.child_seqs();
                    let c1 = n1.children@[b as int];
                    lemma_key_seq(n1);
                    assert(n1.children@ =~= n0.children@.update(b as int, c1));
                    assert(n1.child_seqs() =~= cs.update(b as int, c1.key_seq()));
                    lemma_weave_replace(n0.keys@, cs, b as int, c1.key_seq(), k);
                    assert forall|i: int| #![trigger n1.children@[i]] 0 <= i < n1.children@.len() implies n1.children@[i].node_ok(
                        (d - 1) as nat,
                    ) && n1.children@[i].keys@.len() >= MIN_KEYS by {
                        if i != b {
                            assert(n1.children@[i] == n0.children@[i]);
                        }
                    }
                    if n0.key_seq().contains(k) {
                        lemma_same_after_child(n0, n1, b as int, d);
                    }
                    lemma_layout(n1);
                    assert(kid_layouts(n1.children@) =~= kid_layouts(n0.children@).update(
                        b as int,
                        c1.layout(),
                    ));
                }
                None
            },
            Some((pm, pmr)) => {
                let ghost e = n0.keys@.insert(b as int, pm);
                let ghost ds = if pmr is Some {
                    n1.children@.insert(b + 1, pmr->0)
                } else {
                    n1.children@
                };
                proof {
                    if n0.is_leaf {
                        lemma_insert_sorted(n0.keys@, b as int, k);
                    } else {
                        let l = *n1.children@[b as int];
                        let r = *pmr->0;
                        assert(n1.children@ =~= n0.children@.update(b as int, Box::new(l)));
                        lemma_promote(n0, d, b as int, l, pm, r, k);
                    }
                    assert(parts_ok(e, ds, n0.is_leaf, d));
                    assert(sorted(ext_seq(e, ds, n0.is_leaf)));
                    assert(ext_seq(e, ds, n0.is_leaf).to_set() == n0.key_seq().to_set().insert(k));
                }
                proof {
                    if n0.is_leaf {
                        assert(ds.len() == 0);
                        assert(kid_layouts(ds) =~= kid_layouts(n0.children@));
                    } else {
                        assert(kid_layouts(ds) =~= kid_layouts(n0.children@).update(
                            b as int,
                            n1.children@[b as int].layout(),
                        ).insert(b + 1, pmr->0.layout()));
                    }
                }
                if node.keys.len() < M - 1 {
                    Self::putkey(pm, pmr, node, b);
                    proof {
                        lemma_assemble(*node, e, ds, n0.is_leaf, d);
                        lemma_layout(*node);
                    }
                    None
                } else {
                    let (new_pm, right) = Self::split(pm, pmr, node, b);
                    proof {
                        lemma_cut(*node, *right, e, ds, n0.is_leaf, d);
                        lemma_layout(*node);
                        lemma_layout(*right);
                        let mk = MIN_KEYS as int;
                        if !n0.is_leaf {
                            assert(kid_layouts(node.children@) =~= kid_layouts(ds).take(mk + 1));
                            assert(kid_layouts(right.children@) =~= kid_layouts(ds).skip(mk + 1));
                        } else {
                            assert(kid_layouts(node.children@) =~= kid_layouts(ds));
                            assert(kid_layouts(right.children@) =~= kid_layouts(ds));
                        }
                    }
                    Some((new_pm, right))
                }
            },
        }
    }
}

impl BTree {
    /// The keys of the tree in increasing order: collected from every node,
    /// then sorted.
    pub fn to_sorted_vec(&self) -> (v: Vec<i32>)
        requires
            self.well_formed(),
        ensures
            v@ == self.key_seq(),
    {
        let ghost d = choose|d: nat| #[trigger] self.root.node_ok(d);
        let mut result = Vec::new();
        Self::collect(&self.root, &mut result, Ghost(d));
        sort_ascending(&mut result);
        proof {
            lemma_collected(*self.root, d);
            assert(result@.to_multiset() == self.root.collected().to_multiset()) by {
                assert(Seq::<i32>::empty() + self.root.collected() =~= self.root.collected());
            }
            let leq = |a: i32, b: i32| a <= b;
            assert(total_ordering(leq));
            lemma_sorted_unique(result@, self.key_seq(), leq);
        }
        result
    }

    /// Appends the keys of `node` and then what each child collects in turn.
    fn collect(node: &BTreeNode, result: &mut Vec<i32>, Ghost(d): Ghost<nat>)
        requires
            node.node_ok(d),
        ensures
            final(result)@ == old(result)@ + node.collected(),
        decreases d,
    {
        let ghost r0 = result@;
        result.extend_from_slice(&node.keys);
        assert(result@ =~= r0 + node.keys@);
        let mut i: usize = 0;
        while i < node.children.len()
            invariant
                node.node_ok(d),
                i <= node.children@.len(),
                result@ == r0 + node.keys@ + node.collected_children(i as nat),
            decreases node.children@.len() - i,
        {
            proof {
                lemma_child(*node, d, i as int);
            }
            Self::collect(&node.children[i], result, Ghost((d - 1) as nat));
            proof {
                assert(node.collected_children((i + 1) as nat) == node.collected_children(i as nat)
                    + node.children@[i as int].collected());
            }
            i = i + 1;
        }
        proof {
            if node.is_leaf {
                assert(node.children@.len() == 0);
            }
        }
    }
}

/// After inserting `k`, a search finds `k`, and finds every other key exactly
/// when it found it before.
pub proof fn lemma_insert_then_search(before: BTree, after: BTree, k: i32, j: i32)
    requires
        after.key_seq().to_set() == before.key_seq().to_set().insert(k),
    ensures
        after.key_seq().contains(k),
        j != k ==> (after.key_seq().contains(j) <==> before.key_seq().contains(j)),
{
    assert(after.key_seq().to_set().contains(k));
    assert(after.key_seq().to_set().contains(j) == after.key_seq().contains(j));
    assert(before.key_seq().to_set().contains(j) == before.key_seq().contains(j));
}

/// The sorted keys that `to_sorted_vec` returns are exactly the keys a search finds.
pub proof fn lemma_sorted_vec_matches_search(t: BTree, v: Seq<i32>, k: i32)
    requires
        t.well_formed(),
        v == t.key_seq(),
    ensures
        sorted(v),
        v.contains(k) == t.key_seq().contains(k),
{
}

/// Below a sound node every node holds at least `MIN_KEYS` keys.
proof fn lemma_fill(n: BTreeNode, d: nat)
    requires
        n.node_ok(d),
    ensures
        n.fill_ok(MIN_KEYS as nat),
    decreases d,
{
    if !n.is_leaf {
        assert forall|i: int| #![trigger n.children@[i]] 0 <= i < n.children@.len() implies n.children@[i].keys@.len()
            >= MIN_KEYS && n.children@[i].fill_ok(MIN_KEYS as nat) by {
            lemma_child(n, d, i);
            lemma_fill(*n.children@[i], (d - 1) as nat);
        }
    }
}

/// Every node but the root holds at least `⌈M / 2⌉ - 1` keys.
pub proof fn lemma_min_occupancy(t: BTree)
    requires
        t.well_formed(),
    ensures
        t.below_root_fill(MIN_KEYS as nat),
{
    let d = choose|d: nat| #[trigger] t.root.node_ok(d);
    lemma_fill(*t.root, d);
}

} // verus!
