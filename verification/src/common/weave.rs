//! The in-order key sequence of a B-tree node: child 0, key 0, child 1, key 1,
//! ..., the last child. Lemmas here take such sequences apart and put them
//! back together.

use vstd::multiset::Multiset;
use vstd::prelude::*;
use vstd::seq_lib::{lemma_multiset_commutative, seq_to_set_distributes_over_add};

verus! {

/// A strictly increasing sequence of keys.
pub open spec fn sorted(s: Seq<i32>) -> bool {
    forall|i: int, j: int| 0 <= i < j < s.len() ==> s[i] < s[j]
}

/// A sequence that never decreases.
pub open spec fn nondecreasing(s: Seq<i32>) -> bool {
    forall|i: int, j: int| 0 <= i <= j < s.len() ==> s[i] <= s[j]
}

/// A strictly increasing sequence never decreases.
pub proof fn lemma_sorted_nondecreasing(s: Seq<i32>)
    requires
        sorted(s),
    ensures
        nondecreasing(s),
{
    assert forall|i: int, j: int| 0 <= i <= j < s.len() implies s[i] <= s[j] by {
        if i < j {
            assert(s[i] < s[j]);
        }
    }
}

/// `cs[0] + [keys[0]] + cs[1] + ... + [keys[n-1]] + cs[n]` for `n` keys.
pub open spec fn weave(keys: Seq<i32>, cs: Seq<Seq<i32>>) -> Seq<i32>
    decreases keys.len(),
{
    if keys.len() == 0 {
        if cs.len() == 0 {
            Seq::empty()
        } else {
            cs[0]
        }
    } else {
        weave(keys.drop_last(), cs.drop_last()) + seq![keys.last()] + cs.last()
    }
}

/// The part of the weave before child `i`.
pub open spec fn before(keys: Seq<i32>, cs: Seq<Seq<i32>>, i: int) -> Seq<i32> {
    if i <= 0 {
        Seq::empty()
    } else {
        weave(keys.take(i - 1), cs.take(i)) + seq![keys[i - 1]]
    }
}

/// The part of the weave after child `i`.
pub open spec fn after(keys: Seq<i32>, cs: Seq<Seq<i32>>, i: int) -> Seq<i32> {
    if i >= keys.len() {
        Seq::empty()
    } else {
        seq![keys[i]] + weave(keys.skip(i + 1), cs.skip(i + 1))
    }
}

/// Cutting the weave at key `m`.
pub proof fn lemma_weave_split(keys: Seq<i32>, cs: Seq<Seq<i32>>, m: int)
    requires
        cs.len() == keys.len() + 1,
        0 <= m < keys.len(),
    ensures
        weave(keys, cs) == weave(keys.take(m), cs.take(m + 1)) + seq![keys[m]] + weave(
            keys.skip(m + 1),
            cs.skip(m + 1),
        ),
    decreases keys.len(),
{
    let n = keys.len() as int;
    if m == n - 1 {
        assert(keys.take(m) =~= keys.drop_last());
        assert(cs.take(m + 1) =~= cs.drop_last());
        assert(keys.skip(m + 1) =~= Seq::<i32>::empty());
        assert(cs.skip(m + 1) =~= seq![cs.last()]);
        assert(weave(keys.skip(m + 1), cs.skip(m + 1)) == cs.last());
    } else {
        let k2 = keys.drop_last();
        let c2 = cs.drop_last();
        lemma_weave_split(k2, c2, m);
        assert(k2.take(m) =~= keys.take(m));
        assert(c2.take(m + 1) =~= cs.take(m + 1));
        let rk = keys.skip(m + 1);
        let rc = cs.skip(m + 1);
        assert(rk.len() > 0);
        assert(rk.drop_last() =~= k2.skip(m + 1));
        assert(rc.drop_last() =~= c2.skip(m + 1));
        assert(rk.last() == keys.last());
        assert(rc.last() == cs.last());
        assert(weave(rk, rc) == weave(rk.drop_last(), rc.drop_last()) + seq![rk.last()]
            + rc.last());
        assert(weave(keys, cs) =~= weave(keys.take(m), cs.take(m + 1)) + seq![keys[m]] + weave(
            rk,
            rc,
        ));
    }
}

/// The weave seen around child `i`.
pub proof fn lemma_weave_at(keys: Seq<i32>, cs: Seq<Seq<i32>>, i: int)
    requires
        cs.len() == keys.len() + 1,
        0 <= i <= keys.len(),
    ensures
        weave(keys, cs) == before(keys, cs, i) + cs[i] + after(keys, cs, i),
{
    let n = keys.len() as int;
    if i < n {
        lemma_weave_split(keys, cs, i);
        let lk = keys.take(i);
        let lc = cs.take(i + 1);
        if i == 0 {
            assert(lk =~= Seq::<i32>::empty());
            assert(weave(lk, lc) == cs[0]);
        } else {
            assert(lk.drop_last() =~= keys.take(i - 1));
            assert(lc.drop_last() =~= cs.take(i));
            assert(weave(lk, lc) =~= before(keys, cs, i) + cs[i]);
        }
        assert(weave(keys, cs) =~= before(keys, cs, i) + cs[i] + after(keys, cs, i));
    } else {
        if n == 0 {
            assert(weave(keys, cs) =~= before(keys, cs, i) + cs[i] + after(keys, cs, i));
        } else {
            assert(keys.drop_last() =~= keys.take(i - 1));
            assert(cs.drop_last() =~= cs.take(i));
            assert(weave(keys, cs) =~= before(keys, cs, i) + cs[i] + after(keys, cs, i));
        }
    }
}

/// The parts around child `i` do not depend on child `i`.
pub proof fn lemma_weave_update(keys: Seq<i32>, cs: Seq<Seq<i32>>, i: int, x: Seq<i32>)
    requires
        cs.len() == keys.len() + 1,
        0 <= i <= keys.len(),
    ensures
        before(keys, cs.update(i, x), i) == before(keys, cs, i),
        after(keys, cs.update(i, x), i) == after(keys, cs, i),
        weave(keys, cs.update(i, x)) == before(keys, cs, i) + x + after(keys, cs, i),
{
    let c2 = cs.update(i, x);
    assert(c2.take(i) =~= cs.take(i));
    assert(c2.skip(i + 1) =~= cs.skip(i + 1));
    lemma_weave_at(keys, c2, i);
}

/// Splitting child `j` as `l + [m] + r` and lifting `m` into the keys leaves the
/// weave as it was.
pub proof fn lemma_weave_lift(
    keys: Seq<i32>,
    cs: Seq<Seq<i32>>,
    j: int,
    l: Seq<i32>,
    m: i32,
    r: Seq<i32>,
)
    requires
        cs.len() == keys.len() + 1,
        0 <= j <= keys.len(),
        cs[j] == l + seq![m] + r,
    ensures
        weave(keys.insert(j, m), cs.update(j, l).insert(j + 1, r)) == weave(keys, cs),
{
    let k2 = keys.insert(j, m);
    let c2 = cs.update(j, l).insert(j + 1, r);
    lemma_weave_at(keys, cs, j);
    lemma_weave_at(k2, c2, j);
    if j > 0 {
        assert(k2.take(j - 1) =~= keys.take(j - 1));
        assert(c2.take(j) =~= cs.take(j));
        assert(k2[j - 1] == keys[j - 1]);
    }
    assert(before(k2, c2, j) == before(keys, cs, j));
    assert(c2[j] == l);
    let rk = k2.skip(j + 1);
    let rc = c2.skip(j + 1);
    assert(rk =~= keys.skip(j));
    assert(rc =~= seq![r] + cs.skip(j + 1));
    if j < keys.len() {
        lemma_weave_split(rk, rc, 0);
        assert(rk.take(0) =~= Seq::<i32>::empty());
        assert(rc.take(1) =~= seq![r]);
        assert(weave(rk.take(0), rc.take(1)) == r);
        assert(rk.skip(1) =~= keys.skip(j + 1));
        assert(rc.skip(1) =~= cs.skip(j + 1));
        assert(after(k2, c2, j) =~= seq![m] + r + after(keys, cs, j));
    } else {
        assert(rk =~= Seq::<i32>::empty());
        assert(rc =~= seq![r]);
        assert(after(k2, c2, j) =~= seq![m] + r + after(keys, cs, j));
    }
    assert(weave(k2, c2) =~= weave(keys, cs));
}

/// Key `i` appears in the weave.
pub proof fn lemma_weave_has_key(keys: Seq<i32>, cs: Seq<Seq<i32>>, i: int)
    requires
        cs.len() == keys.len() + 1,
        0 <= i < keys.len(),
    ensures
        weave(keys, cs).contains(keys[i]),
        after(keys, cs, i)[0] == keys[i],
{
    lemma_weave_at(keys, cs, i);
    let w = weave(keys, cs);
    let p = (before(keys, cs, i).len() + cs[i].len()) as int;
    assert(w[p] == keys[i]);
}

/// The last element of what comes before child `i` is key `i - 1`.
pub proof fn lemma_before_last(keys: Seq<i32>, cs: Seq<Seq<i32>>, i: int)
    requires
        0 < i <= keys.len(),
    ensures
        before(keys, cs, i).len() > 0,
        before(keys, cs, i).last() == keys[i - 1],
{
}

/// In a sorted sequence `a + b + c`, every element of `b` lies strictly between
/// the last element of `a` and the first of `c`.
pub proof fn lemma_sorted_middle(a: Seq<i32>, b: Seq<i32>, c: Seq<i32>)
    requires
        sorted(a + b + c),
    ensures
        sorted(a),
        sorted(b),
        sorted(c),
        forall|x: i32| b.contains(x) ==> (a.len() > 0 ==> a.last() < x) && (c.len() > 0 ==> x < c[0]),
        a.len() > 0 && c.len() > 0 ==> a.last() < c[0],
{
    let s = a + b + c;
    assert forall|i: int, j: int| 0 <= i < j < a.len() implies a[i] < a[j] by {
        assert(s[i] == a[i] && s[j] == a[j]);
    }
    assert forall|i: int, j: int| 0 <= i < j < b.len() implies b[i] < b[j] by {
        assert(s[a.len() + i] == b[i] && s[a.len() + j] == b[j]);
    }
    assert forall|i: int, j: int| 0 <= i < j < c.len() implies c[i] < c[j] by {
        assert(s[a.len() + b.len() + i] == c[i] && s[a.len() + b.len() + j] == c[j]);
    }
    assert forall|x: i32| b.contains(x) implies (a.len() > 0 ==> a.last() < x) && (c.len() > 0
        ==> x < c[0]) by {
        let k = choose|k: int| 0 <= k < b.len() && b[k] == x;
        assert(s[a.len() + k] == x);
        if a.len() > 0 {
            assert(s[a.len() - 1] == a.last());
        }
        if c.len() > 0 {
            assert(s[(a.len() + b.len()) as int] == c[0]);
        }
    }
    if a.len() > 0 && c.len() > 0 {
        assert(s[a.len() - 1] == a.last());
        assert(s[(a.len() + b.len()) as int] == c[0]);
    }
}

/// Replacing the middle of a sorted `a + b + c` by a sorted `d` whose elements
/// lie strictly between the last of `a` and the first of `c` keeps it sorted.
pub proof fn lemma_sorted_replace_middle(a: Seq<i32>, b: Seq<i32>, c: Seq<i32>, d: Seq<i32>)
    requires
        sorted(a + b + c),
        sorted(d),
        forall|x: i32| d.contains(x) ==> (a.len() > 0 ==> a.last() < x) && (c.len() > 0 ==> x < c[0]),
    ensures
        sorted(a + d + c),
{
    lemma_sorted_middle(a, b, c);
    let s = a + d + c;
    let na = a.len() as int;
    let nd = d.len() as int;
    assert forall|i: int, j: int| 0 <= i < j < s.len() implies s[i] < s[j] by {
        if i < na {
            if j < na {
                assert(s[i] == a[i] && s[j] == a[j]);
            } else {
                assert(a[i] <= a.last()) by {
                    if i < na - 1 {
                        assert(a[i] < a[na - 1]);
                    }
                }
                if j < na + nd {
                    assert(d.contains(s[j])) by {
                        assert(d[j - na] == s[j]);
                    }
                } else {
                    assert(c[0] <= c[j - na - nd]) by {
                        if j - na - nd > 0 {
                            assert(c[0] < c[j - na - nd]);
                        }
                    }
                    if nd > 0 {
                        assert(d.contains(d[0]));
                    }
                }
            }
        } else if i < na + nd {
            assert(d.contains(s[i])) by {
                assert(d[i - na] == s[i]);
            }
            if j < na + nd {
                assert(s[i] == d[i - na] && s[j] == d[j - na]);
            } else {
                assert(c[0] <= c[j - na - nd]) by {
                    if j - na - nd > 0 {
                        assert(c[0] < c[j - na - nd]);
                    }
                }
            }
        } else {
            assert(s[i] == c[i - na - nd] && s[j] == c[j - na - nd]);
        }
    }
}

/// Putting `key` at position `p` of a sorted sequence, between the keys
/// smaller and larger than it, keeps it sorted and adds `key` to its set.
pub proof fn lemma_insert_sorted(ks: Seq<i32>, p: int, key: i32)
    requires
        sorted(ks),
        0 <= p <= ks.len(),
        forall|j: int| 0 <= j < p ==> ks[j] < key,
        forall|j: int| p <= j < ks.len() ==> ks[j] > key,
    ensures
        sorted(ks.insert(p, key)),
        ks.insert(p, key).to_set() == ks.to_set().insert(key),
{
    let s2 = ks.insert(p, key);
    assert forall|i: int, j: int| 0 <= i < j < s2.len() implies s2[i] < s2[j] by {
        if j < p {
            assert(s2[i] == ks[i] && s2[j] == ks[j]);
        } else if j == p {
            assert(s2[i] == ks[i]);
        } else if i < p {
            assert(s2[i] == ks[i] && s2[j] == ks[j - 1]);
        } else if i == p {
            assert(s2[j] == ks[j - 1]);
        } else {
            assert(s2[i] == ks[i - 1] && s2[j] == ks[j - 1]);
        }
    }
    assert forall|x: i32| s2.to_set().contains(x) <==> ks.to_set().insert(key).contains(x) by {
        if s2.contains(x) {
            let i = choose|i: int| 0 <= i < s2.len() && s2[i] == x;
            if i < p {
                assert(ks[i] == x);
            } else if i > p {
                assert(ks[i - 1] == x);
            }
        }
        if ks.contains(x) {
            let i = choose|i: int| 0 <= i < ks.len() && ks[i] == x;
            if i < p {
                assert(s2[i] == x);
            } else {
                assert(s2[i + 1] == x);
            }
        }
        if x == key {
            assert(s2[p] == x);
        }
    }
    assert(s2.to_set() =~= ks.to_set().insert(key));
}

/// Replacing child `t` of a sorted weave by a sorted sequence with one more
/// key, which lies between keys `t - 1` and `t`, keeps the weave sorted and
/// adds that key to its set.
pub proof fn lemma_weave_replace(keys: Seq<i32>, cs: Seq<Seq<i32>>, t: int, x: Seq<i32>, key: i32)
    requires
        cs.len() == keys.len() + 1,
        sorted(weave(keys, cs)),
        0 <= t <= keys.len(),
        t > 0 ==> keys[t - 1] < key,
        t < keys.len() ==> key < keys[t],
        sorted(x),
        x.to_set() == cs[t].to_set().insert(key),
    ensures
        sorted(weave(keys, cs.update(t, x))),
        weave(keys, cs.update(t, x)).to_set() == weave(keys, cs).to_set().insert(key),
        weave(keys, cs.update(t, x)) == before(keys, cs, t) + x + after(keys, cs, t),
{
    lemma_weave_at(keys, cs, t);
    lemma_weave_update(keys, cs, t, x);
    let a = before(keys, cs, t);
    let b = after(keys, cs, t);
    lemma_sorted_middle(a, cs[t], b);
    if t > 0 {
        lemma_before_last(keys, cs, t);
    }
    if t < keys.len() {
        lemma_weave_has_key(keys, cs, t);
    }
    assert forall|v: i32| x.contains(v) implies (a.len() > 0 ==> a.last() < v) && (b.len() > 0
        ==> v < b[0]) by {
        assert(x.to_set().contains(v));
        if v != key {
            assert(cs[t].to_set().contains(v));
        }
    }
    lemma_sorted_replace_middle(a, cs[t], b, x);
    lemma_set_of_three(a, cs[t], b);
    lemma_set_of_three(a, x, b);
    assert(weave(keys, cs.update(t, x)).to_set() =~= weave(keys, cs).to_set().insert(key));
}

/// The layout of a B-tree node: its keys, the layouts of its children in
/// order, and whether it is a leaf.
pub enum Layout {
    Node(Seq<i32>, Seq<Layout>, bool),
}

/// `p` splits `keys` into those smaller than `k` and those that are not.
pub open spec fn slot_ok(keys: Seq<i32>, k: i32, p: int) -> bool {
    &&& 0 <= p <= keys.len()
    &&& forall|j: int| 0 <= j < p ==> keys[j] < k
    &&& forall|j: int| p <= j < keys.len() ==> keys[j] >= k
}

/// The position where `k` belongs among `keys`: that of the first key that
/// is not smaller than it, or the end.
#[verifier::opaque]
pub open spec fn slot(keys: Seq<i32>, k: i32) -> int
    decreases keys.len(),
{
    if keys.len() == 0 || keys[0] >= k {
        0
    } else {
        1 + slot(keys.drop_first(), k)
    }
}

/// A position that splits the keys around `k` is the one `slot` names.
pub proof fn lemma_slot(keys: Seq<i32>, k: i32, p: int)
    requires
        slot_ok(keys, k, p),
    ensures
        slot(keys, k) == p,
    decreases keys.len(),
{
    reveal_with_fuel(slot, 1);
    if keys.len() > 0 && keys[0] < k {
        if p == 0 {
            assert(keys[0] >= k);
        }
        let rest = keys.drop_first();
        assert forall|j: int| 0 <= j < p - 1 implies rest[j] < k by {
            assert(keys[j + 1] < k);
        }
        assert forall|j: int| p - 1 <= j < rest.len() implies rest[j] >= k by {
            assert(keys[j + 1] >= k);
        }
        lemma_slot(rest, k, p - 1);
    } else if keys.len() > 0 && p > 0 {
        assert(keys[0] < k);
    }
}

/// The number of keys in a non-decreasing sequence smaller than `key`, by
/// binary search.
pub fn lower_bound(keys: &Vec<i32>, key: i32) -> (p: usize)
    requires
        nondecreasing(keys@),
    ensures
        p <= keys@.len(),
        forall|j: int| 0 <= j < p ==> keys@[j] < key,
        forall|j: int| p <= j < keys@.len() ==> keys@[j] >= key,
{
    let mut left: usize = 0;
    let mut right: usize = keys.len();
    while left < right
        invariant
            left <= right <= keys@.len(),
            nondecreasing(keys@),
            forall|j: int| 0 <= j < left ==> keys@[j] < key,
            forall|j: int| right <= j < keys@.len() ==> keys@[j] >= key,
        decreases right - left,
    {
        let mid = left + (right - left) / 2;
        if keys[mid] < key {
            left = mid + 1;
        } else {
            right = mid;
        }
    }
    left
}

/// The keys of a sorted weave are sorted.
pub proof fn lemma_weave_keys_sorted(keys: Seq<i32>, cs: Seq<Seq<i32>>)
    requires
        cs.len() == keys.len() + 1,
        sorted(weave(keys, cs)),
    ensures
        sorted(keys),
{
    assert forall|i: int| 0 <= i < keys.len() - 1 implies #[trigger] keys[i] < keys[i + 1] by {
        lemma_weave_at(keys, cs, i + 1);
        lemma_before_last(keys, cs, i + 1);
        lemma_weave_has_key(keys, cs, i + 1);
        lemma_sorted_middle(before(keys, cs, i + 1), cs[i + 1], after(keys, cs, i + 1));
    }
    assert forall|i: int, j: int| 0 <= i < j < keys.len() implies keys[i] < keys[j] by {
        lemma_consecutive(keys, i, j);
    }
}

/// Increasing from each element to the next is increasing throughout.
proof fn lemma_consecutive(keys: Seq<i32>, i: int, j: int)
    requires
        0 <= i < j < keys.len(),
        forall|k: int| 0 <= k < keys.len() - 1 ==> #[trigger] keys[k] < keys[k + 1],
    ensures
        keys[i] < keys[j],
    decreases j - i,
{
    if j > i + 1 {
        lemma_consecutive(keys, i, j - 1);
    }
}

/// The multiset union of the first `i` sequences.
pub open spec fn ms_sum(cs: Seq<Seq<i32>>, i: nat) -> Multiset<i32>
    decreases i,
{
    if i == 0 {
        Multiset::empty()
    } else {
        ms_sum(cs, (i - 1) as nat).add(cs[i - 1].to_multiset())
    }
}

/// The union of the first `i` sequences depends on those sequences alone.
pub proof fn lemma_ms_sum_prefix(cs: Seq<Seq<i32>>, ds: Seq<Seq<i32>>, i: nat)
    requires
        i <= cs.len(),
        i <= ds.len(),
        forall|j: int| 0 <= j < i ==> cs[j] == ds[j],
    ensures
        ms_sum(cs, i) == ms_sum(ds, i),
    decreases i,
{
    if i > 0 {
        lemma_ms_sum_prefix(cs, ds, (i - 1) as nat);
    }
}

/// The weave holds the keys and the elements of every sequence, each as often
/// as there.
pub proof fn lemma_weave_multiset(keys: Seq<i32>, cs: Seq<Seq<i32>>)
    requires
        cs.len() == keys.len() + 1,
    ensures
        weave(keys, cs).to_multiset() == keys.to_multiset().add(ms_sum(cs, cs.len())),
    decreases keys.len(),
{
    broadcast use vstd::multiset::group_multiset_axioms;
    broadcast use vstd::seq_lib::group_to_multiset_ensures;

    if keys.len() == 0 {
        assert(ms_sum(cs, 0) == Multiset::<i32>::empty());
        assert(ms_sum(cs, 1) =~= cs[0].to_multiset());
        assert(keys.to_multiset() =~= Multiset::empty());
        assert(weave(keys, cs).to_multiset() =~= keys.to_multiset().add(ms_sum(cs, cs.len())));
    } else {
        let k2 = keys.drop_last();
        let c2 = cs.drop_last();
        lemma_weave_multiset(k2, c2);
        lemma_ms_sum_prefix(cs, c2, c2.len());
        let w2 = weave(k2, c2);
        lemma_multiset_commutative(w2 + seq![keys.last()], cs.last());
        lemma_multiset_commutative(w2, seq![keys.last()]);
        assert(k2.push(keys.last()) =~= keys);
        assert(weave(keys, cs).to_multiset() =~= keys.to_multiset().add(ms_sum(cs, cs.len())));
    }
}

/// Two sorted sequences with the same elements are equal.
pub proof fn lemma_sorted_same_set(a: Seq<i32>, b: Seq<i32>)
    requires
        sorted(a),
        sorted(b),
        a.to_set() == b.to_set(),
    ensures
        a == b,
    decreases a.len(),
{
    if a.len() == 0 {
        if b.len() > 0 {
            assert(b.to_set().contains(b[0]));
        }
        assert(a =~= b);
    } else {
        assert(a.to_set().contains(a[0]));
        assert(b.len() > 0) by {
            if b.len() == 0 {
                assert(b.to_set() =~= Set::empty());
            }
        }
        assert(b.to_set().contains(b[0]));
        let ia = choose|i: int| 0 <= i < a.len() && a[i] == b[0];
        let ib = choose|i: int| 0 <= i < b.len() && b[i] == a[0];
        assert(a[0] == b[0]) by {
            if a[0] != b[0] {
                assert(ia > 0 && ib > 0);
                assert(a[0] < a[ia]);
                assert(b[0] < b[ib]);
            }
        }
        let a1 = a.drop_first();
        let b1 = b.drop_first();
        assert(a1.to_set() =~= b1.to_set()) by {
            assert forall|x: i32| a1.to_set().contains(x) implies b1.to_set().contains(x) by {
                let i = choose|i: int| 0 <= i < a1.len() && a1[i] == x;
                assert(a[i + 1] == x);
                assert(a[0] < x);
                assert(b.to_set().contains(x));
                let j = choose|j: int| 0 <= j < b.len() && b[j] == x;
                assert(j != 0);
                assert(b1[j - 1] == x);
            }
            assert forall|x: i32| b1.to_set().contains(x) implies a1.to_set().contains(x) by {
                let i = choose|i: int| 0 <= i < b1.len() && b1[i] == x;
                assert(b[i + 1] == x);
                assert(b[0] < x);
                assert(a.to_set().contains(x));
                let j = choose|j: int| 0 <= j < a.len() && a[j] == x;
                assert(j != 0);
                assert(a1[j - 1] == x);
            }
        }
        lemma_sorted_same_set(a1, b1);
        assert(a =~= b) by {
            assert(a == seq![a[0]] + a1);
            assert(b == seq![b[0]] + b1);
        }
    }
}

/// The set of a concatenation is the union of the sets.
pub proof fn lemma_set_of_three(a: Seq<i32>, b: Seq<i32>, c: Seq<i32>)
    ensures
        (a + b + c).to_set() == a.to_set() + b.to_set() + c.to_set(),
{
    seq_to_set_distributes_over_add(a, b);
    seq_to_set_distributes_over_add(a + b, c);
}

} // verus!
