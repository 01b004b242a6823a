use dstree::b_tree;
use dstree::btree;

#[test]
fn b_tree_test_insert() {
    let items = vec![
        282, 314, 307, 289, 393, 299, 337, 407, 354, 302, 462, 347, 448, 482, 293, 399, 418, 468,
        471, 436,
    ];
    let mut btree = b_tree::BTree::new();
    for item in items {
        btree.insert(item);
    }
    println!("{:#?}", btree);
}

#[test]
fn btree_test_insert() {
    let items = vec![
        282, 314, 307, 289, 393, 299, 337, 407, 354, 302, 462, 347, 448, 482, 293, 399, 418, 468,
        471, 436,
    ];
    let mut btree = btree::BTree::new(5);
    for item in items {
        btree.insert(item);
    }
    println!("{:#?}", btree);
}

#[test]
fn b_tree_search_finds_exactly_the_inserted_keys() {
    let mut t = b_tree::BTree::new();
    assert!(!t.search(1));
    for k in (0..200).rev() {
        t.insert(k * 3);
    }
    t.insert(30);
    for k in 0..600 {
        assert_eq!(t.search(k), k % 3 == 0, "key {}", k);
    }
    let expected: Vec<i32> = (0..200).map(|k| k * 3).collect();
    assert_eq!(t.to_sorted_vec(), expected);
}

#[test]
fn b_tree_sorted_vec_of_the_sample() {
    let mut t = b_tree::BTree::new();
    for k in [5, 1, 4, 2, 3, 2] {
        t.insert(k);
    }
    assert_eq!(t.to_sorted_vec(), vec![1, 2, 3, 4, 5]);
    assert_eq!(b_tree::BTree::new().to_sorted_vec(), Vec::<i32>::new());
}

#[test]
fn b_tree_node_constructors() {
    let leaf = b_tree::BTreeNode::new_leaf();
    assert!(!leaf.is_full());
    let internal = b_tree::BTreeNode::new_internal();
    assert!(!internal.is_full());
}

#[test]
fn btree_limits_of_an_order() {
    let t = btree::BTree::new(5);
    assert_eq!(t.kmax(), 4);
    assert_eq!(t.kmin(), 2);
    assert!(!t.is_full());
    let t4 = btree::BTree::new(4);
    assert_eq!(t4.kmax(), 3);
    assert_eq!(t4.kmin(), 1);
}

#[test]
fn btree_full_root_after_order_minus_one_keys() {
    let mut t = btree::BTree::new(3);
    t.insert(1);
    assert!(!t.is_full());
    t.insert(2);
    assert!(t.is_full());
    t.insert(3);
    assert!(!t.is_full());
    let text = format!("{:?}", t);
    assert!(text.contains("keys: [2]"));
}

#[test]
fn btree_binary_search_positions() {
    let t = btree::BTree::new(5);
    let keys = [10, 20, 30];
    assert_eq!(t.binary_search_pos(&keys, 5), 0);
    assert_eq!(t.binary_search_pos(&keys, 20), 1);
    assert_eq!(t.binary_search_pos(&keys, 25), 2);
    assert_eq!(t.binary_search_pos(&keys, 31), 3);
    assert_eq!(t.binary_search_pos(&[], 1), 0);
}

#[test]
fn btree_binary_search_on_unsorted_keys() {
    let t = btree::BTree::new(5);
    let keys = [5, 1, 9];
    let p = t.binary_search_pos(&keys, 4);
    assert_eq!(p, 2);
    assert!(keys[p - 1] < 4 && keys[p] >= 4);
}

#[test]
fn inserting_a_present_key_changes_nothing() {
    let mut a = btree::BTree::new(4);
    let mut b = b_tree::BTree::new();
    for k in [8, 3, 10, 1, 6, 14, 4, 7, 13] {
        a.insert(k);
        b.insert(k);
    }
    let before_a = format!("{:?}", a);
    let before_b = format!("{:?}", b);
    a.insert(6);
    b.insert(6);
    // The top-down tree may still split a full node on the way down to the key.
    assert_ne!(format!("{:?}", a), before_a);
    assert_eq!(format!("{:?}", a).matches(" 6").count(), 1);
    assert_eq!(format!("{:?}", b), before_b);
    assert_eq!(b.to_sorted_vec(), vec![1, 3, 4, 6, 7, 8, 10, 13, 14]);
}

fn key_counts(debug: &str) -> Vec<usize> {
    let mut counts = Vec::new();
    let mut rest = debug;
    while let Some(start) = rest.find("keys: [") {
        let after = &rest[start + 7..];
        let end = after.find(']').unwrap();
        let inner = after[..end].trim();
        counts.push(if inner.is_empty() {
            0
        } else {
            inner.split(',').count()
        });
        rest = &after[end..];
    }
    counts
}

#[test]
fn b_tree_nodes_below_the_root_hold_two_to_four_keys() {
    let mut t = b_tree::BTree::new();
    for k in 0..300 {
        t.insert((k * 7919) % 1000);
    }
    let counts = key_counts(&format!("{:?}", t));
    assert!(counts.len() > 10);
    assert!(counts[0] >= 1 && counts[0] <= 4);
    for c in &counts[1..] {
        assert!(*c >= 2 && *c <= 4, "{:?}", counts);
    }
}

#[test]
fn btree_of_even_order_keeps_kmin_keys_below_the_root() {
    let mut t = btree::BTree::new(6);
    for k in 0..300 {
        t.insert((k * 7919) % 1000);
    }
    let counts = key_counts(&format!("{:?}", t));
    assert!(counts.len() > 10);
    for c in &counts[1..] {
        assert!(*c >= t.kmin() && *c <= t.kmax(), "{:?}", counts);
    }
}

#[test]
fn btree_of_odd_order_can_leave_fewer_than_kmin_keys() {
    let mut t = btree::BTree::new(5);
    for k in [10, 20, 30, 40, 50] {
        t.insert(k);
    }
    let counts = key_counts(&format!("{:?}", t));
    assert_eq!(counts, vec![1, 2, 2]);
    let mut t = btree::BTree::new(5);
    for k in [10, 20, 30, 40] {
        t.insert(k);
    }
    t.insert(5);
    assert_eq!(key_counts(&format!("{:?}", t)), vec![1, 3, 1]);
    assert_eq!(t.kmin(), 2);
}

fn leaf_depths(debug: &str) -> Vec<usize> {
    let mut open: Vec<bool> = Vec::new();
    let mut depths = Vec::new();
    let bytes = debug.as_bytes();
    let mut i = 0;
    while i < bytes.len() {
        if debug[i..].starts_with("BTreeNode {") {
            open.push(true);
            i += "BTreeNode {".len();
            continue;
        }
        if debug[i..].starts_with("is_leaf: true") {
            depths.push(open.iter().filter(|b| **b).count() - 1);
        }
        match bytes[i] {
            b'{' => open.push(false),
            b'}' => {
                open.pop();
            }
            _ => {}
        }
        i += 1;
    }
    depths
}

const SAMPLE: [i32; 20] = [
    282, 314, 307, 289, 393, 299, 337, 407, 354, 302, 462, 347, 448, 482, 293, 399, 418, 468, 471,
    436,
];

#[test]
fn b_tree_sample_leaves_lie_two_levels_down() {
    let mut t = b_tree::BTree::new();
    for k in SAMPLE {
        t.insert(k);
    }
    let depths = leaf_depths(&format!("{:?}", t));
    assert!(!depths.is_empty());
    assert!(depths.iter().all(|d| *d == 2), "{:?}", depths);
    let mut sorted = SAMPLE.to_vec();
    sorted.sort();
    assert_eq!(t.to_sorted_vec(), sorted);
    assert!(!t.search(300));
}

#[test]
fn btree_sample_leaves_lie_two_levels_down() {
    let mut t = btree::BTree::new(5);
    for k in SAMPLE {
        t.insert(k);
    }
    let text = format!("{:?}", t);
    let depths = leaf_depths(&text);
    assert!(!depths.is_empty());
    assert!(depths.iter().all(|d| *d == 2), "{:?}", depths);
    assert!(key_counts(&text).iter().all(|c| *c <= 4));
}

#[test]
fn depth_grows_by_at_most_one_per_insert() {
    let mut a = b_tree::BTree::new();
    let mut b = btree::BTree::new(4);
    let mut da = 0;
    let mut db = 0;
    for k in 0..200 {
        a.insert((k * 37) % 211);
        b.insert((k * 37) % 211);
        let na = leaf_depths(&format!("{:?}", a))[0];
        let nb = leaf_depths(&format!("{:?}", b))[0];
        assert!(na == da || na == da + 1);
        assert!(nb == db || nb == db + 1);
        da = na;
        db = nb;
    }
}
