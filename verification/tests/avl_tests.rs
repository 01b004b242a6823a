use dstree::avl::{AvlNode, AvlTree};
use dstree::Tree;

#[test]
fn test_avl_node_creation() {
    let node = AvlNode {
        value: 10,
        height: 1,
        left: None,
        right: None,
    };
    assert_eq!(node.value, 10);
    assert_eq!(node.height, 1);
    assert!(node.left.is_none());
    assert!(node.right.is_none());
}

#[test]
fn test_avl_node_new() {
    let node = AvlNode::new(20);
    assert_eq!(node.value, 20);
    assert_eq!(node.height, 0);
    assert!(node.left.is_none());
    assert!(node.right.is_none());
}

#[test]
fn test_insert_() {
    let mut tree = AvlTree::new();
    let items = vec![10, 20, 5, 15, 25, 10, 34];
    for item in items {
        tree.insert_iter(item);
    }

    assert_eq!(tree.len(), 6);

    assert_eq!(tree.height(), 2);
    assert!(tree.contains(&10));
    assert!(tree.contains(&20));
    assert!(tree.contains(&5));
    assert!(tree.contains(&15));
    assert!(tree.contains(&25));
    assert!(!tree.contains(&30));
    println!("{:#?}", tree);
}

#[test]
fn test_insert_recursive() {
    let mut tree = AvlTree::new();
    let items = vec![10, 20, 5, 15, 25, 10, 34];
    for item in items {
        tree.insert(item);
    }

    assert_eq!(tree.len(), 6);

    assert_eq!(tree.height(), 2);
    assert!(tree.contains(&10));
    assert!(tree.contains(&20));
    assert!(tree.contains(&5));
    assert!(tree.contains(&15));
    assert!(tree.contains(&25));
    assert!(!tree.contains(&30));
}

#[test]
fn test_rebalance_rr() {
    let mut tree = AvlTree::new();
    let items = vec![30, 20, 10];
    for item in items {
        tree.insert(item);
    }

    assert_eq!(tree.len(), 3);
    assert_eq!(tree.root().unwrap().value, 20);
    let root = tree.root().unwrap();
    assert_eq!(root.left.as_ref().unwrap().value, 10);
    assert_eq!(root.right.as_ref().unwrap().value, 30);
}

#[test]
fn test_rebalance_lr() {
    let mut tree = AvlTree::new();
    let items = vec![30, 10, 20];
    for item in items {
        tree.insert(item);
    }

    assert_eq!(tree.len(), 3);
    assert_eq!(tree.root().unwrap().value, 20);
    let root = tree.root().unwrap();
    assert_eq!(root.left.as_ref().unwrap().value, 10);
    assert_eq!(root.right.as_ref().unwrap().value, 30);
}

fn inorder(node: Option<&AvlNode<i32>>, out: &mut Vec<i32>) {
    if let Some(n) = node {
        inorder(n.left.as_deref(), out);
        out.push(n.value);
        inorder(n.right.as_deref(), out);
    }
}

fn balanced(node: Option<&AvlNode<i32>>) -> Option<i32> {
    match node {
        None => Some(-1),
        Some(n) => {
            let l = balanced(n.left.as_deref())?;
            let r = balanced(n.right.as_deref())?;
            if (l - r).abs() > 1 || n.height as i32 != 1 + l.max(r) {
                None
            } else {
                Some(1 + l.max(r))
            }
        }
    }
}

#[test]
fn inserts_keep_the_tree_sorted_and_balanced() {
    let mut a = AvlTree::new();
    let mut b = AvlTree::new();
    for v in 0..100 {
        let x = (v * 37) % 101;
        assert!(a.insert(x));
        assert!(b.insert_iter(x));
    }
    assert!(!a.insert(37));
    assert!(!b.insert_iter(37));
    let mut va = Vec::new();
    inorder(a.root(), &mut va);
    let mut vb = Vec::new();
    inorder(b.root(), &mut vb);
    let mut expected: Vec<i32> = (0..100).map(|v| (v * 37) % 101).collect();
    expected.sort();
    assert_eq!(va, expected);
    assert_eq!(vb, expected);
    assert!(balanced(a.root()).is_some());
    assert!(balanced(b.root()).is_some());
    assert_eq!(a.len(), 100);
    assert!(a.height() <= 8);
    assert_eq!(format!("{:?}", a), format!("{:?}", b));
}

#[test]
fn right_left_case_and_clear() {
    let mut tree = AvlTree::new();
    for v in [10, 30, 20] {
        tree.insert_iter(v);
    }
    assert_eq!(tree.root().unwrap().value, 20);
    assert_eq!(tree.height(), 1);
    tree.clear();
    assert!(tree.is_empty());
    assert_eq!(tree.height(), 0);
    assert!(tree.root().is_none());
}

#[test]
fn new_empty_node_holds_the_default() {
    let node: AvlNode<i32> = AvlNode::new_empty();
    assert_eq!(node.value, 0);
    assert_eq!(node.height, 0);
}
