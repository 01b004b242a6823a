use dstree::bst::{Node, BST};
use dstree::common::traits::CollectVisitor;
use dstree::{OrderedTree, Traversable, Tree, TreeError};

fn built(items: &[i32]) -> BST<i32> {
    let mut bst = BST::new();
    for item in items {
        bst.insert(*item).unwrap();
    }
    bst
}

#[test]
fn test_inorder() {
    let bst = built(&[30, 10, 8, 11, 1, 9, 60, 50, 70]);
    let mut visitor = CollectVisitor { values: vec![] };
    bst.traverse_inorder(&mut visitor);
    assert_eq!(visitor.values, vec![1, 8, 9, 10, 11, 30, 50, 60, 70]);
}

#[test]
fn test_pos_order() {
    let bst = built(&[30, 10, 8, 11, 1, 9, 60, 50, 70]);
    let mut visitor = CollectVisitor { values: vec![] };
    bst.traverse_postorder(&mut visitor);
    assert_eq!(visitor.values, vec![1, 9, 8, 11, 10, 50, 70, 60, 30]);
}

#[test]
fn test_level_order() {
    let bst = built(&[30, 10, 8, 11, 1, 9, 60, 50, 70]);
    let mut visitor = CollectVisitor { values: vec![] };
    bst.traverse_levelorder(&mut visitor);
    assert_eq!(visitor.values, vec![30, 10, 60, 8, 11, 50, 70, 1, 9]);
}

#[test]
fn test_pre_order() {
    let bst = built(&[30, 10, 8, 11, 1, 9, 60, 50, 70]);
    let mut visitor = CollectVisitor { values: vec![] };
    bst.traverse_preorder(&mut visitor);
    assert_eq!(visitor.values, vec![30, 10, 8, 1, 9, 11, 60, 50, 70]);
}

#[test]
fn test_max_value() {
    let mut bst = BST::new();
    bst.insert(30).unwrap();
    bst.insert(10).unwrap();
    bst.insert(8).unwrap();
    bst.insert(2).unwrap();
    bst.insert(1).unwrap();
    bst.insert(60).unwrap();
    bst.insert(40).unwrap();
    bst.insert(32).unwrap();
    bst.insert(50).unwrap();
    bst.insert(70).unwrap();
    bst.insert(65).unwrap();
    bst.insert(67).unwrap();

    let max = bst.max();
    assert_eq!(max, Some(&70));
}

#[test]
fn test_min_value() {
    let mut bst = BST::new();
    bst.insert(30).unwrap();
    bst.insert(10).unwrap();
    bst.insert(8).unwrap();
    bst.insert(2).unwrap();
    bst.insert(1).unwrap();
    bst.insert(60).unwrap();
    bst.insert(40).unwrap();
    bst.insert(32).unwrap();
    bst.insert(50).unwrap();
    bst.insert(70).unwrap();
    bst.insert(65).unwrap();
    bst.insert(67).unwrap();

    let min = bst.min();
    assert_eq!(min, Some(&1));
}

#[test]
fn test_contains_value() {
    let mut bst = BST::new();
    bst.insert(30).unwrap();
    bst.insert(60).unwrap();
    bst.insert(40).unwrap();
    bst.insert(32).unwrap();
    bst.insert(50).unwrap();
    bst.insert(70).unwrap();
    bst.insert(65).unwrap();
    bst.insert(67).unwrap();

    let exp = bst.contains(&32);
    assert!(exp);
}

#[test]
fn test_insert_bst() {
    let mut bst = BST::new();
    bst.insert(30).unwrap();
    bst.insert(60).unwrap();
    bst.insert(40).unwrap();
    bst.insert(32).unwrap();
    bst.insert(50).unwrap();
    bst.insert(70).unwrap();
    bst.insert(65).unwrap();
    bst.insert(67).unwrap();

    assert_eq!(bst.len(), 8);
    assert_eq!(bst.height(), 4);
    println!("{:#?}", bst);
}

fn leaf(v: i32) -> Option<Box<Node<i32>>> {
    Some(Box::new(Node::new(v)))
}

fn node(v: i32, left: Option<Box<Node<i32>>>, right: Option<Box<Node<i32>>>) -> Option<Box<Node<i32>>> {
    Some(Box::new(Node {
        value: v,
        left,
        right,
    }))
}

#[test]
fn test_bst_remove() {
    let root = node(
        30,
        None,
        node(
            60,
            node(40, leaf(32), leaf(50)),
            node(70, node(65, None, node(67, None, leaf(68))), None),
        ),
    );
    let mut bst = BST::from_root(root).unwrap();

    let removed = bst.remove(&70).unwrap();
    assert_eq!(removed, 70);
    println!("{:#?}", bst);
}

#[test]
fn test_bst_only_left_remove() {
    let root = node(30, None, node(60, node(40, leaf(32), leaf(50)), None));
    let mut bst = BST::from_root(root).unwrap();

    let removed = bst.remove(&60).unwrap();
    assert_eq!(removed, 60);
    println!("{:#?}", bst);
}

#[test]
fn test_bst_test_two() {
    let root = node(
        30,
        None,
        node(
            80,
            node(60, None, node(61, None, node(65, leaf(63), None))),
            leaf(90),
        ),
    );
    let mut bst = BST::from_root(root).unwrap();
    let removed = bst.remove(&80).unwrap();
    assert_eq!(removed, 80);
    println!("{:#?}", bst);
}

#[test]
fn test_bst_remove_iterative() {
    // The value 68 hangs to the right of 67, where the search order puts it.
    let root = node(
        30,
        None,
        node(
            60,
            node(40, leaf(32), leaf(50)),
            node(70, node(65, None, node(67, None, leaf(68))), None),
        ),
    );
    let mut bst = BST::from_root(root).unwrap();

    let removed = bst
        .remove_iterative(&70)
        .expect("remove_iterative(70) should succeed");
    assert_eq!(removed, 70);
}

#[test]
fn test_bst_only_left_remove_iterative() {
    let root = node(30, None, node(60, node(40, leaf(32), leaf(50)), None));
    let mut bst = BST::from_root(root).unwrap();

    let removed = bst
        .remove_iterative(&60)
        .expect("remove_iterative(60) should succeed");
    assert_eq!(removed, 60);
}

fn inorder(bst: &BST<i32>) -> Vec<i32> {
    let mut v = CollectVisitor { values: vec![] };
    bst.traverse_inorder(&mut v);
    v.values
}

#[test]
fn insert_of_a_present_value_leaves_the_tree_alone() {
    let mut bst = built(&[5, 3, 8]);
    assert_eq!(bst.insert(3), Ok(()));
    assert_eq!(bst.insert(8), Ok(()));
    assert_eq!(bst.len(), 3);
    assert_eq!(inorder(&bst), vec![3, 5, 8]);
}

#[test]
fn remove_errors() {
    let mut empty: BST<i32> = BST::new();
    assert_eq!(empty.remove(&1), Err(TreeError::EmptyTree));
    assert_eq!(empty.remove_iterative(&1), Err(TreeError::EmptyTree));
    let mut bst = built(&[5, 3, 8]);
    assert_eq!(bst.remove(&4), Err(TreeError::NodeNotFound));
    assert_eq!(bst.remove_iterative(&9), Err(TreeError::NodeNotFound));
    assert_eq!(inorder(&bst), vec![3, 5, 8]);
}

#[test]
fn remove_then_lookup() {
    let mut bst = built(&[50, 30, 70, 20, 40, 60, 80]);
    assert_eq!(bst.remove(&30), Ok(30));
    assert!(!bst.contains(&30));
    assert!(bst.contains(&40));
    assert_eq!(bst.remove_iterative(&50), Ok(50));
    assert!(!bst.contains(&50));
    assert_eq!(inorder(&bst), vec![20, 40, 60, 70, 80]);
    assert_eq!(bst.len(), 5);
}

#[test]
fn insert_then_lookup() {
    let mut bst = built(&[2, 1]);
    assert!(!bst.contains(&3));
    bst.insert(3).unwrap();
    assert!(bst.contains(&3));
    assert!(bst.contains(&1));
    assert!(!bst.contains(&4));
}

#[test]
fn min_max_of_empty_and_height() {
    let mut bst: BST<i32> = BST::default();
    assert_eq!(bst.min(), None);
    assert_eq!(bst.max(), None);
    assert_eq!(bst.height(), 0);
    bst.insert(1).unwrap();
    assert_eq!(bst.height(), 0);
    bst.insert(2).unwrap();
    assert_eq!(bst.height(), 1);
    bst.clear();
    assert!(bst.is_empty());
}

#[test]
fn from_root_refuses_a_tree_out_of_order() {
    let root = node(5, leaf(7), None);
    assert!(matches!(
        BST::from_root(root),
        Err(TreeError::InvariantViolation { .. })
    ));
    assert!(BST::<i32>::from_root(None).is_ok());
}

#[test]
fn removing_a_node_with_two_children_moves_its_predecessor_up() {
    let mut a = built(&[50, 30, 70, 20, 40, 35]);
    let mut b = built(&[50, 30, 70, 20, 40, 35]);
    assert_eq!(a.remove(&50), Ok(50));
    assert_eq!(b.remove_iterative(&50), Ok(50));
    for t in [&a, &b] {
        let mut v = CollectVisitor { values: vec![] };
        t.traverse_preorder(&mut v);
        assert_eq!(v.values, vec![40, 30, 20, 35, 70]);
        assert_eq!(t.height(), 2);
        assert_eq!(t.len(), 5);
    }
}

#[test]
fn inserting_then_removing_an_absent_value_restores_the_tree() {
    let mut bst = built(&[50, 30, 70, 20, 40, 60, 80]);
    let before = format!("{:?}", bst);
    bst.insert(45).unwrap();
    assert_ne!(format!("{:?}", bst), before);
    assert_eq!(bst.remove(&45), Ok(45));
    assert_eq!(format!("{:?}", bst), before);
    bst.insert(65).unwrap();
    assert_eq!(bst.remove_iterative(&65), Ok(65));
    assert_eq!(format!("{:?}", bst), before);
}

#[test]
fn the_walks_visit_the_same_values() {
    let bst = built(&[30, 10, 8, 11, 1, 9, 60, 50, 70]);
    let mut walks = Vec::new();
    let mut v = CollectVisitor { values: vec![] };
    bst.traverse_inorder(&mut v);
    walks.push(v.values);
    let mut v = CollectVisitor { values: vec![] };
    bst.traverse_preorder(&mut v);
    walks.push(v.values);
    let mut v = CollectVisitor { values: vec![] };
    bst.traverse_postorder(&mut v);
    walks.push(v.values);
    let mut v = CollectVisitor { values: vec![] };
    bst.traverse_levelorder(&mut v);
    walks.push(v.values);
    for w in walks.iter_mut() {
        w.sort();
    }
    for w in &walks {
        assert_eq!(w, &walks[0]);
    }
    assert_eq!(walks[0].len(), bst.len());
}
