use dstree::binary::{BinaryTree, Node};
use dstree::binary_traversal::{
    inoder_traversal, levelorder_traversal, postorder_traversal, preorder_traversal,
};
use dstree::common::traits::CollectVisitor;
use dstree::Traversable;

fn sample_tree() -> BinaryTree<i32> {
    let mut tree = BinaryTree::new();
    tree.add_root(4);
    let mut left = Box::new(Node::new(2));
    let mut right = Box::new(Node::new(6));
    right.left = Some(Box::new(Node::new(5)));
    right.right = Some(Box::new(Node::new(7)));
    left.left = Some(Box::new(Node::new(1)));
    left.right = Some(Box::new(Node::new(3)));
    tree.root.as_mut().unwrap().left = Some(left);
    tree.root.as_mut().unwrap().right = Some(right);
    tree
}

#[test]
fn test_tree_inter() {
    let tree = sample_tree();

    let mut result = Vec::new();
    let mut it = tree.inorder_iter();
    while let Some(value) = it.next() {
        result.push(*value);
    }

    assert_eq!(result, vec![1, 2, 3, 4, 5, 6, 7]);
}

#[test]
fn test_iter_inorder() {
    let tree = sample_tree();

    let mut iter = tree.inorder_iter();
    let mut result = Vec::new();
    while let Some(value) = iter.next() {
        result.push(*value);
    }

    assert_eq!(result, vec![1, 2, 3, 4, 5, 6, 7]);
}

#[test]
fn test_inorder_traversal_collect() {
    let tree = sample_tree();

    let mut collector = CollectVisitor { values: Vec::new() };
    tree.traverse_inorder(&mut collector);

    assert_eq!(collector.values, vec![1, 2, 3, 4, 5, 6, 7]);
}

#[test]
fn test_inorder_req_traversal_collect() {
    let tree = sample_tree();

    let mut collector = CollectVisitor { values: Vec::new() };
    inoder_traversal(&tree, &mut collector);
    assert_eq!(collector.values, vec![1, 2, 3, 4, 5, 6, 7]);
}

#[test]
fn test_preorder() {
    let tree = sample_tree();

    let mut collector = CollectVisitor { values: Vec::new() };
    tree.traverse_preorder(&mut collector);

    assert_eq!(collector.values, vec![4, 2, 1, 3, 6, 5, 7]);

    let mut collector = CollectVisitor { values: Vec::new() };

    preorder_traversal(&tree, &mut collector);
    assert_eq!(collector.values, vec![4, 2, 1, 3, 6, 5, 7]);
}

#[test]
fn test_postorder() {
    let tree = sample_tree();

    let mut collector = CollectVisitor { values: Vec::new() };
    tree.traverse_postorder(&mut collector);

    assert_eq!(collector.values, vec![1, 3, 2, 5, 7, 6, 4]);

    let mut collector = CollectVisitor { values: Vec::new() };
    postorder_traversal(&tree, &mut collector);
    assert_eq!(collector.values, vec![1, 3, 2, 5, 7, 6, 4]);
}

#[test]
fn test_levelorder() {
    let tree = sample_tree();

    let mut collector = CollectVisitor { values: Vec::new() };
    tree.traverse_levelorder(&mut collector);

    assert_eq!(collector.values, vec![4, 2, 6, 1, 3, 5, 7]);

    let mut collector = CollectVisitor { values: Vec::new() };
    levelorder_traversal(&tree, &mut collector);
    assert_eq!(collector.values, vec![4, 2, 6, 1, 3, 5, 7]);
}

#[test]
fn traversals_of_an_empty_tree_visit_nothing() {
    let tree: BinaryTree<i32> = BinaryTree::new();
    let mut c = CollectVisitor { values: Vec::new() };
    tree.traverse_inorder(&mut c);
    tree.traverse_preorder(&mut c);
    tree.traverse_postorder(&mut c);
    tree.traverse_levelorder(&mut c);
    assert!(c.values.is_empty());
    let mut it = tree.inorder_iter();
    assert!(it.next().is_none());
}

#[test]
fn level_order_of_a_lopsided_tree() {
    let mut tree = BinaryTree::new();
    tree.add_root(1);
    tree.add_left(2);
    tree.add_left(3);
    tree.add_right(4);
    let mut a = CollectVisitor { values: Vec::new() };
    tree.traverse_levelorder(&mut a);
    let mut b = CollectVisitor { values: Vec::new() };
    levelorder_traversal(&tree, &mut b);
    assert_eq!(a.values, vec![1, 2, 4, 3]);
    assert_eq!(b.values, a.values);
}

#[test]
fn get_root_mut_changes_the_root_value() {
    let mut tree = sample_tree();
    tree.get_root_mut().unwrap().value = 40;
    let mut c = CollectVisitor { values: Vec::new() };
    tree.traverse_preorder(&mut c);
    assert_eq!(c.values, vec![40, 2, 1, 3, 6, 5, 7]);
}

fn inorder_values(tree: &BinaryTree<i32>) -> Vec<i32> {
    let mut result = Vec::new();
    let mut it = tree.inorder_iter();
    while let Some(value) = it.next() {
        result.push(*value);
    }
    result
}

#[test]
fn inorder_value_mut_writes_the_first_value() {
    let mut tree = sample_tree();
    if let Some(value) = tree.inorder_value_mut(0) {
        *value = 10;
    }
    assert_eq!(inorder_values(&tree), vec![10, 2, 3, 4, 5, 6, 7]);
}

#[test]
fn inorder_value_mut_reaches_every_position() {
    let mut tree = sample_tree();
    assert_eq!(tree.inorder_value_mut(3).map(|v| *v), Some(4));
    assert_eq!(tree.inorder_value_mut(6).map(|v| *v), Some(7));
    if let Some(value) = tree.inorder_value_mut(4) {
        *value = 50;
    }
    assert_eq!(inorder_values(&tree), vec![1, 2, 3, 4, 50, 6, 7]);
    assert!(tree.inorder_value_mut(7).is_none());
    assert!(BinaryTree::<i32>::new().inorder_value_mut(0).is_none());
}
