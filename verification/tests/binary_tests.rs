use dstree::binary::{BinaryTree, Node};
use dstree::common::visualize::{TreeVisualBuilder, Visualize};
use dstree::Tree;

#[test]
fn test_binary_tree_creation() {
    let tree: BinaryTree<i32> = BinaryTree { root: None };
    assert!(tree.root.is_none());
}

#[test]
fn test_binary_tree_is_empty() {
    let tree: BinaryTree<i32> = BinaryTree::new();
    assert!(tree.is_empty());
}

#[test]
fn test_binary_tree_is_not_empty() {
    let node = Node {
        value: 10,
        left: None,
        right: None,
    };
    let tree = BinaryTree {
        root: Some(Box::new(node)),
    };
    assert!(!tree.is_empty());
}

#[test]
fn test_binary_tree_len() {
    let mut tree: BinaryTree<i32> = BinaryTree::new();
    assert_eq!(tree.len(), 0);

    tree.root = Some(Box::new(Node {
        value: 10,
        left: Some(Box::new(Node {
            value: 5,
            left: None,
            right: None,
        })),
        right: Some(Box::new(Node {
            value: 15,
            left: None,
            right: None,
        })),
    }));
    assert_eq!(tree.len(), 3);
}

#[test]
fn test_binary_tree_height() {
    let mut tree: BinaryTree<i32> = BinaryTree::new();
    assert_eq!(tree.height(), 0);

    tree.root = Some(Box::new(Node {
        value: 10,
        left: Some(Box::new(Node {
            value: 5,
            left: Some(Box::new(Node {
                value: 3,
                left: None,
                right: None,
            })),
            right: None,
        })),
        right: Some(Box::new(Node {
            value: 15,
            left: None,
            right: None,
        })),
    }));
    assert_eq!(tree.height(), 3);
}

#[test]
fn test_insert_random() {
    let mut tree: BinaryTree<i32> = BinaryTree::new();
    tree.insert_random(10);
    assert_eq!(tree.len(), 1);

    tree.insert_random(5);
    tree.insert_random(15);
    assert_eq!(tree.len(), 3);
}

fn inorder(tree: &BinaryTree<i32>) -> Vec<i32> {
    let mut it = tree.inorder_iter();
    let mut out = Vec::new();
    while let Some(v) = it.next() {
        out.push(*v);
    }
    out
}

#[test]
fn add_left_goes_below_the_leftmost_node() {
    let mut tree = BinaryTree::new();
    tree.add_left(0);
    assert!(tree.is_empty());
    tree.add_root(1);
    tree.add_left(2);
    tree.add_left(3);
    assert_eq!(tree.root.as_ref().unwrap().value, 1);
    assert_eq!(inorder(&tree), vec![3, 2, 1]);
    assert_eq!(tree.height(), 3);
}

#[test]
fn add_right_goes_below_the_rightmost_node() {
    let mut tree = BinaryTree::new();
    tree.add_root(1);
    tree.add_right(2);
    tree.add_right(3);
    tree.add_left(0);
    assert_eq!(inorder(&tree), vec![0, 1, 2, 3]);
    assert_eq!(Tree::height(&tree), 2);
    assert_eq!(tree.height(), 3);
}

#[test]
fn add_root_replaces_the_whole_tree() {
    let mut tree = BinaryTree::new();
    tree.add_root(1);
    tree.add_left(2);
    tree.add_root(9);
    assert_eq!(tree.len(), 1);
    assert_eq!(tree.get_root().unwrap().value, 9);
}

#[test]
fn insert_on_side_descends_one_side() {
    let mut tree = BinaryTree::new();
    tree.insert_on_side(1, true);
    tree.insert_on_side(2, true);
    tree.insert_on_side(3, false);
    assert_eq!(inorder(&tree), vec![2, 1, 3]);
}

#[test]
fn insert_adds_one_node() {
    let mut tree = BinaryTree::new();
    for v in 0..20 {
        tree.insert(v);
    }
    assert_eq!(tree.len(), 20);
    let mut values = inorder(&tree);
    values.sort();
    assert_eq!(values, (0..20).collect::<Vec<i32>>());
}

#[test]
fn clear_empties_the_tree() {
    let mut tree = BinaryTree::default();
    tree.add_root(1);
    tree.add_left(2);
    tree.clear();
    assert!(tree.is_empty());
    assert_eq!(tree.len(), 0);
    assert_eq!(Tree::height(&tree), 0);
}

#[test]
fn test_with_visualization() {
    let mut tree = BinaryTree::new();
    tree.add_root(10);
    tree.add_left(5);
    tree.add_left(53);
    tree.add_left(533);
    tree.add_right(15);
    tree.add_right(154);
    tree.add_right(158);

    println!("{}", tree.visualize());

    let mut builder = TreeVisualBuilder::new();
    builder.add_line(&format!("Tree with {} nodes", tree.len()));
    builder.add_line(&format!("Height: {}", tree.height()));
    builder.add_line("");

    tree.insert_random(29);
    tree.insert_random(28);
    tree.insert_random(21);
    tree.insert_random(22);
    tree.insert_random(23);
    builder.add_line(&tree.visualize());
    println!("{}", builder.build());
}

#[test]
fn trait_height_counts_edges() {
    let tree = BinaryTree {
        root: Some(Box::new(Node::new(7))),
    };
    assert_eq!(<BinaryTree<i32> as Tree<i32>>::height(&tree), 0);
    assert_eq!(tree.height(), 1);
    let empty: BinaryTree<i32> = BinaryTree::new();
    assert_eq!(<BinaryTree<i32> as Tree<i32>>::height(&empty), 0);
}
