use dstree::common::visualize::{
    format_node_value, format_node_value_colored, TreeVisualBuilder, Visualize,
};
use dstree::binary::{BinaryTree, Node};

#[test]
fn test_tree_visual_builder() {
    let mut builder = TreeVisualBuilder::new();
    let viz = builder
        .add_line("Root")
        .indent()
        .add_line("Child 1")
        .add_line("Child 2")
        .dedent()
        .build();

    assert!(viz.contains("Root"));
    assert!(viz.contains("Child 1"));
    assert!(viz.contains("Child 2"));
}

#[test]
fn test_add_node() {
    let mut builder = TreeVisualBuilder::new();
    builder.add_node(&5, true);
    builder.add_node(&3, false);

    let viz = builder.build();
    assert!(viz.contains("├─ 5"));
    assert!(viz.contains("└─ 3"));
}

#[test]
fn test_format_node_value() {
    assert_eq!(format_node_value(&42), "42");
    assert_eq!(format_node_value(&"hello"), "hello");
}

#[test]
fn test_indent_dedent() {
    let mut builder = TreeVisualBuilder::new();
    assert_eq!(builder.indent_level, 0);

    builder.indent();
    assert_eq!(builder.indent_level, 1);

    builder.indent();
    assert_eq!(builder.indent_level, 2);

    builder.dedent();
    assert_eq!(builder.indent_level, 1);

    builder.dedent();
    assert_eq!(builder.indent_level, 0);

    // Should not go below 0
    builder.dedent();
    assert_eq!(builder.indent_level, 0);
}

#[test]
fn build_indents_two_spaces_per_level_and_joins_with_newlines() {
    let mut builder = TreeVisualBuilder::default();
    builder.add_line("a").indent().add_line("b").indent().add_line("c");
    assert_eq!(builder.build(), "a\n  b\n    c");
    assert_eq!(TreeVisualBuilder::new().build(), "");
}

#[test]
fn build_colored_keeps_plain_lines_and_colors_marked_ones() {
    let mut builder = TreeVisualBuilder::new();
    builder.add_line("title");
    builder.add_node(&7, false);
    let colored = builder.build_colored();
    let lines: Vec<&str> = colored.split('\n').collect();
    assert_eq!(lines.len(), 2);
    assert_eq!(lines[0], "title");
    assert!(lines[1] == "└─ 7" || lines[1] == "\x1b[94m└─ 7\x1b[0m");
}

#[test]
fn format_node_value_colored_is_plain_or_green() {
    let s = format_node_value_colored(&42);
    assert!(s == "42" || s == "\x1b[32m42\x1b[0m");
}

#[test]
fn visualize_draws_each_node_below_its_parent() {
    let mut tree = BinaryTree::new();
    tree.add_root(1);
    let mut left = Box::new(Node::new(2));
    left.left = Some(Box::new(Node::new(4)));
    tree.root.as_mut().unwrap().left = Some(left);
    tree.root.as_mut().unwrap().right = Some(Box::new(Node::new(3)));
    assert_eq!(
        tree.visualize(),
        "└─ 1\n   ├─ 2\n   │  └─ 4\n   └─ 3"
    );
    assert_eq!(tree.visualize_colored(), tree.visualize());
    let empty: BinaryTree<i32> = BinaryTree::new();
    assert_eq!(empty.visualize(), "(empty tree)");
}
