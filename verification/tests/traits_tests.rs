use dstree::common::traits::CollectVisitor;
use dstree::{Tree, Visitor};

struct MockTree {
    size: usize,
}

impl Tree<i32> for MockTree {
    fn len(&self) -> usize {
        self.size
    }

    fn clear(&mut self) {
        self.size = 0;
    }

    fn height(&self) -> usize {
        0
    }
}

#[test]
fn test_is_empty_default_impl() {
    let tree = MockTree { size: 0 };
    assert!(tree.is_empty());

    let tree = MockTree { size: 5 };
    assert!(!tree.is_empty());
}

#[test]
fn test_visitor_pattern() {
    let mut visitor = CollectVisitor { values: Vec::new() };
    visitor.visit(&1);
    visitor.visit(&2);
    visitor.visit(&3);

    assert_eq!(visitor.values, vec![1, 2, 3]);
}

#[test]
fn collect_visitor_appends_after_existing_values() {
    let mut visitor = CollectVisitor { values: vec![9] };
    visitor.visit(&-4);
    assert_eq!(visitor.values, vec![9, -4]);
}
