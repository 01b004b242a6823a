# dstree

Tree data structures whose behaviour is stated in contracts and proved with
Verus.

- `src/common`: the tree traits (`Tree`, `OrderedTree`, `Traversable`,
  `Visitor`), the error type, the mathematical model of a binary tree
  (`shape.rs`), the key sequences and node layouts of B-trees (`weave.rs`)
  and the text-drawing helpers (`visualize.rs`).
- `src/binary.rs`, `src/binary_traversal.rs`: a plain binary tree, its four
  traversals (iterative and recursive), an in-order iterator and mutable
  access to any value of the in-order walk.
- `src/bst.rs`: a binary search tree with recursive and iterative removal.
- `src/avl.rs`: an AVL tree with recursive and iterative insertion.
- `src/btree.rs`: a B-tree of any order that splits full nodes on the way down.
- `src/b_tree.rs`: a B-tree of order five that splits on the way back up.
- `tests/`: scenarios run against the compiled library.
- `app/`: what stays outside the verified library: the error type with the
  `thiserror` derive, `Iterator` adapters, and a mutable in-order walk.
