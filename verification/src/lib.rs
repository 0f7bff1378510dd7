//! Classic data structures and sorting algorithms with machine-checked contracts:
//! a B-tree of keys, a singly linked stack, a front-only deque, five sorting
//! algorithms, and the argument handling of a small file-renaming tool.
pub mod order;
pub mod sorting_testing;
pub mod b_tree;
pub mod change_filetype;
pub mod linked_lists;
