# playground

Classic data structures and sorting algorithms, written in Verus with their
behaviour stated as contracts and proved.

- `src/order.rs`: the ordering the other modules rely on (`le`, total
  preorders and total orders over `PartialOrd`).
- `src/sorting_testing.rs`: insertion, bubble, selection, merge and quick sort;
  each returns a rearrangement of its input, sorted when the elements form a
  total preorder; insertion, bubble and merge sort are stable.
- `src/b_tree.rs`: a B-tree of minimum degree `order` holding a multiset of
  keys, with insertion, removal, lookup and a level-by-level listing of its
  nodes. The B-tree shape is a type invariant, and the contracts fix the
  exact shape each insertion and removal leaves.
- `src/linked_lists/ok_stack.rs`: a stack as a singly linked list of boxed
  nodes, with iterators by value, by reference and by mutable reference.
- `src/linked_lists/bad_safe_double_linked_deque.rs`: a list linked both ways
  whose nodes live in a vector and refer to each other by position.
- `src/change_filetype.rs`: the decisions of a tool that renames the files of a
  folder from one extension to another.
- `app/`: a small program that prints a B-tree level by level, and the
  file-renaming tool's input and output.
- `tests/`: tests of the library on concrete values.
