//! Two linked lists: a stack of boxed nodes, and a deque with links both ways.
pub mod ok_stack;
pub mod bad_safe_double_linked_deque;
