use playground::linked_lists::bad_safe_double_linked_deque;
use playground::linked_lists::ok_stack::List;

#[test]
fn stack_basics() {
    let mut list = List::new();
    assert_eq!(list.pop(), None);
    list.push(1);
    list.push(2);
    list.push(3);
    assert_eq!(list.pop(), Some(3));
    assert_eq!(list.pop(), Some(2));
    list.push(4);
    list.push(5);
    assert_eq!(list.pop(), Some(5));
    assert_eq!(list.pop(), Some(4));
    assert_eq!(list.pop(), Some(1));
    assert_eq!(list.pop(), None);
}

#[test]
fn stack_peek() {
    let mut list = List::new();
    assert_eq!(list.peek(), None);
    assert_eq!(list.peek_mut(), None);
    list.push(1);
    list.push(2);
    list.push(3);
    assert_eq!(list.peek(), Some(&3));
    assert_eq!(list.peek_mut(), Some(&mut 3));
    if let Some(value) = list.peek_mut() {
        *value = 42;
    }
    assert_eq!(list.peek(), Some(&42));
    assert_eq!(list.pop(), Some(42));
}

#[test]
fn stack_into_iter() {
    let mut list = List::new();
    list.push(1);
    list.push(2);
    list.push(3);
    let mut iter = list.into_iter();
    assert_eq!(iter.next(), Some(3));
    assert_eq!(iter.next(), Some(2));
    assert_eq!(iter.next(), Some(1));
    assert_eq!(iter.next(), None);
}

#[test]
fn stack_iter() {
    let mut list = List::new();
    list.push(1);
    list.push(2);
    list.push(3);
    let mut iter = list.iter();
    assert_eq!(iter.next(), Some(&3));
    assert_eq!(iter.next(), Some(&2));
    assert_eq!(iter.next(), Some(&1));
    assert_eq!(iter.next(), None);
    assert_eq!(list.peek(), Some(&3));
}

#[test]
fn stack_iter_mut() {
    let mut list = List::new();
    list.push(1);
    list.push(2);
    list.push(3);
    {
        let mut iter = list.iter_mut();
        assert_eq!(iter.next(), Some(&mut 3));
        if let Some(v) = iter.next() {
            *v = 20;
        }
        assert_eq!(iter.next(), Some(&mut 1));
        assert_eq!(iter.next(), None);
    }
    assert_eq!(list.pop(), Some(3));
    assert_eq!(list.pop(), Some(20));
    assert_eq!(list.pop(), Some(1));
}

#[test]
fn stack_long_list_drops() {
    let mut list = List::new();
    for i in 0..200_000 {
        list.push(i);
    }
    assert_eq!(list.peek(), Some(&199_999));
    drop(list);
}

#[test]
fn deque_basics() {
    let mut list = bad_safe_double_linked_deque::List::new();
    assert_eq!(list.pop_front(), None);
    list.push_front(1);
    list.push_front(2);
    list.push_front(3);
    assert_eq!(list.pop_front(), Some(3));
    assert_eq!(list.pop_front(), Some(2));
    list.push_front(4);
    list.push_front(5);
    assert_eq!(list.pop_front(), Some(5));
    assert_eq!(list.pop_front(), Some(4));
    assert_eq!(list.pop_front(), Some(1));
    assert_eq!(list.pop_front(), None);
}

#[test]
fn deque_many_operations() {
    let mut list = bad_safe_double_linked_deque::List::new();
    let mut reference: Vec<u32> = Vec::new();
    let mut seed: u64 = 99;
    for i in 0..2000u32 {
        seed = seed.wrapping_mul(6364136223846793005).wrapping_add(1442695040888963407);
        if (seed >> 40) % 3 == 0 {
            assert_eq!(list.pop_front(), reference.pop());
        } else {
            list.push_front(i);
            reference.push(i);
        }
    }
    while let Some(x) = reference.pop() {
        assert_eq!(list.pop_front(), Some(x));
    }
    assert_eq!(list.pop_front(), None);
}

#[test]
fn deque_node_new() {
    let node = bad_safe_double_linked_deque::Node::new(5);
    let _ = node;
}
