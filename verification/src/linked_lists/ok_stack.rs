//! A stack kept as a singly linked list of boxed nodes.
//!
//! The stack is seen as the sequence of its elements from the top down:
//! `push` puts an element in front, `pop` takes the front one off.
use vstd::prelude::*;

verus! {

pub struct List<T> {
    head: Option<Box<Node<T>>>,
}

/// A node of the chain: an element and the rest of the chain below it.
pub struct Node<T> {
    pub elem: T,
    pub next: Option<Box<Node<T>>>,
}

/// The elements of the chain of nodes that starts at `link`, first to last.
pub closed spec fn link_seq<T>(link: Option<Box<Node<T>>>) -> Seq<T>
    decreases link,
{
    match link {
        None => Seq::empty(),
        Some(node) => seq![node.elem] + link_seq(node.next),
    }
}

impl<T> View for List<T> {
    type V = Seq<T>;

    /// The elements from the top of the stack down.
    closed spec fn view(&self) -> Seq<T> {
        link_seq(self.head)
    }
}

impl<T> List<T> {
    /// An empty stack.
    pub fn new() -> (list: Self)
        ensures
            list@ == Seq::<T>::empty(),
    {
        List { head: None }
    }

    /// Puts `elem` on top of the stack.
    pub fn push(&mut self, elem: T)
        ensures
            final(self)@ == seq![elem] + old(self)@,
    {
        let node = Box::new(Node { elem, next: self.head.take() });
        self.head = Some(node);
    }

    /// Takes the top element off the stack, if there is one.
    pub fn pop(&mut self) -> (r: Option<T>)
        ensures
            old(self)@.len() == 0 ==> r is None && final(self)@ == old(self)@,
            old(self)@.len() > 0 ==> r == Some(old(self)@[0]) && final(self)@ == old(self)@.drop_first(),
    {
        match self.head.take() {
            None => None,
            Some(node) => {
                let node = *node;
                self.head = node.next;
                proof {
                    assert(old(self)@ =~= seq![node.elem] + link_seq(node.next));
                }
                Some(node.elem)
            },
        }
    }

    /// The top element, if there is one.
    pub fn peek(&self) -> (r: Option<&T>)
        ensures
            self@.len() == 0 ==> r is None,
            self@.len() > 0 ==> r == Some(&self@[0]),
    {
        match &self.head {
            None => None,
            Some(node) => Some(&node.elem),
        }
    }

    /// The top element, for changing in place, if there is one.
    pub fn peek_mut(&mut self) -> (r: Option<&mut T>)
        ensures
            old(self)@.len() == 0 ==> r is None && final(self)@ == old(self)@,
            old(self)@.len() > 0 ==> r is Some && *r->0 == old(self)@[0]
                && final(self)@ == old(self)@.update(0, *final(r->0)),
    {
        match &mut self.head {
            None => None,
            Some(node) => Some(&mut node.elem),
        }
    }

    /// An iterator over the elements from the top down, for changing them in place.
    pub fn iter_mut(&mut self) -> (it: IterMut<'_, T>)
        ensures
            it@ == old(self)@,
            final(self)@ == (match it.next {
                None => Seq::<T>::empty(),
                Some(node) => seq![final(node).elem] + link_seq(final(node).next),
            }),
    {
        IterMut {
            next: match &mut self.head {
                None => None,
                Some(node) => Some(&mut **node),
            },
        }
    }

    /// Turns the stack into an iterator that takes its elements from the top.
    pub fn into_iter(self) -> (it: IntoIter<T>)
        ensures
            it@ == self@,
    {
        IntoIter(self)
    }

    /// An iterator over the elements from the top down.
    pub fn iter(&self) -> (it: Iter<'_, T>)
        ensures
            it@ == self@,
    {
        Iter {
            next: match &self.head {
                None => None,
                Some(node) => Some(&**node),
            },
        }
    }
}

impl<T> Drop for List<T> {
    /// Frees the nodes one by one, from the top down, so that a long stack does
    /// not take a deep recursion to free.
    fn drop(&mut self)
        opens_invariants none
        no_unwind
    {
        let mut cur_link: Option<Box<Node<T>>> = None;
        std::mem::swap(&mut cur_link, &mut self.head);
        loop
            decreases link_seq(cur_link).len(),
        {
            match cur_link {
                None => {
                    break;
                },
                Some(mut boxed_node) => {
                    let mut next: Option<Box<Node<T>>> = None;
                    std::mem::swap(&mut next, &mut boxed_node.next);
                    cur_link = next;
                },
            }
        }
    }
}

/// The elements of a stack, handed out by value from the top down.
pub struct IntoIter<T>(List<T>);

impl<T> View for IntoIter<T> {
    type V = Seq<T>;

    /// The elements not handed out yet.
    closed spec fn view(&self) -> Seq<T> {
        self.0@
    }
}

impl<T> IntoIter<T> {
    /// The next element, if any is left.
    pub fn next(&mut self) -> (r: Option<T>)
        ensures
            old(self)@.len() == 0 ==> r is None && final(self)@ == old(self)@,
            old(self)@.len() > 0 ==> r == Some(old(self)@[0]) && final(self)@ == old(self)@.drop_first(),
    {
        self.0.pop()
    }
}

/// The elements of a stack, handed out by reference from the top down.
pub struct Iter<'a, T> {
    next: Option<&'a Node<T>>,
}

impl<'a, T> View for Iter<'a, T> {
    type V = Seq<T>;

    /// The elements not handed out yet.
    closed spec fn view(&self) -> Seq<T> {
        match self.next {
            None => Seq::empty(),
            Some(node) => seq![node.elem] + link_seq(node.next),
        }
    }
}

impl<'a, T> Iter<'a, T> {
    /// The next element, if any is left.
    pub fn next(&mut self) -> (r: Option<&'a T>)
        ensures
            old(self)@.len() == 0 ==> r is None && final(self)@ == old(self)@,
            old(self)@.len() > 0 ==> r == Some(&old(self)@[0]) && final(self)@ == old(self)@.drop_first(),
    {
        match self.next {
            None => None,
            Some(node) => {
                self.next = match &node.next {
                    None => None,
                    Some(n) => Some(&**n),
                };
                proof {
                    assert(old(self)@.drop_first() =~= link_seq(node.next));
                }
                Some(&node.elem)
            },
        }
    }
}

/// The elements of a stack, handed out by mutable reference from the top down.
pub struct IterMut<'a, T> {
    /// The node whose element is handed out next; its borrow ends with the
    /// iterator's, and the contracts speak of the values it will hold then.
    pub next: Option<&'a mut Node<T>>,
}

impl<'a, T> View for IterMut<'a, T> {
    type V = Seq<T>;

    /// The elements not handed out yet, as they are now.
    open spec fn view(&self) -> Seq<T> {
        match self.next {
            None => Seq::empty(),
            Some(node) => seq![node.elem] + link_seq(node.next),
        }
    }
}

impl<'a, T> IterMut<'a, T> {
    /// The next element, if any is left.
    pub fn next(&mut self) -> (r: Option<&'a mut T>)
        ensures
            old(self)@.len() == 0 ==> r is None && final(self)@ == old(self)@,
            old(self)@.len() == 0 ==> (match old(self).next {
                None => Seq::<T>::empty(),
                Some(node) => seq![final(node).elem] + link_seq(final(node).next),
            }) == (match final(self).next {
                None => Seq::<T>::empty(),
                Some(node) => seq![final(node).elem] + link_seq(final(node).next),
            }),
            old(self)@.len() > 0 ==> r is Some && *r->0 == old(self)@[0] && final(self)@ == old(self)@.drop_first(),
            old(self)@.len() > 0 ==> (match old(self).next {
                None => Seq::<T>::empty(),
                Some(node) => seq![final(node).elem] + link_seq(final(node).next),
            }) == seq![*final(r->0)] + (match final(self).next {
                None => Seq::<T>::empty(),
                Some(node) => seq![final(node).elem] + link_seq(final(node).next),
            }),
    {
        match self.next.take() {
            None => None,
            Some(node) => {
                self.next = match &mut node.next {
                    None => None,
                    Some(n) => Some(&mut **n),
                };
                Some(&mut node.elem)
            },
        }
    }
}

/// Popping right after pushing gives back the pushed element and leaves the
/// stack as it was before the push.
pub proof fn lemma_push_then_pop<T>(before: List<T>, pushed: List<T>, popped: List<T>, elem: T, r: Option<T>)
    requires
        pushed@ == seq![elem] + before@,
        pushed@.len() > 0 ==> r == Some(pushed@[0]) && popped@ == pushed@.drop_first(),
    ensures
        r == Some(elem),
        popped@ == before@,
{
    assert(pushed@.drop_first() =~= before@);
}

} // verus!
