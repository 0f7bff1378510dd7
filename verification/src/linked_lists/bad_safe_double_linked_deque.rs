//! A list whose nodes link both ways, to the node before and to the node after,
//! and which keeps its first and its last node. Elements go in and come out at
//! the front.
//!
//! The nodes live in a vector and link to each other by their positions in it.
//! The vector holds exactly the nodes of the list: when the first node leaves,
//! the node stored last in the vector moves into its place and its neighbours
//! are told its new position.
use vstd::prelude::*;

verus! {

/// A node of the list: an element and the positions of its neighbours.
pub struct Node<T> {
    elem: T,
    next: Option<usize>,
    prev: Option<usize>,
}

impl<T> Node<T> {
    /// The element the node holds.
    pub closed spec fn value(&self) -> T {
        self.elem
    }

    /// The node links to no other node.
    pub closed spec fn is_unlinked(&self) -> bool {
        self.next is None && self.prev is None
    }

    /// A node holding `elem`, linked to nothing yet.
    pub fn new(elem: T) -> (node: Self)
        ensures
            node.value() == elem,
            node.is_unlinked(),
    {
        Node { elem, prev: None, next: None }
    }
}

/// The vector of nodes, the first and the last node, and the order in which
/// the nodes link up.
struct Links<T> {
    nodes: Vec<Node<T>>,
    head: Option<usize>,
    tail: Option<usize>,
    /// The positions in `nodes` of the list's nodes, first to last.
    order: Ghost<Seq<usize>>,
}

/// `i` is one of the values of `s`.
pub open spec fn appears(s: Seq<usize>, i: int) -> bool {
    exists|p: int| 0 <= p < s.len() && s[p] == i
}

impl<T> Links<T> {
    /// The position of the node after the `p`-th node of the list.
    spec fn next_of(self, p: int) -> Option<usize> {
        if p + 1 < self.order@.len() {
            Some(self.order@[p + 1])
        } else {
            None
        }
    }

    /// The position of the node before the `p`-th node of the list.
    spec fn prev_of(self, p: int) -> Option<usize> {
        if p > 0 {
            Some(self.order@[p - 1])
        } else {
            None
        }
    }

    /// The nodes link up in the order that `order` records, each node of the
    /// vector once; `head` and `tail` name the first and the last of them.
    #[verifier::opaque]
    spec fn wf(self) -> bool {
        let ord = self.order@;
        let n = self.nodes.len();
        &&& ord.len() == n
        &&& forall|p: int| 0 <= p < n ==> #[trigger] ord[p] < n
        &&& forall|p: int, q: int| 0 <= p < q < n ==> #[trigger] ord[p] != #[trigger] ord[q]
        &&& forall|i: int| 0 <= i < n ==> #[trigger] appears(ord, i)
        &&& self.head == (if n == 0 { None } else { Some(ord[0]) })
        &&& self.tail == (if n == 0 { None } else { Some(ord[n - 1]) })
        &&& forall|p: int| 0 <= p < n ==> self.nodes@[#[trigger] ord[p] as int].next == self.next_of(p)
        &&& forall|p: int| 0 <= p < n ==> self.nodes@[#[trigger] ord[p] as int].prev == self.prev_of(p)
    }
}

/// The position a node stored at `i` has once the node stored at `last` has
/// moved to `h`.
spec fn renamed(i: usize, last: usize, h: usize) -> usize {
    if i == last {
        h
    } else {
        i
    }
}

/// The position a node now stored at `j` was stored at before the node
/// stored at `last` moved to `h`.
spec fn source(j: int, last: usize, h: usize) -> int {
    if j == h {
        last as int
    } else {
        j
    }
}

/// A link, with `last` renamed to `h`.
spec fn renamed_link(l: Option<usize>, last: usize, h: usize) -> Option<usize> {
    match l {
        None => None,
        Some(i) => Some(renamed(i, last, h)),
    }
}

/// The node `new` is `old` once the first node, at `h`, has left and the node
/// stored at `last` has moved to `h`.
spec fn moved_ok<T>(new: Node<T>, old: Node<T>, last: usize, h: usize) -> bool {
    &&& new.elem == old.elem
    &&& new.next == renamed_link(old.next, last, h)
    &&& new.prev == (if old.prev == Some(h) { None } else { renamed_link(old.prev, last, h) })
}

/// What the well-formedness of a list says of its ends.
proof fn lemma_wf_basic<T>(l: Links<T>)
    requires
        l.wf(),
    ensures
        l.order@.len() == l.nodes.len(),
        l.head == (if l.nodes.len() == 0 { None } else { Some(l.order@[0]) }),
        l.tail == (if l.nodes.len() == 0 { None } else { Some(l.order@[l.nodes.len() - 1]) }),
        forall|i: int| 0 <= i < l.nodes.len() ==> #[trigger] appears(l.order@, i),
{
    reveal(Links::wf);
}

/// What the well-formedness of a list says of its `p`-th node.
proof fn lemma_wf_pos<T>(l: Links<T>, p: int)
    requires
        l.wf(),
        0 <= p < l.nodes.len(),
    ensures
        l.order@[p] < l.nodes.len(),
        l.nodes@[l.order@[p] as int].next == l.next_of(p),
        l.nodes@[l.order@[p] as int].prev == l.prev_of(p),
        forall|q: int| 0 <= q < l.nodes.len() && q != p ==> l.order@[q] != #[trigger] l.order@[p],
{
    reveal(Links::wf);
    assert forall|q: int| 0 <= q < l.nodes.len() && q != p implies l.order@[q] != #[trigger] l.order@[p] by {
        if q < p {
            assert(l.order@[q] != l.order@[p]);
        } else {
            assert(l.order@[p] != l.order@[q]);
        }
    }
}

/// The steps that take the first node out leave every node as `moved_ok` says.
proof fn lemma_pop_moved<T>(
    old_l: Links<T>,
    n1: Seq<Node<T>>,
    n2: Seq<Node<T>>,
    n3: Seq<Node<T>>,
    nf: Seq<Node<T>>,
    h: usize,
    last: usize,
    lp: int,
)
    requires
        old_l.wf(),
        old_l.nodes.len() >= 1,
        old_l.order@[0] == h,
        last == old_l.nodes.len() - 1,
        0 <= lp < old_l.nodes.len(),
        old_l.order@[lp] == last,
        n1.len() == old_l.nodes.len(),
        old_l.nodes.len() >= 2 ==> n1 == old_l.nodes@.update(
            old_l.order@[1] as int,
            Node { prev: None, ..old_l.nodes@[old_l.order@[1] as int] },
        ),
        old_l.nodes.len() < 2 ==> n1 == old_l.nodes@,
        n2 == n1.update(h as int, n1[last as int]).drop_last(),
        h == last ==> n3 == n2 && nf == n2,
        h != last ==> n3.len() == n2.len() && forall|j: int|
            0 <= j < n2.len() ==> (#[trigger] n3[j]).elem == n2[j].elem && n3[j].prev == n2[j].prev
                && n3[j].next == (if n2[h as int].prev == Some(j as usize) { Some(h) } else { n2[j].next }),
        h != last ==> nf.len() == n3.len() && forall|j: int|
            0 <= j < n3.len() ==> (#[trigger] nf[j]).elem == n3[j].elem && nf[j].next == n3[j].next
                && nf[j].prev == (if n2[h as int].next == Some(j as usize) { Some(h) } else { n3[j].prev }),
    ensures
        nf.len() == old_l.nodes.len() - 1,
        forall|j: int| 0 <= j < nf.len() ==> #[trigger] moved_ok(nf[j], old_l.nodes@[source(j, last, h)], last, h),
{
    let ord = old_l.order@;
    let n = old_l.nodes.len() as int;
    let n0 = old_l.nodes@;
    lemma_wf_basic(old_l);
    lemma_wf_pos(old_l, 0);
    lemma_wf_pos(old_l, lp);
    if n >= 2 {
        lemma_wf_pos(old_l, 1);
    }
    if lp >= 1 {
        lemma_wf_pos(old_l, lp - 1);
    }
    if lp + 1 < n {
        lemma_wf_pos(old_l, lp + 1);
    }
    assert forall|j: int| 0 <= j < nf.len() implies #[trigger] moved_ok(nf[j], n0[source(j, last, h)], last, h) by {
        assert(appears(ord, j));
        let p = choose|p: int| 0 <= p < n && ord[p] == j;
        lemma_wf_pos(old_l, p);
        if p + 1 < n {
            lemma_wf_pos(old_l, p + 1);
        }
        if p >= 1 {
            lemma_wf_pos(old_l, p - 1);
        }
        if h == last {
            assert(p != 0);
        } else {
            assert(lp != 0);
            if j == h {
                assert(n2[j] == n1[last as int]);
            } else {
                assert(n2[j] == n1[j]);
                assert(p != 0);
                assert(p != lp);
                if n2[h as int].prev == Some(j as usize) {
                    assert(p == lp - 1);
                }
                if n2[h as int].next == Some(j as usize) {
                    assert(p == lp + 1);
                }
            }
        }
    }
}

/// After the first node has left, the list holds the rest in order.
#[verifier::spinoff_prover]
#[verifier::rlimit(40)]
proof fn lemma_pop_front_wf<T>(old_l: Links<T>, new_l: Links<T>, h: usize, last: usize, lp: int)
    requires
        old_l.wf(),
        old_l.nodes.len() >= 1,
        old_l.order@[0] == h,
        last == old_l.nodes.len() - 1,
        0 <= lp < old_l.nodes.len(),
        old_l.order@[lp] == last,
        new_l.nodes.len() == old_l.nodes.len() - 1,
        forall|j: int|
            0 <= j < new_l.nodes.len() ==> #[trigger] moved_ok(new_l.nodes@[j], old_l.nodes@[source(j, last, h)], last, h),
        new_l.order@ == old_l.order@.subrange(1, old_l.nodes.len() as int).map_values(|i: usize| renamed(i, last, h)),
        new_l.head == (if new_l.nodes.len() == 0 { None } else { Some(renamed(old_l.order@[1], last, h)) }),
        new_l.tail == (if new_l.nodes.len() == 0 { None } else { Some(renamed(old_l.order@[old_l.nodes.len() - 1], last, h)) }),
    ensures
        new_l.wf(),
        new_l@ == old_l@.drop_first(),
{
    reveal(Links::wf);
    let ord = old_l.order@;
    let o2 = new_l.order@;
    let n = old_l.nodes.len() as int;
    let n0 = old_l.nodes@;
    let nf = new_l.nodes@;
    assert forall|p: int| 0 <= p < n - 1 implies #[trigger] o2[p] == renamed(ord[p + 1], last, h) by {}
    assert forall|p: int| 0 <= p < n - 1 implies #[trigger] o2[p] < n - 1 by {
        assert(ord[p + 1] != ord[0]);
        assert(ord[p + 1] < n);
    }
    assert forall|p: int, q: int| 0 <= p < q < n - 1 implies #[trigger] o2[p] != #[trigger] o2[q] by {
        assert(ord[p + 1] != ord[q + 1]);
        assert(ord[p + 1] != ord[0]);
        assert(ord[q + 1] != ord[0]);
    }
    assert forall|i: int| 0 <= i < n - 1 implies #[trigger] appears(o2, i) by {
        if i == h {
            assert(lp != 0);
            assert(o2[lp - 1] == i);
        } else {
            assert(appears(ord, i));
            let p = choose|p: int| 0 <= p < n && ord[p] == i;
            assert(p != 0);
            assert(o2[p - 1] == i);
        }
    }
    // the node at each position of the new order is the node one position
    // further on in the old order
    assert forall|p: int| 0 <= p < n - 1 implies source(#[trigger] o2[p] as int, last, h) == ord[p + 1] by {
        assert(ord[p + 1] != ord[0]);
    }
    assert forall|p: int| 0 <= p < n - 1 implies nf[#[trigger] o2[p] as int].next == new_l.next_of(p) by {
        let src = ord[p + 1] as int;
        assert(moved_ok(nf[o2[p] as int], n0[source(o2[p] as int, last, h)], last, h));
        assert(n0[src].next == old_l.next_of(p + 1));
        if p + 2 < n {
            assert(o2[p + 1] == renamed(ord[p + 2], last, h));
        }
    }
    assert forall|p: int| 0 <= p < n - 1 implies nf[#[trigger] o2[p] as int].prev == new_l.prev_of(p) by {
        let src = ord[p + 1] as int;
        assert(moved_ok(nf[o2[p] as int], n0[source(o2[p] as int, last, h)], last, h));
        assert(n0[src].prev == old_l.prev_of(p + 1));
        if p > 0 {
            assert(o2[p - 1] == renamed(ord[p], last, h));
            assert(ord[p] != ord[0]);
        }
    }
    assert(new_l.wf());
    assert forall|p: int| 0 <= p < n - 1 implies #[trigger] new_l@[p] == old_l@.drop_first()[p] by {
        assert(moved_ok(nf[o2[p] as int], n0[source(o2[p] as int, last, h)], last, h));
    }
    assert(new_l@ =~= old_l@.drop_first());
}

impl<T> View for Links<T> {
    type V = Seq<T>;

    /// The elements from the front of the list to its back.
    closed spec fn view(&self) -> Seq<T> {
        Seq::new(self.order@.len(), |p: int| self.nodes@[self.order@[p] as int].elem)
    }
}

impl<T> Links<T> {
    /// No nodes.
    fn new() -> (list: Self)
        ensures
            list.wf(),
            list@ == Seq::<T>::empty(),
    {
        let list = Links { nodes: Vec::new(), head: None, tail: None, order: Ghost(Seq::empty()) };
        assert(list@ =~= Seq::<T>::empty());
        assert(list.wf()) by {
            reveal(Links::wf);
        }
        list
    }

    /// Puts `elem` at the front of the list.
    fn push_front(&mut self, elem: T)
        requires
            old(self).wf(),
        ensures
            final(self).wf(),
            final(self)@ == seq![elem] + old(self)@,
    {
        proof {
            reveal(Links::wf);
        }
        let ghost ord = self.order@;
        let ghost n = self.nodes.len() as int;
        let idx = self.nodes.len();
        let mut new_head = Node::new(elem);
        match self.head {
            Some(old_head) => {
                assert(ord[0] == old_head);
                self.nodes[old_head].prev = Some(idx);
                new_head.next = Some(old_head);
            },
            None => {
                self.tail = Some(idx);
            },
        }
        self.nodes.push(new_head);
        self.head = Some(idx);
        self.order = Ghost(seq![idx] + ord);
        proof {
            let o2 = self.order@;
            assert forall|p: int| 0 <= p < n + 1 implies #[trigger] o2[p] < n + 1 by {
                if p > 0 {
                    assert(o2[p] == ord[p - 1]);
                }
            }
            assert forall|p: int, q: int| 0 <= p < q < n + 1 implies #[trigger] o2[p] != #[trigger] o2[q] by {
                if p > 0 {
                    assert(o2[p] == ord[p - 1]);
                    assert(o2[q] == ord[q - 1]);
                } else {
                    assert(o2[q] == ord[q - 1]);
                    assert(ord[q - 1] < n);
                }
            }
            assert forall|i: int| 0 <= i < n + 1 implies #[trigger] appears(o2, i) by {
                if i == n {
                    assert(o2[0] == i);
                } else {
                    assert(appears(ord, i));
                    let p = choose|p: int| 0 <= p < n && ord[p] == i;
                    assert(o2[p + 1] == i);
                }
            }
            assert forall|p: int| 0 <= p < n + 1 implies self.nodes@[#[trigger] o2[p] as int].next == self.next_of(p) by {
                if p > 0 {
                    assert(o2[p] == ord[p - 1]);
                    assert(ord[p - 1] != ord[0] || p == 1);
                }
            }
            assert forall|p: int| 0 <= p < n + 1 implies self.nodes@[#[trigger] o2[p] as int].prev == self.prev_of(p) by {
                if p > 1 {
                    assert(o2[p] == ord[p - 1]);
                    assert(ord[p - 1] != ord[0]);
                } else if p == 1 {
                    assert(o2[1] == ord[0]);
                }
            }
            assert(self.wf());
            assert(self@ =~= seq![elem] + old(self)@) by {
                assert forall|p: int| 0 <= p < n + 1 implies #[trigger] self@[p] == (seq![elem] + old(self)@)[p] by {
                    if p > 0 {
                        assert(o2[p] == ord[p - 1]);
                    }
                }
            }
        }
    }

    /// Takes the front element off the list, if there is one.
    fn pop_front(&mut self) -> (r: Option<T>)
        requires
            old(self).wf(),
        ensures
            final(self).wf(),
            old(self)@.len() == 0 ==> r is None && final(self)@ == old(self)@,
            old(self)@.len() > 0 ==> r == Some(old(self)@[0]) && final(self)@ == old(self)@.drop_first(),
    {
        let ghost ord = self.order@;
        let ghost n = self.nodes.len() as int;
        proof {
            lemma_wf_basic(*self);
            if n > 0 {
                lemma_wf_pos(*self, 0);
            }
            if n > 1 {
                lemma_wf_pos(*self, 1);
            }
        }
        match self.head {
            None => {
                proof {
                    assert(self@ =~= Seq::<T>::empty());
                }
                None
            },
            Some(h) => {
                let ghost n0 = self.nodes@;
                proof {
                    assert(ord[0] == h);
                    assert(n0[h as int].next == self.next_of(0));
                }
                // unlink the first node
                match self.nodes[h].next {
                    Some(nx) => {
                        proof {
                            assert(ord[1] == nx);
                            assert(ord[1] != ord[0]);
                        }
                        self.nodes[nx].prev = None;
                        self.head = Some(nx);
                    },
                    None => {
                        self.tail = None;
                        self.head = None;
                    },
                }
                let ghost n1 = self.nodes@;
                // free its place, moving the node stored last into it
                let last = self.nodes.len() - 1;
                let node = self.nodes.swap_remove(h);
                let ghost n2 = self.nodes@;
                proof {
                    assert(appears(ord, last as int));
                }
                let ghost lp = choose|p: int| 0 <= p < n && ord[p] == last;
                proof {
                    lemma_wf_pos(*old(self), lp);
                    if lp >= 1 {
                        lemma_wf_pos(*old(self), lp - 1);
                    }
                    if lp + 1 < n {
                        lemma_wf_pos(*old(self), lp + 1);
                    }
                }
                if h != last {
                    proof {
                        assert(lp != 0);
                        assert(n0[last as int].prev == self.prev_of(lp));
                        assert(n0[last as int].next == self.next_of(lp));
                    }
                    match self.nodes[h].prev {
                        Some(p) => {
                            proof {
                                assert(lp >= 2);
                                assert(p == ord[lp - 1]);
                                assert(ord[lp - 1] < n);
                                assert(ord[lp - 1] != ord[lp]);
                            }
                            self.nodes[p].next = Some(h);
                        },
                        None => {},
                    }
                    let ghost n3 = self.nodes@;
                    match self.nodes[h].next {
                        Some(q) => {
                            proof {
                                assert(q == ord[lp + 1]);
                                assert(ord[lp + 1] < n);
                                assert(ord[lp + 1] != ord[lp]);
                            }
                            self.nodes[q].prev = Some(h);
                        },
                        None => {},
                    }
                    match self.head {
                        Some(x) => {
                            if x == last {
                                self.head = Some(h);
                            }
                        },
                        None => {},
                    }
                    match self.tail {
                        Some(x) => {
                            if x == last {
                                self.tail = Some(h);
                            }
                        },
                        None => {},
                    }
                    proof {
                        lemma_pop_moved(*old(self), n1, n2, n3, self.nodes@, h, last, lp);
                    }
                } else {
                    proof {
                        lemma_pop_moved(*old(self), n1, n2, n2, n2, h, last, lp);
                    }
                }
                self.order = Ghost(ord.subrange(1, n).map_values(|i: usize| renamed(i, last, h)));
                proof {
                    lemma_pop_front_wf(*old(self), *self, h, last, lp);
                }
                Some(node.elem)
            },
        }
    }
}

/// A list of elements, put in and taken out at the front.
pub struct List<T> {
    links: Links<T>,
}

impl<T> View for List<T> {
    type V = Seq<T>;

    /// The elements from the front of the list to its back.
    closed spec fn view(&self) -> Seq<T> {
        self.links@
    }
}

impl<T> List<T> {
    #[verifier::type_invariant]
    spec fn inv(self) -> bool {
        self.is_well_linked()
    }

    /// The list is well linked: each node of the vector is a node of the list
    /// exactly once; the first node has no node before it and the last none
    /// after it; a node's next node has it as its node before, and the other
    /// way round; the list has a first node exactly when it has a last one.
    pub closed spec fn is_well_linked(&self) -> bool {
        self.links.wf()
    }

    /// An empty list.
    pub fn new() -> (list: Self)
        ensures
            list@ == Seq::<T>::empty(),
            list.is_well_linked(),
    {
        List { links: Links::new() }
    }

    /// Puts `elem` at the front of the list.
    pub fn push_front(&mut self, elem: T)
        ensures
            final(self)@ == seq![elem] + old(self)@,
            final(self).is_well_linked(),
    {
        proof {
            use_type_invariant(&*self);
        }
        let mut links = Links::new();
        std::mem::swap(&mut links, &mut self.links);
        links.push_front(elem);
        self.links = links;
    }

    /// Takes the front element off the list, if there is one.
    pub fn pop_front(&mut self) -> (r: Option<T>)
        ensures
            old(self)@.len() == 0 ==> r is None && final(self)@ == old(self)@,
            old(self)@.len() > 0 ==> r == Some(old(self)@[0]) && final(self)@ == old(self)@.drop_first(),
            final(self).is_well_linked(),
    {
        proof {
            use_type_invariant(&*self);
        }
        let mut links = Links::new();
        std::mem::swap(&mut links, &mut self.links);
        let r = links.pop_front();
        self.links = links;
        r
    }
}

/// Popping the front right after pushing to it gives back the pushed element
/// and leaves the list as it was before the push.
pub proof fn lemma_push_then_pop_front<T>(before: List<T>, pushed: List<T>, popped: List<T>, elem: T, r: Option<T>)
    requires
        pushed@ == seq![elem] + before@,
        pushed@.len() > 0 ==> r == Some(pushed@[0]) && popped@ == pushed@.drop_first(),
    ensures
        r == Some(elem),
        popped@ == before@,
{
    assert(pushed@.drop_first() =~= before@);
}

} // verus!
