//! A B-tree of keys with minimum degree `order`.
//!
//! Every node but the root holds between `order - 1` and `2 * order - 1` keys in
//! order; an inner node with `n` keys has `n + 1` children, all leaves lie at the
//! same depth, and the keys of the `i`-th child lie between the keys `i - 1` and
//! `i` of its parent. The tree holds a multiset of keys: inserting a key that is
//! already there adds a second copy, and removing a key takes one copy away.
//!
//! Insertion splits full nodes on the way down, so that the node a key is added
//! to always has room; removal makes sure, on the way down, that the child it
//! descends into holds at least `order` keys, by borrowing a key from a sibling
//! or by merging two siblings.
//!
//! The contracts fix the tree's exact shape after each operation: `Shape` holds
//! a node's keys and its subtrees' shapes, and `tree_insert` and `tree_remove`
//! say, step by step, what insertion and removal make of a shape.
use vstd::prelude::*;
use vstd::multiset::Multiset;
use crate::order::{is_total_order, le, lemma_le_refl, lemma_le_trans, lemma_not_le, lemma_not_lt, lt, sorted};

verus! {

broadcast use vstd::seq_lib::group_to_multiset_ensures;

pub struct BTree<T: PartialOrd> {
    root: Option<BTreeNode<T>>,
    order: usize,
}

pub struct BTreeNode<T> {
    /// The minimum degree of the tree the node belongs to.
    order: usize,
    keys: Vec<T>,
    children: Vec<BTreeNode<T>>,
    leaf: bool,
}

impl<T> BTreeNode<T> {
    /// The keys of the node and of all nodes below it.
    pub closed spec fn contents(self) -> Multiset<T>
        decreases self,
    {
        self.keys@.to_multiset().add(Self::forest(self.children@))
    }

    /// The keys held by a sequence of subtrees.
    pub closed spec fn forest(s: Seq<BTreeNode<T>>) -> Multiset<T>
        decreases s,
    {
        if s.len() == 0 {
            Multiset::empty()
        } else {
            Self::forest(s.subrange(0, s.len() - 1)).add(s[s.len() - 1].contents())
        }
    }

    /// The number of levels below the node.
    pub closed spec fn height(self) -> nat
        decreases self,
    {
        if self.children.len() == 0 {
            0
        } else {
            1 + self.children@[0].height()
        }
    }

    /// The key lists of the nodes `d` levels below this one (the node itself
    /// at level 0), from left to right.
    pub closed spec fn level_keys(self, d: nat) -> Seq<Seq<T>>
        decreases self, d,
    {
        if d == 0 {
            seq![self.keys@]
        } else {
            Self::forest_level(self.children@, (d - 1) as nat)
        }
    }

    /// The key lists of the nodes `d` levels below the tops of a sequence of
    /// subtrees, from left to right.
    pub closed spec fn forest_level(s: Seq<BTreeNode<T>>, d: nat) -> Seq<Seq<T>>
        decreases s, d,
    {
        if s.len() == 0 {
            Seq::empty()
        } else {
            Self::forest_level(s.subrange(0, s.len() - 1), d) + s[s.len() - 1].level_keys(d)
        }
    }

    /// The node's own keys, in order.
    pub closed spec fn key_seq(self) -> Seq<T> {
        self.keys@
    }

    /// The minimum degree the node was made with.
    pub closed spec fn node_order(self) -> nat {
        self.order as nat
    }

    /// The node was made as a leaf.
    pub closed spec fn is_leaf(self) -> bool {
        self.leaf
    }

    /// The number of children of the node.
    pub closed spec fn child_count(self) -> nat {
        self.children.len() as nat
    }
}

impl<T: PartialOrd> BTreeNode<T> {
    /// No key of `ms` is greater than `k`.
    pub closed spec fn all_le(ms: Multiset<T>, k: T) -> bool {
        forall|x: T| #[trigger] ms.count(x) > 0 ==> le(x, k)
    }

    /// `k` is greater than no key of `ms`.
    pub closed spec fn all_ge(ms: Multiset<T>, k: T) -> bool {
        forall|x: T| #[trigger] ms.count(x) > 0 ==> le(k, x)
    }

    /// The keys `ms` may stand at child position `i`: between the keys `i - 1`
    /// and `i` of the node.
    pub closed spec fn fits(self, i: int, ms: Multiset<T>) -> bool {
        &&& (i > 0 ==> Self::all_ge(ms, self.keys@[i - 1]))
        &&& (i < self.keys.len() ==> Self::all_le(ms, self.keys@[i]))
    }

    /// The conditions on the node itself: key count, key order and shape.
    pub closed spec fn local_ok(self, h: nat, lo: nat, order: nat) -> bool {
        &&& self.order == order
        &&& order >= 2
        &&& lo <= self.keys.len() <= 2 * order - 1
        &&& sorted(self.keys@)
        &&& (self.leaf <==> h == 0)
        &&& (self.leaf ==> self.children.len() == 0)
        &&& (!self.leaf ==> self.children.len() == self.keys.len() + 1)
    }

    /// The subtree is a B-tree of height `h` and minimum degree `order` whose
    /// top node holds at least `lo` keys.
    pub closed spec fn wf_at(self, h: nat, lo: nat, order: nat) -> bool
        decreases self,
    {
        &&& self.local_ok(h, lo, order)
        &&& Self::forest_wf(self.children@, (h - 1) as nat, order)
        &&& forall|i: int|
            0 <= i < self.children.len() ==> #[trigger] self.fits(i, self.children@[i].contents())
    }

    /// Each of the subtrees is a B-tree of height `h` whose top node holds at
    /// least `order - 1` keys.
    pub closed spec fn forest_wf(s: Seq<BTreeNode<T>>, h: nat, order: nat) -> bool
        decreases s,
    {
        if s.len() == 0 {
            true
        } else {
            &&& Self::forest_wf(s.subrange(0, s.len() - 1), h, order)
            &&& s[s.len() - 1].wf_at(h, (order - 1) as nat, order)
        }
    }

    /// The node is a B-tree except that the keys of child `r`, once one copy of
    /// `key` is taken from them, are what may stand at position `r`; child `r`
    /// holds `key`.
    pub closed spec fn wf_but(self, h: nat, lo: nat, order: nat, r: int, key: T) -> bool {
        &&& self.local_ok(h, lo, order)
        &&& Self::forest_wf(self.children@, (h - 1) as nat, order)
        &&& 0 <= r < self.children.len()
        &&& forall|j: int|
            0 <= j < self.children.len() && j != r ==> #[trigger] self.fits(j, self.children@[j].contents())
        &&& self.fits(r, self.children@[r].contents().remove(key))
        &&& self.children@[r].contents().count(key) > 0
    }

    /// The subtree is a B-tree of minimum degree `order` whose top node holds
    /// at least `lo` keys.
    pub closed spec fn wf(self, lo: nat, order: nat) -> bool {
        self.wf_at(self.height(), lo, order)
    }
}

/// The keys of a tree's nodes, level by level: entry `d` holds the key lists
/// of the nodes at depth `d`, from left to right.
pub struct TraverseResult<T> {
    pub levels: Vec<Vec<Vec<T>>>,
}

impl<T> View for TraverseResult<T> {
    type V = Seq<Seq<Seq<T>>>;

    open spec fn view(&self) -> Seq<Seq<Seq<T>>> {
        self.levels@.map_values(|l: Vec<Vec<T>>| l@.map_values(|v: Vec<T>| v@))
    }
}

impl<T> TraverseResult<T> {
    /// No levels yet.
    pub fn new() -> (r: Self)
        ensures
            r@ == Seq::<Seq<Seq<T>>>::empty(),
    {
        let r = TraverseResult { levels: Vec::new() };
        assert(r@ =~= Seq::<Seq<Seq<T>>>::empty());
        r
    }

    /// Adds the key list `values` at the end of level `level`; a level one past
    /// the last starts a new level, and a level further on is ignored.
    pub fn insert(&mut self, level: usize, values: Vec<T>)
        ensures
            level > old(self)@.len() ==> final(self)@ == old(self)@,
            level == old(self)@.len() ==> final(self)@ == old(self)@.push(seq![values@]),
            level < old(self)@.len() ==> final(self)@ == old(self)@.update(
                level as int,
                old(self)@[level as int].push(values@),
            ),
    {
        let ghost v = values@;
        if level > self.levels.len() {
            return;
        }
        if level == self.levels.len() {
            let mut first: Vec<Vec<T>> = Vec::new();
            first.push(values);
            self.levels.push(first);
            assert(self@[level as int] =~= seq![v]);
            assert(self@ =~= old(self)@.push(seq![v]));
            return;
        }
        self.levels[level].push(values);
        assert(self@[level as int] =~= old(self)@[level as int].push(v));
        assert(self@ =~= old(self)@.update(level as int, old(self)@[level as int].push(v)));
    }
}

/// Entry `d` of `s`, or no key lists past its end.
pub open spec fn level_at<T>(s: Seq<Seq<Seq<T>>>, d: int) -> Seq<Seq<T>> {
    if 0 <= d < s.len() {
        s[d]
    } else {
        Seq::empty()
    }
}

/// `b` holds clones of the keys of `a`, one for one.
pub open spec fn keys_copied<T: Clone>(a: Seq<T>, b: Seq<T>) -> bool {
    &&& a.len() == b.len()
    &&& forall|j: int| 0 <= j < a.len() ==> #[trigger] cloned(a[j], b[j])
}

/// `b` holds clones of the key lists of `a`, list for list.
pub open spec fn lists_copied<T: Clone>(a: Seq<Seq<T>>, b: Seq<Seq<T>>) -> bool {
    &&& a.len() == b.len()
    &&& forall|i: int| 0 <= i < a.len() ==> #[trigger] keys_copied(a[i], b[i])
}

/// `b` holds clones of the levels of `a`, level for level.
pub open spec fn levels_copied<T: Clone>(a: Seq<Seq<Seq<T>>>, b: Seq<Seq<Seq<T>>>) -> bool {
    &&& a.len() == b.len()
    &&& forall|d: int| 0 <= d < a.len() ==> #[trigger] lists_copied(a[d], b[d])
}

/// The levels `m` with the key lists of the subtree of `n` added, its top at
/// level `top`.
pub open spec fn with_subtree<T>(m: Seq<Seq<Seq<T>>>, n: BTreeNode<T>, top: int) -> Seq<Seq<Seq<T>>> {
    Seq::new(
        (if m.len() > top + n.height() + 1 { m.len() as int } else { top + n.height() + 1 }) as nat,
        |d: int| level_at(m, d) + (if d >= top { n.level_keys((d - top) as nat) } else { Seq::empty() }),
    )
}

/// The levels `m` with the node's own keys added at level `top`, and the key
/// lists of its first `i` subtrees below.
spec fn with_part<T>(m: Seq<Seq<Seq<T>>>, n: BTreeNode<T>, top: int, i: int) -> Seq<Seq<Seq<T>>> {
    let len = if i == 0 { top + 1 } else { top + n.height() + 1 };
    Seq::new(
        (if m.len() > len { m.len() as int } else { len }) as nat,
        |d: int|
            level_at(m, d) + (if d == top { seq![n.keys@] } else if d > top { BTreeNode::forest_level(
                n.children@.subrange(0, i),
                (d - top - 1) as nat,
            ) } else { Seq::empty() }),
    )
}

/// The keys of a node and the shapes of its subtrees, left to right.
pub struct Shape<T> {
    pub keys: Seq<T>,
    pub children: Seq<Shape<T>>,
}

/// The number of levels below the top of a shape, along its first subtrees.
pub open spec fn shape_height<T>(n: Shape<T>) -> nat
    decreases n,
{
    if n.children.len() == 0 {
        0
    } else {
        1 + shape_height(n.children[0])
    }
}

/// The key lists of the nodes `d` levels below the top of `n`, left to right.
pub open spec fn shape_level<T>(n: Shape<T>, d: nat) -> Seq<Seq<T>>
    decreases n, d,
{
    if d == 0 {
        seq![n.keys]
    } else {
        forest_shape_level(n.children, (d - 1) as nat)
    }
}

/// The key lists of the nodes `d` levels below the tops of the shapes `s`,
/// left to right.
pub open spec fn forest_shape_level<T>(s: Seq<Shape<T>>, d: nat) -> Seq<Seq<T>>
    decreases s, d,
{
    if s.len() == 0 {
        Seq::empty()
    } else {
        forest_shape_level(s.subrange(0, s.len() - 1), d) + shape_level(s[s.len() - 1], d)
    }
}

/// The key lists of a tree of shape `root`, level by level from the top down.
pub open spec fn shape_levels<T>(root: Option<Shape<T>>) -> Seq<Seq<Seq<T>>> {
    match root {
        None => Seq::empty(),
        Some(r) => Seq::new(shape_height(r) + 1, |d: int| shape_level(r, d as nat)),
    }
}

/// The position at which `key` goes among `keys`: before the first key that
/// is greater than it.
pub open spec fn insert_index<T: PartialOrd>(keys: Seq<T>, key: T) -> int
    decreases keys.len(),
{
    if keys.len() == 0 {
        0
    } else if le(keys[0], key) {
        1 + insert_index(keys.drop_first(), key)
    } else {
        0
    }
}

/// Child `i` of `p`, holding `2 * t - 1` keys, cut in two around its middle
/// key, which moves up into `p` at position `i`.
pub open spec fn split_shape<T>(p: Shape<T>, i: int, t: nat) -> Shape<T> {
    let c = p.children[i];
    let left = Shape {
        keys: c.keys.subrange(0, t - 1),
        children: if c.children.len() == 0 { Seq::empty() } else { c.children.subrange(0, t as int) },
    };
    let right = Shape {
        keys: c.keys.subrange(t as int, c.keys.len() as int),
        children: if c.children.len() == 0 {
            Seq::empty()
        } else {
            c.children.subrange(t as int, c.children.len() as int)
        },
    };
    Shape { keys: p.keys.insert(i, c.keys[t - 1]), children: p.children.update(i, left).insert(i + 1, right) }
}

/// The shape of a node of height `h` that is not full, with `key` added: in a
/// leaf at its place among the keys; else in the child it belongs to, which is
/// split first if it is full.
pub open spec fn insert_shape<T: PartialOrd>(n: Shape<T>, key: T, t: nat, h: nat) -> Shape<T>
    decreases h,
{
    if n.children.len() == 0 || h == 0 {
        Shape { keys: n.keys.insert(insert_index(n.keys, key), key), children: n.children }
    } else {
        let i = insert_index(n.keys, key);
        let full = n.children[i].keys.len() == 2 * t - 1;
        let n1 = if full { split_shape(n, i, t) } else { n };
        let j = if full && lt(n1.keys[i], key) { i + 1 } else { i };
        Shape {
            keys: n1.keys,
            children: n1.children.update(j, insert_shape(n1.children[j], key, t, (h - 1) as nat)),
        }
    }
}

/// The shape of a B-tree of minimum degree `t` and shape `root` once `key` is
/// inserted: an empty tree gets a root holding the key; a full root is first
/// put under a new root and split.
pub open spec fn tree_insert<T: PartialOrd>(root: Option<Shape<T>>, key: T, t: nat) -> Option<Shape<T>> {
    match root {
        None => Some(Shape { keys: seq![key], children: Seq::empty() }),
        Some(r) => if r.keys.len() == 2 * t - 1 {
            Some(
                insert_shape(
                    split_shape(Shape { keys: Seq::empty(), children: seq![r] }, 0, t),
                    key,
                    t,
                    shape_height(r) + 1,
                ),
            )
        } else {
            Some(insert_shape(r, key, t, shape_height(r)))
        },
    }
}

/// The greatest key of a shape: the last key of its rightmost leaf.
pub open spec fn max_key<T>(n: Shape<T>) -> T
    decreases n,
{
    if n.children.len() == 0 {
        n.keys.last()
    } else {
        max_key(n.children.last())
    }
}

/// The shape `n` with the last key of its rightmost leaf replaced by `v`.
pub open spec fn with_max<T>(n: Shape<T>, v: T) -> Shape<T>
    decreases n,
{
    if n.children.len() == 0 {
        Shape { keys: n.keys.update(n.keys.len() - 1, v), children: n.children }
    } else {
        Shape { keys: n.keys, children: n.children.update(n.children.len() - 1, with_max(n.children.last(), v)) }
    }
}

/// The least key of a shape: the first key of its leftmost leaf.
pub open spec fn min_key<T>(n: Shape<T>) -> T
    decreases n,
{
    if n.children.len() == 0 {
        n.keys[0]
    } else {
        min_key(n.children[0])
    }
}

/// The shape `n` with the first key of its leftmost leaf replaced by `v`.
pub open spec fn with_min<T>(n: Shape<T>, v: T) -> Shape<T>
    decreases n,
{
    if n.children.len() == 0 {
        Shape { keys: n.keys.update(0, v), children: n.children }
    } else {
        Shape { keys: n.keys, children: n.children.update(0, with_min(n.children[0], v)) }
    }
}

/// Key `i` of `n` exchanged with its predecessor, the greatest key of child `i`.
pub open spec fn pred_shape<T>(n: Shape<T>, i: int) -> Shape<T> {
    Shape {
        keys: n.keys.update(i, max_key(n.children[i])),
        children: n.children.update(i, with_max(n.children[i], n.keys[i])),
    }
}

/// Key `i` of `n` exchanged with its successor, the least key of child `i + 1`.
pub open spec fn succ_shape<T>(n: Shape<T>, i: int) -> Shape<T> {
    Shape {
        keys: n.keys.update(i, min_key(n.children[i + 1])),
        children: n.children.update(i + 1, with_min(n.children[i + 1], n.keys[i])),
    }
}

/// Children `i` and `i + 1` of `n` joined around key `i`, which leaves `n`.
pub open spec fn merge_shape<T>(n: Shape<T>, i: int) -> Shape<T> {
    let a = n.children[i];
    let b = n.children[i + 1];
    Shape {
        keys: n.keys.remove(i),
        children: n.children.remove(i + 1).update(
            i,
            Shape { keys: a.keys.push(n.keys[i]) + b.keys, children: a.children + b.children },
        ),
    }
}

/// Child `i` of `n` takes key `i - 1` of `n` as its first key, and that key is
/// replaced by the last key of child `i - 1`, whose last subtree moves along.
pub open spec fn borrow_prev_shape<T>(n: Shape<T>, i: int) -> Shape<T> {
    let l = n.children[i - 1];
    let c = n.children[i];
    let l2 = Shape {
        keys: l.keys.drop_last(),
        children: if c.children.len() == 0 { l.children } else { l.children.drop_last() },
    };
    let c2 = Shape {
        keys: seq![n.keys[i - 1]] + c.keys,
        children: if c.children.len() == 0 { c.children } else { seq![l.children.last()] + c.children },
    };
    Shape { keys: n.keys.update(i - 1, l.keys.last()), children: n.children.update(i - 1, l2).update(i, c2) }
}

/// Child `i` of `n` takes key `i` of `n` as its last key, and that key is
/// replaced by the first key of child `i + 1`, whose first subtree moves along.
pub open spec fn borrow_next_shape<T>(n: Shape<T>, i: int) -> Shape<T> {
    let c = n.children[i];
    let r = n.children[i + 1];
    let c2 = Shape {
        keys: c.keys.push(n.keys[i]),
        children: if c.children.len() == 0 { c.children } else { c.children.push(r.children[0]) },
    };
    let r2 = Shape {
        keys: r.keys.drop_first(),
        children: if c.children.len() == 0 { r.children } else { r.children.drop_first() },
    };
    Shape { keys: n.keys.update(i, r.keys[0]), children: n.children.update(i, c2).update(i + 1, r2) }
}

/// Child `i` of `n`, which holds fewer than `t` keys, made to hold more: a key
/// is borrowed from the left sibling if it can spare one, else from the right
/// sibling if it can, else the child is merged with a sibling, the right one
/// if it has one.
pub open spec fn fill_shape<T>(n: Shape<T>, i: int, t: nat) -> Shape<T> {
    if i != 0 && n.children[i - 1].keys.len() >= t {
        borrow_prev_shape(n, i)
    } else if i != n.keys.len() && n.children[i + 1].keys.len() >= t {
        borrow_next_shape(n, i)
    } else if i == n.keys.len() {
        merge_shape(n, i - 1)
    } else {
        merge_shape(n, i)
    }
}

/// The position of the first key that is `key` or greater than it.
pub open spec fn remove_index<T: PartialOrd>(keys: Seq<T>, key: T) -> int
    decreases keys.len(),
{
    if keys.len() == 0 {
        0
    } else if keys[0] == key || !le(keys[0], key) {
        0
    } else {
        1 + remove_index(keys.drop_first(), key)
    }
}

/// The shape of a node of height `h` with one copy of `key` removed. Found in
/// a leaf, the key leaves it. Found in an inner node, it changes places with
/// its predecessor if the child before it can spare a key, else with its
/// successor if the child after it can, else the two children are merged
/// around it; the key is then removed from that child. Not found, it is
/// removed from the child it would be in, which is first filled if it holds
/// fewer than `t` keys.
pub open spec fn remove_shape<T: PartialOrd>(n: Shape<T>, key: T, t: nat, h: nat) -> Shape<T>
    decreases h,
{
    let i = remove_index(n.keys, key);
    if i < n.keys.len() && n.keys[i] == key {
        if n.children.len() == 0 || h == 0 {
            Shape { keys: n.keys.remove(i), children: n.children }
        } else {
            let n1 = if n.children[i].keys.len() >= t {
                pred_shape(n, i)
            } else if n.children[i + 1].keys.len() >= t {
                succ_shape(n, i)
            } else {
                merge_shape(n, i)
            };
            let r = if n.children[i].keys.len() < t && n.children[i + 1].keys.len() >= t { i + 1 } else { i };
            Shape { keys: n1.keys, children: n1.children.update(r, remove_shape(n1.children[r], key, t, (h - 1) as nat)) }
        }
    } else if n.children.len() == 0 || h == 0 {
        n
    } else {
        let n1 = if n.children[i].keys.len() < t { fill_shape(n, i, t) } else { n };
        let c = if i > n1.keys.len() { i - 1 } else { i };
        Shape { keys: n1.keys, children: n1.children.update(c, remove_shape(n1.children[c], key, t, (h - 1) as nat)) }
    }
}

/// The shape of a B-tree of minimum degree `t` and shape `root` once one copy
/// of `key` is removed: a root left without keys gives way to its one child,
/// or leaves the tree empty.
pub open spec fn tree_remove<T: PartialOrd>(root: Option<Shape<T>>, key: T, t: nat) -> Option<Shape<T>> {
    match root {
        None => None,
        Some(r) => {
            let r1 = remove_shape(r, key, t, shape_height(r));
            if r1.keys.len() == 0 {
                if r1.children.len() == 0 {
                    None
                } else {
                    Some(r1.children[0])
                }
            } else {
                Some(r1)
            }
        },
    }
}

/// The keys held in a shape and all shapes below it.
pub open spec fn shape_contents<T>(s: Shape<T>) -> Multiset<T>
    decreases s,
{
    s.keys.to_multiset().add(forest_shape_contents(s.children))
}

/// The keys held in a sequence of shapes.
pub open spec fn forest_shape_contents<T>(s: Seq<Shape<T>>) -> Multiset<T>
    decreases s,
{
    if s.len() == 0 {
        Multiset::empty()
    } else {
        forest_shape_contents(s.subrange(0, s.len() - 1)).add(shape_contents(s[s.len() - 1]))
    }
}

/// Position `i` holds the first copy of `key` among `keys`.
pub open spec fn first_index<T>(keys: Seq<T>, key: T, i: int) -> bool {
    &&& 0 <= i < keys.len()
    &&& keys[i] == key
    &&& forall|j: int| 0 <= j < i ==> keys[j] != key
}

impl<T> BTreeNode<T> {
    /// The keys of the node and the shapes of its subtrees.
    pub closed spec fn shape(self) -> Shape<T>
        decreases self,
    {
        Shape { keys: self.keys@, children: Self::forest_shape(self.children@) }
    }

    /// The shapes of a sequence of subtrees.
    pub closed spec fn forest_shape(s: Seq<BTreeNode<T>>) -> Seq<Shape<T>>
        decreases s,
    {
        if s.len() == 0 {
            Seq::empty()
        } else {
            Self::forest_shape(s.subrange(0, s.len() - 1)).push(s[s.len() - 1].shape())
        }
    }
}

/// The shapes of subtrees, one by one.
proof fn lemma_forest_shape<T>(s: Seq<BTreeNode<T>>)
    ensures
        BTreeNode::forest_shape(s).len() == s.len(),
        forall|k: int| 0 <= k < s.len() ==> #[trigger] BTreeNode::forest_shape(s)[k] == s[k].shape(),
    decreases s.len(),
{
    if s.len() > 0 {
        let s0 = s.subrange(0, s.len() - 1);
        lemma_forest_shape(s0);
        assert forall|k: int| 0 <= k < s.len() implies #[trigger] BTreeNode::forest_shape(s)[k] == s[k].shape() by {
            if k < s.len() - 1 {
                assert(s0[k] == s[k]);
            }
        }
    }
}

/// The shape of a node records its keys and its subtrees' shapes.
proof fn lemma_shape<T>(n: BTreeNode<T>)
    ensures
        n.shape().keys == n.keys@,
        n.shape().children.len() == n.children.len(),
        forall|k: int| 0 <= k < n.children.len() ==> #[trigger] n.shape().children[k] == n.children@[k].shape(),
{
    lemma_forest_shape(n.children@);
}

/// A node whose keys and subtrees' shapes are those of `sh` has shape `sh`.
proof fn lemma_shape_eq<T>(n: BTreeNode<T>, sh: Shape<T>)
    requires
        n.keys@ == sh.keys,
        n.children.len() == sh.children.len(),
        forall|k: int| 0 <= k < n.children.len() ==> #[trigger] n.children@[k].shape() == sh.children[k],
    ensures
        n.shape() == sh,
{
    lemma_shape(n);
    assert(n.shape().children =~= sh.children);
}

/// The height of a node is that of its shape.
proof fn lemma_shape_height<T>(n: BTreeNode<T>)
    ensures
        shape_height(n.shape()) == n.height(),
    decreases n,
{
    lemma_shape(n);
    if n.children.len() > 0 {
        lemma_shape_height(n.children@[0]);
    }
}

/// The key lists of the levels of a node are those of its shape.
proof fn lemma_level_keys_shape<T>(n: BTreeNode<T>, d: nat)
    ensures
        n.level_keys(d) == shape_level(n.shape(), d),
    decreases n, d,
{
    if d > 0 {
        lemma_forest_level_shape(n.children@, (d - 1) as nat);
    }
}

proof fn lemma_forest_level_shape<T>(s: Seq<BTreeNode<T>>, d: nat)
    ensures
        BTreeNode::forest_level(s, d) == forest_shape_level(BTreeNode::forest_shape(s), d),
    decreases s, d,
{
    if s.len() > 0 {
        let s0 = s.subrange(0, s.len() - 1);
        let f = BTreeNode::forest_shape(s);
        lemma_forest_level_shape(s0, d);
        lemma_level_keys_shape(s[s.len() - 1], d);
        lemma_forest_shape(s);
        assert(f.subrange(0, f.len() - 1) =~= BTreeNode::forest_shape(s0));
    }
}

/// The levels of a tree with root `r` are the levels of its shape.
proof fn lemma_with_subtree_shape<T>(r: BTreeNode<T>)
    ensures
        with_subtree(Seq::<Seq<Seq<T>>>::empty(), r, 0) == shape_levels(Some(r.shape())),
{
    lemma_shape_height(r);
    let a = with_subtree(Seq::<Seq<Seq<T>>>::empty(), r, 0);
    let b = shape_levels(Some(r.shape()));
    assert forall|d: int| 0 <= d < a.len() implies #[trigger] a[d] == b[d] by {
        lemma_level_keys_shape(r, d as nat);
        assert(a[d] =~= r.level_keys(d as nat));
    }
    assert(a =~= b);
}

/// Borrowing from the left sibling as `fill` does makes `borrow_prev_shape`.
proof fn lemma_borrow_prev_shape<T>(o: BTreeNode<T>, f: BTreeNode<T>, i: int)
    requires
        1 <= i < o.children.len(),
        i - 1 < o.keys.len(),
        o.children@[i - 1].keys.len() >= 1,
        f.keys@ == o.keys@.update(i - 1, o.children@[i - 1].keys@.last()),
        f.children@ == o.children@.update(i - 1, f.children@[i - 1]).update(i, f.children@[i]),
        f.children@[i - 1].keys@ == o.children@[i - 1].keys@.drop_last(),
        f.children@[i].keys@ == seq![o.keys@[i - 1]] + o.children@[i].keys@,
        o.children@[i].children.len() == 0 ==> f.children@[i - 1].children@ == o.children@[i - 1].children@
            && f.children@[i].children@ == o.children@[i].children@,
        o.children@[i].children.len() != 0 ==> o.children@[i - 1].children.len() >= 1
            && f.children@[i - 1].children@ == o.children@[i - 1].children@.drop_last()
            && f.children@[i].children@ == seq![o.children@[i - 1].children@.last()] + o.children@[i].children@,
    ensures
        f.shape() == borrow_prev_shape(o.shape(), i),
{
    let l = o.children@[i - 1];
    let c = o.children@[i];
    let bs = borrow_prev_shape(o.shape(), i);
    lemma_shape(o);
    lemma_shape(l);
    lemma_shape(c);
    assert forall|k: int| 0 <= k < f.children@[i - 1].children.len() implies #[trigger] f.children@[i
        - 1].children@[k].shape() == bs.children[i - 1].children[k] by {
        assert(f.children@[i - 1].children@[k] == l.children@[k]);
    }
    lemma_shape_eq(f.children@[i - 1], bs.children[i - 1]);
    assert forall|k: int| 0 <= k < f.children@[i].children.len() implies #[trigger] f.children@[i].children@[k].shape()
        == bs.children[i].children[k] by {
        if c.children.len() != 0 {
            if k == 0 {
                assert(f.children@[i].children@[k] == l.children@[l.children.len() - 1]);
            } else {
                assert(f.children@[i].children@[k] == c.children@[k - 1]);
            }
        } else {
            assert(f.children@[i].children@[k] == c.children@[k]);
        }
    }
    lemma_shape_eq(f.children@[i], bs.children[i]);
    lemma_shape_eq(f, bs);
}

/// Borrowing from the right sibling as `fill` does makes `borrow_next_shape`.
proof fn lemma_borrow_next_shape<T>(o: BTreeNode<T>, f: BTreeNode<T>, i: int)
    requires
        0 <= i,
        i + 1 < o.children.len(),
        i < o.keys.len(),
        o.children@[i + 1].keys.len() >= 1,
        f.keys@ == o.keys@.update(i, o.children@[i + 1].keys@[0]),
        f.children@ == o.children@.update(i, f.children@[i]).update(i + 1, f.children@[i + 1]),
        f.children@[i].keys@ == o.children@[i].keys@.push(o.keys@[i]),
        f.children@[i + 1].keys@ == o.children@[i + 1].keys@.drop_first(),
        o.children@[i].children.len() == 0 ==> f.children@[i].children@ == o.children@[i].children@
            && f.children@[i + 1].children@ == o.children@[i + 1].children@,
        o.children@[i].children.len() != 0 ==> o.children@[i + 1].children.len() >= 1
            && f.children@[i].children@ == o.children@[i].children@.push(o.children@[i + 1].children@[0])
            && f.children@[i + 1].children@ == o.children@[i + 1].children@.drop_first(),
    ensures
        f.shape() == borrow_next_shape(o.shape(), i),
{
    let c = o.children@[i];
    let r = o.children@[i + 1];
    let bs = borrow_next_shape(o.shape(), i);
    lemma_shape(o);
    lemma_shape(r);
    lemma_shape(c);
    assert forall|k: int| 0 <= k < f.children@[i].children.len() implies #[trigger] f.children@[i].children@[k].shape()
        == bs.children[i].children[k] by {
        if k < c.children.len() {
            assert(f.children@[i].children@[k] == c.children@[k]);
        } else {
            assert(f.children@[i].children@[k] == r.children@[0]);
        }
    }
    lemma_shape_eq(f.children@[i], bs.children[i]);
    assert forall|k: int| 0 <= k < f.children@[i + 1].children.len() implies #[trigger] f.children@[i
        + 1].children@[k].shape() == bs.children[i + 1].children[k] by {
        if c.children.len() != 0 {
            assert(f.children@[i + 1].children@[k] == r.children@[k + 1]);
        } else {
            assert(f.children@[i + 1].children@[k] == r.children@[k]);
        }
    }
    lemma_shape_eq(f.children@[i + 1], bs.children[i + 1]);
    lemma_shape_eq(f, bs);
}

/// What `merge` makes of a node is `merge_shape` of its shape.
proof fn lemma_merge_shape<T>(o: BTreeNode<T>, f: BTreeNode<T>, i: int)
    requires
        0 <= i,
        i + 1 < o.children.len(),
        i < o.keys.len(),
        f.keys@ == o.keys@.remove(i),
        f.children@ == o.children@.remove(i + 1).update(i, f.children@[i]),
        f.children@[i].keys@ == o.children@[i].keys@.push(o.keys@[i]) + o.children@[i + 1].keys@,
        f.children@[i].children@ == o.children@[i].children@ + o.children@[i + 1].children@,
    ensures
        f.shape() == merge_shape(o.shape(), i),
{
    let a = o.children@[i];
    let b = o.children@[i + 1];
    let m = f.children@[i];
    let ms = merge_shape(o.shape(), i);
    lemma_shape(o);
    lemma_shape(a);
    lemma_shape(b);
    assert forall|k: int| 0 <= k < m.children.len() implies #[trigger] m.children@[k].shape() == ms.children[i].children[k] by {
        if k < a.children.len() {
            assert(m.children@[k] == a.children@[k]);
        } else {
            assert(m.children@[k] == b.children@[k - a.children.len()]);
        }
    }
    lemma_shape_eq(m, ms.children[i]);
    assert forall|k: int| 0 <= k < f.children.len() implies #[trigger] f.children@[k].shape() == ms.children[k] by {
        if k > i {
            assert(f.children@[k] == o.children@[k + 1]);
        }
    }
    lemma_shape_eq(f, ms);
}

/// What `split_child` makes of a node is `split_shape` of its shape.
proof fn lemma_split_shape<T>(o: BTreeNode<T>, f: BTreeNode<T>, i: int, t: nat)
    requires
        0 <= i < o.children.len(),
        t >= 1,
        o.children@[i].keys.len() == 2 * t - 1,
        o.children@[i].children.len() == 0 <==> o.children@[i].leaf,
        !o.children@[i].leaf ==> o.children@[i].children.len() == 2 * t,
        f.keys@ == o.keys@.insert(i, o.children@[i].keys@[t - 1]),
        f.children.len() == o.children.len() + 1,
        f.children@ == o.children@.update(i, f.children@[i]).insert(i + 1, f.children@[i + 1]),
        f.children@[i].keys@ == o.children@[i].keys@.subrange(0, t - 1),
        f.children@[i + 1].keys@ == o.children@[i].keys@.subrange(t as int, 2 * t - 1),
        o.children@[i].leaf ==> f.children@[i].children@ == Seq::<BTreeNode<T>>::empty()
            && f.children@[i + 1].children@ == Seq::<BTreeNode<T>>::empty(),
        !o.children@[i].leaf ==> f.children@[i].children@ == o.children@[i].children@.subrange(0, t as int)
            && f.children@[i + 1].children@ == o.children@[i].children@.subrange(t as int, (2 * t) as int),
    ensures
        f.shape() == split_shape(o.shape(), i, t),
{
    let c = o.children@[i];
    let l = f.children@[i];
    let r = f.children@[i + 1];
    lemma_shape(o);
    lemma_shape(f);
    lemma_shape(c);
    lemma_shape(l);
    lemma_shape(r);
    let sp = split_shape(o.shape(), i, t);
    let cs = c.shape();
    assert(o.shape().children[i] == cs);
    assert(l.shape() == sp.children[i]) by {
        assert(l.shape().keys =~= sp.children[i].keys);
        assert(l.shape().children =~= sp.children[i].children);
    }
    assert(r.shape() == sp.children[i + 1]) by {
        assert(r.shape().keys =~= sp.children[i + 1].keys);
        assert(r.shape().children =~= sp.children[i + 1].children);
    }
    assert forall|k: int| 0 <= k < f.children.len() implies #[trigger] f.shape().children[k] == sp.children[k] by {
        if k < i {
            assert(f.children@[k] == o.children@[k]);
        } else if k > i + 1 {
            assert(f.children@[k] == o.children@[k - 1]);
        }
    }
    assert(f.shape().children =~= sp.children);
    assert(f.shape().keys =~= sp.keys);
}

/// The position of the first key that is `key` or greater is `remove_index`.
proof fn lemma_remove_index<T: PartialOrd>(keys: Seq<T>, i: int, key: T)
    requires
        0 <= i <= keys.len(),
        forall|j: int| 0 <= j < i ==> le(#[trigger] keys[j], key) && keys[j] != key,
        i < keys.len() ==> keys[i] == key || !le(keys[i], key),
    ensures
        i == remove_index(keys, key),
    decreases keys.len(),
{
    if keys.len() > 0 && i > 0 {
        let k1 = keys.drop_first();
        assert(le(keys[0], key) && keys[0] != key);
        assert forall|j: int| 0 <= j < i - 1 implies le(#[trigger] k1[j], key) && k1[j] != key by {
            assert(le(keys[j + 1], key) && keys[j + 1] != key);
        }
        lemma_remove_index(k1, i - 1, key);
    }
}

/// The position `is_insert_pos` finds is `insert_index`.
proof fn lemma_insert_index<T: PartialOrd>(keys: Seq<T>, i: int, key: T)
    requires
        is_insert_pos(keys, i, key),
    ensures
        i == insert_index(keys, key),
    decreases keys.len(),
{
    if keys.len() > 0 && i > 0 {
        let k1 = keys.drop_first();
        assert forall|j: int| 0 <= j < i - 1 implies le(#[trigger] k1[j], key) by {
            assert(le(keys[j + 1], key));
        }
        lemma_insert_index(k1, i - 1, key);
    }
}

/// A B-tree of height `h` has height `h`.
proof fn lemma_height<T: PartialOrd>(n: BTreeNode<T>, h: nat, lo: nat, order: nat)
    requires
        n.wf_at(h, lo, order),
    ensures
        n.height() == h,
        n.wf(lo, order),
    decreases h,
{
    if h > 0 {
        lemma_forest_wf(n.children@, (h - 1) as nat, order);
        assert(n.children@[0].wf_at((h - 1) as nat, (order - 1) as nat, order));
        lemma_height(n.children@[0], (h - 1) as nat, (order - 1) as nat, order);
    }
}

/// The subtrees of a sequence are B-trees of height `h` exactly when each one is.
proof fn lemma_forest_wf<T: PartialOrd>(s: Seq<BTreeNode<T>>, h: nat, order: nat)
    ensures
        BTreeNode::forest_wf(s, h, order) <==> forall|i: int|
            0 <= i < s.len() ==> #[trigger] s[i].wf_at(h, (order - 1) as nat, order),
    decreases s.len(),
{
    if s.len() > 0 {
        let s0 = s.subrange(0, s.len() - 1);
        lemma_forest_wf(s0, h, order);
        if forall|i: int| 0 <= i < s.len() ==> #[trigger] s[i].wf_at(h, (order - 1) as nat, order) {
            assert forall|i: int| 0 <= i < s0.len() implies #[trigger] s0[i].wf_at(
                h,
                (order - 1) as nat,
                order,
            ) by {
                assert(s0[i] == s[i]);
            }
            assert(s[s.len() - 1].wf_at(h, (order - 1) as nat, order));
            assert(BTreeNode::forest_wf(s, h, order));
        }
        if BTreeNode::forest_wf(s, h, order) {
            assert forall|i: int| 0 <= i < s.len() implies #[trigger] s[i].wf_at(
                h,
                (order - 1) as nat,
                order,
            ) by {
                if i < s.len() - 1 {
                    assert(s0[i] == s[i]);
                }
            }
        }
    }
}

/// A node that holds at least `lo2` keys satisfies the bound `lo2`.
proof fn lemma_wf_lo<T: PartialOrd>(n: BTreeNode<T>, h: nat, lo: nat, lo2: nat, order: nat)
    requires
        n.wf_at(h, lo, order),
        lo2 <= n.keys.len(),
    ensures
        n.wf_at(h, lo2, order),
{
}

/// The keys of two sequences of subtrees put together.
proof fn lemma_forest_concat<T>(a: Seq<BTreeNode<T>>, b: Seq<BTreeNode<T>>)
    ensures
        BTreeNode::forest(a + b) =~= BTreeNode::forest(a).add(BTreeNode::forest(b)),
    decreases b.len(),
{
    if b.len() == 0 {
        assert(a + b =~= a);
    } else {
        let b0 = b.subrange(0, b.len() - 1);
        lemma_forest_concat(a, b0);
        assert((a + b).subrange(0, (a + b).len() - 1) =~= a + b0);
    }
}

/// The keys of one subtree alone.
proof fn lemma_forest_one<T>(n: BTreeNode<T>)
    ensures
        BTreeNode::forest(seq![n]) =~= n.contents(),
{
    assert(seq![n].subrange(0, 0) =~= Seq::<BTreeNode<T>>::empty());
    assert(BTreeNode::forest(Seq::<BTreeNode<T>>::empty()) =~= Multiset::empty());
    assert(seq![n][0] == n);
}

/// The keys of a sequence of subtrees: those before position `i`, those of the
/// subtree at `i`, and those after it.
proof fn lemma_forest_split<T>(s: Seq<BTreeNode<T>>, i: int)
    requires
        0 <= i < s.len(),
    ensures
        BTreeNode::forest(s) =~= BTreeNode::forest(s.subrange(0, i)).add(s[i].contents()).add(
            BTreeNode::forest(s.subrange(i + 1, s.len() as int)),
        ),
{
    let a = s.subrange(0, i);
    let c = s.subrange(i + 1, s.len() as int);
    assert(s =~= a + (seq![s[i]] + c));
    lemma_forest_concat(a, seq![s[i]] + c);
    lemma_forest_concat(seq![s[i]], c);
    lemma_forest_one(s[i]);
}

/// A key held by a sequence of subtrees is held by one of them.
proof fn lemma_forest_member<T>(s: Seq<BTreeNode<T>>, x: T)
    requires
        BTreeNode::forest(s).count(x) > 0,
    ensures
        exists|j: int| 0 <= j < s.len() && #[trigger] s[j].contents().count(x) > 0,
    decreases s.len(),
{
    if s.len() > 0 {
        let s0 = s.subrange(0, s.len() - 1);
        if s[s.len() - 1].contents().count(x) == 0 {
            lemma_forest_member(s0, x);
            let j = choose|j: int| 0 <= j < s0.len() && #[trigger] s0[j].contents().count(x) > 0;
            assert(s[j] == s0[j]);
        }
    }
}

/// A key held by one subtree of a sequence is held by the sequence.
proof fn lemma_forest_holds<T>(s: Seq<BTreeNode<T>>, j: int, x: T)
    requires
        0 <= j < s.len(),
    ensures
        s[j].contents().count(x) <= BTreeNode::forest(s).count(x),
{
    lemma_forest_split(s, j);
}

/// A key that lies strictly between the keys `i - 1` and `i` of an inner node is
/// held by the node as often as by its child `i`.
proof fn lemma_descend<T: PartialOrd>(n: BTreeNode<T>, h: nat, lo: nat, order: nat, i: int, key: T)
    requires
        is_total_order::<T>(),
        n.wf_at(h, lo, order),
        h > 0,
        0 <= i <= n.keys.len(),
        forall|j: int| 0 <= j < i ==> le(#[trigger] n.keys@[j], key) && n.keys@[j] != key,
        i < n.keys.len() ==> le(key, n.keys@[i]) && n.keys@[i] != key,
    ensures
        n.contents().count(key) == n.children@[i].contents().count(key),
        n.keys@.to_multiset().count(key) == 0,
{
    lemma_keys_absent(n, h, lo, order, i, key);
    let s = n.children@;
    lemma_forest_split(s, i);
    let pre = s.subrange(0, i);
    let post = s.subrange(i + 1, s.len() as int);
    if BTreeNode::forest(pre).count(key) > 0 {
        lemma_forest_member(pre, key);
        let j = choose|j: int| 0 <= j < pre.len() && #[trigger] pre[j].contents().count(key) > 0;
        assert(n.fits(j, s[j].contents()));
        assert(s[j] == pre[j]);
        assert(le(key, n.keys@[j]));
        assert(le(n.keys@[j], key));
    }
    if BTreeNode::forest(post).count(key) > 0 {
        lemma_forest_member(post, key);
        let j = choose|j: int| 0 <= j < post.len() && #[trigger] post[j].contents().count(key) > 0;
        assert(post[j] == s[i + 1 + j]);
        assert(n.fits(i + 1 + j, s[i + 1 + j].contents()));
        assert(le(n.keys@[i + j], key));
        if j > 0 {
            assert(le(n.keys@[i], n.keys@[i + j]));
            lemma_le_trans(n.keys@[i], n.keys@[i + j], key);
        }
        assert(le(n.keys@[i], key));
    }
}

/// The key lies strictly between the keys `i - 1` and `i` of the node, so it is
/// none of the node's keys.
proof fn lemma_keys_absent<T: PartialOrd>(n: BTreeNode<T>, h: nat, lo: nat, order: nat, i: int, key: T)
    requires
        is_total_order::<T>(),
        n.wf_at(h, lo, order),
        0 <= i <= n.keys.len(),
        forall|j: int| 0 <= j < i ==> le(#[trigger] n.keys@[j], key) && n.keys@[j] != key,
        i < n.keys.len() ==> le(key, n.keys@[i]) && n.keys@[i] != key,
    ensures
        n.keys@.to_multiset().count(key) == 0,
{
    if n.keys@.to_multiset().count(key) > 0 {
        assert(n.keys@.contains(key));
        let j = choose|j: int| 0 <= j < n.keys@.len() && n.keys@[j] == key;
        if j < i {
            assert(n.keys@[j] != key);
        } else {
            if j > i {
                assert(le(n.keys@[i], n.keys@[j]));
            }
            assert(le(n.keys@[i], key));
        }
    }
}

impl<T: PartialOrd> BTreeNode<T> {
    /// An empty node of a tree of minimum degree `order`.
    pub fn new(order: usize, leaf: bool) -> (node: Self)
        ensures
            node.node_order() == order,
            node.is_leaf() == leaf,
            node.key_seq() == Seq::<T>::empty(),
            node.child_count() == 0,
            node.contents() == Multiset::<T>::empty(),
    {
        let node = BTreeNode { order, keys: Vec::new(), children: Vec::new(), leaf };
        assert(node.contents() =~= Multiset::<T>::empty());
        node
    }
}

impl<T: PartialOrd> View for BTree<T> {
    type V = Multiset<T>;

    /// The keys held by the tree.
    closed spec fn view(&self) -> Multiset<T> {
        match self.root {
            None => Multiset::empty(),
            Some(r) => r.contents(),
        }
    }
}

impl<T: PartialOrd> BTree<T> {
    /// The minimum degree the tree was made with.
    pub closed spec fn order_spec(&self) -> nat {
        self.order as nat
    }

    /// The shape of the tree: its root's keys and the shapes of its subtrees;
    /// none for an empty tree.
    pub closed spec fn shape(&self) -> Option<Shape<T>> {
        match self.root {
            None => None,
            Some(r) => Some(r.shape()),
        }
    }

    /// The key lists of the tree's nodes, level by level from the root down,
    /// and from left to right within a level.
    pub open spec fn level_lists(&self) -> Seq<Seq<Seq<T>>> {
        shape_levels(self.shape())
    }
}

impl<T: PartialOrd> BTree<T> {
    #[verifier::type_invariant]
    spec fn inv(self) -> bool {
        self.is_b_tree()
    }

    /// The tree has the shape of a B-tree of its minimum degree: every node
    /// holds at most `2 * order - 1` keys, in order, and every node but the
    /// root at least `order - 1`, the root at least one; an inner node has one
    /// child more than it has keys, and its keys separate the keys of its
    /// subtrees; all leaves lie at the same depth.
    pub closed spec fn is_b_tree(self) -> bool {
        &&& self.order >= 2
        &&& match self.root {
            None => true,
            Some(r) => r.wf(1, self.order as nat),
        }
    }

    /// An empty tree of minimum degree `order`, which must be at least 2.
    pub fn new(order: usize) -> (tree: Self)
        requires
            order >= 2,
        ensures
            tree@ == Multiset::<T>::empty(),
            tree.order_spec() == order,
            tree.shape() == None::<Shape<T>>,
            tree.level_lists() == Seq::<Seq<Seq<T>>>::empty(),
            tree.is_b_tree(),
    {
        BTree { root: None, order }
    }

    /// Adds `key` to the tree; a key already there gets a second copy, after
    /// the copies there. Into an empty tree, the key goes into a new root, the
    /// tree's one node. A full root is first put under a new root and split;
    /// on the way down, a full child is split before the key goes into it.
    pub fn insert(&mut self, key: T)
        requires
            is_total_order::<T>(),
        ensures
            final(self)@ == old(self)@.insert(key),
            final(self).shape() == tree_insert(old(self).shape(), key, old(self).order_spec()),
            final(self).order_spec() == old(self).order_spec(),
            old(self)@ == Multiset::<T>::empty() ==> final(self).level_lists() == seq![seq![seq![key]]],
            final(self).is_b_tree(),
            old(self).shape() is Some && old(self).shape().unwrap().keys.len() == 2 * old(self).order_spec() - 1
                ==> final(self).shape() is Some && final(self).shape().unwrap().keys == seq![
                old(self).shape().unwrap().keys[old(self).order_spec() - 1],
            ] && shape_height(final(self).shape().unwrap()) == shape_height(old(self).shape().unwrap()) + 1,
            old(self).shape() is Some && old(self).shape().unwrap().keys.len() < 2 * old(self).order_spec() - 1
                ==> final(self).shape() is Some && shape_height(final(self).shape().unwrap()) == shape_height(
                old(self).shape().unwrap(),
            ),
    {
        proof {
            use_type_invariant(&*self);
        }
        let ghost ord = self.order as nat;
        let mut root_opt: Option<BTreeNode<T>> = None;
        std::mem::swap(&mut root_opt, &mut self.root);
        match root_opt {
            None => {
                let mut new_root = BTreeNode::new(self.order, true);
                new_root.keys.push(key);
                proof {
                    assert(new_root.keys@ =~= seq![key]);
                    assert(new_root.children@ =~= Seq::<BTreeNode<T>>::empty());
                    assert(BTreeNode::forest(new_root.children@) =~= Multiset::empty());
                    assert(new_root.wf_at(0, 1, ord));
                    lemma_height(new_root, 0, 1, ord);
                    assert(new_root.contents() =~= Multiset::empty().insert(key));
                    assert(new_root.height() == 0);
                    assert(new_root.level_keys(0) =~= seq![seq![key]]);
                    assert(with_subtree(Seq::<Seq<Seq<T>>>::empty(), new_root, 0) =~= seq![seq![seq![key]]]);
                    lemma_shape(new_root);
                    assert(new_root.shape().keys =~= seq![key]);
                    assert(new_root.shape().children =~= Seq::<Shape<T>>::empty());
                }
                self.root = Some(new_root);
            },
            Some(mut root) => {
                let ghost h = root.height();
                let ghost old_root = root;
                proof {
                    lemma_shape_height(root);
                    lemma_wf_lo(root, h, 1, 1, ord);
                    assert(root.local_ok(h, 1, ord));
                    let k0 = root.keys@[0];
                    assert(root.keys@.to_multiset().count(k0) > 0);
                    assert(root.contents().count(k0) > 0);
                    assert(old(self)@ != Multiset::<T>::empty());
                }
                let len = root.keys.len();
                if len >= self.order && len - self.order == self.order - 1 {
                    let mut new_root = BTreeNode::new(self.order, false);
                    new_root.children.push(root);
                    proof {
                        let c = old_root;
                        assert(new_root.children@ =~= seq![c]);
                        lemma_wf_lo(c, h, 1, (ord - 1) as nat, ord);
                        lemma_forest_wf(new_root.children@, h, ord);
                        assert(new_root.children@[0] == c);
                        assert(new_root.wf_at(h + 1, 0, ord));
                        lemma_height(new_root, h + 1, 0, ord);
                        lemma_forest_one(c);
                        assert(new_root.contents() =~= c.contents());
                        lemma_shape(new_root);
                        assert(new_root.shape().keys =~= Seq::<T>::empty());
                        assert(new_root.shape().children =~= seq![c.shape()]);
                    }
                    let ghost nr0 = new_root;
                    new_root.split_child(0);
                    proof {
                        lemma_split_shape(nr0, new_root, 0, ord);
                    }
                    root = new_root;
                } else {
                    proof {
                        lemma_wf_lo(root, h, 1, 0, ord);
                    }
                }
                let ghost before = root;
                root.insert_non_full(key);
                proof {
                    lemma_shape_height(root);
                    lemma_shape_height(old_root);
                    lemma_wf_lo(root, before.height(), 0, 1, ord);
                    lemma_height(root, before.height(), 1, ord);
                }
                self.root = Some(root);
            },
        }
        proof {
            use_type_invariant(&*self);
            if old(self).shape() is Some && old(self).shape().unwrap().keys.len() == 2 * old(self).order_spec() - 1 {
                lemma_insert_full_root(*old(self), *self, key);
            }
        }
    }

    /// Removes one copy of `key` from the tree, if it holds one. A copy found
    /// in an inner node changes places with its predecessor, the greatest key
    /// of the child before it, when that child can spare a key; else with its
    /// successor, when the child after it can; else the two children are
    /// merged around it. The copy is then removed from that child.
    pub fn remove(&mut self, key: T)
        requires
            is_total_order::<T>(),
        ensures
            final(self)@ == old(self)@.remove(key),
            final(self).shape() == tree_remove(old(self).shape(), key, old(self).order_spec()),
            forall|i: int|
                old(self).shape() is Some && old(self).shape().unwrap().children.len() > 0 && #[trigger] first_index(
                    old(self).shape().unwrap().keys,
                    key,
                    i,
                ) && old(self).shape().unwrap().children[i].keys.len() >= old(self).order_spec() ==> {
                    &&& final(self).shape() is Some
                    &&& final(self).shape().unwrap().keys == old(self).shape().unwrap().keys.update(
                        i,
                        final(self).shape().unwrap().keys[i],
                    )
                    &&& shape_contents(old(self).shape().unwrap().children[i]).count(final(self).shape().unwrap().keys[i]) > 0
                    &&& forall|x: T|
                        #[trigger] shape_contents(old(self).shape().unwrap().children[i]).count(x) > 0 ==> le(
                            x,
                            final(self).shape().unwrap().keys[i],
                        )
                    &&& final(self).shape().unwrap().children[i + 1] == old(self).shape().unwrap().children[i + 1]
                },
            final(self).order_spec() == old(self).order_spec(),
            final(self).is_b_tree(),
    {
        proof {
            use_type_invariant(&*self);
        }
        let ghost ord = self.order as nat;
        let ghost before = self@;
        let mut root_opt: Option<BTreeNode<T>> = None;
        std::mem::swap(&mut root_opt, &mut self.root);
        match root_opt {
            None => {
                proof {
                    assert(before =~= Multiset::empty());
                    assert(before.remove(key) =~= Multiset::empty());
                }
            },
            Some(mut root) => {
                let ghost h = root.height();
                proof {
                    lemma_wf_lo(root, h, 1, 0, ord);
                    lemma_shape_height(root);
                }
                root.remove(key);
                proof {
                    lemma_shape(root);
                    assert(root.local_ok(h, 0, ord));
                }
                if root.keys.len() == 0 {
                    if root.leaf {
                        proof {
                            assert(root.keys@ =~= Seq::<T>::empty());
                            assert(root.children@ =~= Seq::<BTreeNode<T>>::empty());
                            assert(BTreeNode::forest(root.children@) =~= Multiset::empty());
                            assert(root.contents() =~= Multiset::empty());
                        }
                    } else {
                        let ghost r0 = root;
                        let child = root.children.remove(0);
                        proof {
                            lemma_forest_wf(r0.children@, (h - 1) as nat, ord);
                            assert(r0.children@ =~= seq![child]);
                            assert(child.wf_at((h - 1) as nat, (ord - 1) as nat, ord));
                            assert(child.local_ok((h - 1) as nat, (ord - 1) as nat, ord));
                            lemma_wf_lo(child, (h - 1) as nat, (ord - 1) as nat, 1, ord);
                            lemma_height(child, (h - 1) as nat, 1, ord);
                            lemma_forest_one(child);
                            assert(r0.keys@ =~= Seq::<T>::empty());
                            assert(r0.contents() =~= child.contents());
                        }
                        self.root = Some(child);
                    }
                } else {
                    proof {
                        lemma_wf_lo(root, h, 0, 1, ord);
                        lemma_height(root, h, 1, ord);
                    }
                    self.root = Some(root);
                }
            },
        }
        proof {
            use_type_invariant(&*self);
            assert forall|i: int|
                old(self).shape() is Some && old(self).shape().unwrap().children.len() > 0 && #[trigger] first_index(
                    old(self).shape().unwrap().keys,
                    key,
                    i,
                ) && old(self).shape().unwrap().children[i].keys.len() >= old(self).order_spec() implies {
                    &&& self.shape() is Some
                    &&& self.shape().unwrap().keys == old(self).shape().unwrap().keys.update(i, self.shape().unwrap().keys[i])
                    &&& shape_contents(old(self).shape().unwrap().children[i]).count(self.shape().unwrap().keys[i]) > 0
                    &&& forall|x: T|
                        #[trigger] shape_contents(old(self).shape().unwrap().children[i]).count(x) > 0 ==> le(
                            x,
                            self.shape().unwrap().keys[i],
                        )
                    &&& self.shape().unwrap().children[i + 1] == old(self).shape().unwrap().children[i + 1]
                } by {
                lemma_remove_takes_predecessor(*old(self), *self, key, i);
            }
        }
    }

    /// The key lists of the tree's nodes level by level, from the root down and
    /// from left to right within a level; the keys are clones of the tree's.
    pub fn traverse(&self) -> (r: TraverseResult<T>)
        where
            T: Clone,
        ensures
            levels_copied(self.level_lists(), r@),
    {
        proof {
            use_type_invariant(self);
        }
        let mut traverse: TraverseResult<T> = TraverseResult::new();
        match &self.root {
            None => {
                traverse
            },
            Some(root) => {
                let ghost m = Seq::<Seq<Seq<T>>>::empty();
                let keys = root.keys.clone();
                traverse.insert(0, keys);
                proof {
                    let h = root.height();
                    let ord = self.order as nat;
                    lemma_wf_lo(*root, h, 1, 0, ord);
                    let m1 = with_part(m, *root, 0, 0);
                    assert(m1.len() == 1);
                    assert(m1[0] =~= seq![root.keys@]);
                    assert(keys_copied(root.keys@, keys@));
                    assert(lists_copied(m1[0], traverse@[0]));
                    assert(levels_copied(m1, traverse@));
                }
                if !root.leaf {
                    root.traverse_children(&mut traverse, 0, Ghost(m));
                }
                proof {
                    let fin = with_part(m, *root, 0, root.children.len() as int);
                    assert(root.children@.subrange(0, root.children.len() as int) =~= root.children@);
                    if root.leaf {
                        assert(root.children@ =~= Seq::<BTreeNode<T>>::empty());
                        assert(root.height() == 0);
                        assert forall|d: int| 0 <= d < fin.len() implies #[trigger] with_subtree(m, *root, 0)[d] == fin[d] by {
                            assert(d == 0);
                        }
                    } else {
                        assert forall|d: int| 0 <= d < fin.len() implies #[trigger] with_subtree(m, *root, 0)[d] == fin[d] by {
                            if d == 0 {
                                assert(with_subtree(m, *root, 0)[d] =~= seq![root.keys@]);
                            }
                        }
                    }
                    assert(with_subtree(m, *root, 0) =~= fin);
                    lemma_with_subtree_shape(*root);
                }
                traverse
            },
        }
    }

    /// A key of the tree equal to `key`, if there is one.
    pub fn get_ref(&self, key: T) -> (r: Option<&T>)
        requires
            is_total_order::<T>(),
        ensures
            r is Some <==> self@.count(key) > 0,
            r matches Some(k) ==> *k == key,
    {
        proof {
            use_type_invariant(self);
        }
        let mut current_node = match &self.root {
            None => {
                return None;
            },
            Some(r) => r,
        };
        let ghost order = self.order as nat;
        proof {
            let h = current_node.height();
            lemma_wf_lo(*current_node, h, 1, 0, order);
        }
        loop
            invariant
                is_total_order::<T>(),
                current_node.wf(0, order),
                self@.count(key) == current_node.contents().count(key),
            decreases current_node.height(),
        {
            let ghost h = current_node.height();
            if current_node.leaf {
                let mut i: usize = 0;
                while i < current_node.keys.len()
                    invariant
                        is_total_order::<T>(),
                        self@.count(key) == current_node.contents().count(key),
                        i <= current_node.keys.len(),
                        forall|j: int| 0 <= j < i ==> #[trigger] current_node.keys@[j] != key,
                    decreases current_node.keys.len() - i,
                {
                    if current_node.keys[i] == key {
                        proof {
                            assert(current_node.keys@.contains(key));
                            assert(current_node.keys@.to_multiset().count(key) > 0);
                            assert(current_node.contents().count(key) > 0);
                        }
                        return Some(&current_node.keys[i]);
                    }
                    i += 1;
                }
                proof {
                    assert(!current_node.keys@.contains(key));
                    assert(current_node.children@ =~= Seq::<BTreeNode<T>>::empty());
                    assert(BTreeNode::forest(current_node.children@) =~= Multiset::empty());
                    assert(current_node.contents().count(key) == 0);
                }
                return None;
            }
            let mut next: usize = current_node.children.len() - 1;
            let mut i: usize = 0;
            while i < current_node.keys.len()
                invariant_except_break
                    next == current_node.keys.len(),
                invariant
                    is_total_order::<T>(),
                    self@.count(key) == current_node.contents().count(key),
                    current_node.wf(0, order),
                    !current_node.leaf,
                    i <= current_node.keys.len(),
                    forall|j: int|
                        0 <= j < i ==> le(#[trigger] current_node.keys@[j], key)
                            && current_node.keys@[j] != key,
                ensures
                    next <= current_node.keys.len(),
                    forall|j: int|
                        0 <= j < next ==> le(#[trigger] current_node.keys@[j], key)
                            && current_node.keys@[j] != key,
                    next < current_node.keys.len() ==> le(key, current_node.keys@[next as int])
                        && current_node.keys@[next as int] != key,
                decreases current_node.keys.len() - i,
            {
                if current_node.keys[i] == key {
                    proof {
                        assert(current_node.keys@.contains(key));
                        assert(current_node.keys@.to_multiset().count(key) > 0);
                        assert(current_node.contents().count(key) > 0);
                    }
                    return Some(&current_node.keys[i]);
                }
                if current_node.keys[i] > key {
                    next = i;
                    break;
                }
                i += 1;
            }
            proof {
                lemma_descend(*current_node, h, 0, order, next as int, key);
                lemma_forest_wf(current_node.children@, (h - 1) as nat, order);
                assert(current_node.children@[next as int].wf_at((h - 1) as nat, (order - 1) as nat, order));
                lemma_wf_lo(current_node.children@[next as int], (h - 1) as nat, (order - 1) as nat, 0, order);
                lemma_height(current_node.children@[next as int], (h - 1) as nat, 0, order);
            }
            current_node = &current_node.children[next];
        }
    }
}

/// The keys of a node lie below `k` when its own keys and those of each child do.
proof fn lemma_all_le_node<T: PartialOrd>(n: BTreeNode<T>, k: T)
    requires
        forall|j: int| 0 <= j < n.keys.len() ==> le(#[trigger] n.keys@[j], k),
        forall|i: int|
            0 <= i < n.children.len() ==> BTreeNode::all_le(#[trigger] n.children@[i].contents(), k),
    ensures
        BTreeNode::all_le(n.contents(), k),
{
    assert forall|x: T| #[trigger] n.contents().count(x) > 0 implies le(x, k) by {
        if n.keys@.to_multiset().count(x) > 0 {
            assert(n.keys@.contains(x));
        } else {
            lemma_forest_member(n.children@, x);
            let i = choose|i: int| 0 <= i < n.children@.len() && #[trigger] n.children@[i].contents().count(x) > 0;
            assert(BTreeNode::all_le(n.children@[i].contents(), k));
        }
    }
}

/// The keys of a node lie above `k` when its own keys and those of each child do.
proof fn lemma_all_ge_node<T: PartialOrd>(n: BTreeNode<T>, k: T)
    requires
        forall|j: int| 0 <= j < n.keys.len() ==> le(k, #[trigger] n.keys@[j]),
        forall|i: int|
            0 <= i < n.children.len() ==> BTreeNode::all_ge(#[trigger] n.children@[i].contents(), k),
    ensures
        BTreeNode::all_ge(n.contents(), k),
{
    assert forall|x: T| #[trigger] n.contents().count(x) > 0 implies le(k, x) by {
        if n.keys@.to_multiset().count(x) > 0 {
            assert(n.keys@.contains(x));
        } else {
            lemma_forest_member(n.children@, x);
            let i = choose|i: int| 0 <= i < n.children@.len() && #[trigger] n.children@[i].contents().count(x) > 0;
            assert(BTreeNode::all_ge(n.children@[i].contents(), k));
        }
    }
}

/// In a B-tree, the keys of child `i` lie below every key of index `i` or more,
/// and above every key of index below `i`.
proof fn lemma_child_between<T: PartialOrd>(n: BTreeNode<T>, h: nat, lo: nat, order: nat, i: int, j: int)
    requires
        is_total_order::<T>(),
        n.wf_at(h, lo, order),
        0 <= i < n.children.len(),
        0 <= j < n.keys.len(),
    ensures
        j >= i ==> BTreeNode::all_le(n.children@[i].contents(), n.keys@[j]),
        j < i ==> BTreeNode::all_ge(n.children@[i].contents(), n.keys@[j]),
{
    let ms = n.children@[i].contents();
    assert(n.fits(i, ms));
    if j >= i {
        assert forall|x: T| #[trigger] ms.count(x) > 0 implies le(x, n.keys@[j]) by {
            if j > i {
                assert(le(n.keys@[i], n.keys@[j]));
                lemma_le_trans(x, n.keys@[i], n.keys@[j]);
            }
        }
    } else {
        assert forall|x: T| #[trigger] ms.count(x) > 0 implies le(n.keys@[j], x) by {
            if j < i - 1 {
                assert(le(n.keys@[j], n.keys@[i - 1]));
                lemma_le_trans(n.keys@[j], n.keys@[i - 1], x);
            }
        }
    }
}

/// A key of the node's own is one of its keys.
proof fn lemma_key_in_contents<T>(n: BTreeNode<T>, j: int)
    requires
        0 <= j < n.keys.len(),
    ensures
        n.contents().count(n.keys@[j]) > 0,
{
    assert(n.keys@.contains(n.keys@[j]));
}

/// The two halves of a full node split around its middle key are B-trees; the
/// keys of the first lie below the middle key and those of the second above it.
proof fn lemma_split_halves<T: PartialOrd>(c: BTreeNode<T>, h: nat, ord: nat, l: BTreeNode<T>, r: BTreeNode<T>)
    requires
        is_total_order::<T>(),
        c.wf_at(h, (ord - 1) as nat, ord),
        c.keys.len() == 2 * ord - 1,
        l.order == ord && r.order == ord,
        l.leaf == c.leaf && r.leaf == c.leaf,
        l.keys@ == c.keys@.subrange(0, ord - 1),
        r.keys@ == c.keys@.subrange(ord as int, 2 * ord - 1),
        c.leaf ==> l.children@ == Seq::<BTreeNode<T>>::empty() && r.children@ == Seq::<BTreeNode<T>>::empty(),
        !c.leaf ==> l.children@ == c.children@.subrange(0, ord as int) && r.children@ == c.children@.subrange(ord as int, 2 * ord as int),
    ensures
        l.wf_at(h, (ord - 1) as nat, ord),
        r.wf_at(h, (ord - 1) as nat, ord),
        c.contents() =~= l.contents().insert(c.keys@[ord - 1]).add(r.contents()),
        BTreeNode::all_le(l.contents(), c.keys@[ord - 1]),
        BTreeNode::all_ge(r.contents(), c.keys@[ord - 1]),
        c.contents().count(c.keys@[ord - 1]) > 0,
{
    let t = ord - 1;
    let m = c.keys@[t];
    assert(c.keys@ =~= l.keys@ + seq![m] + r.keys@);
    assert(c.children@ =~= l.children@ + r.children@);
    lemma_forest_wf(c.children@, (h - 1) as nat, ord);
    lemma_forest_wf(l.children@, (h - 1) as nat, ord);
    lemma_forest_wf(r.children@, (h - 1) as nat, ord);
    assert forall|i: int| 0 <= i < l.children.len() implies #[trigger] l.fits(i, l.children@[i].contents()) by {
        assert(l.children@[i] == c.children@[i]);
        assert(c.fits(i, c.children@[i].contents()));
    }
    assert forall|i: int| 0 <= i < r.children.len() implies #[trigger] r.fits(i, r.children@[i].contents()) by {
        assert(r.children@[i] == c.children@[t + 1 + i]);
        assert(c.fits(t + 1 + i, c.children@[t + 1 + i].contents()));
    }
    lemma_forest_concat(l.children@, r.children@);
    vstd::seq_lib::lemma_multiset_commutative(l.keys@ + seq![m], r.keys@);
    vstd::seq_lib::lemma_multiset_commutative(l.keys@, seq![m]);
    assert forall|i: int| 0 <= i < l.children.len() implies BTreeNode::all_le(#[trigger] l.children@[i].contents(), m) by {
        assert(l.children@[i] == c.children@[i]);
        lemma_child_between(c, h, (ord - 1) as nat, ord, i, t);
    }
    lemma_all_le_node(l, m);
    assert forall|i: int| 0 <= i < r.children.len() implies BTreeNode::all_ge(#[trigger] r.children@[i].contents(), m) by {
        assert(r.children@[i] == c.children@[t + 1 + i]);
        lemma_child_between(c, h, (ord - 1) as nat, ord, t + 1 + i, t);
    }
    lemma_all_ge_node(r, m);
    lemma_key_in_contents(c, t);
}

/// A node whose full child at `index` was replaced by its two halves, with the
/// middle key between them, is a B-tree holding the same keys.
proof fn lemma_split_parent<T: PartialOrd>(
    old_n: BTreeNode<T>,
    n: BTreeNode<T>,
    h: nat,
    ord: nat,
    index: int,
    l: BTreeNode<T>,
    r: BTreeNode<T>,
    m: T,
)
    requires
        is_total_order::<T>(),
        old_n.wf_at(h, 0, ord),
        h > 0,
        old_n.keys.len() < 2 * ord - 1,
        0 <= index < old_n.children.len(),
        n.order == old_n.order,
        n.leaf == old_n.leaf,
        n.keys@ == old_n.keys@.insert(index, m),
        n.children@ == old_n.children@.update(index, l).insert(index + 1, r),
        l.wf_at((h - 1) as nat, (ord - 1) as nat, ord),
        r.wf_at((h - 1) as nat, (ord - 1) as nat, ord),
        old_n.children@[index].contents() =~= l.contents().insert(m).add(r.contents()),
        BTreeNode::all_le(l.contents(), m),
        BTreeNode::all_ge(r.contents(), m),
        old_n.children@[index].contents().count(m) > 0,
    ensures
        n.wf_at(h, 0, ord),
        n.contents() =~= old_n.contents(),
{
    let c = old_n.children@[index];
    let ok = old_n.keys@;
    let oc = old_n.children@;
    let nc = n.children@;
    assert(old_n.fits(index, c.contents()));
    if index > 0 {
        assert(le(ok[index - 1], m));
    }
    if index < ok.len() {
        assert(le(m, ok[index]));
    }
    assert forall|i: int, j: int| 0 <= i < j < n.keys.len() implies #[trigger] le(n.keys@[i], n.keys@[j]) by {
        let k = index;
        if i < k && j == k {
            assert(le(ok[i], ok[k - 1]));
            lemma_le_trans(ok[i], ok[k - 1], m);
        } else if i == k && j > k {
            assert(le(ok[k], ok[j - 1]));
            lemma_le_trans(m, ok[k], ok[j - 1]);
        } else if i < k && j > k {
            assert(le(ok[i], ok[j - 1]));
        } else if j < k {
            assert(le(ok[i], ok[j]));
        } else {
            assert(le(ok[i - 1], ok[j - 1]));
        }
    }
    lemma_forest_wf(oc, (h - 1) as nat, ord);
    assert forall|i: int| 0 <= i < nc.len() implies #[trigger] nc[i].wf_at((h - 1) as nat, (ord - 1) as nat, ord) by {
        if i < index {
            assert(nc[i] == oc[i]);
        } else if i > index + 1 {
            assert(nc[i] == oc[i - 1]);
        }
    }
    lemma_forest_wf(nc, (h - 1) as nat, ord);
    assert forall|i: int| 0 <= i < nc.len() implies #[trigger] n.fits(i, nc[i].contents()) by {
        let k = index;
        if i < k {
            assert(nc[i] == oc[i]);
            assert(old_n.fits(i, oc[i].contents()));
        } else if i > k + 1 {
            assert(nc[i] == oc[i - 1]);
            assert(old_n.fits(i - 1, oc[i - 1].contents()));
        } else if i == k {
            if k > 0 {
                assert forall|x: T| #[trigger] l.contents().count(x) > 0 implies le(ok[k - 1], x) by {
                    assert(c.contents().count(x) > 0);
                }
            }
        } else {
            if k < ok.len() {
                assert forall|x: T| #[trigger] r.contents().count(x) > 0 implies le(x, ok[k]) by {
                    assert(c.contents().count(x) > 0);
                }
            }
        }
    }
    lemma_forest_split(oc, index);
    lemma_forest_split(nc, index);
    let tail = nc.subrange(index + 1, nc.len() as int);
    lemma_forest_split(tail, 0);
    assert(nc.subrange(0, index) =~= oc.subrange(0, index));
    assert(tail.subrange(1, tail.len() as int) =~= oc.subrange(index + 1, oc.len() as int));
    assert(tail.subrange(0, 0) =~= Seq::<BTreeNode<T>>::empty());
    assert(BTreeNode::forest(Seq::<BTreeNode<T>>::empty()) =~= Multiset::empty());
    assert(n.keys@.to_multiset() =~= ok.to_multiset().insert(m));
}


/// Replacing the child at `i` by a B-tree whose keys may stand there keeps the
/// node a B-tree; the node's keys change as the child's did.
proof fn lemma_replace_child<T: PartialOrd>(n: BTreeNode<T>, n2: BTreeNode<T>, h: nat, lo: nat, ord: nat, i: int)
    requires
        n.local_ok(h, lo, ord),
        BTreeNode::forest_wf(n.children@, (h - 1) as nat, ord),
        forall|j: int| 0 <= j < n.children.len() && j != i ==> #[trigger] n.fits(j, n.children@[j].contents()),
        0 <= i < n.children.len(),
        n2.order == n.order,
        n2.leaf == n.leaf,
        n2.keys@ == n.keys@,
        n2.children@ == n.children@.update(i, n2.children@[i]),
        n2.children@[i].wf_at((h - 1) as nat, (ord - 1) as nat, ord),
        n.fits(i, n2.children@[i].contents()),
    ensures
        n2.wf_at(h, lo, ord),
        forall|x: T| #[trigger] n2.contents().count(x) == n.contents().count(x) - n.children@[i].contents().count(x) + n2.children@[i].contents().count(x),
{
    let oc = n.children@;
    let nc = n2.children@;
    lemma_forest_wf(oc, (h - 1) as nat, ord);
    assert forall|j: int| 0 <= j < nc.len() implies #[trigger] nc[j].wf_at((h - 1) as nat, (ord - 1) as nat, ord) by {
        if j != i {
            assert(nc[j] == oc[j]);
        }
    }
    lemma_forest_wf(nc, (h - 1) as nat, ord);
    assert forall|j: int| 0 <= j < nc.len() implies #[trigger] n2.fits(j, nc[j].contents()) by {
        if j != i {
            assert(nc[j] == oc[j]);
            assert(n.fits(j, oc[j].contents()));
        }
    }
    lemma_forest_split(oc, i);
    lemma_forest_split(nc, i);
    assert(nc.subrange(0, i) =~= oc.subrange(0, i));
    assert(nc.subrange(i + 1, nc.len() as int) =~= oc.subrange(i + 1, oc.len() as int));
}

/// The child that a key sought below child `idx` is found under once `fill`
/// has run and left the node with `len` keys.
pub open spec fn fill_target(idx: int, len: int) -> int {
    if idx > len {
        idx - 1
    } else {
        idx
    }
}

/// The keys of the node that lie before `i` are not greater than `key`, and
/// the key at `i`, if any, is greater than it.
pub open spec fn is_insert_pos<T: PartialOrd>(keys: Seq<T>, i: int, key: T) -> bool {
    &&& 0 <= i <= keys.len()
    &&& forall|j: int| 0 <= j < i ==> le(#[trigger] keys[j], key)
    &&& i < keys.len() ==> !le(keys[i], key)
}


/// Two neighbouring subtrees joined around the key between them make a B-tree
/// holding the keys of both and that key.
proof fn lemma_merged<T: PartialOrd>(c: BTreeNode<T>, d: BTreeNode<T>, k: T, m: BTreeNode<T>, h: nat, ord: nat)
    requires
        is_total_order::<T>(),
        c.wf_at(h, (ord - 1) as nat, ord),
        d.wf_at(h, (ord - 1) as nat, ord),
        c.keys.len() + d.keys.len() + 1 <= 2 * ord - 1,
        BTreeNode::all_le(c.contents(), k),
        BTreeNode::all_ge(d.contents(), k),
        m.order == c.order,
        m.leaf == c.leaf,
        m.keys@ == c.keys@.push(k) + d.keys@,
        m.children@ == c.children@ + d.children@,
    ensures
        m.wf_at(h, (ord - 1) as nat, ord),
        m.contents() =~= c.contents().insert(k).add(d.contents()),
{
    let cl = c.keys.len() as int;
    let cc = c.children@;
    let dc = d.children@;
    lemma_forest_wf(cc, (h - 1) as nat, ord);
    lemma_forest_wf(dc, (h - 1) as nat, ord);
    lemma_forest_wf(m.children@, (h - 1) as nat, ord);
    assert forall|i: int| 0 <= i < m.children.len() implies #[trigger] m.children@[i].wf_at((h - 1) as nat, (ord - 1) as nat, ord) by {
        if i < cc.len() {
            assert(m.children@[i] == cc[i]);
        } else {
            assert(m.children@[i] == dc[i - cc.len()]);
        }
    }
    // the keys are in order
    assert forall|a: int, b: int| 0 <= a < b < m.keys.len() implies #[trigger] le(m.keys@[a], m.keys@[b]) by {
        if b < cl {
            assert(le(c.keys@[a], c.keys@[b]));
        } else if a > cl {
            assert(le(d.keys@[a - cl - 1], d.keys@[b - cl - 1]));
        } else if a < cl && b == cl {
            lemma_key_in_contents(c, a);
        } else if a == cl {
            lemma_key_in_contents(d, b - cl - 1);
        } else {
            lemma_key_in_contents(c, a);
            lemma_key_in_contents(d, b - cl - 1);
            lemma_le_trans(c.keys@[a], k, d.keys@[b - cl - 1]);
        }
    }
    // the children fit
    assert forall|i: int| 0 <= i < m.children.len() implies #[trigger] m.fits(i, m.children@[i].contents()) by {
        if !c.leaf {
            if i <= cl {
                assert(m.children@[i] == cc[i]);
                assert(c.fits(i, cc[i].contents()));
                if i == cl {
                    assert forall|x: T| #[trigger] cc[i].contents().count(x) > 0 implies le(x, k) by {
                        lemma_forest_holds(cc, i, x);
                        assert(c.contents().count(x) > 0);
                    }
                }
            } else {
                let j = i - cl - 1;
                assert(m.children@[i] == dc[j]);
                assert(d.fits(j, dc[j].contents()));
                if j == 0 {
                    assert forall|x: T| #[trigger] dc[j].contents().count(x) > 0 implies le(k, x) by {
                        lemma_forest_holds(dc, j, x);
                        assert(d.contents().count(x) > 0);
                    }
                }
            }
        }
    }
    assert(m.wf_at(h, (ord - 1) as nat, ord));
    lemma_forest_concat(cc, dc);
    vstd::seq_lib::lemma_multiset_commutative(c.keys@.push(k), d.keys@);
}

/// Joining the children at `idx` and `idx + 1` around the key between them
/// keeps the node a B-tree holding the same keys.
proof fn lemma_merge_parent<T: PartialOrd>(n: BTreeNode<T>, n2: BTreeNode<T>, h: nat, lo: nat, ord: nat, idx: int)
    requires
        is_total_order::<T>(),
        n.wf_at(h, lo, ord),
        h > 0,
        0 <= idx < n.keys.len(),
        n.keys.len() > lo,
        n2.order == n.order,
        n2.leaf == n.leaf,
        n2.keys@ == n.keys@.remove(idx),
        n2.children@ == n.children@.remove(idx + 1).update(idx, n2.children@[idx]),
        n2.children@[idx].wf_at((h - 1) as nat, (ord - 1) as nat, ord),
        n2.children@[idx].contents() =~= n.children@[idx].contents().insert(n.keys@[idx]).add(
            n.children@[idx + 1].contents(),
        ),
    ensures
        n2.wf_at(h, lo, ord),
        n2.contents() =~= n.contents(),
{
    let ok = n.keys@;
    let oc = n.children@;
    let nc = n2.children@;
    let k = ok[idx];
    lemma_forest_wf(oc, (h - 1) as nat, ord);
    assert forall|i: int| 0 <= i < nc.len() implies #[trigger] nc[i].wf_at((h - 1) as nat, (ord - 1) as nat, ord) by {
        if i < idx {
            assert(nc[i] == oc[i]);
        } else if i > idx {
            assert(nc[i] == oc[i + 1]);
        }
    }
    lemma_forest_wf(nc, (h - 1) as nat, ord);
    assert forall|a: int, b: int| 0 <= a < b < n2.keys.len() implies #[trigger] le(n2.keys@[a], n2.keys@[b]) by {
        if b < idx {
            assert(le(ok[a], ok[b]));
        } else if a >= idx {
            assert(le(ok[a + 1], ok[b + 1]));
        } else {
            assert(le(ok[a], ok[b + 1]));
        }
    }
    assert forall|i: int| 0 <= i < nc.len() implies #[trigger] n2.fits(i, nc[i].contents()) by {
        if i < idx {
            assert(nc[i] == oc[i]);
            assert(n.fits(i, oc[i].contents()));
        } else if i > idx {
            assert(nc[i] == oc[i + 1]);
            assert(n.fits(i + 1, oc[i + 1].contents()));
        } else {
            assert(n.fits(idx, oc[idx].contents()));
            assert(n.fits(idx + 1, oc[idx + 1].contents()));
            if idx > 0 {
                assert(le(ok[idx - 1], k));
                assert forall|x: T| #[trigger] nc[idx].contents().count(x) > 0 implies le(ok[idx - 1], x) by {
                    if oc[idx].contents().count(x) == 0 && x != k {
                        assert(oc[idx + 1].contents().count(x) > 0);
                        lemma_le_trans(ok[idx - 1], k, x);
                    }
                }
            }
            if idx + 1 < ok.len() {
                assert(le(k, ok[idx + 1]));
                assert forall|x: T| #[trigger] nc[idx].contents().count(x) > 0 implies le(x, ok[idx + 1]) by {
                    if oc[idx + 1].contents().count(x) == 0 && x != k {
                        assert(oc[idx].contents().count(x) > 0);
                        lemma_le_trans(x, k, ok[idx + 1]);
                    }
                }
            }
        }
    }
    assert(n2.wf_at(h, lo, ord));
    // the keys
    lemma_forest_split(oc, idx);
    lemma_forest_split(oc.subrange(idx + 1, oc.len() as int), 0);
    lemma_forest_split(nc, idx);
    assert(nc.subrange(0, idx) =~= oc.subrange(0, idx));
    assert(oc.subrange(idx + 1, oc.len() as int).subrange(1, oc.len() - idx - 1) =~= nc.subrange(idx + 1, nc.len() as int));
    assert(oc.subrange(idx + 1, oc.len() as int).subrange(0, 0) =~= Seq::<BTreeNode<T>>::empty());
    assert(BTreeNode::forest(Seq::<BTreeNode<T>>::empty()) =~= Multiset::empty());
    assert(ok.remove(idx).to_multiset() =~= ok.to_multiset().remove(k));
    lemma_key_in_contents(n, idx);
    assert(ok.to_multiset().count(k) > 0);
}


/// Moving the last key and last child of `l` over to the front of its right
/// neighbour `c`, through the parent's key `k` between them.
proof fn lemma_rotate_right<T: PartialOrd>(
    l: BTreeNode<T>,
    c: BTreeNode<T>,
    k: T,
    l2: BTreeNode<T>,
    c2: BTreeNode<T>,
    h: nat,
    ord: nat,
)
    requires
        is_total_order::<T>(),
        l.wf_at(h, (ord - 1) as nat, ord),
        c.wf_at(h, (ord - 1) as nat, ord),
        l.keys.len() >= ord,
        c.keys.len() < 2 * ord - 1,
        BTreeNode::all_le(l.contents(), k),
        BTreeNode::all_ge(c.contents(), k),
        l2.order == l.order && c2.order == c.order,
        l2.leaf == l.leaf && c2.leaf == c.leaf,
        l2.keys@ == l.keys@.subrange(0, l.keys.len() - 1),
        c2.keys@ == seq![k] + c.keys@,
        l.leaf ==> l2.children@ == l.children@ && c2.children@ == c.children@,
        !l.leaf ==> l2.children@ == l.children@.subrange(0, l.children.len() - 1)
            && c2.children@ == seq![l.children@[l.children.len() - 1]] + c.children@,
    ensures
        l2.wf_at(h, (ord - 1) as nat, ord),
        c2.wf_at(h, (ord - 1) as nat, ord),
        l.contents().count(l.keys@[l.keys.len() - 1]) > 0,
        l.contents().add(c.contents()).insert(k) =~= l2.contents().add(c2.contents()).insert(
            l.keys@[l.keys.len() - 1],
        ),
        forall|x: T| #[trigger] l2.contents().count(x) <= l.contents().count(x),
        forall|x: T| #[trigger] c.contents().count(x) <= c2.contents().count(x),
        forall|x: T|
            #[trigger] c2.contents().count(x) > 0 ==> c.contents().count(x) > 0 || x == k
                || l.contents().count(x) > 0,
        BTreeNode::all_le(l2.contents(), l.keys@[l.keys.len() - 1]),
        BTreeNode::all_ge(c2.contents(), l.keys@[l.keys.len() - 1]),
{
    let lk = l.keys.len() as int;
    let q = l.keys@[lk - 1];
    let lc = l.children@;
    let cc = c.children@;
    lemma_forest_wf(lc, (h - 1) as nat, ord);
    lemma_forest_wf(cc, (h - 1) as nat, ord);
    lemma_forest_wf(l2.children@, (h - 1) as nat, ord);
    lemma_forest_wf(c2.children@, (h - 1) as nat, ord);
    lemma_key_in_contents(l, lk - 1);
    assert(l.keys@ =~= l2.keys@.push(q));
    if l.leaf {
        assert(lc =~= Seq::<BTreeNode<T>>::empty());
        assert(cc =~= Seq::<BTreeNode<T>>::empty());
        assert(BTreeNode::forest(lc) =~= Multiset::empty());
    } else {
        assert(lc =~= l2.children@.push(lc[lk]));
        assert forall|i: int| 0 <= i < l2.children.len() implies #[trigger] l2.children@[i].wf_at((h - 1) as nat, (ord - 1) as nat, ord) by {
            assert(l2.children@[i] == lc[i]);
        }
        assert forall|i: int| 0 <= i < c2.children.len() implies #[trigger] c2.children@[i].wf_at((h - 1) as nat, (ord - 1) as nat, ord) by {
            if i == 0 {
                assert(c2.children@[i] == lc[lk]);
            } else {
                assert(c2.children@[i] == cc[i - 1]);
            }
        }
        lemma_forest_split(lc, lk);
        assert(lc.subrange(0, lk) =~= l2.children@);
        assert(lc.subrange(lk + 1, lc.len() as int) =~= Seq::<BTreeNode<T>>::empty());
        assert(BTreeNode::forest(Seq::<BTreeNode<T>>::empty()) =~= Multiset::empty());
        lemma_forest_concat(seq![lc[lk]], cc);
        lemma_forest_one(lc[lk]);
    }
    // l2 is a B-tree below q
    assert forall|i: int| 0 <= i < l2.children.len() implies #[trigger] l2.fits(i, l2.children@[i].contents()) by {
        assert(l2.children@[i] == lc[i]);
        assert(l.fits(i, lc[i].contents()));
    }
    assert(l2.wf_at(h, (ord - 1) as nat, ord));
    // c2 is a B-tree
    assert forall|a: int, b: int| 0 <= a < b < c2.keys.len() implies #[trigger] le(c2.keys@[a], c2.keys@[b]) by {
        if a == 0 {
            lemma_key_in_contents(c, b - 1);
        } else {
            assert(le(c.keys@[a - 1], c.keys@[b - 1]));
        }
    }
    assert forall|i: int| 0 <= i < c2.children.len() implies #[trigger] c2.fits(i, c2.children@[i].contents()) by {
        if i == 0 {
            assert(l.fits(lk, lc[lk].contents()));
            assert forall|x: T| #[trigger] lc[lk].contents().count(x) > 0 implies le(x, k) by {
                lemma_forest_holds(lc, lk, x);
                assert(l.contents().count(x) > 0);
            }
        } else {
            assert(c2.children@[i] == cc[i - 1]);
            assert(c.fits(i - 1, cc[i - 1].contents()));
            if i == 1 {
                assert forall|x: T| #[trigger] cc[0].contents().count(x) > 0 implies le(k, x) by {
                    lemma_forest_holds(cc, 0, x);
                    assert(c.contents().count(x) > 0);
                }
            }
        }
    }
    assert(c2.wf_at(h, (ord - 1) as nat, ord));
    // keys
    assert(c2.keys@ =~= seq![k] + c.keys@);
    vstd::seq_lib::lemma_multiset_commutative(seq![k], c.keys@);
    // bounds on q
    assert forall|x: T| #[trigger] l2.contents().count(x) > 0 implies le(x, q) by {
        if l2.keys@.to_multiset().count(x) > 0 {
            assert(l2.keys@.contains(x));
            let j = choose|j: int| 0 <= j < l2.keys.len() && l2.keys@[j] == x;
            assert(le(l.keys@[j], l.keys@[lk - 1]));
        } else {
            lemma_forest_member(l2.children@, x);
            let i = choose|i: int| 0 <= i < l2.children@.len() && #[trigger] l2.children@[i].contents().count(x) > 0;
            assert(l2.children@[i] == lc[i]);
            lemma_child_between(l, h, (ord - 1) as nat, ord, i, lk - 1);
        }
    }
    assert forall|x: T| #[trigger] c2.contents().count(x) > 0 implies le(q, x) by {
        if x == k {
        } else if c.contents().count(x) > 0 {
            lemma_le_trans(q, k, x);
        } else {
            assert(lc[lk].contents().count(x) > 0);
            assert(l.fits(lk, lc[lk].contents()));
        }
    }
}

/// Moving the first key and first child of `r` over to the end of its left
/// neighbour `c`, through the parent's key `k` between them.
proof fn lemma_rotate_left<T: PartialOrd>(
    c: BTreeNode<T>,
    r: BTreeNode<T>,
    k: T,
    c2: BTreeNode<T>,
    r2: BTreeNode<T>,
    h: nat,
    ord: nat,
)
    requires
        is_total_order::<T>(),
        c.wf_at(h, (ord - 1) as nat, ord),
        r.wf_at(h, (ord - 1) as nat, ord),
        r.keys.len() >= ord,
        c.keys.len() < 2 * ord - 1,
        BTreeNode::all_le(c.contents(), k),
        BTreeNode::all_ge(r.contents(), k),
        c2.order == c.order && r2.order == r.order,
        c2.leaf == c.leaf && r2.leaf == r.leaf,
        r2.keys@ == r.keys@.subrange(1, r.keys.len() as int),
        c2.keys@ == c.keys@.push(k),
        r.leaf ==> r2.children@ == r.children@ && c2.children@ == c.children@,
        !r.leaf ==> r2.children@ == r.children@.subrange(1, r.children.len() as int)
            && c2.children@ == c.children@.push(r.children@[0]),
    ensures
        c2.wf_at(h, (ord - 1) as nat, ord),
        r2.wf_at(h, (ord - 1) as nat, ord),
        r.contents().count(r.keys@[0]) > 0,
        c.contents().add(r.contents()).insert(k) =~= c2.contents().add(r2.contents()).insert(
            r.keys@[0],
        ),
        forall|x: T| #[trigger] r2.contents().count(x) <= r.contents().count(x),
        forall|x: T| #[trigger] c.contents().count(x) <= c2.contents().count(x),
        forall|x: T|
            #[trigger] c2.contents().count(x) > 0 ==> c.contents().count(x) > 0 || x == k
                || r.contents().count(x) > 0,
        BTreeNode::all_ge(r2.contents(), r.keys@[0]),
        BTreeNode::all_le(c2.contents(), r.keys@[0]),
{
    let s0 = r.keys@[0];
    let rc = r.children@;
    let cc = c.children@;
    let ck = c.keys.len() as int;
    lemma_forest_wf(rc, (h - 1) as nat, ord);
    lemma_forest_wf(cc, (h - 1) as nat, ord);
    lemma_forest_wf(r2.children@, (h - 1) as nat, ord);
    lemma_forest_wf(c2.children@, (h - 1) as nat, ord);
    lemma_key_in_contents(r, 0);
    assert(r.keys@ =~= seq![s0] + r2.keys@);
    vstd::seq_lib::lemma_multiset_commutative(seq![s0], r2.keys@);
    if r.leaf {
        assert(rc =~= Seq::<BTreeNode<T>>::empty());
        assert(cc =~= Seq::<BTreeNode<T>>::empty());
        assert(BTreeNode::forest(rc) =~= Multiset::empty());
    } else {
        assert(rc =~= seq![rc[0]] + r2.children@);
        assert forall|i: int| 0 <= i < r2.children.len() implies #[trigger] r2.children@[i].wf_at((h - 1) as nat, (ord - 1) as nat, ord) by {
            assert(r2.children@[i] == rc[i + 1]);
        }
        assert forall|i: int| 0 <= i < c2.children.len() implies #[trigger] c2.children@[i].wf_at((h - 1) as nat, (ord - 1) as nat, ord) by {
            if i < cc.len() {
                assert(c2.children@[i] == cc[i]);
            } else {
                assert(c2.children@[i] == rc[0]);
            }
        }
        lemma_forest_concat(seq![rc[0]], r2.children@);
        lemma_forest_concat(cc, seq![rc[0]]);
        lemma_forest_one(rc[0]);
        assert(c2.children@ =~= cc + seq![rc[0]]);
    }
    // r2 is a B-tree above s0
    assert forall|i: int| 0 <= i < r2.children.len() implies #[trigger] r2.fits(i, r2.children@[i].contents()) by {
        assert(r2.children@[i] == rc[i + 1]);
        assert(r.fits(i + 1, rc[i + 1].contents()));
    }
    assert forall|a: int, b: int| 0 <= a < b < r2.keys.len() implies #[trigger] le(r2.keys@[a], r2.keys@[b]) by {
        assert(le(r.keys@[a + 1], r.keys@[b + 1]));
    }
    assert(r2.wf_at(h, (ord - 1) as nat, ord));
    // c2 is a B-tree
    assert forall|a: int, b: int| 0 <= a < b < c2.keys.len() implies #[trigger] le(c2.keys@[a], c2.keys@[b]) by {
        if b == ck {
            lemma_key_in_contents(c, a);
        } else {
            assert(le(c.keys@[a], c.keys@[b]));
        }
    }
    assert forall|i: int| 0 <= i < c2.children.len() implies #[trigger] c2.fits(i, c2.children@[i].contents()) by {
        if i == ck + 1 {
            assert(r.fits(0, rc[0].contents()));
            assert forall|x: T| #[trigger] rc[0].contents().count(x) > 0 implies le(k, x) by {
                lemma_forest_holds(rc, 0, x);
                assert(r.contents().count(x) > 0);
            }
        } else {
            assert(c2.children@[i] == cc[i]);
            assert(c.fits(i, cc[i].contents()));
            if i == ck {
                assert forall|x: T| #[trigger] cc[i].contents().count(x) > 0 implies le(x, k) by {
                    lemma_forest_holds(cc, i, x);
                    assert(c.contents().count(x) > 0);
                }
            }
        }
    }
    assert(c2.wf_at(h, (ord - 1) as nat, ord));
    // bounds on s0
    assert forall|x: T| #[trigger] r2.contents().count(x) > 0 implies le(s0, x) by {
        if r2.keys@.to_multiset().count(x) > 0 {
            assert(r2.keys@.contains(x));
            let j = choose|j: int| 0 <= j < r2.keys.len() && r2.keys@[j] == x;
            assert(le(r.keys@[0], r.keys@[j + 1]));
        } else {
            lemma_forest_member(r2.children@, x);
            let i = choose|i: int| 0 <= i < r2.children@.len() && #[trigger] r2.children@[i].contents().count(x) > 0;
            assert(r2.children@[i] == rc[i + 1]);
            lemma_child_between(r, h, (ord - 1) as nat, ord, i + 1, 0);
        }
    }
    assert forall|x: T| #[trigger] c2.contents().count(x) > 0 implies le(x, s0) by {
        if x == k {
        } else if c.contents().count(x) > 0 {
            lemma_le_trans(x, k, s0);
        } else {
            assert(rc[0].contents().count(x) > 0);
            assert(r.fits(0, rc[0].contents()));
        }
    }
}


/// Redistributing the keys of the children at `j` and `j + 1` and of the key
/// between them, with `q` as the new key between them, keeps the node a B-tree
/// holding the same keys.
proof fn lemma_rebalance_pair<T: PartialOrd>(n: BTreeNode<T>, n2: BTreeNode<T>, h: nat, lo: nat, ord: nat, j: int, q: T)
    requires
        is_total_order::<T>(),
        n.wf_at(h, lo, ord),
        h > 0,
        0 <= j < n.keys.len(),
        n2.order == n.order,
        n2.leaf == n.leaf,
        n2.keys@ == n.keys@.update(j, q),
        n2.children@ == n.children@.update(j, n2.children@[j]).update(j + 1, n2.children@[j + 1]),
        n2.children@[j].wf_at((h - 1) as nat, (ord - 1) as nat, ord),
        n2.children@[j + 1].wf_at((h - 1) as nat, (ord - 1) as nat, ord),
        n.children@[j].contents().add(n.children@[j + 1].contents()).insert(n.keys@[j])
            =~= n2.children@[j].contents().add(n2.children@[j + 1].contents()).insert(q),
        n.children@[j].contents().count(q) > 0 || n.children@[j + 1].contents().count(q) > 0,
        forall|x: T|
            #[trigger] n2.children@[j].contents().count(x) > 0 ==> n.children@[j].contents().count(x) > 0
                || x == n.keys@[j] || n.children@[j + 1].contents().count(x) > 0,
        forall|x: T|
            #[trigger] n2.children@[j + 1].contents().count(x) > 0 ==> n.children@[j].contents().count(x) > 0
                || x == n.keys@[j] || n.children@[j + 1].contents().count(x) > 0,
        BTreeNode::all_le(n2.children@[j].contents(), q),
        BTreeNode::all_ge(n2.children@[j + 1].contents(), q),
    ensures
        n2.wf_at(h, lo, ord),
        n2.contents() =~= n.contents(),
{
    let ok = n.keys@;
    let oc = n.children@;
    let nc = n2.children@;
    let k = ok[j];
    let a = oc[j];
    let b = oc[j + 1];
    assert(n.fits(j, a.contents()));
    assert(n.fits(j + 1, b.contents()));
    lemma_forest_wf(oc, (h - 1) as nat, ord);
    assert forall|i: int| 0 <= i < nc.len() implies #[trigger] nc[i].wf_at((h - 1) as nat, (ord - 1) as nat, ord) by {
        if i != j && i != j + 1 {
            assert(nc[i] == oc[i]);
        }
    }
    lemma_forest_wf(nc, (h - 1) as nat, ord);
    // everything in the pair lies between the keys around it
    assert forall|x: T| a.contents().count(x) > 0 || x == k || b.contents().count(x) > 0 implies (j > 0
        ==> le(ok[j - 1], x)) && (j + 1 < ok.len() ==> le(x, ok[j + 1])) by {
        if j > 0 {
            assert(le(ok[j - 1], k));
            if b.contents().count(x) > 0 {
                lemma_le_trans(ok[j - 1], k, x);
            }
        }
        if j + 1 < ok.len() {
            assert(le(k, ok[j + 1]));
            if a.contents().count(x) > 0 {
                lemma_le_trans(x, k, ok[j + 1]);
            }
        }
    }
    assert forall|a1: int, b1: int| 0 <= a1 < b1 < n2.keys.len() implies #[trigger] le(n2.keys@[a1], n2.keys@[b1]) by {
        if a1 == j {
            if b1 > j + 1 {
                assert(le(ok[j + 1], ok[b1]));
                lemma_le_trans(q, ok[j + 1], ok[b1]);
            }
        } else if b1 == j {
            if a1 < j - 1 {
                assert(le(ok[a1], ok[j - 1]));
                lemma_le_trans(ok[a1], ok[j - 1], q);
            }
        } else {
            assert(le(ok[a1], ok[b1]));
        }
    }
    assert forall|i: int| 0 <= i < nc.len() implies #[trigger] n2.fits(i, nc[i].contents()) by {
        if i != j && i != j + 1 {
            assert(nc[i] == oc[i]);
            assert(n.fits(i, oc[i].contents()));
        }
    }
    assert(n2.wf_at(h, lo, ord));
    // the keys
    lemma_forest_split(oc, j);
    lemma_forest_split(oc.subrange(j + 1, oc.len() as int), 0);
    lemma_forest_split(nc, j);
    lemma_forest_split(nc.subrange(j + 1, nc.len() as int), 0);
    assert(nc.subrange(0, j) =~= oc.subrange(0, j));
    assert(nc.subrange(j + 1, nc.len() as int).subrange(1, nc.len() - j - 1) =~= oc.subrange(
        j + 1,
        oc.len() as int,
    ).subrange(1, oc.len() - j - 1));
    assert(nc.subrange(j + 1, nc.len() as int).subrange(0, 0) =~= Seq::<BTreeNode<T>>::empty());
    assert(oc.subrange(j + 1, oc.len() as int).subrange(0, 0) =~= Seq::<BTreeNode<T>>::empty());
    assert(BTreeNode::forest(Seq::<BTreeNode<T>>::empty()) =~= Multiset::empty());
    lemma_key_in_contents(n, j);
    assert(n2.keys@.to_multiset() =~= ok.to_multiset().insert(q).remove(k));
    assert(oc.subrange(j + 1, oc.len() as int)[0] == b);
    assert(nc.subrange(j + 1, nc.len() as int)[0] == nc[j + 1]);
    assert(nc[j] == n2.children@[j]);
    assert(ok.to_multiset().count(k) > 0);
    assert forall|x: T| #[trigger] n2.contents().count(x) == n.contents().count(x) by {
        assert(a.contents().add(b.contents()).insert(k).count(x) == nc[j].contents().add(nc[j + 1].contents()).insert(q).count(x));
    }
}


/// A B-tree whose child `r` holds `key` is one still once that copy is gone.
proof fn lemma_wf_but<T: PartialOrd>(n: BTreeNode<T>, h: nat, lo: nat, ord: nat, r: int, key: T)
    requires
        n.wf_at(h, lo, ord),
        0 <= r < n.children.len(),
        n.children@[r].contents().count(key) > 0,
    ensures
        n.wf_but(h, lo, ord, r, key),
{
    let c = n.children@[r].contents();
    assert(n.fits(r, c));
    assert forall|x: T| #[trigger] c.remove(key).count(x) > 0 implies c.count(x) > 0 by {}
}

impl<T: PartialOrd> BTreeNode<T> {
    /// The position before the first key greater than `key`.
    fn insert_pos(&self, key: &T) -> (i: usize)
        requires
            is_total_order::<T>(),
        ensures
            is_insert_pos(self.keys@, i as int, *key),
    {
        let mut i: usize = 0;
        while i < self.keys.len()
            invariant
                is_total_order::<T>(),
                i <= self.keys.len(),
                forall|j: int| 0 <= j < i ==> le(#[trigger] self.keys@[j], *key),
            decreases self.keys.len() - i,
        {
            if self.keys[i] > *key {
                return i;
            }
            i += 1;
        }
        i
    }

    /// Adds `insert_key` to the subtree of a node that is not full.
    fn insert_non_full(&mut self, insert_key: T)
        requires
            is_total_order::<T>(),
            old(self).wf_at(old(self).height(), 0, old(self).order as nat),
            old(self).keys.len() < 2 * old(self).order - 1,
        ensures
            final(self).wf_at(old(self).height(), 0, old(self).order as nat),
            final(self).height() == old(self).height(),
            final(self).keys.len() >= old(self).keys.len(),
            final(self).contents() =~= old(self).contents().insert(insert_key),
            final(self).shape() == insert_shape(
                old(self).shape(),
                insert_key,
                old(self).order as nat,
                old(self).height(),
            ),
            old(self).leaf ==> exists|p: int|
                #[trigger] is_insert_pos(old(self).keys@, p, insert_key) && final(self).keys@ == old(self).keys@.insert(
                    p,
                    insert_key,
                ),
            !old(self).leaf ==> exists|p: int|
                {
                    &&& #[trigger] is_insert_pos(old(self).keys@, p, insert_key)
                    &&& old(self).children@[p].keys.len() == 2 * old(self).order - 1 ==> final(self).keys@
                        == old(self).keys@.insert(p, old(self).children@[p].keys@[old(self).order - 1])
                    &&& old(self).children@[p].keys.len() == 2 * old(self).order - 1 && lt(
                        old(self).children@[p].keys@[old(self).order - 1],
                        insert_key,
                    ) ==> final(self).children@[p].keys@ == old(self).children@[p].keys@.subrange(
                        0,
                        old(self).order - 1,
                    )
                    &&& old(self).children@[p].keys.len() == 2 * old(self).order - 1 && !lt(
                        old(self).children@[p].keys@[old(self).order - 1],
                        insert_key,
                    ) ==> final(self).children@[p + 1].keys@ == old(self).children@[p].keys@.subrange(
                        old(self).order as int,
                        2 * old(self).order - 1,
                    )
                    &&& old(self).children@[p].keys.len() < 2 * old(self).order - 1 ==> {
                        &&& final(self).keys@ == old(self).keys@
                        &&& final(self).children.len() == old(self).children.len()
                        &&& forall|j: int|
                            0 <= j < old(self).children.len() && j != p ==> #[trigger] final(self).children@[j]
                                == old(self).children@[j]
                    }
                },
        decreases old(self).height(),
    {
        let ghost old_self = *self;
        let ghost h = self.height();
        let ghost ord = self.order as nat;
        proof {
            lemma_shape(old_self);
        }
        if self.leaf {
            let i = self.insert_pos(&insert_key);
            self.keys.insert(i, insert_key);
            proof {
                lemma_insert_index(old_self.keys@, i as int, insert_key);
                assert(is_insert_pos(old_self.keys@, i as int, insert_key));
                lemma_shape(*self);
                assert(old_self.children.len() == 0);
                assert(self.shape().children == old_self.shape().children);
                assert(self.shape().keys =~= old_self.keys@.insert(i as int, insert_key));
                let ok = old_self.keys@;
                assert forall|a: int, b: int| 0 <= a < b < self.keys.len() implies #[trigger] le(self.keys@[a], self.keys@[b]) by {
                    if a < i && b == i {
                    } else if a == i && b > i {
                        lemma_not_le(ok[i as int], insert_key);
                        if b - 1 > i {
                            assert(le(ok[i as int], ok[b - 1]));
                            lemma_le_trans(insert_key, ok[i as int], ok[b - 1]);
                        }
                    } else if a < i && b > i {
                        assert(le(ok[a], ok[b - 1]));
                    } else if b < i {
                        assert(le(ok[a], ok[b]));
                    } else {
                        assert(le(ok[a - 1], ok[b - 1]));
                    }
                }
                assert(self.wf_at(h, 0, ord));
                lemma_height(*self, h, 0, ord);
                assert(self.contents() =~= old_self.contents().insert(insert_key));
            }
            return;
        }
        let mut insert_i = self.insert_pos(&insert_key);
        let ghost i0 = insert_i as int;
        let ghost full = self.children@[i0].keys.len() == 2 * ord - 1;
        proof {
            lemma_insert_index(old_self.keys@, i0, insert_key);
            lemma_forest_wf(old_self.children@, (h - 1) as nat, ord);
            assert(old_self.children@[i0].wf_at((h - 1) as nat, (ord - 1) as nat, ord));
            assert(old_self.children@[i0].local_ok((h - 1) as nat, (ord - 1) as nat, ord));
            assert(old_self.local_ok(h, 0, ord));
        }
        let child_len = self.children[insert_i].keys.len();
        if child_len >= self.order && child_len - self.order == self.order - 1 {
            self.split_child(insert_i);
            proof {
                lemma_split_shape(old_self, *self, i0, ord);
            }
            let ghost m = self.keys@[i0];
            if self.keys[insert_i] < insert_key {
                insert_i += 1;
            } else {
                proof {
                    lemma_not_lt(m, insert_key);
                }
            }
            proof {
                let k = insert_i as int;
                let mk = self.keys@;
                let ok = old_self.keys@;
                if k < mk.len() {
                    if k > i0 {
                        assert(mk[k] == ok[i0]);
                    }
                    assert(le(insert_key, mk[k]));
                }
                if k > 0 {
                    if k - 1 < i0 {
                        assert(mk[k - 1] == ok[k - 1]);
                    }
                    assert(le(mk[k - 1], insert_key));
                }
            }
        }
        let ghost mid = *self;
        proof {
            lemma_forest_wf(mid.children@, (h - 1) as nat, ord);
            assert(mid.children@[insert_i as int].wf_at((h - 1) as nat, (ord - 1) as nat, ord));
            lemma_height(mid.children@[insert_i as int], (h - 1) as nat, (ord - 1) as nat, ord);
            lemma_wf_lo(mid.children@[insert_i as int], (h - 1) as nat, (ord - 1) as nat, 0, ord);
            // the key may go into the chosen child
            let k = insert_i as int;
            let mk = mid.keys@;
            let ok = old_self.keys@;
            if k > 0 {
                assert(le(mk[k - 1], insert_key));
            }
            if k < mk.len() {
                assert(le(insert_key, mk[k]));
            }
        }
        self.children[insert_i].insert_non_full(insert_key);
        proof {
            let k = insert_i as int;
            let c2 = self.children@[k];
            assert(self.children@ == mid.children@.update(k, c2));
            let n = old_self.shape();
            let n1 = if full { split_shape(n, i0, ord) } else { n };
            assert(mid.shape() == n1);
            assert(k == (if full && lt(n1.keys[i0], insert_key) { i0 + 1 } else { i0 }));
            lemma_shape(mid);
            lemma_shape(*self);
            assert(n1.children[k] == mid.children@[k].shape());
            assert(self.shape().children =~= n1.children.update(
                k,
                insert_shape(n1.children[k], insert_key, ord, (h - 1) as nat),
            ));
            assert(self.shape().keys =~= n1.keys);
            assert(is_insert_pos(old_self.keys@, i0, insert_key));
            if !full {
                assert(self.keys@ == old_self.keys@);
                assert(k == i0);
            }
            assert forall|x: T| #[trigger] c2.contents().count(x) > 0 implies (k > 0 ==> le(mid.keys@[k - 1], x)) && (k < mid.keys.len() ==> le(x, mid.keys@[k])) by {
                if x != insert_key {
                    assert(mid.children@[k].contents().count(x) > 0);
                    assert(mid.fits(k, mid.children@[k].contents()));
                }
            }
            assert(mid.fits(k, c2.contents()));
            lemma_wf_lo(c2, (h - 1) as nat, 0, (ord - 1) as nat, ord);
            lemma_replace_child(mid, *self, h, 0, ord, k);
            lemma_height(*self, h, 0, ord);
            assert(self.contents() =~= old_self.contents().insert(insert_key));
        }
    }

    /// Exchanges `v` with the greatest key of the subtree, which `v` is not
    /// smaller than; that key is the rightmost key of the rightmost leaf.
    fn swap_max(&mut self, v: &mut T)
        requires
            is_total_order::<T>(),
            old(self).wf_at(old(self).height(), 0, old(self).order as nat),
            old(self).keys.len() >= 1,
            BTreeNode::all_le(old(self).contents(), *old(v)),
        ensures
            final(self).wf_at(old(self).height(), 0, old(self).order as nat),
            final(self).height() == old(self).height(),
            final(self).keys.len() == old(self).keys.len(),
            old(self).contents().count(*final(v)) > 0,
            BTreeNode::all_le(old(self).contents(), *final(v)),
            final(self).contents() =~= old(self).contents().remove(*final(v)).insert(*old(v)),
            *final(v) == max_key(old(self).shape()),
            final(self).shape() == with_max(old(self).shape(), *old(v)),
        decreases old(self).height(),
    {
        let ghost old_self = *self;
        let ghost h = self.height();
        let ghost ord = self.order as nat;
        let ghost v0 = *v;
        if self.leaf {
            let last = self.keys.len() - 1;
            std::mem::swap(&mut self.keys[last], v);
            proof {
                let ok = old_self.keys@;
                let p = *v;
                assert(p == ok[last as int]);
                assert(self.keys@ == ok.update(last as int, v0));
                lemma_key_in_contents(old_self, last as int);
                assert(old_self.children@ =~= Seq::<BTreeNode<T>>::empty());
                assert(BTreeNode::forest(old_self.children@) =~= Multiset::empty());
                assert(self.children@ =~= Seq::<BTreeNode<T>>::empty());
                assert(BTreeNode::all_le(old_self.contents(), p)) by {
                    assert forall|x: T| #[trigger] old_self.contents().count(x) > 0 implies le(x, p) by {
                        assert(ok.contains(x));
                        let j = choose|j: int| 0 <= j < ok.len() && ok[j] == x;
                        if j < last {
                            assert(le(ok[j], ok[last as int]));
                        } else {
                            lemma_le_refl(p);
                        }
                    }
                }
                assert forall|a: int, b: int| 0 <= a < b < self.keys.len() implies #[trigger] le(self.keys@[a], self.keys@[b]) by {
                    if b == last {
                        lemma_key_in_contents(old_self, a);
                    } else {
                        assert(le(ok[a], ok[b]));
                    }
                }
                assert(self.wf_at(h, 0, ord));
                lemma_height(*self, h, 0, ord);
                assert(self.contents() =~= old_self.contents().remove(p).insert(v0));
                lemma_shape(old_self);
                lemma_shape_eq(*self, Shape { keys: ok.update(ok.len() - 1, v0), children: old_self.shape().children });
                assert(self.keys@ == ok.update(ok.len() - 1, v0));
            }
            return;
        }
        let last = self.keys.len();
        proof {
            lemma_forest_wf(old_self.children@, (h - 1) as nat, ord);
            let c = old_self.children@[last as int];
            assert(c.wf_at((h - 1) as nat, (ord - 1) as nat, ord));
            lemma_height(c, (h - 1) as nat, (ord - 1) as nat, ord);
            lemma_wf_lo(c, (h - 1) as nat, (ord - 1) as nat, 0, ord);
            lemma_forest_holds(old_self.children@, last as int, v0);
            assert forall|x: T| #[trigger] c.contents().count(x) > 0 implies le(x, v0) by {
                lemma_forest_holds(old_self.children@, last as int, x);
                assert(old_self.contents().count(x) > 0);
            }
        }
        self.children[last].swap_max(v);
        proof {
            let c = old_self.children@[last as int];
            let c2 = self.children@[last as int];
            let p = *v;
            let ok = old_self.keys@;
            assert(self.children@ == old_self.children@.update(last as int, c2));
            lemma_forest_holds(old_self.children@, last as int, p);
            assert(old_self.fits(last as int, c.contents()));
            assert(le(ok[last - 1], p));
            // the key that left is the greatest of the whole subtree
            assert forall|j: int| 0 <= j < ok.len() implies le(#[trigger] ok[j], p) by {
                if j < last - 1 {
                    assert(le(ok[j], ok[last - 1]));
                    lemma_le_trans(ok[j], ok[last - 1], p);
                }
            }
            assert forall|i: int| 0 <= i < old_self.children.len() implies BTreeNode::all_le(#[trigger] old_self.children@[i].contents(), p) by {
                if i < last {
                    lemma_child_between(old_self, h, 0, ord, i, last - 1);
                    assert forall|x: T| #[trigger] old_self.children@[i].contents().count(x) > 0 implies le(x, p) by {
                        lemma_le_trans(x, ok[last - 1], p);
                    }
                }
            }
            lemma_all_le_node(old_self, p);
            // the new key fits where the old one was
            lemma_key_in_contents(old_self, last - 1);
            assert forall|x: T| #[trigger] c2.contents().count(x) > 0 implies le(ok[last - 1], x) by {
                if x != v0 {
                    assert(c.contents().count(x) > 0);
                }
            }
            assert(old_self.fits(last as int, c2.contents()));
            lemma_wf_lo(c2, (h - 1) as nat, 0, (ord - 1) as nat, ord);
            lemma_replace_child(old_self, *self, h, 0, ord, last as int);
            lemma_height(*self, h, 0, ord);
            lemma_forest_holds(old_self.children@, last as int, p);
            assert(self.contents() =~= old_self.contents().remove(p).insert(v0));
            lemma_shape(old_self);
            lemma_shape(*self);
            let os = old_self.shape();
            lemma_shape_eq(
                *self,
                Shape { keys: os.keys, children: os.children.update(last as int, with_max(os.children[last as int], v0)) },
            );
        }
    }

    /// Exchanges `v` with the least key of the subtree, which `v` is not
    /// greater than; that key is the leftmost key of the leftmost leaf.
    fn swap_min(&mut self, v: &mut T)
        requires
            is_total_order::<T>(),
            old(self).wf_at(old(self).height(), 0, old(self).order as nat),
            old(self).keys.len() >= 1,
            BTreeNode::all_ge(old(self).contents(), *old(v)),
        ensures
            final(self).wf_at(old(self).height(), 0, old(self).order as nat),
            final(self).height() == old(self).height(),
            final(self).keys.len() == old(self).keys.len(),
            old(self).contents().count(*final(v)) > 0,
            BTreeNode::all_ge(old(self).contents(), *final(v)),
            final(self).contents() =~= old(self).contents().remove(*final(v)).insert(*old(v)),
            *final(v) == min_key(old(self).shape()),
            final(self).shape() == with_min(old(self).shape(), *old(v)),
        decreases old(self).height(),
    {
        let ghost old_self = *self;
        let ghost h = self.height();
        let ghost ord = self.order as nat;
        let ghost v0 = *v;
        if self.leaf {
            std::mem::swap(&mut self.keys[0], v);
            proof {
                let ok = old_self.keys@;
                let p = *v;
                assert(p == ok[0]);
                assert(self.keys@ == ok.update(0, v0));
                lemma_key_in_contents(old_self, 0);
                assert(old_self.children@ =~= Seq::<BTreeNode<T>>::empty());
                assert(BTreeNode::forest(old_self.children@) =~= Multiset::empty());
                assert(self.children@ =~= Seq::<BTreeNode<T>>::empty());
                assert(BTreeNode::all_ge(old_self.contents(), p)) by {
                    assert forall|x: T| #[trigger] old_self.contents().count(x) > 0 implies le(p, x) by {
                        assert(ok.contains(x));
                        let j = choose|j: int| 0 <= j < ok.len() && ok[j] == x;
                        if j > 0 {
                            assert(le(ok[0], ok[j]));
                        } else {
                            lemma_le_refl(p);
                        }
                    }
                }
                assert forall|a: int, b: int| 0 <= a < b < self.keys.len() implies #[trigger] le(self.keys@[a], self.keys@[b]) by {
                    if a == 0 {
                        lemma_key_in_contents(old_self, b);
                    } else {
                        assert(le(ok[a], ok[b]));
                    }
                }
                assert(self.wf_at(h, 0, ord));
                lemma_height(*self, h, 0, ord);
                assert(self.contents() =~= old_self.contents().remove(p).insert(v0));
                lemma_shape(old_self);
                lemma_shape_eq(*self, Shape { keys: ok.update(0, v0), children: old_self.shape().children });
                assert(self.keys@ == ok.update(0, v0));
            }
            return;
        }
        proof {
            lemma_forest_wf(old_self.children@, (h - 1) as nat, ord);
            let c = old_self.children@[0];
            assert(c.wf_at((h - 1) as nat, (ord - 1) as nat, ord));
            lemma_height(c, (h - 1) as nat, (ord - 1) as nat, ord);
            lemma_wf_lo(c, (h - 1) as nat, (ord - 1) as nat, 0, ord);
            assert forall|x: T| #[trigger] c.contents().count(x) > 0 implies le(v0, x) by {
                lemma_forest_holds(old_self.children@, 0, x);
                assert(old_self.contents().count(x) > 0);
            }
        }
        self.children[0].swap_min(v);
        proof {
            let c = old_self.children@[0];
            let c2 = self.children@[0];
            let p = *v;
            let ok = old_self.keys@;
            assert(self.children@ == old_self.children@.update(0, c2));
            lemma_forest_holds(old_self.children@, 0, p);
            assert(old_self.fits(0, c.contents()));
            assert(le(p, ok[0]));
            assert forall|j: int| 0 <= j < ok.len() implies le(p, #[trigger] ok[j]) by {
                if j > 0 {
                    assert(le(ok[0], ok[j]));
                    lemma_le_trans(p, ok[0], ok[j]);
                }
            }
            assert forall|i: int| 0 <= i < old_self.children.len() implies BTreeNode::all_ge(#[trigger] old_self.children@[i].contents(), p) by {
                if i > 0 {
                    lemma_child_between(old_self, h, 0, ord, i, 0);
                    assert forall|x: T| #[trigger] old_self.children@[i].contents().count(x) > 0 implies le(p, x) by {
                        lemma_le_trans(p, ok[0], x);
                    }
                }
            }
            lemma_all_ge_node(old_self, p);
            lemma_key_in_contents(old_self, 0);
            assert forall|x: T| #[trigger] c2.contents().count(x) > 0 implies le(x, ok[0]) by {
                if x != v0 {
                    assert(c.contents().count(x) > 0);
                }
            }
            assert(old_self.fits(0, c2.contents()));
            lemma_wf_lo(c2, (h - 1) as nat, 0, (ord - 1) as nat, ord);
            lemma_replace_child(old_self, *self, h, 0, ord, 0);
            lemma_height(*self, h, 0, ord);
            assert(self.contents() =~= old_self.contents().remove(p).insert(v0));
            lemma_shape(old_self);
            lemma_shape(*self);
            let os = old_self.shape();
            lemma_shape_eq(*self, Shape { keys: os.keys, children: os.children.update(0, with_min(os.children[0], v0)) });
        }
    }

    /// Joins child `idx + 1` and the key between them onto child `idx`.
    fn merge(&mut self, idx: usize)
        requires
            is_total_order::<T>(),
            old(self).wf_at(old(self).height(), 0, old(self).order as nat),
            !old(self).leaf,
            idx < old(self).keys.len(),
            old(self).keys.len() >= 1,
            old(self).children@[idx as int].keys.len() + old(self).children@[idx + 1].keys.len() + 1
                <= 2 * old(self).order - 1,
        ensures
            final(self).wf_at(old(self).height(), 0, old(self).order as nat),
            final(self).height() == old(self).height(),
            final(self).contents() =~= old(self).contents(),
            final(self).keys@ == old(self).keys@.remove(idx as int),
            final(self).children@[idx as int].keys.len() == old(self).children@[idx as int].keys.len()
                + old(self).children@[idx + 1].keys.len() + 1,
            final(self).children@[idx as int].contents() =~= old(self).children@[idx as int].contents().insert(
                old(self).keys@[idx as int],
            ).add(old(self).children@[idx + 1].contents()),
            final(self).children@[idx as int].keys@ == old(self).children@[idx as int].keys@.push(
                old(self).keys@[idx as int],
            ) + old(self).children@[idx + 1].keys@,
            final(self).children@[idx as int].children@ == old(self).children@[idx as int].children@
                + old(self).children@[idx + 1].children@,
            final(self).children@[idx as int].leaf == old(self).children@[idx as int].leaf,
            final(self).children@ == old(self).children@.remove(idx + 1).update(
                idx as int,
                final(self).children@[idx as int],
            ),
            final(self).shape() == merge_shape(old(self).shape(), idx as int),
    {
        let ghost old_self = *self;
        let ghost h = self.height();
        let ghost ord = self.order as nat;
        let mut sibling = self.children.remove(idx + 1);
        let k = self.keys.remove(idx);
        self.children[idx].keys.push(k);
        self.children[idx].keys.append(&mut sibling.keys);
        if !self.children[idx].leaf {
            self.children[idx].children.append(&mut sibling.children);
        }
        proof {
            let c = old_self.children@[idx as int];
            let d = old_self.children@[idx + 1];
            let m = self.children@[idx as int];
            lemma_forest_wf(old_self.children@, (h - 1) as nat, ord);
            assert(c.wf_at((h - 1) as nat, (ord - 1) as nat, ord));
            assert(d.wf_at((h - 1) as nat, (ord - 1) as nat, ord));
            lemma_child_between(old_self, h, 0, ord, idx as int, idx as int);
            lemma_child_between(old_self, h, 0, ord, idx + 1, idx as int);
            if c.leaf {
                assert(c.children@ =~= Seq::<BTreeNode<T>>::empty());
                assert(d.children@ =~= Seq::<BTreeNode<T>>::empty());
            }
            assert(m.children@ =~= c.children@ + d.children@);
            assert(m.keys@ =~= c.keys@.push(k) + d.keys@);
            lemma_merged(c, d, k, m, (h - 1) as nat, ord);
            assert(self.children@ =~= old_self.children@.remove(idx + 1).update(idx as int, m));
            lemma_merge_parent(old_self, *self, h, 0, ord, idx as int);
            lemma_height(*self, h, 0, ord);
            lemma_merge_shape(old_self, *self, idx as int);
        }
    }

    /// Gives child `idx`, which holds only `order - 1` keys, at least `order`
    /// keys: it takes one through the parent from a sibling that can spare one,
    /// or else is merged with a sibling.
    #[verifier::rlimit(40)]
    fn fill(&mut self, idx: usize)
        requires
            is_total_order::<T>(),
            old(self).wf_at(old(self).height(), 0, old(self).order as nat),
            !old(self).leaf,
            idx < old(self).children.len(),
            old(self).children@[idx as int].keys.len() < old(self).order,
            old(self).keys.len() >= 1,
        ensures
            final(self).wf_at(old(self).height(), 0, old(self).order as nat),
            final(self).height() == old(self).height(),
            final(self).contents() =~= old(self).contents(),
            final(self).keys.len() + 1 >= old(self).keys.len(),
            fill_target(idx as int, final(self).keys.len() as int) < final(self).children.len(),
            final(self).children@[fill_target(idx as int, final(self).keys.len() as int)].keys.len()
                >= old(self).order,
            forall|x: T|
                #[trigger] old(self).children@[idx as int].contents().count(x) <= final(self).children@[fill_target(
                    idx as int,
                    final(self).keys.len() as int,
                )].contents().count(x),
            final(self).shape() == fill_shape(old(self).shape(), idx as int, old(self).order as nat),
            idx > 0 && old(self).children@[idx - 1].keys.len() >= old(self).order ==> {
                &&& final(self).keys@ == old(self).keys@.update(idx - 1, old(self).children@[idx - 1].keys@.last())
                &&& final(self).children@[idx - 1].keys@ == old(self).children@[idx - 1].keys@.drop_last()
                &&& final(self).children@[idx as int].keys@ == seq![old(self).keys@[idx - 1]] + old(
                    self,
                ).children@[idx as int].keys@
            },
            !(idx > 0 && old(self).children@[idx - 1].keys.len() >= old(self).order) && idx < old(self).keys.len()
                && old(self).children@[idx + 1].keys.len() >= old(self).order ==> {
                &&& final(self).keys@ == old(self).keys@.update(idx as int, old(self).children@[idx + 1].keys@[0])
                &&& final(self).children@[idx as int].keys@ == old(self).children@[idx as int].keys@.push(
                    old(self).keys@[idx as int],
                )
                &&& final(self).children@[idx + 1].keys@ == old(self).children@[idx + 1].keys@.drop_first()
            },
            !(idx > 0 && old(self).children@[idx - 1].keys.len() >= old(self).order) && !(idx < old(self).keys.len()
                && old(self).children@[idx + 1].keys.len() >= old(self).order) ==> {
                &&& final(self).children.len() + 1 == old(self).children.len()
                &&& idx == old(self).keys.len() ==> final(self).keys@ == old(self).keys@.remove(idx - 1)
                    && final(self).children@[idx - 1].keys@ == old(self).children@[idx - 1].keys@.push(
                    old(self).keys@[idx - 1],
                ) + old(self).children@[idx as int].keys@
                &&& idx < old(self).keys.len() ==> final(self).keys@ == old(self).keys@.remove(idx as int)
                    && final(self).children@[idx as int].keys@ == old(self).children@[idx as int].keys@.push(
                    old(self).keys@[idx as int],
                ) + old(self).children@[idx + 1].keys@
            },
    {
        let ghost old_self = *self;
        let ghost h = self.height();
        let ghost ord = self.order as nat;
        proof {
            lemma_shape(old_self);
            lemma_forest_wf(old_self.children@, (h - 1) as nat, ord);
        }
        if idx != 0 && self.children[idx - 1].keys.len() >= self.order {
            // take the last key of the left sibling
            let sk_len = self.children[idx - 1].keys.len() - 1;
            std::mem::swap(&mut self.children[idx - 1].keys[sk_len], &mut self.keys[idx - 1]);
            let k = self.children[idx - 1].keys.remove(sk_len);
            self.children[idx].keys.insert(0, k);
            if !self.children[idx].leaf {
                proof {
                    let l = old_self.children@[idx - 1];
                    assert(l.wf_at((h - 1) as nat, (ord - 1) as nat, ord));
                    assert(old_self.children@[idx as int].wf_at((h - 1) as nat, (ord - 1) as nat, ord));
                    assert(self.children@[idx - 1].children@ == l.children@);
                    assert(l.local_ok((h - 1) as nat, (ord - 1) as nat, ord));
                }
                let g = self.children[idx - 1].children.pop().unwrap();
                self.children[idx].children.insert(0, g);
            }
            proof {
                let j = idx - 1;
                let l = old_self.children@[j];
                let c = old_self.children@[idx as int];
                let l2 = self.children@[j];
                let c2 = self.children@[idx as int];
                let k0 = old_self.keys@[j];
                let q = l.keys@[l.keys.len() - 1];
                assert(l.wf_at((h - 1) as nat, (ord - 1) as nat, ord));
                assert(c.wf_at((h - 1) as nat, (ord - 1) as nat, ord));
                lemma_child_between(old_self, h, 0, ord, j, j);
                lemma_child_between(old_self, h, 0, ord, idx as int, j);
                assert(l2.keys@ =~= l.keys@.subrange(0, l.keys.len() - 1));
                assert(c2.keys@ =~= seq![k0] + c.keys@);
                if !l.leaf {
                    assert(l2.children@ =~= l.children@.subrange(0, l.children.len() - 1));
                    assert(c2.children@ =~= seq![l.children@[l.children.len() - 1]] + c.children@);
                }
                assert(c.local_ok((h - 1) as nat, (ord - 1) as nat, ord));
                lemma_rotate_right(l, c, k0, l2, c2, (h - 1) as nat, ord);
                assert(self.keys@ =~= old_self.keys@.update(j, q));
                assert(self.children@ =~= old_self.children@.update(j, l2).update(idx as int, c2));
                lemma_rebalance_pair(old_self, *self, h, 0, ord, j, q);
                lemma_height(*self, h, 0, ord);
                assert(l.local_ok((h - 1) as nat, (ord - 1) as nat, ord));
                if c.leaf {
                    assert(l2.children@ == l.children@);
                    assert(c2.children@ == c.children@);
                }
                lemma_borrow_prev_shape(old_self, *self, idx as int);
            }
        } else if idx != self.keys.len() && self.children[idx + 1].keys.len() >= self.order {
            // take the first key of the right sibling
            std::mem::swap(&mut self.children[idx + 1].keys[0], &mut self.keys[idx]);
            let k = self.children[idx + 1].keys.remove(0);
            self.children[idx].keys.push(k);
            if !self.children[idx].leaf {
                proof {
                    let r = old_self.children@[idx + 1];
                    assert(r.wf_at((h - 1) as nat, (ord - 1) as nat, ord));
                    assert(old_self.children@[idx as int].wf_at((h - 1) as nat, (ord - 1) as nat, ord));
                    assert(self.children@[idx + 1].children@ == r.children@);
                    assert(r.local_ok((h - 1) as nat, (ord - 1) as nat, ord));
                }
                let g = self.children[idx + 1].children.remove(0);
                self.children[idx].children.push(g);
            }
            proof {
                let j = idx as int;
                let c = old_self.children@[j];
                let r = old_self.children@[j + 1];
                let c2 = self.children@[j];
                let r2 = self.children@[j + 1];
                let k0 = old_self.keys@[j];
                let q = r.keys@[0];
                assert(r.wf_at((h - 1) as nat, (ord - 1) as nat, ord));
                assert(c.wf_at((h - 1) as nat, (ord - 1) as nat, ord));
                lemma_child_between(old_self, h, 0, ord, j, j);
                lemma_child_between(old_self, h, 0, ord, j + 1, j);
                assert(r2.keys@ =~= r.keys@.subrange(1, r.keys.len() as int));
                assert(c2.keys@ =~= c.keys@.push(k0));
                if !r.leaf {
                    assert(r2.children@ =~= r.children@.subrange(1, r.children.len() as int));
                    assert(c2.children@ =~= c.children@.push(r.children@[0]));
                }
                assert(c.local_ok((h - 1) as nat, (ord - 1) as nat, ord));
                lemma_rotate_left(c, r, k0, c2, r2, (h - 1) as nat, ord);
                assert(self.keys@ =~= old_self.keys@.update(j, q));
                assert(self.children@ =~= old_self.children@.update(j, c2).update(j + 1, r2));
                lemma_rebalance_pair(old_self, *self, h, 0, ord, j, q);
                lemma_height(*self, h, 0, ord);
                assert(r.local_ok((h - 1) as nat, (ord - 1) as nat, ord));
                if c.leaf {
                    assert(r2.children@ == r.children@);
                    assert(c2.children@ == c.children@);
                }
                lemma_borrow_next_shape(old_self, *self, j);
            }
        } else {
            proof {
                let c = old_self.children@[idx as int];
                assert(c.wf_at((h - 1) as nat, (ord - 1) as nat, ord));
                assert(c.local_ok((h - 1) as nat, (ord - 1) as nat, ord));
                if idx > 0 {
                    let l = old_self.children@[idx - 1];
                    assert(l.wf_at((h - 1) as nat, (ord - 1) as nat, ord));
                    assert(l.local_ok((h - 1) as nat, (ord - 1) as nat, ord));
                }
                if idx < old_self.keys.len() {
                    let r = old_self.children@[idx + 1];
                    assert(r.wf_at((h - 1) as nat, (ord - 1) as nat, ord));
                    assert(r.local_ok((h - 1) as nat, (ord - 1) as nat, ord));
                }
            }
            proof {
                lemma_shape(old_self);
            }
            if idx == self.keys.len() {
                self.merge(idx - 1);
            } else {
                self.merge(idx);
            }
        }
    }

    /// Exchanges key `idx` with its predecessor, the greatest key below it in
    /// child `idx`, which then holds the key in its place.
    fn get_pred(&mut self, idx: usize)
        requires
            is_total_order::<T>(),
            old(self).wf_at(old(self).height(), 0, old(self).order as nat),
            !old(self).leaf,
            idx < old(self).keys.len(),
            old(self).children@[idx as int].keys.len() >= old(self).order,
        ensures
            final(self).wf_but(old(self).height(), 0, old(self).order as nat, idx as int, old(self).keys@[idx as int]),
            final(self).height() == old(self).height(),
            final(self).contents() =~= old(self).contents(),
            final(self).keys.len() == old(self).keys.len(),
            final(self).children@[idx as int].keys.len() == old(self).children@[idx as int].keys.len(),
            final(self).keys@ == old(self).keys@.update(idx as int, final(self).keys@[idx as int]),
            old(self).children@[idx as int].contents().count(final(self).keys@[idx as int]) > 0,
            BTreeNode::all_le(old(self).children@[idx as int].contents(), final(self).keys@[idx as int]),
            final(self).children@ == old(self).children@.update(idx as int, final(self).children@[idx as int]),
            final(self).children@[idx as int].contents() =~= old(self).children@[idx as int].contents().remove(
                final(self).keys@[idx as int],
            ).insert(old(self).keys@[idx as int]),
            final(self).shape() == pred_shape(old(self).shape(), idx as int),
    {
        let ghost old_self = *self;
        let ghost h = self.height();
        let ghost ord = self.order as nat;
        let ghost k = self.keys@[idx as int];
        let ghost c = self.children@[idx as int];
        proof {
            lemma_forest_wf(old_self.children@, (h - 1) as nat, ord);
            assert(c.wf_at((h - 1) as nat, (ord - 1) as nat, ord));
            lemma_height(c, (h - 1) as nat, (ord - 1) as nat, ord);
            lemma_wf_lo(c, (h - 1) as nat, (ord - 1) as nat, 0, ord);
            lemma_child_between(old_self, h, 0, ord, idx as int, idx as int);
        }
        self.children[idx].swap_max(&mut self.keys[idx]);
        proof {
            let i = idx as int;
            let p = self.keys@[i];
            let c2 = self.children@[i];
            let ok = old_self.keys@;
            let oc = old_self.children@;
            assert(self.keys@ == ok.update(i, p));
            assert(self.children@ == oc.update(i, c2));
            lemma_wf_lo(c2, (h - 1) as nat, 0, (ord - 1) as nat, ord);
            lemma_forest_holds(oc, i, p);
            assert(le(p, k));
            assert(old_self.fits(i, c.contents()));
            assert forall|a: int, b: int| 0 <= a < b < self.keys.len() implies #[trigger] le(self.keys@[a], self.keys@[b]) by {
                if a == i {
                    assert(le(ok[i], ok[b]));
                    lemma_le_trans(p, k, ok[b]);
                } else if b == i {
                    if a < i - 1 {
                        assert(le(ok[a], ok[i - 1]));
                        lemma_le_trans(ok[a], ok[i - 1], p);
                    }
                } else {
                    assert(le(ok[a], ok[b]));
                }
            }
            assert forall|j: int| 0 <= j < self.children.len() && j != i implies #[trigger] self.fits(j, self.children@[j].contents()) by {
                assert(self.children@[j] == oc[j]);
                assert(old_self.fits(j, oc[j].contents()));
                if j == i + 1 {
                    assert forall|x: T| #[trigger] oc[j].contents().count(x) > 0 implies le(p, x) by {
                        lemma_le_trans(p, k, x);
                    }
                }
            }
            assert forall|x: T| #[trigger] c2.contents().remove(k).count(x) > 0 implies (i > 0 ==> le(ok[i - 1], x)) && le(x, p) by {
                assert(c.contents().count(x) > 0);
            }
            lemma_forest_wf(self.children@, (h - 1) as nat, ord);
            assert forall|j: int| 0 <= j < self.children.len() implies #[trigger] self.children@[j].wf_at((h - 1) as nat, (ord - 1) as nat, ord) by {
                if j != i {
                    assert(self.children@[j] == oc[j]);
                }
            }
            lemma_forest_wf(self.children@, (h - 1) as nat, ord);
            assert(self.wf_but(h, 0, ord, i, k));
            lemma_height(c2, (h - 1) as nat, (ord - 1) as nat, ord);
            lemma_forest_split(oc, i);
            lemma_forest_split(self.children@, i);
            assert(self.children@.subrange(0, i) =~= oc.subrange(0, i));
            assert(self.children@.subrange(i + 1, oc.len() as int) =~= oc.subrange(i + 1, oc.len() as int));
            lemma_key_in_contents(old_self, i);
            assert(ok.to_multiset().count(k) > 0);
            assert(self.keys@.to_multiset() =~= ok.to_multiset().insert(p).remove(k));
            assert(self.contents() =~= old_self.contents());
            lemma_shape(old_self);
            lemma_shape_eq(*self, pred_shape(old_self.shape(), i));
        }
    }

    /// Exchanges key `idx` with its successor, the least key below it in child
    /// `idx + 1`, which then holds the key in its place.
    fn get_succ(&mut self, idx: usize)
        requires
            is_total_order::<T>(),
            old(self).wf_at(old(self).height(), 0, old(self).order as nat),
            !old(self).leaf,
            idx < old(self).keys.len(),
            old(self).children@[idx + 1].keys.len() >= old(self).order,
        ensures
            final(self).wf_but(old(self).height(), 0, old(self).order as nat, idx + 1, old(self).keys@[idx as int]),
            final(self).height() == old(self).height(),
            final(self).contents() =~= old(self).contents(),
            final(self).keys.len() == old(self).keys.len(),
            final(self).children@[idx + 1].keys.len() == old(self).children@[idx + 1].keys.len(),
            final(self).keys@ == old(self).keys@.update(idx as int, final(self).keys@[idx as int]),
            old(self).children@[idx + 1].contents().count(final(self).keys@[idx as int]) > 0,
            BTreeNode::all_ge(old(self).children@[idx + 1].contents(), final(self).keys@[idx as int]),
            final(self).children@ == old(self).children@.update(idx + 1, final(self).children@[idx + 1]),
            final(self).children@[idx + 1].contents() =~= old(self).children@[idx + 1].contents().remove(
                final(self).keys@[idx as int],
            ).insert(old(self).keys@[idx as int]),
            final(self).shape() == succ_shape(old(self).shape(), idx as int),
    {
        let ghost old_self = *self;
        let ghost h = self.height();
        let ghost ord = self.order as nat;
        let ghost k = self.keys@[idx as int];
        let ghost d = self.children@[idx + 1];
        proof {
            lemma_forest_wf(old_self.children@, (h - 1) as nat, ord);
            assert(d.wf_at((h - 1) as nat, (ord - 1) as nat, ord));
            lemma_height(d, (h - 1) as nat, (ord - 1) as nat, ord);
            lemma_wf_lo(d, (h - 1) as nat, (ord - 1) as nat, 0, ord);
            lemma_child_between(old_self, h, 0, ord, idx + 1, idx as int);
        }
        self.children[idx + 1].swap_min(&mut self.keys[idx]);
        proof {
            let i = idx as int;
            let s = self.keys@[i];
            let d2 = self.children@[i + 1];
            let ok = old_self.keys@;
            let oc = old_self.children@;
            assert(self.keys@ == ok.update(i, s));
            assert(self.children@ == oc.update(i + 1, d2));
            lemma_wf_lo(d2, (h - 1) as nat, 0, (ord - 1) as nat, ord);
            lemma_forest_holds(oc, i + 1, s);
            assert(le(k, s));
            assert(old_self.fits(i + 1, d.contents()));
            assert forall|a: int, b: int| 0 <= a < b < self.keys.len() implies #[trigger] le(self.keys@[a], self.keys@[b]) by {
                if a == i {
                    assert(le(s, ok[i + 1]));
                    if b > i + 1 {
                        assert(le(ok[i + 1], ok[b]));
                        lemma_le_trans(s, ok[i + 1], ok[b]);
                    }
                } else if b == i {
                    assert(le(ok[a], ok[i]));
                    lemma_le_trans(ok[a], k, s);
                } else {
                    assert(le(ok[a], ok[b]));
                }
            }
            assert forall|j: int| 0 <= j < self.children.len() && j != i + 1 implies #[trigger] self.fits(j, self.children@[j].contents()) by {
                assert(self.children@[j] == oc[j]);
                assert(old_self.fits(j, oc[j].contents()));
                if j == i {
                    assert forall|x: T| #[trigger] oc[j].contents().count(x) > 0 implies le(x, s) by {
                        lemma_le_trans(x, k, s);
                    }
                }
            }
            assert forall|x: T| #[trigger] d2.contents().remove(k).count(x) > 0 implies le(s, x) && (i + 1 < ok.len() ==> le(x, ok[i + 1])) by {
                assert(d.contents().count(x) > 0);
            }
            lemma_forest_wf(oc, (h - 1) as nat, ord);
            assert forall|j: int| 0 <= j < self.children.len() implies #[trigger] self.children@[j].wf_at((h - 1) as nat, (ord - 1) as nat, ord) by {
                if j != i + 1 {
                    assert(self.children@[j] == oc[j]);
                }
            }
            lemma_forest_wf(self.children@, (h - 1) as nat, ord);
            assert(self.wf_but(h, 0, ord, i + 1, k));
            lemma_height(self.children@[0], (h - 1) as nat, (ord - 1) as nat, ord);
            lemma_forest_split(oc, i + 1);
            lemma_forest_split(self.children@, i + 1);
            assert(self.children@.subrange(0, i + 1) =~= oc.subrange(0, i + 1));
            assert(self.children@.subrange(i + 2, oc.len() as int) =~= oc.subrange(i + 2, oc.len() as int));
            lemma_key_in_contents(old_self, i);
            assert(ok.to_multiset().count(k) > 0);
            assert(self.keys@.to_multiset() =~= ok.to_multiset().insert(s).remove(k));
            assert(self.contents() =~= old_self.contents());
            lemma_shape(old_self);
            lemma_shape_eq(*self, succ_shape(old_self.shape(), i));
        }
    }

    /// Prepares the removal of key `idx` of an inner node: the key is moved
    /// into a child that can lose a key, by exchanging it with its predecessor
    /// or its successor, or by merging the two children around it. The child
    /// that now holds the key is returned.
    fn remove_from_non_leaf(&mut self, idx: usize) -> (r: usize)
        requires
            is_total_order::<T>(),
            old(self).wf_at(old(self).height(), 0, old(self).order as nat),
            !old(self).leaf,
            idx < old(self).keys.len(),
        ensures
            final(self).wf_but(old(self).height(), 0, old(self).order as nat, r as int, old(self).keys@[idx as int]),
            final(self).height() == old(self).height(),
            final(self).contents() =~= old(self).contents(),
            final(self).keys.len() + 1 >= old(self).keys.len(),
            final(self).children@[r as int].keys.len() >= old(self).order,
            r == idx || r == idx + 1,
            r == idx + 1 <==> old(self).children@[idx as int].keys.len() < old(self).order
                && old(self).children@[idx + 1].keys.len() >= old(self).order,
            old(self).children@[idx as int].keys.len() >= old(self).order ==> {
                &&& final(self).keys@ == old(self).keys@.update(idx as int, final(self).keys@[idx as int])
                &&& old(self).children@[idx as int].contents().count(final(self).keys@[idx as int]) > 0
                &&& BTreeNode::all_le(old(self).children@[idx as int].contents(), final(self).keys@[idx as int])
                &&& final(self).children@ == old(self).children@.update(idx as int, final(self).children@[idx as int])
            },
            old(self).children@[idx as int].keys.len() < old(self).order && old(self).children@[idx + 1].keys.len()
                >= old(self).order ==> {
                &&& final(self).keys@ == old(self).keys@.update(idx as int, final(self).keys@[idx as int])
                &&& old(self).children@[idx + 1].contents().count(final(self).keys@[idx as int]) > 0
                &&& BTreeNode::all_ge(old(self).children@[idx + 1].contents(), final(self).keys@[idx as int])
                &&& final(self).children@ == old(self).children@.update(idx + 1, final(self).children@[idx + 1])
            },
            old(self).children@[idx as int].keys.len() < old(self).order && old(self).children@[idx + 1].keys.len()
                < old(self).order ==> {
                &&& final(self).keys@ == old(self).keys@.remove(idx as int)
                &&& final(self).children.len() + 1 == old(self).children.len()
                &&& final(self).children@[idx as int].keys@ == old(self).children@[idx as int].keys@.push(
                    old(self).keys@[idx as int],
                ) + old(self).children@[idx + 1].keys@
            },
            final(self).shape() == (if old(self).children@[idx as int].keys.len() >= old(self).order {
                pred_shape(old(self).shape(), idx as int)
            } else if old(self).children@[idx + 1].keys.len() >= old(self).order {
                succ_shape(old(self).shape(), idx as int)
            } else {
                merge_shape(old(self).shape(), idx as int)
            }),
    {
        let ghost old_self = *self;
        let ghost h = self.height();
        let ghost ord = self.order as nat;
        proof {
            lemma_forest_wf(old_self.children@, (h - 1) as nat, ord);
        }
        if self.children[idx].keys.len() >= self.order {
            self.get_pred(idx);
            return idx;
        } else if idx != self.keys.len() && self.children[idx + 1].keys.len() >= self.order {
            self.get_succ(idx);
            return idx + 1;
        } else {
            proof {
                let c = old_self.children@[idx as int];
                let d = old_self.children@[idx + 1];
                assert(c.wf_at((h - 1) as nat, (ord - 1) as nat, ord));
                assert(c.local_ok((h - 1) as nat, (ord - 1) as nat, ord));
                assert(d.wf_at((h - 1) as nat, (ord - 1) as nat, ord));
                assert(d.local_ok((h - 1) as nat, (ord - 1) as nat, ord));
            }
            if idx == self.keys.len() {
                self.merge(idx - 1);
            } else {
                self.merge(idx);
            }
            proof {
                let k = old_self.keys@[idx as int];
                assert(self.children@[idx as int].contents().count(k) > 0);
                lemma_wf_but(*self, h, 0, ord, idx as int, k);
            }
            return idx;
        }
    }

    /// Removes one copy of `key` from the subtree, if it holds one.
    fn remove(&mut self, key: T)
        requires
            is_total_order::<T>(),
            old(self).wf_at(old(self).height(), 0, old(self).order as nat),
            old(self).keys.len() >= 1,
        ensures
            final(self).wf_at(old(self).height(), 0, old(self).order as nat),
            final(self).height() == old(self).height(),
            final(self).keys.len() + 1 >= old(self).keys.len(),
            final(self).contents() =~= old(self).contents().remove(key),
            final(self).shape() == remove_shape(old(self).shape(), key, old(self).order as nat, old(self).height()),
            forall|i: int|
                !old(self).leaf && #[trigger] first_index(old(self).keys@, key, i)
                    && old(self).children@[i].keys.len() >= old(self).order ==> {
                    &&& final(self).keys@ == old(self).keys@.update(i, final(self).keys@[i])
                    &&& old(self).children@[i].contents().count(final(self).keys@[i]) > 0
                    &&& BTreeNode::all_le(old(self).children@[i].contents(), final(self).keys@[i])
                    &&& final(self).children.len() == old(self).children.len()
                    &&& final(self).children@[i + 1] == old(self).children@[i + 1]
                },
            forall|i: int|
                !old(self).leaf && #[trigger] first_index(old(self).keys@, key, i)
                    && old(self).children@[i].keys.len() < old(self).order
                    && old(self).children@[i + 1].keys.len() >= old(self).order ==> {
                    &&& final(self).keys@ == old(self).keys@.update(i, final(self).keys@[i])
                    &&& old(self).children@[i + 1].contents().count(final(self).keys@[i]) > 0
                    &&& BTreeNode::all_ge(old(self).children@[i + 1].contents(), final(self).keys@[i])
                    &&& final(self).children.len() == old(self).children.len()
                    &&& final(self).children@[i] == old(self).children@[i]
                },
            forall|i: int|
                !old(self).leaf && #[trigger] first_index(old(self).keys@, key, i)
                    && old(self).children@[i].keys.len() < old(self).order
                    && old(self).children@[i + 1].keys.len() < old(self).order ==> {
                    &&& final(self).keys@ == old(self).keys@.remove(i)
                    &&& final(self).children.len() + 1 == old(self).children.len()
                },
            forall|i: int|
                old(self).leaf && #[trigger] first_index(old(self).keys@, key, i) ==> final(self).keys@ == old(
                    self,
                ).keys@.remove(i),
        decreases old(self).height(),
    {
        let ghost old_self = *self;
        let ghost h = self.height();
        let ghost ord = self.order as nat;
        proof {
            lemma_shape(old_self);
        }
        let n = self.keys.len();
        let mut idx: usize = 0;
        while idx < n
            invariant_except_break
                forall|j: int| 0 <= j < idx ==> le(#[trigger] self.keys@[j], key) && self.keys@[j] != key,
            invariant
                is_total_order::<T>(),
                *self == old_self,
                n == self.keys.len(),
                idx <= n,
            ensures
                forall|j: int| 0 <= j < idx ==> le(#[trigger] self.keys@[j], key) && self.keys@[j] != key,
                idx < n ==> self.keys@[idx as int] == key || !le(self.keys@[idx as int], key),
            decreases n - idx,
        {
            if self.keys[idx] == key || self.keys[idx] > key {
                break;
            }
            idx += 1;
        }
        proof {
            lemma_remove_index(old_self.keys@, idx as int, key);
            assert(old_self.local_ok(h, 0, ord));
            assert forall|i: int| #[trigger] first_index(old_self.keys@, key, i) implies i == idx by {
                lemma_first_index(old_self.keys@, key, i);
            }
        }
        if n != idx && self.keys[idx] == key {
            if self.leaf {
                self.keys.remove(idx);
                proof {
                    lemma_shape_eq(*self, Shape { keys: old_self.keys@.remove(idx as int), children: old_self.shape().children });
                    let ok = old_self.keys@;
                    assert forall|a: int, b: int| 0 <= a < b < self.keys.len() implies #[trigger] le(self.keys@[a], self.keys@[b]) by {
                        if a >= idx {
                            assert(le(ok[a + 1], ok[b + 1]));
                        } else if b >= idx {
                            assert(le(ok[a], ok[b + 1]));
                        } else {
                            assert(le(ok[a], ok[b]));
                        }
                    }
                    assert(self.wf_at(h, 0, ord));
                    lemma_height(*self, h, 0, ord);
                    lemma_key_in_contents(old_self, idx as int);
                    assert(ok.to_multiset().count(key) > 0);
                    assert(self.contents() =~= old_self.contents().remove(key));
                }
            } else {
                let remove_next = self.remove_from_non_leaf(idx);
                let ghost mid = *self;
                proof {
                    lemma_forest_wf(mid.children@, (h - 1) as nat, ord);
                    let c = mid.children@[remove_next as int];
                    assert(c.wf_at((h - 1) as nat, (ord - 1) as nat, ord));
                    lemma_height(c, (h - 1) as nat, (ord - 1) as nat, ord);
                    lemma_wf_lo(c, (h - 1) as nat, (ord - 1) as nat, 0, ord);
                }
                self.children[remove_next].remove(key);
                proof {
                    let r = remove_next as int;
                    let c = mid.children@[r];
                    let c2 = self.children@[r];
                    assert(self.children@ == mid.children@.update(r, c2));
                    lemma_wf_lo(c2, (h - 1) as nat, 0, (ord - 1) as nat, ord);
                    assert(c2.contents() =~= c.contents().remove(key));
                    lemma_replace_child(mid, *self, h, 0, ord, r);
                    lemma_height(*self, h, 0, ord);
                    lemma_forest_holds(mid.children@, r, key);
                    assert(self.contents() =~= old_self.contents().remove(key));
                    lemma_shape(mid);
                    let n1 = mid.shape();
                    lemma_shape_eq(
                        *self,
                        Shape { keys: n1.keys, children: n1.children.update(r, remove_shape(n1.children[r], key, ord, (h - 1) as nat)) },
                    );
                }
            }
        } else {
            if self.leaf {
                proof {
                    assert(self.keys@.to_multiset().count(key) == 0) by {
                        if self.keys@.to_multiset().count(key) > 0 {
                            assert(self.keys@.contains(key));
                            let j = choose|j: int| 0 <= j < self.keys@.len() && self.keys@[j] == key;
                            if j > idx {
                                assert(le(self.keys@[idx as int], self.keys@[j]));
                            }
                        }
                    }
                    assert(self.children@ =~= Seq::<BTreeNode<T>>::empty());
                    assert(BTreeNode::forest(self.children@) =~= Multiset::empty());
                    assert(self.contents() =~= old_self.contents().remove(key));
                }
                return;
            }
            proof {
                if idx < n {
                    lemma_not_le(self.keys@[idx as int], key);
                }
                lemma_descend(old_self, h, 0, ord, idx as int, key);
                lemma_forest_wf(old_self.children@, (h - 1) as nat, ord);
            }
            if self.children[idx].keys.len() < self.order {
                self.fill(idx);
            }
            let ghost mid = *self;
            let t = if idx > self.keys.len() { idx - 1 } else { idx };
            proof {
                assert(t as int == fill_target(idx as int, mid.keys.len() as int));
                lemma_forest_wf(mid.children@, (h - 1) as nat, ord);
                let c = mid.children@[t as int];
                assert(c.wf_at((h - 1) as nat, (ord - 1) as nat, ord));
                lemma_height(c, (h - 1) as nat, (ord - 1) as nat, ord);
                lemma_wf_lo(c, (h - 1) as nat, (ord - 1) as nat, 0, ord);
                lemma_forest_holds(mid.children@, t as int, key);
            }
            if idx > self.keys.len() {
                self.children[idx - 1].remove(key);
            } else {
                self.children[idx].remove(key);
            }
            proof {
                let r = t as int;
                let c = mid.children@[r];
                let c2 = self.children@[r];
                assert(self.children@ == mid.children@.update(r, c2));
                lemma_wf_lo(c2, (h - 1) as nat, 0, (ord - 1) as nat, ord);
                assert(mid.fits(r, c.contents()));
                assert forall|x: T| #[trigger] c2.contents().count(x) > 0 implies c.contents().count(x) > 0 by {}
                assert(mid.fits(r, c2.contents()));
                lemma_replace_child(mid, *self, h, 0, ord, r);
                lemma_height(*self, h, 0, ord);
                assert(self.contents() =~= old_self.contents().remove(key));
                lemma_shape(mid);
                let n1 = mid.shape();
                lemma_shape_eq(
                    *self,
                    Shape { keys: n1.keys, children: n1.children.update(r, remove_shape(n1.children[r], key, ord, (h - 1) as nat)) },
                );
            }
        }
    }

    /// Adds the key lists of the subtree to `traverse`, the node's own keys one
    /// level below `layer`, and those of each level below at the next level.
    fn _traverse(&self, traverse: &mut TraverseResult<T>, layer: usize, Ghost(m): Ghost<Seq<Seq<Seq<T>>>>)
        where
            T: Clone,
        requires
            self.wf_at(self.height(), 0, self.order as nat),
            levels_copied(m, old(traverse)@),
            layer < m.len(),
        ensures
            levels_copied(with_subtree(m, *self, layer + 1), final(traverse)@),
        decreases self.height(), 1nat,
    {
        let ghost h = self.height();
        let ghost ord = self.order as nat;
        proof {
            assert(traverse@.len() == traverse.levels.len());
            assert(layer < traverse.levels.len());
        }
        let layer = layer + 1;
        let ghost top = layer as int;
        let keys = self.keys.clone();
        let ghost t0 = traverse@;
        traverse.insert(layer, keys);
        let ghost m1 = with_part(m, *self, top, 0);
        proof {
            assert(keys_copied(self.keys@, keys@));
            assert forall|d: int| 0 <= d < m1.len() implies #[trigger] lists_copied(m1[d], traverse@[d]) by {
                if d == top {
                    if d < m.len() {
                        assert(lists_copied(m[d], t0[d]));
                        assert(m1[d] =~= m[d] + seq![self.keys@]);
                        assert(traverse@[d] =~= t0[d].push(keys@));
                        assert forall|i: int| 0 <= i < m1[d].len() implies #[trigger] keys_copied(m1[d][i], traverse@[d][i]) by {
                            if i < m[d].len() {
                                assert(keys_copied(m[d][i], t0[d][i]));
                            }
                        }
                    } else {
                        assert(m1[d] =~= seq![self.keys@]);
                    }
                } else {
                    assert(m1[d] =~= m[d]);
                    assert(lists_copied(m[d], t0[d]));
                }
            }
            assert(levels_copied(m1, traverse@));
        }
        if self.leaf {
            proof {
                assert(self.children@ =~= Seq::<BTreeNode<T>>::empty());
                assert(with_subtree(m, *self, top) =~= m1) by {
                    assert forall|d: int| 0 <= d < m1.len() implies #[trigger] with_subtree(m, *self, top)[d] == m1[d] by {
                        if d > top {
                            assert(self.level_keys((d - top) as nat) =~= Seq::<Seq<T>>::empty());
                            assert(BTreeNode::forest_level(self.children@.subrange(0, 0), (d - top - 1) as nat) =~= Seq::<Seq<T>>::empty());
                        } else if d < top {
                            assert(with_subtree(m, *self, top)[d] =~= level_at(m, d));
                            assert(m1[d] =~= level_at(m, d));
                        }
                    }
                }
            }
            return;
        }
        self.traverse_children(traverse, layer, Ghost(m));
        proof {
            let fin = with_part(m, *self, top, self.children.len() as int);
            assert(self.children@.subrange(0, self.children.len() as int) =~= self.children@);
            assert forall|d: int| 0 <= d < fin.len() implies #[trigger] with_subtree(m, *self, top)[d] == fin[d] by {
                if d < top {
                    assert(with_subtree(m, *self, top)[d] =~= level_at(m, d));
                    assert(fin[d] =~= level_at(m, d));
                }
            }
            assert(with_subtree(m, *self, top) =~= fin);
        }
    }

    /// Adds the key lists of the subtrees of an inner node to `traverse`, the
    /// children's own keys one level below `top`, where the node's keys are.
    fn traverse_children(&self, traverse: &mut TraverseResult<T>, top: usize, Ghost(m): Ghost<Seq<Seq<Seq<T>>>>)
        where
            T: Clone,
        requires
            self.wf_at(self.height(), 0, self.order as nat),
            !self.leaf,
            levels_copied(with_part(m, *self, top as int, 0), old(traverse)@),
        ensures
            levels_copied(with_part(m, *self, top as int, self.children.len() as int), final(traverse)@),
        decreases self.height(), 0nat,
    {
        let ghost h = self.height();
        let ghost ord = self.order as nat;
        proof {
            lemma_forest_wf(self.children@, (h - 1) as nat, ord);
        }
        let mut i: usize = 0;
        while i < self.children.len()
            invariant
                self.wf_at(h, 0, ord),
                h == self.height(),
                h > 0,
                !self.leaf,
                0 <= i <= self.children.len(),
                forall|j: int| 0 <= j < self.children.len() ==> #[trigger] self.children@[j].wf_at((h - 1) as nat, (ord - 1) as nat, ord),
                levels_copied(with_part(m, *self, top as int, i as int), traverse@),
            decreases self.children.len() - i,
        {
            let ghost mi = with_part(m, *self, top as int, i as int);
            let ghost c = self.children@[i as int];
            proof {
                lemma_height(c, (h - 1) as nat, (ord - 1) as nat, ord);
                lemma_wf_lo(c, (h - 1) as nat, (ord - 1) as nat, 0, ord);
                assert(mi.len() > top);
            }
            self.children[i]._traverse(traverse, top, Ghost(mi));
            proof {
                let t = top as int;
                let next = with_part(m, *self, t, i + 1);
                let sub = self.children@.subrange(0, i + 1);
                assert(sub.subrange(0, i as int) =~= self.children@.subrange(0, i as int));
                assert(sub[i as int] == c);
                assert forall|d: int| 0 <= d < next.len() implies #[trigger] with_subtree(mi, c, t + 1)[d] == next[d] by {
                    if d > t {
                        let k = (d - t - 1) as nat;
                        assert(BTreeNode::forest_level(sub, k) == BTreeNode::forest_level(self.children@.subrange(0, i as int), k) + c.level_keys(k));
                        if i > 0 || d < mi.len() {
                            assert(level_at(mi, d) == level_at(m, d) + BTreeNode::forest_level(self.children@.subrange(0, i as int), k));
                        } else {
                            assert(BTreeNode::forest_level(self.children@.subrange(0, 0), k) =~= Seq::<Seq<T>>::empty());
                            assert(level_at(m, d) =~= Seq::<Seq<T>>::empty());
                            assert(level_at(mi, d) =~= Seq::<Seq<T>>::empty());
                        }
                        assert((level_at(m, d) + BTreeNode::forest_level(self.children@.subrange(0, i as int), k)) + c.level_keys(k)
                            =~= level_at(m, d) + (BTreeNode::forest_level(self.children@.subrange(0, i as int), k) + c.level_keys(k)));
                    } else if d == t {
                        assert(with_subtree(mi, c, t + 1)[d] =~= level_at(mi, d));
                    } else {
                        assert(with_subtree(mi, c, t + 1)[d] =~= level_at(mi, d));
                        assert(next[d] =~= level_at(m, d));
                    }
                }
                assert(with_subtree(mi, c, t + 1) =~= next);
            }
            i += 1;
        }
    }

    /// Splits the full child at `index` around its middle key, which moves up
    /// into this node between the two halves.
    fn split_child(&mut self, index: usize)
        requires
            is_total_order::<T>(),
            old(self).wf_at(old(self).height(), 0, old(self).order as nat),
            !old(self).leaf,
            old(self).keys.len() < 2 * old(self).order - 1,
            index < old(self).children.len(),
            old(self).children@[index as int].keys.len() == 2 * old(self).order - 1,
        ensures
            final(self).wf_at(old(self).height(), 0, old(self).order as nat),
            final(self).height() == old(self).height(),
            final(self).contents() == old(self).contents(),
            final(self).keys@ == old(self).keys@.insert(
                index as int,
                old(self).children@[index as int].keys@[old(self).order - 1],
            ),
            final(self).children.len() == old(self).children.len() + 1,
            final(self).children@[index as int].keys.len() == old(self).order - 1,
            final(self).children@[index + 1].keys.len() == old(self).order - 1,
            final(self).children@ == old(self).children@.update(index as int, final(self).children@[index as int]).insert(
                index + 1,
                final(self).children@[index + 1],
            ),
            final(self).children@[index as int].keys@ == old(self).children@[index as int].keys@.subrange(
                0,
                old(self).order - 1,
            ),
            final(self).children@[index + 1].keys@ == old(self).children@[index as int].keys@.subrange(
                old(self).order as int,
                2 * old(self).order - 1,
            ),
            final(self).children@[index as int].leaf == old(self).children@[index as int].leaf,
            final(self).children@[index + 1].leaf == old(self).children@[index as int].leaf,
            final(self).children@[index as int].order == old(self).order,
            final(self).children@[index + 1].order == old(self).order,
            old(self).children@[index as int].leaf ==> final(self).children@[index as int].children@
                == Seq::<BTreeNode<T>>::empty() && final(self).children@[index + 1].children@ == Seq::<
                BTreeNode<T>,
            >::empty(),
            !old(self).children@[index as int].leaf ==> final(self).children@[index as int].children@
                == old(self).children@[index as int].children@.subrange(0, old(self).order as int)
                && final(self).children@[index + 1].children@ == old(self).children@[index as int].children@.subrange(
                old(self).order as int,
                2 * old(self).order as int,
            ),
    {
        let ghost old_self = *self;
        let ghost h = self.height();
        let ghost ord = self.order as nat;
        let ghost c = self.children@[index as int];
        proof {
            lemma_forest_wf(old_self.children@, (h - 1) as nat, ord);
            assert(c.wf_at((h - 1) as nat, (ord - 1) as nat, ord));
            lemma_forest_wf(c.children@, (h - 2) as nat, ord);
        }
        let mut right_child: BTreeNode<T> = BTreeNode::new(self.order, self.children[index].leaf);
        let ck_len = self.children[index].keys.len();
        let middle = ck_len / 2;
        right_child.keys = self.children[index].keys.split_off(middle + 1);
        if !self.children[index].leaf {
            right_child.children = self.children[index].children.split_off(middle + 1);
        }
        let middle_key = self.children[index].keys.remove(middle);
        self.keys.insert(index, middle_key);
        self.children.insert(index + 1, right_child);
        proof {
            let l = self.children@[index as int];
            let r = self.children@[index + 1];
            assert(l.keys@ =~= c.keys@.subrange(0, ord - 1));
            assert(r.keys@ =~= c.keys@.subrange(ord as int, 2 * ord - 1));
            if !c.leaf {
                assert(l.children@ =~= c.children@.subrange(0, ord as int));
                assert(r.children@ =~= c.children@.subrange(ord as int, 2 * ord as int));
            } else {
                assert(l.children@ =~= Seq::<BTreeNode<T>>::empty());
                assert(r.children@ =~= Seq::<BTreeNode<T>>::empty());
            }
            lemma_split_halves(c, (h - 1) as nat, ord, l, r);
            assert(self.children@ =~= old_self.children@.update(index as int, l).insert(index + 1, r));
            lemma_split_parent(old_self, *self, h, ord, index as int, l, r, middle_key);
            lemma_height(*self, h, 0, ord);
        }
    }
}

/// `insert_index` is a position among the keys or just past them.
proof fn lemma_insert_index_bounds<T: PartialOrd>(keys: Seq<T>, key: T)
    ensures
        0 <= insert_index(keys, key) <= keys.len(),
    decreases keys.len(),
{
    if keys.len() > 0 {
        lemma_insert_index_bounds(keys.drop_first(), key);
    }
}

/// Inserting into a tree whose root holds `2 * order - 1` keys makes a new
/// root holding the old root's middle key and nothing else, with two
/// children: the tree grows by a level, and the key goes in below.
pub proof fn lemma_insert_full_root<T: PartialOrd>(before: BTree<T>, after: BTree<T>, key: T)
    requires
        before.is_b_tree(),
        after.shape() == tree_insert(before.shape(), key, before.order_spec()),
        before.shape() is Some,
        before.shape().unwrap().keys.len() == 2 * before.order_spec() - 1,
    ensures
        after.shape() is Some,
        after.shape().unwrap().keys == seq![before.shape().unwrap().keys[before.order_spec() - 1]],
        after.shape().unwrap().children.len() == 2,
{
    let r = before.shape().unwrap();
    let t = before.order_spec();
    let nr = split_shape(Shape { keys: Seq::<T>::empty(), children: seq![r] }, 0, t);
    assert(nr.keys =~= seq![r.keys[t - 1]]);
    assert(nr.children.len() == 2);
    assert(nr.children[0].keys.len() == t - 1);
    assert(nr.children[1].keys.len() == t - 1);
    lemma_insert_index_bounds(nr.keys, key);
}

/// The keys of a node are those of its shape.
proof fn lemma_contents_shape<T>(n: BTreeNode<T>)
    ensures
        n.contents() == shape_contents(n.shape()),
    decreases n,
{
    lemma_forest_contents_shape(n.children@);
}

proof fn lemma_forest_contents_shape<T>(s: Seq<BTreeNode<T>>)
    ensures
        BTreeNode::forest(s) == forest_shape_contents(BTreeNode::forest_shape(s)),
    decreases s,
{
    if s.len() > 0 {
        let s0 = s.subrange(0, s.len() - 1);
        let f = BTreeNode::forest_shape(s);
        lemma_forest_contents_shape(s0);
        lemma_contents_shape(s[s.len() - 1]);
        lemma_forest_shape(s);
        assert(f.subrange(0, f.len() - 1) =~= BTreeNode::forest_shape(s0));
    }
}

/// The last key of the rightmost leaf of a B-tree is its greatest key.
proof fn lemma_max_key<T: PartialOrd>(n: BTreeNode<T>, h: nat, lo: nat, ord: nat)
    requires
        is_total_order::<T>(),
        n.wf_at(h, lo, ord),
        n.keys.len() >= 1,
    ensures
        n.contents().count(max_key(n.shape())) > 0,
        BTreeNode::all_le(n.contents(), max_key(n.shape())),
    decreases h,
{
    lemma_shape(n);
    let ok = n.keys@;
    let last = ok.len() - 1;
    if n.children.len() == 0 {
        let p = ok[last];
        assert(max_key(n.shape()) == p);
        lemma_key_in_contents(n, last);
        assert(BTreeNode::forest(n.children@) =~= Multiset::empty()) by {
            assert(n.children@ =~= Seq::<BTreeNode<T>>::empty());
        }
        assert forall|x: T| #[trigger] n.contents().count(x) > 0 implies le(x, p) by {
            assert(ok.to_multiset().count(x) > 0);
            assert(ok.contains(x));
            let j = choose|j: int| 0 <= j < ok.len() && ok[j] == x;
            if j < last {
                assert(le(ok[j], ok[last]));
            } else {
                lemma_le_refl(p);
            }
        }
    } else {
        assert(n.local_ok(h, lo, ord));
        let lc = n.children.len() - 1;
        let c = n.children@[lc];
        lemma_forest_wf(n.children@, (h - 1) as nat, ord);
        assert(c.wf_at((h - 1) as nat, (ord - 1) as nat, ord));
        assert(c.local_ok((h - 1) as nat, (ord - 1) as nat, ord));
        lemma_max_key(c, (h - 1) as nat, (ord - 1) as nat, ord);
        let p = max_key(c.shape());
        assert(n.shape().children.last() == c.shape());
        assert(max_key(n.shape()) == p);
        lemma_forest_holds(n.children@, lc, p);
        assert(n.fits(lc, c.contents()));
        assert(le(ok[last], p));
        assert forall|j: int| 0 <= j < ok.len() implies le(#[trigger] ok[j], p) by {
            if j < last {
                assert(le(ok[j], ok[last]));
                lemma_le_trans(ok[j], ok[last], p);
            }
        }
        assert forall|i: int| 0 <= i < n.children.len() implies BTreeNode::all_le(#[trigger] n.children@[i].contents(), p) by {
            if i < lc {
                lemma_child_between(n, h, lo, ord, i, last);
                assert forall|x: T| #[trigger] n.children@[i].contents().count(x) > 0 implies le(x, p) by {
                    lemma_le_trans(x, ok[last], p);
                }
            }
        }
        lemma_all_le_node(n, p);
    }
}

/// `remove_index` finds the first copy of a key among sorted keys.
proof fn lemma_first_index<T: PartialOrd>(keys: Seq<T>, key: T, i: int)
    requires
        is_total_order::<T>(),
        sorted(keys),
        first_index(keys, key, i),
    ensures
        remove_index(keys, key) == i,
{
    assert forall|j: int| 0 <= j < i implies le(#[trigger] keys[j], key) && keys[j] != key by {
        assert(le(keys[j], keys[i]));
    }
    lemma_remove_index(keys, i, key);
}

/// Removing a key that the root holds, when the root has children and the
/// child before the key can spare one, puts the greatest key of that child in
/// the key's place and leaves the other keys of the root and the child after
/// the key as they were.
pub proof fn lemma_remove_takes_predecessor<T: PartialOrd>(before: BTree<T>, after: BTree<T>, key: T, i: int)
    requires
        is_total_order::<T>(),
        before.is_b_tree(),
        after.shape() == tree_remove(before.shape(), key, before.order_spec()),
        before.shape() is Some,
        before.shape().unwrap().children.len() > 0,
        first_index(before.shape().unwrap().keys, key, i),
        before.shape().unwrap().children[i].keys.len() >= before.order_spec(),
    ensures
        after.shape() is Some,
        after.shape().unwrap().keys == before.shape().unwrap().keys.update(i, after.shape().unwrap().keys[i]),
        shape_contents(before.shape().unwrap().children[i]).count(after.shape().unwrap().keys[i]) > 0,
        forall|x: T|
            #[trigger] shape_contents(before.shape().unwrap().children[i]).count(x) > 0 ==> le(
                x,
                after.shape().unwrap().keys[i],
            ),
        after.shape().unwrap().children.len() == before.shape().unwrap().children.len(),
        after.shape().unwrap().children[i + 1] == before.shape().unwrap().children[i + 1],
{
    let root = before.root.unwrap();
    let ord = before.order as nat;
    let r = before.shape().unwrap();
    let h = root.height();
    assert(r == root.shape());
    lemma_shape(root);
    assert(root.wf_at(h, 1, ord));
    assert(root.local_ok(h, 1, ord));
    lemma_first_index(r.keys, key, i);
    lemma_shape_height(root);
    assert(h > 0);
    let c = root.children@[i];
    lemma_forest_wf(root.children@, (h - 1) as nat, ord);
    assert(c.wf_at((h - 1) as nat, (ord - 1) as nat, ord));
    lemma_max_key(c, (h - 1) as nat, (ord - 1) as nat, ord);
    lemma_contents_shape(c);
    assert(r.children[i] == c.shape());
    let n1 = pred_shape(r, i);
    let r1 = remove_shape(r, key, ord, h);
    assert(r1.keys == n1.keys);
    assert(r1.keys.len() == r.keys.len());
}

/// A key just inserted is in the tree, so `get_ref` finds it.
pub proof fn lemma_insert_then_found<T: PartialOrd>(before: BTree<T>, after: BTree<T>, key: T)
    requires
        after@ == before@.insert(key),
    ensures
        after@.count(key) > 0,
{
}

/// Inserting a key adds one copy of it and leaves every other key as it was.
pub proof fn lemma_insert_counts<T: PartialOrd>(before: BTree<T>, after: BTree<T>, key: T, other: T)
    requires
        after@ == before@.insert(key),
    ensures
        after@.count(key) == before@.count(key) + 1,
        other != key ==> after@.count(other) == before@.count(other),
{
}

/// Removing a key takes one copy of it away, if the tree holds one, and leaves
/// every other key as it was.
pub proof fn lemma_remove_counts<T: PartialOrd>(before: BTree<T>, after: BTree<T>, key: T, other: T)
    requires
        after@ == before@.remove(key),
    ensures
        before@.count(key) > 0 ==> after@.count(key) == before@.count(key) - 1,
        before@.count(key) == 0 ==> after@ == before@,
        other != key ==> after@.count(other) == before@.count(other),
{
    if before@.count(key) == 0 {
        assert(after@ =~= before@);
    }
}

/// Removing a key right after inserting it leaves the tree holding what it
/// held before.
pub proof fn lemma_insert_then_remove<T: PartialOrd>(before: BTree<T>, inserted: BTree<T>, removed: BTree<T>, key: T)
    requires
        inserted@ == before@.insert(key),
        removed@ == inserted@.remove(key),
    ensures
        removed@ == before@,
{
    assert(removed@ =~= before@);
}

} // verus!
