//! Five ways to sort a vector: insertion, bubble, selection, merge and quick sort.
//!
//! Each takes the vector by value and hands back a vector that holds the same
//! elements, counted with multiplicity; when every two elements compare and
//! "not greater than" is transitive, they come back in non-decreasing order.
//! Insertion, bubble and merge sort keep elements that compare equal in their
//! order; selection sort hands back a sorted vector unchanged.
use vstd::prelude::*;
use crate::order::{
    greater_is_asymmetric, is_total_order, is_total_preorder, le, lemma_le_refl, lemma_le_trans, sorted,
};
use vstd::set_lib::{lemma_int_range, lemma_map_size, set_int_range};

verus! {

broadcast use vstd::seq_lib::group_to_multiset_ensures;

/// Every pair of positions in `lo..hi` is in order.
pub open spec fn sorted_range<T: PartialOrd>(s: Seq<T>, lo: int, hi: int) -> bool {
    forall|i: int, j: int| lo <= i < j < hi ==> #[trigger] le(s[i], s[j])
}

/// `r` is a sorted rearrangement of `s`.
pub open spec fn sorts<T: PartialOrd>(s: Seq<T>, r: Seq<T>) -> bool {
    &&& sorted(r)
    &&& r.to_multiset() == s.to_multiset()
}

/// `a` and `b` compare equal: neither is greater than the other.
pub open spec fn equiv<T: PartialOrd>(a: T, b: T) -> bool {
    le(a, b) && le(b, a)
}

/// The test "compares equal to `x`".
pub open spec fn equiv_to<T: PartialOrd>(x: T) -> spec_fn(T) -> bool {
    |y: T| equiv(y, x)
}

/// The elements of `s` that compare equal to `x`, in their order in `s`.
pub open spec fn class_of<T: PartialOrd>(s: Seq<T>, x: T) -> Seq<T> {
    s.filter(equiv_to(x))
}

/// Elements that compare equal keep their order: for every `x`, the elements
/// of `r` that compare equal to `x` are those of `s`, in the same order.
pub open spec fn keeps_equal_order<T: PartialOrd>(s: Seq<T>, r: Seq<T>) -> bool {
    forall|x: T| #[trigger] class_of(r, x) == class_of(s, x)
}

/// The elements of a two-element sequence that pass `p`.
proof fn lemma_filter_pair<T>(u: T, v: T, p: spec_fn(T) -> bool)
    ensures
        seq![u, v].filter(p) == (if p(u) { seq![u] } else { Seq::<T>::empty() }) + (if p(v) {
            seq![v]
        } else {
            Seq::<T>::empty()
        }),
{
    let e = Seq::<T>::empty();
    assert(e.filter(p) =~= e) by {
        reveal(Seq::filter);
    }
    assert(seq![u] =~= e.push(u));
    assert(seq![u, v] =~= e.push(u).push(v));
    e.lemma_filter_push(u, p);
    e.push(u).lemma_filter_push(v, p);
    assert(seq![u, v].filter(p) =~= (if p(u) { seq![u] } else { Seq::<T>::empty() }) + (if p(v) {
        seq![v]
    } else {
        Seq::<T>::empty()
    }));
}

/// Exchanging two neighbours of which the first is greater keeps, for every
/// `x`, the order of the elements that compare equal to `x`.
proof fn lemma_swap_adjacent_classes<T: PartialOrd>(s: Seq<T>, i: int)
    requires
        is_total_preorder::<T>(),
        0 <= i,
        i + 1 < s.len(),
        !le(s[i], s[i + 1]),
    ensures
        keeps_equal_order(s, s.update(i, s[i + 1]).update(i + 1, s[i])),
{
    let t = s.update(i, s[i + 1]).update(i + 1, s[i]);
    let a = s.subrange(0, i);
    let b = s.subrange(i + 2, s.len() as int);
    let u = s[i];
    let v = s[i + 1];
    assert(s =~= (a + seq![u, v]) + b);
    assert(t =~= (a + seq![v, u]) + b);
    assert forall|x: T| #[trigger] class_of(t, x) == class_of(s, x) by {
        let p = equiv_to(x);
        Seq::filter_distributes_over_add(a + seq![u, v], b, p);
        Seq::filter_distributes_over_add(a, seq![u, v], p);
        Seq::filter_distributes_over_add(a + seq![v, u], b, p);
        Seq::filter_distributes_over_add(a, seq![v, u], p);
        lemma_filter_pair(u, v, p);
        lemma_filter_pair(v, u, p);
        if p(u) && p(v) {
            lemma_le_trans(u, x, v);
        }
        assert(seq![u, v].filter(p) =~= seq![v, u].filter(p));
    }
}

/// No element of `s` compares equal to `x`.
proof fn lemma_class_empty<T: PartialOrd>(s: Seq<T>, x: T)
    requires
        forall|j: int| 0 <= j < s.len() ==> !equiv(#[trigger] s[j], x),
    ensures
        class_of(s, x) == Seq::<T>::empty(),
    decreases s.len(),
{
    reveal(Seq::filter);
    if s.len() > 0 {
        let s0 = s.drop_last();
        assert forall|j: int| 0 <= j < s0.len() implies !equiv(#[trigger] s0[j], x) by {
            assert(s0[j] == s[j]);
        }
        lemma_class_empty(s0, x);
        assert(!equiv(s[s.len() - 1], x));
        assert(!(equiv_to(x))(s.last()));
    }
}

/// Exchanges the elements at `i` and `j`.
fn swap_elems<T>(v: &mut Vec<T>, i: usize, j: usize)
    requires
        i < old(v).len(),
        j < old(v).len(),
    ensures
        final(v)@ == old(v)@.update(i as int, old(v)@[j as int]).update(j as int, old(v)@[i as int]),
        final(v)@.to_multiset() == old(v)@.to_multiset(),
{
    let ghost s = v@;
    if i == j {
        assert(s.update(i as int, s[j as int]).update(j as int, s[i as int]) =~= s);
        return;
    }
    let (a, b) = if i < j { (i, j) } else { (j, i) };
    let n = v.len();
    let mut x = v.pop().unwrap();
    if b == n - 1 {
        std::mem::swap(&mut v[a], &mut x);
        v.push(x);
    } else {
        std::mem::swap(&mut v[a], &mut x);
        std::mem::swap(&mut v[b], &mut x);
        std::mem::swap(&mut v[a], &mut x);
        v.push(x);
    }
    assert(v@ =~= s.update(i as int, s[j as int]).update(j as int, s[i as int]));
    proof {
        lemma_swap_multiset(s, i as int, j as int);
    }
}

/// Exchanging two elements of a sequence keeps its multiset.
proof fn lemma_swap_multiset<T>(s: Seq<T>, i: int, j: int)
    requires
        0 <= i < s.len(),
        0 <= j < s.len(),
    ensures
        s.update(i, s[j]).update(j, s[i]).to_multiset() == s.to_multiset(),
{
    let s1 = s.update(i, s[j]);
    assert(s1.to_multiset() == s.to_multiset().insert(s[j]).remove(s[i]));
    assert(s1[j] == s[j]);
    assert(s1.update(j, s[i]).to_multiset() == s1.to_multiset().insert(s[i]).remove(s[j]));
    assert(s.to_multiset().count(s[i]) > 0);
    assert(s.to_multiset().count(s[j]) > 0);
    assert(s1.update(j, s[i]).to_multiset() =~= s.to_multiset());
}

/// Exchanging two elements inside `lo..hi` keeps the multiset of that range.
proof fn lemma_swap_range_multiset<T>(s: Seq<T>, i: int, j: int, lo: int, hi: int)
    requires
        0 <= lo <= i < hi <= s.len(),
        lo <= j < hi,
    ensures
        s.update(i, s[j]).update(j, s[i]).subrange(lo, hi).to_multiset() == s.subrange(
            lo,
            hi,
        ).to_multiset(),
{
    let r = s.subrange(lo, hi);
    lemma_swap_multiset(r, i - lo, j - lo);
    assert(s.update(i, s[j]).update(j, s[i]).subrange(lo, hi) =~= r.update(i - lo, r[j - lo]).update(
        j - lo,
        r[i - lo],
    ));
}

/// Rearranging a sequence keeps every property that all its elements have.
proof fn lemma_rearranged_all<T>(s: Seq<T>, t: Seq<T>, pred: spec_fn(T) -> bool)
    requires
        s.to_multiset() == t.to_multiset(),
        forall|i: int| 0 <= i < s.len() ==> #[trigger] pred(s[i]),
    ensures
        forall|i: int| 0 <= i < t.len() ==> #[trigger] pred(t[i]),
{
    assert forall|i: int| 0 <= i < t.len() implies #[trigger] pred(t[i]) by {
        assert(t.contains(t[i]));
        assert(t.to_multiset().count(t[i]) > 0);
        assert(s.to_multiset().count(t[i]) > 0);
        assert(s.contains(t[i]));
        let k = choose|k: int| 0 <= k < s.len() && s[k] == t[i];
        assert(pred(s[k]));
    }
}

/// Insertion sort: each element in turn is carried down past the greater ones
/// before it. Only a greater neighbour is ever passed, so elements that compare
/// equal keep their order.
pub fn insertion_sort_vec<T: PartialOrd>(to_order: Vec<T>) -> (r: Vec<T>)
    ensures
        r@.to_multiset() == to_order@.to_multiset(),
        is_total_preorder::<T>() ==> sorted(r@) && keeps_equal_order(to_order@, r@),
{
    let mut to_order = to_order;
    let ghost input = to_order@;
    let ghost tp = is_total_preorder::<T>();
    let n = to_order.len();
    let mut outer: usize = 1;
    while outer < n
        invariant
            to_order.len() == n,
            to_order@.to_multiset() == input.to_multiset(),
            tp == is_total_preorder::<T>(),
            n == 0 || 1 <= outer <= n,
            tp ==> sorted_range(to_order@, 0, outer as int),
            tp ==> keeps_equal_order(input, to_order@),
        decreases n - outer,
    {
        let mut cur_i: usize = outer;
        let mut las_i: usize = cur_i - 1;
        loop
            invariant_except_break
                1 <= cur_i <= outer,
                las_i == cur_i - 1,
                tp ==> sorted_range(to_order@, 0, cur_i as int),
            invariant
                outer < n,
                to_order.len() == n,
                to_order@.to_multiset() == input.to_multiset(),
                tp == is_total_preorder::<T>(),
                tp ==> sorted_range(to_order@, cur_i as int, outer + 1),
                tp ==> forall|i: int, j: int|
                    0 <= i < cur_i < j <= outer ==> #[trigger] le(to_order@[i], to_order@[j]),
                tp ==> keeps_equal_order(input, to_order@),
            ensures
                tp ==> sorted_range(to_order@, 0, outer + 1),
            decreases cur_i,
        {
            let ghost s = to_order@;
            let ghost c = cur_i as int;
            let ghost l = las_i as int;
            if to_order[las_i] > to_order[cur_i] {
                swap_elems(&mut to_order, cur_i, las_i);
                proof {
                    if tp {
                        assert(!le(s[l], s[c]));
                        lemma_swap_adjacent_classes(s, l);
                        assert(to_order@ =~= s.update(l, s[l + 1]).update(l + 1, s[l]));
                    }
                }
            }
            proof {
                if tp {
                    let t = to_order@;
                    assert(le(t[l], t[c]));
                    assert forall|i: int, j: int| l <= i < j <= outer implies #[trigger] le(t[i], t[j]) by {
                        if i == l && j > c {
                            if t[l] == s[l] {
                                assert(le(s[l], s[j]));
                            } else {
                                assert(le(s[c], s[j]));
                            }
                        } else if i == c {
                            if t[c] == s[c] {
                                assert(le(s[c], s[j]));
                            } else {
                                assert(le(s[l], s[j]));
                            }
                        }
                    }
                    assert forall|i: int, j: int| 0 <= i < l < j <= outer implies #[trigger] le(t[i], t[j]) by {
                        if j == c {
                            if t[c] == s[c] {
                                assert(le(s[i], s[l]));
                                assert(le(s[l], s[c]));
                                lemma_le_trans(s[i], s[l], s[c]);
                            } else {
                                assert(le(s[i], s[l]));
                            }
                        } else {
                            assert(le(s[i], s[j]));
                        }
                    }
                    assert(sorted_range(t, 0, l));
                }
            }
            if las_i == 0 {
                proof {
                    if tp {
                        let t = to_order@;
                        assert forall|i: int, j: int| 0 <= i < j < outer + 1 implies #[trigger] le(t[i], t[j]) by {
                            assert(i >= 0);
                        }
                    }
                }
                break;
            }
            cur_i -= 1;
            las_i -= 1;
        }
        outer += 1;
    }
    proof {
        if n > 0 && tp {
            assert(sorted_range(to_order@, 0, n as int));
        }
        if n == 0 {
            assert(to_order@ =~= input);
        }
    }
    to_order
}

/// Selection sort: each position in turn receives the least of the elements
/// from there on. A later element is taken only when it is less than the least
/// found so far, so a vector that is sorted already comes back unchanged.
pub fn selection_sort_vec<T: PartialOrd>(to_order: Vec<T>) -> (r: Vec<T>)
    ensures
        r@.to_multiset() == to_order@.to_multiset(),
        is_total_preorder::<T>() ==> sorted(r@),
        is_total_preorder::<T>() && sorted(to_order@) ==> r@ == to_order@,
{
    let mut to_order = to_order;
    let ghost input = to_order@;
    let ghost tp = is_total_preorder::<T>();
    let n = to_order.len();
    let mut cur_i: usize = 0;
    while cur_i < n
        invariant
            to_order.len() == n,
            to_order@.to_multiset() == input.to_multiset(),
            tp == is_total_preorder::<T>(),
            cur_i <= n,
            tp ==> sorted_range(to_order@, 0, cur_i as int),
            tp ==> forall|i: int, j: int|
                0 <= i < cur_i <= j < n ==> #[trigger] le(to_order@[i], to_order@[j]),
            tp && sorted(input) ==> to_order@ == input,
        decreases n - cur_i,
    {
        let mut lower_i: usize = cur_i;
        let mut j: usize = cur_i;
        while j < n
            invariant
                to_order.len() == n,
                tp == is_total_preorder::<T>(),
                cur_i <= j <= n,
                cur_i < n,
                cur_i <= lower_i < n,
                tp ==> forall|k: int| cur_i <= k < j ==> #[trigger] le(to_order@[lower_i as int], to_order@[k]),
                tp && sorted(input) ==> to_order@ == input && lower_i == cur_i,
            decreases n - j,
        {
            if to_order[lower_i] > to_order[j] {
                proof {
                    if tp {
                        let s = to_order@;
                        assert(le(s[j as int], s[lower_i as int]));
                        assert forall|k: int| cur_i <= k < j + 1 implies #[trigger] le(s[j as int], s[k]) by {
                            if k < j {
                                lemma_le_trans(s[j as int], s[lower_i as int], s[k]);
                            } else {
                                lemma_le_refl(s[j as int]);
                            }
                        }
                        if sorted(input) && lower_i < j {
                            assert(le(s[lower_i as int], s[j as int]));
                        }
                        if sorted(input) && lower_i == j {
                            lemma_le_refl(s[j as int]);
                        }
                    }
                }
                lower_i = j;
            } else {
                proof {
                    if tp {
                        let s = to_order@;
                        assert(le(s[lower_i as int], s[j as int]));
                    }
                }
            }
            j += 1;
        }
        let ghost s = to_order@;
        swap_elems(&mut to_order, cur_i, lower_i);
        proof {
            if tp {
                let t = to_order@;
                let lo = lower_i as int;
                let c = cur_i as int;
                assert(t[c] == s[lo]);
                assert forall|i: int, k: int| 0 <= i < c + 1 <= k < n implies #[trigger] le(t[i], t[k]) by {
                    if i == c {
                        if k == lo {
                            assert(le(s[lo], s[c]));
                        } else {
                            assert(le(s[lo], s[k]));
                        }
                    } else {
                        if k == lo {
                            assert(le(s[i], s[c]));
                        } else {
                            assert(le(s[i], s[k]));
                        }
                    }
                }
                assert forall|i: int, k: int| 0 <= i < k < c + 1 implies #[trigger] le(t[i], t[k]) by {
                    if k == c {
                        assert(le(s[i], s[lo]));
                    } else {
                        assert(le(s[i], s[k]));
                    }
                }
                if sorted(input) {
                    assert(to_order@ =~= input);
                }
            }
        }
        cur_i += 1;
    }
    proof {
        if tp {
            assert(sorted_range(to_order@, 0, n as int));
        }
    }
    to_order
}

/// The pairs of positions of `s`, first before second, whose elements are out
/// of order.
pub open spec fn inversions<T: PartialOrd>(s: Seq<T>) -> Set<(int, int)> {
    Set::new(|p: (int, int)| 0 <= p.0 < p.1 < s.len() && !le(s[p.0], s[p.1]))
}

/// The pairs of positions below `n`, first before second.
spec fn pairs_below(n: int) -> Set<(int, int)> {
    Set::new(|p: (int, int)| 0 <= p.0 < p.1 < n)
}

proof fn lemma_pairs_below_finite(n: int)
    requires
        n >= 0,
    ensures
        pairs_below(n).finite(),
    decreases n,
{
    if n == 0 {
        assert(pairs_below(0) =~= Set::<(int, int)>::empty());
    } else {
        lemma_pairs_below_finite(n - 1);
        lemma_int_range(0, n - 1);
        let f = |i: int| (i, n - 1);
        let col = set_int_range(0, n - 1).map(f);
        set_int_range(0, n - 1).lemma_map_finite(f);
        assert forall|p: (int, int)| #[trigger] pairs_below(n).contains(p) implies (pairs_below(n - 1)
            + col).contains(p) by {
            if p.1 == n - 1 {
                assert(set_int_range(0, n - 1).contains(p.0) && f(p.0) == p);
            }
        }
        assert(pairs_below(n) =~= pairs_below(n - 1) + col);
    }
}

/// The out-of-order pairs of a sequence are finitely many.
proof fn lemma_inversions_finite<T: PartialOrd>(s: Seq<T>)
    ensures
        inversions(s).finite(),
{
    lemma_pairs_below_finite(s.len() as int);
    assert(inversions(s).subset_of(pairs_below(s.len() as int)));
    vstd::set_lib::lemma_len_subset(inversions(s), pairs_below(s.len() as int));
}

/// The position that `k` goes to when the neighbours at `i` and `i + 1` change places.
spec fn swapped_pos(i: int, k: int) -> int {
    if k == i {
        i + 1
    } else if k == i + 1 {
        i
    } else {
        k
    }
}

/// Exchanging two neighbours of which the first is greater leaves one
/// out-of-order pair fewer, when of two values at most one is greater.
proof fn lemma_swap_inversions<T: PartialOrd>(s: Seq<T>, i: int)
    requires
        greater_is_asymmetric::<T>(),
        0 <= i,
        i + 1 < s.len(),
        !le(s[i], s[i + 1]),
    ensures
        inversions(s).finite(),
        inversions(s.update(i, s[i + 1]).update(i + 1, s[i])).len() + 1 == inversions(s).len(),
{
    let t = s.update(i, s[i + 1]).update(i + 1, s[i]);
    let f = |p: (int, int)| (swapped_pos(i, p.0), swapped_pos(i, p.1));
    let rest = inversions(s).remove((i, i + 1));
    lemma_inversions_finite(s);
    assert forall|k: int| 0 <= k < s.len() implies #[trigger] t[swapped_pos(i, k)] == s[k] by {}
    assert forall|q: (int, int)| #[trigger] inversions(t).contains(q) implies rest.map(f).contains(q) by {
        let p = f(q);
        assert(t[q.0] == s[p.0]);
        assert(t[q.1] == s[p.1]);
        assert(q != (i, i + 1));
        assert(rest.contains(p));
        assert(f(p) == q);
    }
    assert forall|q: (int, int)| #[trigger] rest.map(f).contains(q) implies inversions(t).contains(q) by {
        let p = choose|p: (int, int)| rest.contains(p) && f(p) == q;
        assert(t[swapped_pos(i, p.0)] == s[p.0]);
        assert(t[swapped_pos(i, p.1)] == s[p.1]);
    }
    assert(rest.map(f) =~= inversions(t));
    assert(vstd::relations::injective_on(f, rest)) by {
        assert forall|p1: (int, int), p2: (int, int)|
            rest.contains(p1) && rest.contains(p2) && #[trigger] f(p1) == #[trigger] f(p2) implies p1 == p2 by {
            assert(f(f(p1)) == p1);
            assert(f(f(p2)) == p2);
        }
    }
    lemma_map_size(rest, inversions(t), f);
    assert(inversions(s).contains((i, i + 1)));
}

/// The last `n - m` positions hold their final elements: they are in order, and
/// nothing before them is greater than any of them.
pub open spec fn settled_from<T: PartialOrd>(s: Seq<T>, m: int) -> bool {
    &&& sorted_range(s, m, s.len() as int)
    &&& forall|i: int, j: int| 0 <= i < m <= j < s.len() ==> #[trigger] le(s[i], s[j])
}

proof fn lemma_settled_sorted<T: PartialOrd>(s: Seq<T>, m: int)
    requires
        is_total_preorder::<T>(),
        m <= 1,
        settled_from(s, m),
    ensures
        sorted(s),
{
    assert forall|i: int, j: int| 0 <= i < j < s.len() implies #[trigger] le(s[i], s[j]) by {
        if i >= m {
        } else {
            assert(i < m <= j);
        }
    }
}

/// Bubble sort: passes over the vector exchange neighbours that are out of
/// order, until a pass exchanges none. Only a greater neighbour is ever
/// passed, so elements that compare equal keep their order. Every exchange
/// leaves one out-of-order pair fewer, so the passes come to an end as long as
/// of two elements at most one is greater than the other.
pub fn bubble_sort_vec<T: PartialOrd>(to_order: Vec<T>) -> (r: Vec<T>)
    requires
        greater_is_asymmetric::<T>(),
    ensures
        r@.to_multiset() == to_order@.to_multiset(),
        is_total_preorder::<T>() ==> sorted(r@) && keeps_equal_order(to_order@, r@),
{
    let mut to_order = to_order;
    let ghost input = to_order@;
    let ghost tp = is_total_preorder::<T>();
    let n = to_order.len();
    let mut swapped = true;
    let ghost mut passes: int = 0;
    proof {
        lemma_inversions_finite(to_order@);
    }
    while swapped
        invariant
            to_order.len() == n,
            to_order@.to_multiset() == input.to_multiset(),
            greater_is_asymmetric::<T>(),
            tp == is_total_preorder::<T>(),
            inversions(to_order@).finite(),
            0 <= passes,
            tp ==> passes <= n + 1,
            tp && swapped ==> passes <= n,
            tp && !swapped ==> sorted(to_order@),
            tp ==> keeps_equal_order(input, to_order@),
            tp ==> settled_from(to_order@, if passes >= n { 0 } else { n - passes }),
        decreases inversions(to_order@).len() + (if swapped { 1int } else { 0int }),
    {
        let ghost start = to_order@;
        let ghost m: int = if passes >= n { 0 } else { n - passes };
        let ghost was_sorted = sorted(start);
        swapped = false;
        let mut cur_i: usize = 1;
        let ghost mut top: int = if 1 < m { 0 } else { m - 1 };
        proof {
            if tp && m >= 1 {
                lemma_le_refl(to_order@[top]);
            }
        }
        while cur_i < n
            invariant
                to_order.len() == n,
                to_order@.to_multiset() == input.to_multiset(),
                greater_is_asymmetric::<T>(),
                tp == is_total_preorder::<T>(),
                0 <= m <= n,
                1 <= cur_i <= n || n == 0,
                start.len() == n,
                inversions(start).finite(),
                inversions(to_order@).finite(),
                inversions(to_order@).len() + (if swapped { 1int } else { 0int }) <= inversions(
                    start,
                ).len(),
                !swapped ==> to_order@ == start,
                tp ==> 0 <= passes <= n + 1,
                tp ==> settled_from(start, m),
                tp ==> forall|k: int| m <= k < n ==> #[trigger] to_order@[k] == start[k],
                tp ==> forall|i: int, j: int|
                    0 <= i < m <= j < n ==> #[trigger] le(to_order@[i], to_order@[j]),
                was_sorted == sorted(start),
                tp ==> keeps_equal_order(input, to_order@),
                tp && was_sorted ==> !swapped,
                tp && !swapped ==> sorted_range(to_order@, 0, cur_i as int),
                top == (if cur_i < m { cur_i as int } else { m }) - 1,
                tp ==> forall|k: int| 0 <= k <= top ==> #[trigger] le(to_order@[k], to_order@[top]),
            decreases n - cur_i,
        {
            let ghost s = to_order@;
            let ghost c = cur_i as int;
            if to_order[cur_i - 1] > to_order[cur_i] {
                proof {
                    if tp {
                        if c >= m {
                            if c == m {
                                assert(le(s[c - 1], s[c]));
                            } else {
                                assert(le(start[c - 1], start[c]));
                            }
                        }
                        if was_sorted {
                            assert(le(s[c - 1], s[c]));
                        }
                    }
                }
                swap_elems(&mut to_order, cur_i - 1, cur_i);
                proof {
                    assert(!le(s[c - 1], s[c]));
                    lemma_swap_inversions(s, c - 1);
                    assert(to_order@ =~= s.update(c - 1, s[c]).update(c, s[c - 1]));
                    lemma_inversions_finite(to_order@);
                    if tp {
                        lemma_swap_adjacent_classes(s, c - 1);
                    }
                }
                swapped = true;
            }
            proof {
                let t = to_order@;
                if c < m {
                    if tp {
                        assert forall|i: int, j: int| 0 <= i < m <= j < n implies #[trigger] le(t[i], t[j]) by {
                            if i == c {
                                assert(le(s[c - 1], s[j]));
                                assert(le(s[c], s[j]));
                            } else if i == c - 1 {
                                assert(le(s[c - 1], s[j]));
                                assert(le(s[c], s[j]));
                            } else {
                                assert(le(s[i], s[j]));
                            }
                        }
                        assert(le(t[c - 1], t[c]));
                        assert forall|k: int| 0 <= k < c + 1 implies #[trigger] le(t[k], t[c]) by {
                            if k < c - 1 {
                                assert(le(s[k], s[c - 1]));
                                assert(t[k] == s[k]);
                                if t[c] == s[c] {
                                    lemma_le_trans(s[k], s[c - 1], s[c]);
                                }
                            } else if k == c {
                                lemma_le_refl(t[c]);
                            }
                        }
                    }
                    top = c;
                } else if tp {
                    assert(t == s);
                }
                if tp && !swapped {
                    assert(t == s);
                    assert(le(s[c - 1], s[c]));
                    assert forall|i: int, j: int| 0 <= i < j < c + 1 implies #[trigger] le(t[i], t[j]) by {
                        if j == c && i < c - 1 {
                            lemma_le_trans(s[i], s[c - 1], s[c]);
                        }
                    }
                }
            }
            cur_i += 1;
        }
        proof {
            let t = to_order@;
            if tp {
                if !swapped {
                    if n > 0 {
                        assert(sorted_range(t, 0, n as int));
                    }
                }
                if m >= 1 {
                    assert forall|i: int, j: int| m - 1 <= i < j < n implies #[trigger] le(t[i], t[j]) by {
                        if i >= m {
                            assert(le(start[i], start[j]));
                        }
                    }
                    assert forall|i: int, j: int| 0 <= i < m - 1 <= j < n implies #[trigger] le(t[i], t[j]) by {
                        if j == m - 1 {
                            assert(le(t[i], t[m - 1]));
                        }
                    }
                    assert(settled_from(t, m - 1));
                } else {
                    assert(settled_from(t, 0));
                }
                if swapped {
                    if m <= 1 {
                        lemma_settled_sorted(start, m);
                    }
                }
            }
            passes = passes + 1;
            if tp {
                assert(settled_from(t, if passes >= n { 0 } else { n - passes }));
            }
        }
    }
    to_order
}

/// The elements outside `lo..hi` are those of `old`.
pub open spec fn same_outside<T>(new: Seq<T>, old: Seq<T>, lo: int, hi: int) -> bool {
    &&& new.len() == old.len()
    &&& forall|k: int| 0 <= k < old.len() && !(lo <= k < hi) ==> #[trigger] new[k] == old[k]
}

/// Quick sort: the last element is the pivot; the elements not greater than it
/// are gathered in front of it, and both sides are sorted in turn.
pub fn quick_sort_vec<T: PartialOrd>(to_order: Vec<T>) -> (r: Vec<T>)
    ensures
        r@.to_multiset() == to_order@.to_multiset(),
        is_total_preorder::<T>() ==> sorted(r@),
{
    let mut to_order = to_order;
    let ghost input = to_order@;
    let n = to_order.len();
    quick_sort(&mut to_order, 0, n);
    assert(to_order@.subrange(0, n as int) =~= to_order@);
    assert(input.subrange(0, n as int) =~= input);
    proof {
        if is_total_preorder::<T>() {
            assert(sorted_range(to_order@, 0, n as int));
        }
    }
    to_order
}

/// Sorts the range `lo..hi` of `to_order` in place.
fn quick_sort<T: PartialOrd>(to_order: &mut Vec<T>, lo: usize, hi: usize)
    requires
        lo <= hi <= old(to_order).len(),
    ensures
        same_outside(final(to_order)@, old(to_order)@, lo as int, hi as int),
        final(to_order)@.subrange(lo as int, hi as int).to_multiset() == old(to_order)@.subrange(
            lo as int,
            hi as int,
        ).to_multiset(),
        is_total_preorder::<T>() ==> sorted_range(final(to_order)@, lo as int, hi as int),
    decreases hi - lo,
{
    if hi - lo <= 1 {
        return;
    }
    let ghost tp = is_total_preorder::<T>();
    let ghost v0 = to_order@;
    let len = hi - 1;
    let ghost p = to_order@[len as int];
    let mut next: usize = lo;
    let mut pivot: usize = len;
    let mut i: usize = lo;
    while i < hi
        invariant
            lo < hi <= to_order.len(),
            len == hi - 1,
            tp == is_total_preorder::<T>(),
            lo <= next <= i <= hi,
            lo <= pivot <= len,
            same_outside(to_order@, v0, lo as int, hi as int),
            to_order@.subrange(lo as int, hi as int).to_multiset() == v0.subrange(
                lo as int,
                hi as int,
            ).to_multiset(),
            i <= len ==> to_order@[len as int] == p,
            tp && i > len ==> pivot + 1 == next && to_order@[pivot as int] == p,
            tp ==> forall|k: int| lo <= k < next ==> #[trigger] le(to_order@[k], p),
            tp ==> forall|k: int| next <= k < i ==> !#[trigger] le(to_order@[k], p),
        decreases hi - i,
    {
        if to_order[i] <= to_order[len] {
            let ghost s = to_order@;
            proof {
                lemma_swap_range_multiset(s, i as int, next as int, lo as int, hi as int);
            }
            swap_elems(to_order, i, next);
            pivot = next;
            next += 1;
            proof {
                if tp {
                    assert(le(s[i as int], p));
                    let t = to_order@;
                    assert forall|k: int| next <= k < i + 1 implies !#[trigger] le(t[k], p) by {
                        if k == i {
                            assert(t[k] == s[next - 1]);
                        } else {
                            assert(t[k] == s[k]);
                        }
                    }
                    if i == len {
                        assert(t[pivot as int] == s[i as int]);
                    }
                }
            }
        } else {
            proof {
                if tp {
                    let s = to_order@;
                    assert(!le(s[i as int], p));
                    if i == len {
                        lemma_le_refl(p);
                    }
                }
            }
        }
        i += 1;
    }
    let ghost v1 = to_order@;
    quick_sort(to_order, lo, pivot);
    let ghost v2 = to_order@;
    quick_sort(to_order, pivot + 1, hi);
    proof {
        let v3 = to_order@;
        let (a, m, b) = (lo as int, pivot as int, hi as int);
        assert(v3.subrange(a, m) == v2.subrange(a, m));
        assert(v2.subrange(m + 1, b) == v1.subrange(m + 1, b));
        if tp {
            // the left part keeps its bound, the right part its bound
            let below = |x: T| le(x, p);
            let above = |x: T| !le(x, p);
            assert forall|k: int| 0 <= k < v1.subrange(a, m).len() implies #[trigger] below(
                v1.subrange(a, m)[k],
            ) by {
                assert(v1.subrange(a, m)[k] == v1[a + k]);
            }
            lemma_rearranged_all(v1.subrange(a, m), v2.subrange(a, m), below);
            assert forall|k: int| 0 <= k < v2.subrange(m + 1, b).len() implies #[trigger] above(
                v2.subrange(m + 1, b)[k],
            ) by {
                assert(v2.subrange(m + 1, b)[k] == v1[m + 1 + k]);
            }
            lemma_rearranged_all(v2.subrange(m + 1, b), v3.subrange(m + 1, b), above);
            assert(v3[m] == p);
            assert forall|i: int, j: int| a <= i < j < b implies #[trigger] le(v3[i], v3[j]) by {
                if j < m {
                } else if i > m {
                } else {
                    if i < m {
                        assert(below(v3.subrange(a, m)[i - a]));
                        assert(le(v3[i], p));
                    } else {
                        lemma_le_refl(p);
                    }
                    if j > m {
                        assert(above(v3.subrange(m + 1, b)[j - m - 1]));
                        assert(le(p, v3[j]));
                    } else {
                        lemma_le_refl(p);
                    }
                    lemma_le_trans(v3[i], p, v3[j]);
                }
            }
        }
        // the whole range is a rearrangement of what it was
        assert(v3.subrange(a, b) =~= v3.subrange(a, m) + (seq![v3[m]] + v3.subrange(m + 1, b)));
        assert(v1.subrange(a, b) =~= v1.subrange(a, m) + (seq![v1[m]] + v1.subrange(m + 1, b)));
        vstd::seq_lib::lemma_multiset_commutative(v3.subrange(a, m), seq![v3[m]] + v3.subrange(m + 1, b));
        vstd::seq_lib::lemma_multiset_commutative(seq![v3[m]], v3.subrange(m + 1, b));
        vstd::seq_lib::lemma_multiset_commutative(v1.subrange(a, m), seq![v1[m]] + v1.subrange(m + 1, b));
        vstd::seq_lib::lemma_multiset_commutative(seq![v1[m]], v1.subrange(m + 1, b));
    }
}

/// `r` holds clones of the elements of `m`, one for one.
pub open spec fn clones_of<T: Clone>(m: Seq<T>, r: Seq<T>) -> bool {
    &&& m.len() == r.len()
    &&& forall|i: int| 0 <= i < m.len() ==> #[trigger] cloned(m[i], r[i])
}

/// Merge sort: the vector is cut after its middle element, both halves are
/// sorted, and the two sorted halves are merged. Of two elements that compare
/// equal, the one from the left half is taken first, so elements that compare
/// equal keep their order. A vector of more than one element comes back as
/// clones of its elements in sorted order; a shorter one comes back as it is.
pub fn merge_sort_vec<T: PartialOrd + Clone>(to_order: Vec<T>) -> (r: Vec<T>)
    ensures
        to_order.len() <= 1 ==> r@ == to_order@,
        to_order.len() > 1 ==> exists|m: Seq<T>|
            {
                &&& m.to_multiset() == to_order@.to_multiset()
                &&& (is_total_preorder::<T>() ==> sorted(m) && keeps_equal_order(to_order@, m))
                &&& #[trigger] clones_of(m, r@)
            },
{
    if to_order.len() <= 1 {
        return to_order;
    }
    let ghost input = to_order@;
    let sorted_vec = merge_sort(to_order);
    let mut r: Vec<T> = Vec::new();
    let mut i: usize = 0;
    while i < sorted_vec.len()
        invariant
            i <= sorted_vec.len(),
            r.len() == i,
            forall|k: int| 0 <= k < i ==> #[trigger] cloned(sorted_vec@[k], r@[k]),
        decreases sorted_vec.len() - i,
    {
        let x = sorted_vec[i].clone();
        r.push(x);
        i += 1;
    }
    assert(clones_of(sorted_vec@, r@));
    r
}

fn merge_sort<T: PartialOrd>(spl: Vec<T>) -> (r: Vec<T>)
    ensures
        r@.to_multiset() == spl@.to_multiset(),
        is_total_preorder::<T>() ==> sorted(r@) && keeps_equal_order(spl@, r@),
    decreases spl.len(),
{
    if spl.len() <= 1 {
        return spl;
    }
    let ghost whole = spl@;
    let middle = (spl.len() - 1) / 2;
    let mut left = spl;
    let right = left.split_off(middle + 1);
    let ghost (l0, r0) = (left@, right@);
    assert(whole =~= l0 + r0);
    proof {
        vstd::seq_lib::lemma_multiset_commutative(l0, r0);
    }
    let left = merge_sort(left);
    let right = merge_sort(right);
    let ghost (l1, r1) = (left@, right@);
    let r = merge(left, right);
    proof {
        if is_total_preorder::<T>() {
            assert forall|x: T| #[trigger] class_of(r@, x) == class_of(whole, x) by {
                Seq::filter_distributes_over_add(l0, r0, equiv_to(x));
                assert(class_of(l1, x) == class_of(l0, x));
                assert(class_of(r1, x) == class_of(r0, x));
            }
        }
    }
    r
}

/// The elements of `v` in the opposite order.
fn reversed<T>(v: Vec<T>) -> (r: Vec<T>)
    ensures
        r.len() == v.len(),
        forall|k: int| 0 <= k < v.len() ==> #[trigger] r@[k] == v@[v.len() - 1 - k],
{
    let ghost orig = v@;
    let n = v.len();
    let mut v = v;
    let mut r: Vec<T> = Vec::new();
    while v.len() > 0
        invariant
            r.len() + v.len() == n,
            orig.len() == n,
            v@ == orig.subrange(0, v.len() as int),
            forall|k: int| 0 <= k < r.len() ==> #[trigger] r@[k] == orig[n - 1 - k],
        decreases v.len(),
    {
        let x = v.pop().unwrap();
        r.push(x);
    }
    r
}

/// Merges two vectors: while both have elements left, the first remaining
/// element of `sub1` is taken if it is not greater than that of `sub2`, else
/// that of `sub2`; then the rest of the other follows. Of two sorted vectors,
/// the result is sorted, and of elements that compare equal those of `sub1`
/// come first, each side in its own order.
fn merge<T: PartialOrd>(sub1: Vec<T>, sub2: Vec<T>) -> (r: Vec<T>)
    ensures
        r@.len() == sub1@.len() + sub2@.len(),
        r@.to_multiset() == sub1@.to_multiset().add(sub2@.to_multiset()),
        is_total_preorder::<T>() && sorted(sub1@) && sorted(sub2@) ==> {
            &&& sorted(r@)
            &&& forall|x: T| #[trigger] class_of(r@, x) == class_of(sub1@, x) + class_of(sub2@, x)
        },
{
    let ghost s1 = sub1@;
    let ghost s2 = sub2@;
    let ghost good = is_total_preorder::<T>() && sorted(s1) && sorted(s2);
    let size1 = sub1.len();
    let size2 = sub2.len();
    let mut rev1 = reversed(sub1);
    let mut rev2 = reversed(sub2);
    let mut return_vec: Vec<T> = Vec::new();
    let mut i1: usize = 0;
    let mut i2: usize = 0;
    proof {
        assert forall|x: T| #[trigger] class_of(return_vec@, x) == class_of(s1.subrange(0, 0), x)
            + class_of(s2.subrange(0, 0), x) by {
            lemma_class_empty(return_vec@, x);
            lemma_class_empty(s1.subrange(0, 0), x);
            lemma_class_empty(s2.subrange(0, 0), x);
            assert(Seq::<T>::empty() + Seq::<T>::empty() =~= Seq::<T>::empty());
        }
    }
    while rev1.len() > 0 || rev2.len() > 0
        invariant
            good == (is_total_preorder::<T>() && sorted(s1) && sorted(s2)),
            s1.len() == size1,
            s2.len() == size2,
            i1 <= size1,
            i2 <= size2,
            rev1.len() == size1 - i1,
            rev2.len() == size2 - i2,
            return_vec.len() == i1 + i2,
            forall|k: int| 0 <= k < rev1.len() ==> #[trigger] rev1@[k] == s1[size1 - 1 - k],
            forall|k: int| 0 <= k < rev2.len() ==> #[trigger] rev2@[k] == s2[size2 - 1 - k],
            return_vec@.to_multiset() == s1.subrange(0, i1 as int).to_multiset().add(
                s2.subrange(0, i2 as int).to_multiset(),
            ),
            good ==> sorted(return_vec@),
            good && i1 < size1 ==> forall|k: int|
                0 <= k < return_vec.len() ==> #[trigger] le(return_vec@[k], s1[i1 as int]),
            good && i2 < size2 ==> forall|k: int|
                0 <= k < return_vec.len() ==> #[trigger] le(return_vec@[k], s2[i2 as int]),
            good && i1 < size1 ==> forall|j: int| 0 <= j < i2 ==> !#[trigger] le(s1[i1 as int], s2[j]),
            good ==> forall|x: T| #[trigger] class_of(return_vec@, x) == class_of(
                s1.subrange(0, i1 as int),
                x,
            ) + class_of(s2.subrange(0, i2 as int), x),
        decreases rev1.len() + rev2.len(),
    {
        let ghost rv = return_vec@;
        let ghost (j1, j2) = (i1 as int, i2 as int);
        let take_first = if rev1.len() == 0 {
            false
        } else if rev2.len() == 0 {
            true
        } else {
            rev1[rev1.len() - 1] <= rev2[rev2.len() - 1]
        };
        if take_first {
            let x = rev1.pop().unwrap();
            assert(x == s1[j1]);
            return_vec.push(x);
            proof {
                assert(s1.subrange(0, j1 + 1) =~= s1.subrange(0, j1).push(x));
            }
            i1 += 1;
        } else {
            let x = rev2.pop().unwrap();
            assert(x == s2[j2]);
            return_vec.push(x);
            proof {
                assert(s2.subrange(0, j2 + 1) =~= s2.subrange(0, j2).push(x));
            }
            i2 += 1;
        }
        proof {
            if good {
                let t = return_vec@;
                let y = t[t.len() - 1];
                if take_first {
                    if j2 < size2 && rev2.len() > 0 {
                        assert(le(y, s2[j2]));
                    }
                } else if j1 < size1 {
                    assert(!le(s1[j1], y));
                    assert(le(y, s1[j1]));
                }
                assert forall|i: int, j: int| 0 <= i < j < t.len() implies #[trigger] le(t[i], t[j]) by {
                    if j == t.len() - 1 {
                        assert(t[i] == rv[i]);
                    }
                }
                if i1 < size1 {
                    assert(le(y, s1[i1 as int])) by {
                        if take_first {
                            assert(le(s1[j1], s1[i1 as int]));
                        }
                    }
                    assert forall|k: int| 0 <= k < t.len() implies #[trigger] le(t[k], s1[i1 as int]) by {
                        if k < t.len() - 1 {
                            if take_first {
                                assert(le(rv[k], s1[j1]));
                                assert(le(s1[j1], s1[i1 as int]));
                                lemma_le_trans(rv[k], s1[j1], s1[i1 as int]);
                            } else {
                                assert(le(rv[k], s1[i1 as int]));
                            }
                        }
                    }
                    assert forall|j: int| 0 <= j < i2 implies !#[trigger] le(s1[i1 as int], s2[j]) by {
                        if take_first {
                            assert(le(s1[j1], s1[i1 as int]));
                            if le(s1[i1 as int], s2[j]) {
                                lemma_le_trans(s1[j1], s1[i1 as int], s2[j]);
                            }
                        } else if j < j2 {
                        } else {
                            assert(!le(s1[j1], s2[j2]));
                        }
                    }
                }
                if i2 < size2 {
                    assert(le(y, s2[i2 as int])) by {
                        if !take_first {
                            assert(le(s2[j2], s2[i2 as int]));
                        }
                    }
                    assert forall|k: int| 0 <= k < t.len() implies #[trigger] le(t[k], s2[i2 as int]) by {
                        if k < t.len() - 1 {
                            if !take_first {
                                assert(le(rv[k], s2[j2]));
                                assert(le(s2[j2], s2[i2 as int]));
                                lemma_le_trans(rv[k], s2[j2], s2[i2 as int]);
                            } else {
                                assert(le(rv[k], s2[i2 as int]));
                            }
                        }
                    }
                }
                assert forall|x: T| #[trigger] class_of(t, x) == class_of(s1.subrange(0, i1 as int), x)
                    + class_of(s2.subrange(0, i2 as int), x) by {
                    let p = equiv_to(x);
                    let a1 = s1.subrange(0, j1);
                    let a2 = s2.subrange(0, j2);
                    rv.lemma_filter_push(y, p);
                    assert(class_of(rv, x) == class_of(a1, x) + class_of(a2, x));
                    if take_first {
                        a1.lemma_filter_push(y, p);
                        if p(y) {
                            assert forall|j: int| 0 <= j < a2.len() implies !equiv(#[trigger] a2[j], x) by {
                                if equiv(a2[j], x) {
                                    lemma_le_trans(y, x, a2[j]);
                                    assert(!le(s1[j1], s2[j]));
                                }
                            }
                            lemma_class_empty(a2, x);
                            assert(class_of(t, x) =~= class_of(a1.push(y), x) + class_of(a2, x));
                        } else {
                            assert(class_of(t, x) =~= class_of(a1.push(y), x) + class_of(a2, x));
                        }
                    } else {
                        a2.lemma_filter_push(y, p);
                        assert(class_of(t, x) =~= class_of(a1, x) + class_of(a2.push(y), x));
                    }
                }
            }
        }
    }
    assert(s1.subrange(0, size1 as int) =~= s1);
    assert(s2.subrange(0, size2 as int) =~= s2);
    return_vec
}

/// Two sorted rearrangements of the same sequence are the same sequence, when
/// the order is total: so all the sorting functions above give one result.
pub proof fn lemma_sorts_agree<T: PartialOrd>(s: Seq<T>, r1: Seq<T>, r2: Seq<T>)
    requires
        is_total_order::<T>(),
        sorts(s, r1),
        sorts(s, r2),
    ensures
        r1 == r2,
{
    lemma_sorted_same_multiset(r1, r2);
}

/// Sorting a sequence that is sorted already gives it back unchanged.
pub proof fn lemma_sort_sorted<T: PartialOrd>(s: Seq<T>, r: Seq<T>)
    requires
        is_total_order::<T>(),
        sorted(s),
        sorts(s, r),
    ensures
        r == s,
{
    lemma_sorted_same_multiset(r, s);
}

/// Two stable sorts of one sequence give the same result: when the elements
/// form a total preorder, there is one sorted rearrangement that keeps
/// elements that compare equal in their order.
pub proof fn lemma_stable_sorts_agree<T: PartialOrd>(s: Seq<T>, r1: Seq<T>, r2: Seq<T>)
    requires
        is_total_preorder::<T>(),
        sorted(r1),
        sorted(r2),
        keeps_equal_order(s, r1),
        keeps_equal_order(s, r2),
    ensures
        r1 == r2,
{
    assert forall|x: T| #[trigger] class_of(r1, x) == class_of(r2, x) by {
        assert(class_of(r1, x) == class_of(s, x));
        assert(class_of(r2, x) == class_of(s, x));
    }
    lemma_same_classes_sorted(r1, r2);
}

/// The first element of a non-empty `s`, put in front of the rest, and what
/// that does to the elements that compare equal to `x`.
proof fn lemma_class_first<T: PartialOrd>(s: Seq<T>, x: T)
    requires
        s.len() > 0,
    ensures
        s == seq![s[0]] + s.drop_first(),
        class_of(s, x) == (if equiv(s[0], x) { seq![s[0]] } else { Seq::<T>::empty() }) + class_of(
            s.drop_first(),
            x,
        ),
{
    assert(s =~= seq![s[0]] + s.drop_first());
    s.drop_first().lemma_filter_prepend(s[0], equiv_to(x));
}

/// If some element of the sorted `s` compares equal to `x`, the first
/// element of `s` is not greater than `x`.
proof fn lemma_first_le_member<T: PartialOrd>(s: Seq<T>, x: T)
    requires
        is_total_preorder::<T>(),
        sorted(s),
        class_of(s, x).len() > 0,
    ensures
        s.len() > 0,
        le(s[0], x),
{
    if forall|j: int| 0 <= j < s.len() ==> !equiv(#[trigger] s[j], x) {
        lemma_class_empty(s, x);
    }
    let j = choose|j: int| 0 <= j < s.len() && equiv(#[trigger] s[j], x);
    if j > 0 {
        assert(le(s[0], s[j]));
    } else {
        lemma_le_refl(s[0]);
    }
    lemma_le_trans(s[0], s[j], x);
}

/// Two sorted sequences in which, for every `x`, the elements that compare
/// equal to `x` are the same, in the same order, are the same sequence.
proof fn lemma_same_classes_sorted<T: PartialOrd>(r1: Seq<T>, r2: Seq<T>)
    requires
        is_total_preorder::<T>(),
        sorted(r1),
        sorted(r2),
        forall|x: T| #[trigger] class_of(r1, x) == class_of(r2, x),
    ensures
        r1 == r2,
    decreases r1.len(),
{
    if r1.len() == 0 && r2.len() == 0 {
        assert(r1 =~= r2);
    } else if r1.len() == 0 {
        lemma_le_refl(r2[0]);
        lemma_class_first(r2, r2[0]);
        assert(class_of(r1, r2[0]) == class_of(r2, r2[0]));
        lemma_class_empty(r1, r2[0]);
    } else if r2.len() == 0 {
        lemma_le_refl(r1[0]);
        lemma_class_first(r1, r1[0]);
        assert(class_of(r1, r1[0]) == class_of(r2, r1[0]));
        lemma_class_empty(r2, r1[0]);
    } else {
        let a = r1[0];
        let b = r2[0];
        let t1 = r1.drop_first();
        let t2 = r2.drop_first();
        lemma_le_refl(a);
        lemma_le_refl(b);
        lemma_class_first(r1, a);
        lemma_class_first(r2, b);
        assert(class_of(r1, a) == class_of(r2, a));
        assert(class_of(r1, b) == class_of(r2, b));
        lemma_first_le_member(r2, a);
        lemma_first_le_member(r1, b);
        assert(equiv(a, b));
        lemma_class_first(r2, a);
        lemma_class_first(r1, b);
        assert(class_of(r1, a)[0] == a);
        assert(class_of(r2, a)[0] == b);
        assert(a == b);
        assert forall|x: T| #[trigger] class_of(t1, x) == class_of(t2, x) by {
            lemma_class_first(r1, x);
            lemma_class_first(r2, x);
            assert(class_of(r1, x) == class_of(r2, x));
            let pre = if equiv(a, x) { seq![a] } else { Seq::<T>::empty() };
            assert(class_of(t1, x) =~= class_of(r1, x).subrange(pre.len() as int, class_of(r1, x).len() as int));
            assert(class_of(t2, x) =~= class_of(r2, x).subrange(pre.len() as int, class_of(r2, x).len() as int));
        }
        assert forall|i: int, j: int| 0 <= i < j < t1.len() implies #[trigger] le(t1[i], t1[j]) by {
            assert(le(r1[i + 1], r1[j + 1]));
        }
        assert forall|i: int, j: int| 0 <= i < j < t2.len() implies #[trigger] le(t2[i], t2[j]) by {
            assert(le(r2[i + 1], r2[j + 1]));
        }
        lemma_same_classes_sorted(t1, t2);
        assert(r1 =~= r2);
    }
}

proof fn lemma_sorted_same_multiset<T: PartialOrd>(r1: Seq<T>, r2: Seq<T>)
    requires
        is_total_order::<T>(),
        sorted(r1),
        sorted(r2),
        r1.to_multiset() == r2.to_multiset(),
    ensures
        r1 == r2,
    decreases r1.len(),
{
    vstd::seq_lib::to_multiset_len(r1);
    vstd::seq_lib::to_multiset_len(r2);
    if r1.len() == 0 {
        assert(r2 =~= r1);
    } else {
        assert(r2.len() == r1.len());
        let a = r1[0];
        let b = r2[0];
        assert(r1.to_multiset().count(a) > 0);
        assert(r2.contains(a));
        let j = choose|j: int| 0 <= j < r2.len() && r2[j] == a;
        if j > 0 {
            assert(le(r2[0], r2[j]));
        } else {
            lemma_le_refl(b);
        }
        assert(r2.to_multiset().count(b) > 0);
        assert(r1.contains(b));
        let i = choose|i: int| 0 <= i < r1.len() && r1[i] == b;
        if i > 0 {
            assert(le(r1[0], r1[i]));
        } else {
            lemma_le_refl(a);
        }
        assert(le(a, b) && le(b, a));
        assert(a == b);
        let t1 = r1.drop_first();
        let t2 = r2.drop_first();
        assert(r1 =~= seq![a] + t1);
        assert(r2 =~= seq![a] + t2);
        vstd::seq_lib::lemma_multiset_commutative(seq![a], t1);
        vstd::seq_lib::lemma_multiset_commutative(seq![a], t2);
        assert(r1.to_multiset() == seq![a].to_multiset().add(t1.to_multiset()));
        assert(r2.to_multiset() == seq![a].to_multiset().add(t2.to_multiset()));
        assert forall|x: T| #[trigger] t1.to_multiset().count(x) == t2.to_multiset().count(x) by {
            assert(r1.to_multiset().count(x) == r2.to_multiset().count(x));
            assert(seq![a].to_multiset().add(t1.to_multiset()).count(x) == seq![a].to_multiset().count(x) + t1.to_multiset().count(x));
            assert(seq![a].to_multiset().add(t2.to_multiset()).count(x) == seq![a].to_multiset().count(x) + t2.to_multiset().count(x));
        }
        assert(t1.to_multiset() =~= t2.to_multiset());
        assert forall|x: int, y: int| 0 <= x < y < t1.len() implies #[trigger] le(t1[x], t1[y]) by {
            assert(le(r1[x + 1], r1[y + 1]));
        }
        assert forall|x: int, y: int| 0 <= x < y < t2.len() implies #[trigger] le(t2[x], t2[y]) by {
            assert(le(r2[x + 1], r2[y + 1]));
        }
        lemma_sorted_same_multiset(t1, t2);
    }
}

} // verus!
