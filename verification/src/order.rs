//! The ordering that the sorting algorithms and the B-tree rely on.
//!
//! Elements are compared only through `PartialOrd` (and, for the B-tree,
//! `PartialEq`). The contracts speak of the relation `le`, "not greater than",
//! read off vstd's specification of `partial_cmp`, and ask of the element type
//! that this relation is a total preorder (for sorting) or a total order
//! (for the B-tree).
use vstd::prelude::*;
use core::cmp::Ordering;
use vstd::std_specs::cmp::{PartialEqSpec, PartialOrdSpec};

verus! {

/// `a` is not greater than `b`.
pub open spec fn le<T: PartialOrd>(a: T, b: T) -> bool {
    a.partial_cmp_spec(&b) != Some(Ordering::Greater)
}

/// `partial_cmp` of `T` follows its specification, every two values are
/// comparable, and `le` is total and transitive.
pub open spec fn is_total_preorder<T: PartialOrd>() -> bool {
    &&& T::obeys_partial_cmp_spec()
    &&& forall|a: T, b: T| #[trigger] a.partial_cmp_spec(&b) is Some
    &&& forall|a: T, b: T| #[trigger] le(a, b) || le(b, a)
    &&& forall|a: T, b: T, c: T| #[trigger] le(a, b) && #[trigger] le(b, c) ==> le(a, c)
}

/// `partial_cmp` of `T` follows its specification, and of two values at most
/// one is greater than the other.
pub open spec fn greater_is_asymmetric<T: PartialOrd>() -> bool {
    &&& T::obeys_partial_cmp_spec()
    &&& forall|a: T, b: T| #[trigger] le(a, b) || le(b, a)
}

/// A total preorder whose equivalence is identity, and whose `==` is identity too.
pub open spec fn is_total_order<T: PartialOrd>() -> bool {
    &&& is_total_preorder::<T>()
    &&& T::obeys_eq_spec()
    &&& forall|a: T, b: T| #[trigger] a.eq_spec(&b) <==> a == b
    &&& forall|a: T, b: T| (#[trigger] a.partial_cmp_spec(&b) == Some(Ordering::Equal)) <==> a == b
    &&& forall|a: T, b: T| #[trigger] le(a, b) && #[trigger] le(b, a) ==> a == b
}

/// Every element of `s` is not greater than the one after it, at any distance.
pub open spec fn sorted<T: PartialOrd>(s: Seq<T>) -> bool {
    forall|i: int, j: int| 0 <= i < j < s.len() ==> #[trigger] le(s[i], s[j])
}

/// `a` is less than `b`.
pub open spec fn lt<T: PartialOrd>(a: T, b: T) -> bool {
    a.partial_cmp_spec(&b) == Some(Ordering::Less)
}

/// If `a` is not less than `b`, then `b` is not greater than `a`.
pub proof fn lemma_not_lt<T: PartialOrd>(a: T, b: T)
    requires
        is_total_order::<T>(),
        !lt(a, b),
    ensures
        le(b, a),
{
    if a == b {
        assert(le(a, a) || le(a, a));
    } else {
        let c = a.partial_cmp_spec(&b);
        assert(c is Some);
        assert(c != Some(Ordering::Equal));
        match c.unwrap() {
            Ordering::Less => {},
            Ordering::Equal => {},
            Ordering::Greater => {},
        }
        assert(c == Some(Ordering::Greater));
        assert(!le(a, b));
    }
}

/// If `a` is greater than `b`, then `b` is not greater than `a`, and the two differ.
pub proof fn lemma_not_le<T: PartialOrd>(a: T, b: T)
    requires
        is_total_order::<T>(),
        !le(a, b),
    ensures
        le(b, a),
        a != b,
{
    lemma_le_refl(a);
}

/// `le` is transitive.
pub proof fn lemma_le_trans<T: PartialOrd>(a: T, b: T, c: T)
    requires
        is_total_preorder::<T>(),
        le(a, b),
        le(b, c),
    ensures
        le(a, c),
{
}

/// `le` is reflexive.
pub proof fn lemma_le_refl<T: PartialOrd>(a: T)
    requires
        is_total_preorder::<T>(),
    ensures
        le(a, a),
{
    assert(le(a, a) || le(a, a));
}

/// `u64` is totally ordered.
pub proof fn lemma_u64_total_order()
    ensures
        is_total_order::<u64>(),
{
}

/// `i32` is totally ordered.
pub proof fn lemma_i32_total_order()
    ensures
        is_total_order::<i32>(),
{
}

} // verus!
