//! Orderings on element and key types, stated over the specifications that
//! `vstd` attaches to `PartialOrd` and `PartialEq`.

use core::cmp::Ordering;
use vstd::prelude::*;
use vstd::std_specs::cmp::{PartialEqSpec, PartialOrdSpec};

verus! {

/// `a` is strictly below `b` in the order of `T`.
pub open spec fn lt<T: PartialOrd>(a: T, b: T) -> bool {
    a.partial_cmp_spec(&b) == Some(Ordering::Less)
}

/// `a` is not above `b` in the order of `T`.
pub open spec fn le<T: PartialOrd>(a: T, b: T) -> bool {
    !lt(b, a)
}

/// The comparison operators of `T` form a total preorder: any two values are
/// comparable, `<` and `>` mirror each other, and both `<` and `<=` are
/// transitive.
pub open spec fn total_preorder<T: PartialOrd>() -> bool {
    &&& T::obeys_partial_cmp_spec()
    &&& forall|a: T, b: T| (#[trigger] a.partial_cmp_spec(&b)).is_some()
    &&& forall|a: T, b: T|
        #![trigger a.partial_cmp_spec(&b), b.partial_cmp_spec(&a)]
        a.partial_cmp_spec(&b) == Some(Ordering::Less) <==> b.partial_cmp_spec(&a) == Some(
            Ordering::Greater,
        )
    &&& forall|a: T, b: T, c: T| #[trigger] lt(a, b) && #[trigger] lt(b, c) ==> lt(a, c)
    &&& forall|a: T, b: T, c: T| #[trigger] le(a, b) && #[trigger] le(b, c) ==> le(a, c)
}

/// A total order on the values of `K` themselves: a total preorder in which
/// two values that are not ordered either way are the same value, and `==`
/// decides exactly that.
pub open spec fn total_order<K: PartialOrd>() -> bool {
    &&& total_preorder::<K>()
    &&& K::obeys_eq_spec()
    &&& forall|a: K, b: K| #[trigger] a.eq_spec(&b) <==> a == b
    &&& forall|a: K, b: K| !(#[trigger] lt(a, b)) && !lt(b, a) ==> a == b
    &&& forall|a: K| !(#[trigger] lt(a, a))
}

/// Decides `a <= b`.
pub fn is_le<T: PartialOrd>(a: &T, b: &T) -> (r: bool)
    requires
        total_preorder::<T>(),
    ensures
        r == le(*a, *b),
{
    a <= b
}

/// Decides `a < b`.
pub fn is_lt<T: PartialOrd>(a: &T, b: &T) -> (r: bool)
    requires
        total_preorder::<T>(),
    ensures
        r == lt(*a, *b),
{
    a < b
}

/// Decides whether `a` and `b` are the same key.
pub fn is_same<K: PartialOrd>(a: &K, b: &K) -> (r: bool)
    requires
        total_order::<K>(),
    ensures
        r == (*a == *b),
{
    a == b
}

/// What a total preorder gives for three values: `<=` is reflexive and
/// transitive, `<` is transitive, and `<` implies `<=`.
pub proof fn lemma_le_chain<T: PartialOrd>(x: T, y: T, z: T)
    requires
        total_preorder::<T>(),
    ensures
        le(x, x),
        le(x, y) && le(y, z) ==> le(x, z),
        lt(x, y) && lt(y, z) ==> lt(x, z),
        lt(x, y) ==> le(x, y),
        le(x, y) || le(y, x),
{
    assert(x.partial_cmp_spec(&x).is_some());
    assert(x.partial_cmp_spec(&y).is_some());
    assert(y.partial_cmp_spec(&x).is_some());
}

/// The integer types are totally ordered by their comparison operators.
pub proof fn lemma_integers_are_ordered()
    ensures
        total_order::<u8>(),
        total_order::<u16>(),
        total_order::<u32>(),
        total_order::<u64>(),
        total_order::<u128>(),
        total_order::<usize>(),
        total_order::<i8>(),
        total_order::<i16>(),
        total_order::<i32>(),
        total_order::<i64>(),
        total_order::<i128>(),
        total_order::<isize>(),
{
}

} // verus!
