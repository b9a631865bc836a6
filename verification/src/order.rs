//! The order of keys.
//!
//! A key type brings its own comparison. What the containers need of it is stated here
//! once: that it is a strict total order, that `==` on keys is equality, and that a clone
//! of a key is that key.

use vstd::prelude::*;
use vstd::laws_cmp::obeys_cmp;
use vstd::laws_eq::obeys_concrete_eq;
use vstd::std_specs::cmp::{OrdSpec, PartialOrdSpec};
use core::cmp::Ordering;

verus! {

/// `a` comes strictly before `b`.
pub open spec fn lt<K: Ord>(a: K, b: K) -> bool {
    a.cmp_spec(&b) == Ordering::Less
}

/// `a` comes before `b` or is `b`.
pub open spec fn le<K: Ord>(a: K, b: K) -> bool {
    lt(a, b) || a == b
}

/// The comparison of `K` is a total order that agrees with equality, and cloning a key
/// gives the same key.
pub open spec fn total_order<K: Ord + Clone>() -> bool {
    &&& obeys_cmp::<K>()
    &&& obeys_concrete_eq::<K>()
    &&& forall|a: K, b: K| #[trigger] call_ensures(K::clone, (&a,), b) ==> a == b
}

/// The facts about `lt` that a total order gives.
pub proof fn lemma_order<K: Ord + Clone>()
    requires
        total_order::<K>(),
    ensures
        forall|a: K, b: K| #[trigger] lt(a, b) ==> !lt(b, a) && a != b,
        forall|a: K, b: K| #![trigger lt(a, b)] lt(a, b) || a == b || lt(b, a),
        forall|a: K, b: K, c: K| #[trigger] lt(a, b) && #[trigger] lt(b, c) ==> lt(a, c),
{
    reveal(vstd::laws_cmp::obeys_cmp_partial_ord);
    reveal(vstd::laws_cmp::obeys_cmp_ord);
    reveal(vstd::laws_cmp::obeys_partial_cmp_spec_properties);
    reveal(vstd::laws_eq::obeys_concrete_eq);
    assert forall|a: K, b: K| #[trigger] lt(a, b) implies !lt(b, a) && a != b by {
        assert(a.partial_cmp_spec(&b) == Some(a.cmp_spec(&b)));
        assert(b.partial_cmp_spec(&a) == Some(b.cmp_spec(&a)));
    }
    assert forall|a: K, b: K| #![trigger lt(a, b)] lt(a, b) || a == b || lt(b, a) by {
        assert(a.partial_cmp_spec(&b) == Some(a.cmp_spec(&b)));
        assert(b.partial_cmp_spec(&a) == Some(b.cmp_spec(&a)));
    }
    assert forall|a: K, b: K, c: K| #[trigger] lt(a, b) && #[trigger] lt(b, c) implies lt(
        a,
        c,
    ) by {
        assert(a.partial_cmp_spec(&b) == Some(a.cmp_spec(&b)));
        assert(b.partial_cmp_spec(&c) == Some(b.cmp_spec(&c)));
        assert(a.partial_cmp_spec(&c) == Some(a.cmp_spec(&c)));
    }
}

/// Whether `a` comes strictly before `b`.
pub fn key_lt<K: Ord + Clone>(a: &K, b: &K) -> (r: bool)
    requires
        total_order::<K>(),
    ensures
        r == lt(*a, *b),
{
    proof {
        reveal(vstd::laws_cmp::obeys_cmp_partial_ord);
        reveal(vstd::laws_cmp::obeys_cmp_ord);
        assert(a.partial_cmp_spec(b) == Some(a.cmp_spec(b)));
    }
    *a < *b
}

/// Whether `a` comes before `b` or is `b`.
pub fn key_le<K: Ord + Clone>(a: &K, b: &K) -> (r: bool)
    requires
        total_order::<K>(),
    ensures
        r == le(*a, *b),
{
    proof {
        reveal(vstd::laws_cmp::obeys_cmp_partial_ord);
        reveal(vstd::laws_cmp::obeys_cmp_ord);
        reveal(vstd::laws_cmp::obeys_partial_cmp_spec_properties);
        reveal(vstd::laws_eq::obeys_concrete_eq);
        assert(a.partial_cmp_spec(b) == Some(a.cmp_spec(b)));
    }
    *a <= *b
}

/// Whether `a` is `b`.
pub fn key_eq<K: Ord + Clone>(a: &K, b: &K) -> (r: bool)
    requires
        total_order::<K>(),
    ensures
        r == (*a == *b),
{
    proof {
        reveal(vstd::laws_cmp::obeys_cmp_partial_ord);
        reveal(vstd::laws_eq::obeys_concrete_eq);
    }
    *a == *b
}

/// A second copy of `a`.
pub fn key_clone<K: Ord + Clone>(a: &K) -> (r: K)
    requires
        total_order::<K>(),
    ensures
        r == *a,
{
    a.clone()
}

/// The integers that Rust orders by value are keys, and `lt` on them is `<`.
pub proof fn lemma_integer_keys()
    ensures
        total_order::<u8>(),
        total_order::<u16>(),
        total_order::<u32>(),
        total_order::<u64>(),
        total_order::<usize>(),
        total_order::<i8>(),
        total_order::<i16>(),
        total_order::<i32>(),
        total_order::<i64>(),
        total_order::<isize>(),
        forall|a: u8, b: u8| #[trigger] lt(a, b) <==> a < b,
        forall|a: u16, b: u16| #[trigger] lt(a, b) <==> a < b,
        forall|a: u32, b: u32| #[trigger] lt(a, b) <==> a < b,
        forall|a: u64, b: u64| #[trigger] lt(a, b) <==> a < b,
        forall|a: usize, b: usize| #[trigger] lt(a, b) <==> a < b,
        forall|a: i8, b: i8| #[trigger] lt(a, b) <==> a < b,
        forall|a: i16, b: i16| #[trigger] lt(a, b) <==> a < b,
        forall|a: i32, b: i32| #[trigger] lt(a, b) <==> a < b,
        forall|a: i64, b: i64| #[trigger] lt(a, b) <==> a < b,
        forall|a: isize, b: isize| #[trigger] lt(a, b) <==> a < b,
{
    broadcast use vstd::laws_cmp::group_laws_cmp;
    broadcast use vstd::laws_eq::group_laws_eq;
    assert(obeys_cmp::<u8>() && obeys_concrete_eq::<u8>());
    assert(obeys_cmp::<u16>() && obeys_concrete_eq::<u16>());
    assert(obeys_cmp::<u32>() && obeys_concrete_eq::<u32>());
    assert(obeys_cmp::<u64>() && obeys_concrete_eq::<u64>());
    assert(obeys_cmp::<usize>() && obeys_concrete_eq::<usize>());
    assert(obeys_cmp::<i8>() && obeys_concrete_eq::<i8>());
    assert(obeys_cmp::<i16>() && obeys_concrete_eq::<i16>());
    assert(obeys_cmp::<i32>() && obeys_concrete_eq::<i32>());
    assert(obeys_cmp::<i64>() && obeys_concrete_eq::<i64>());
    assert(obeys_cmp::<isize>() && obeys_concrete_eq::<isize>());
}

} // verus!
