//! The total order on keys, as the map relies on it.

use core::cmp::Ordering;
use vstd::laws_cmp::obeys_cmp;
use vstd::laws_eq::obeys_concrete_eq;
use vstd::prelude::*;
use vstd::std_specs::cmp::PartialOrdSpec;

verus! {

/// `a` is strictly smaller than `b` in the order of `K`.
pub open spec fn key_lt<K: Ord>(a: K, b: K) -> bool {
    a.partial_cmp_spec(&b) == Some(Ordering::Less)
}

/// `a` is smaller than or equal to `b` in the order of `K`.
pub open spec fn key_le<K: Ord>(a: K, b: K) -> bool {
    key_lt(a, b) || a == b
}

/// A clone of a key is the key itself.
pub open spec fn clone_is_exact<K: Clone>() -> bool {
    forall|a: K, b: K| #[trigger] call_ensures(K::clone, (&a,), b) ==> a == b
}

/// The key type behaves as a map key must: its comparison operators compute a
/// strict total order, `==` on keys is equality of values, and cloning a key
/// yields the same key.
pub open spec fn lawful_key<K: Ord + Clone>() -> bool {
    &&& obeys_cmp::<K>()
    &&& obeys_concrete_eq::<K>()
    &&& clone_is_exact::<K>()
}

/// The order is transitive.
pub proof fn lemma_lt_transitive<K: Ord + Clone>(a: K, b: K, c: K)
    requires
        lawful_key::<K>(),
        key_lt(a, b),
        key_lt(b, c),
    ensures
        key_lt(a, c),
{
    reveal(vstd::laws_cmp::obeys_partial_cmp_spec_properties);
}

/// Exactly one of `a < b`, `a == b`, `b < a` holds.
pub proof fn lemma_trichotomy<K: Ord + Clone>(a: K, b: K)
    requires
        lawful_key::<K>(),
    ensures
        key_lt(a, b) || a == b || key_lt(b, a),
        !(key_lt(a, b) && key_lt(b, a)),
        !(key_lt(a, b) && a == b),
        !(key_lt(b, a) && a == b),
{
    reveal(vstd::laws_cmp::obeys_partial_cmp_spec_properties);
    reveal(vstd::laws_cmp::obeys_cmp_partial_ord);
    reveal(vstd::laws_cmp::obeys_cmp_ord);
    reveal(vstd::laws_eq::obeys_concrete_eq);
    reveal(vstd::laws_eq::obeys_eq_spec_properties);
}

/// `a <= b < c` gives `a < c`, and so does `a < b <= c`.
pub proof fn lemma_le_lt_transitive<K: Ord + Clone>(a: K, b: K, c: K)
    requires
        lawful_key::<K>(),
        (key_le(a, b) && key_lt(b, c)) || (key_lt(a, b) && key_le(b, c)),
    ensures
        key_lt(a, c),
{
    if a != b && b != c {
        lemma_lt_transitive(a, b, c);
    }
}

/// The primitive integer types are lawful keys.
pub proof fn lemma_integer_keys_are_lawful()
    ensures
        lawful_key::<u8>(),
        lawful_key::<u16>(),
        lawful_key::<u32>(),
        lawful_key::<u64>(),
        lawful_key::<u128>(),
        lawful_key::<usize>(),
        lawful_key::<i8>(),
        lawful_key::<i16>(),
        lawful_key::<i32>(),
        lawful_key::<i64>(),
        lawful_key::<i128>(),
        lawful_key::<isize>(),
{
    broadcast use vstd::laws_cmp::group_laws_cmp;
    broadcast use vstd::laws_eq::group_laws_eq;
}

/// Whether `a < b`.
pub(crate) fn less<K: Ord + Clone>(a: &K, b: &K) -> (r: bool)
    requires
        lawful_key::<K>(),
    ensures
        r == key_lt(*a, *b),
{
    proof {
        reveal(vstd::laws_cmp::obeys_cmp_partial_ord);
    }
    *a < *b
}

/// Whether `a == b`.
pub(crate) fn same<K: Ord + Clone>(a: &K, b: &K) -> (r: bool)
    requires
        lawful_key::<K>(),
    ensures
        r == (*a == *b),
{
    proof {
        reveal(vstd::laws_eq::obeys_concrete_eq);
    }
    *a == *b
}

/// A copy of the key.
pub(crate) fn duplicate<K: Ord + Clone>(a: &K) -> (r: K)
    requires
        lawful_key::<K>(),
    ensures
        r == *a,
{
    a.clone()
}

} // verus!
