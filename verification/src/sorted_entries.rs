//! The mathematical model of the map: a sequence of entries in ascending key
//! order, with the operations of the map written on such sequences.

use crate::key_order::{
    key_le, key_lt, lawful_key, lemma_le_lt_transitive, lemma_lt_transitive, lemma_trichotomy,
};
use vstd::prelude::*;

verus! {

/// The keys of `s` stand in strictly ascending order, so no key occurs twice.
#[verifier::opaque]
pub open spec fn keys_ascending<K: Ord, V>(s: Seq<(K, V)>) -> bool {
    forall|i: int, j: int| 0 <= i < j < s.len() ==> key_lt(#[trigger] s[i].0, #[trigger] s[j].0)
}

/// The number of entries of `s` whose key is smaller than `k`. In an ascending
/// sequence this is the rank at which `k` stands, or would stand.
pub open spec fn lower_bound<K: Ord, V>(s: Seq<(K, V)>, k: K) -> int
    decreases s.len(),
{
    if s.len() == 0 {
        0
    } else if key_lt(s.last().0, k) {
        lower_bound(s.drop_last(), k) + 1
    } else {
        lower_bound(s.drop_last(), k)
    }
}

/// Whether `k` is a key of the ascending sequence `s`.
pub open spec fn has_key<K: Ord, V>(s: Seq<(K, V)>, k: K) -> bool {
    lower_bound(s, k) < s.len() && s[lower_bound(s, k)].0 == k
}

/// The value that the ascending sequence `s` holds for `k`, if any.
pub open spec fn value_of<K: Ord, V>(s: Seq<(K, V)>, k: K) -> Option<V> {
    if has_key(s, k) {
        Some(s[lower_bound(s, k)].1)
    } else {
        None
    }
}

/// The ascending sequence `s` after `k` has been given the value `v`: the
/// entry of `k` is replaced where there is one, and added at its rank where
/// there is none.
#[verifier::opaque]
pub open spec fn with_entry<K: Ord, V>(s: Seq<(K, V)>, k: K, v: V) -> Seq<(K, V)> {
    if has_key(s, k) {
        s.update(lower_bound(s, k), (k, v))
    } else {
        s.insert(lower_bound(s, k), (k, v))
    }
}

/// The ascending sequence `s` without the entry of `k`.
#[verifier::opaque]
pub open spec fn without_key<K: Ord, V>(s: Seq<(K, V)>, k: K) -> Seq<(K, V)> {
    if has_key(s, k) {
        s.remove(lower_bound(s, k))
    } else {
        s
    }
}

/// The first rank at or after `from` whose key is not smaller than `k`, in an
/// ascending sequence; the length of `s` where there is no such rank.
pub open spec fn seek_rank<K: Ord, V>(s: Seq<(K, V)>, from: int, k: K) -> int {
    if lower_bound(s, k) < from {
        from
    } else {
        lower_bound(s, k)
    }
}

/// The entries of `s` as a map from keys to values.
pub open spec fn as_map<K: Ord, V>(s: Seq<(K, V)>) -> Map<K, V> {
    Map::new(|k: K| has_key(s, k), |k: K| s[lower_bound(s, k)].1)
}

/// In an ascending sequence the entries below `lower_bound(s, k)` are exactly
/// those with a key smaller than `k`.
pub proof fn lemma_lower_bound<K: Ord + Clone, V>(s: Seq<(K, V)>, k: K)
    requires
        lawful_key::<K>(),
        keys_ascending(s),
    ensures
        0 <= lower_bound(s, k) <= s.len(),
        forall|i: int|
            0 <= i < s.len() ==> (key_lt(#[trigger] s[i].0, k) <==> i < lower_bound(s, k)),
    decreases s.len(),
{
    reveal(keys_ascending);
    if s.len() > 0 {
        let t = s.drop_last();
        lemma_lower_bound(t, k);
        if key_lt(s.last().0, k) {
            assert forall|i: int| 0 <= i < t.len() implies key_lt(#[trigger] t[i].0, k) by {
                assert(t[i] == s[i]);
                lemma_lt_transitive(s[i].0, s.last().0, k);
            }
            if lower_bound(t, k) < t.len() {
                assert(key_lt(t[lower_bound(t, k)].0, k));
            }
        }
        assert forall|i: int| 0 <= i < s.len() implies (key_lt(#[trigger] s[i].0, k) <==> i
            < lower_bound(s, k)) by {
            if i < t.len() {
                assert(t[i] == s[i]);
            }
        }
    }
}

/// The rank that separates the keys below `k` from the others is
/// `lower_bound(s, k)`.
pub proof fn lemma_lower_bound_is<K: Ord + Clone, V>(s: Seq<(K, V)>, k: K, p: int)
    requires
        lawful_key::<K>(),
        keys_ascending(s),
        0 <= p <= s.len(),
        forall|i: int| 0 <= i < p ==> key_lt(#[trigger] s[i].0, k),
        forall|i: int| p <= i < s.len() ==> !key_lt(#[trigger] s[i].0, k),
    ensures
        lower_bound(s, k) == p,
{
    reveal(keys_ascending);
    lemma_lower_bound(s, k);
    let q = lower_bound(s, k);
    if q < p {
        assert(key_lt(s[q].0, k));
    }
    if p < q {
        assert(!key_lt(s[p].0, k));
    }
}

/// The entry at rank `i` of an ascending sequence is the one found for its key.
pub proof fn lemma_key_at_rank<K: Ord + Clone, V>(s: Seq<(K, V)>, i: int)
    requires
        lawful_key::<K>(),
        keys_ascending(s),
        0 <= i < s.len(),
    ensures
        lower_bound(s, s[i].0) == i,
        has_key(s, s[i].0),
        value_of(s, s[i].0) == Some(s[i].1),
{
    reveal(keys_ascending);
    let k = s[i].0;
    assert forall|j: int| i <= j < s.len() implies !key_lt(#[trigger] s[j].0, k) by {
        lemma_trichotomy(s[j].0, k);
    }
    lemma_lower_bound_is(s, k, i);
}

/// A key of an ascending sequence stands at one rank only, the one that
/// `lower_bound` gives.
pub proof fn lemma_has_key<K: Ord + Clone, V>(s: Seq<(K, V)>, k: K)
    requires
        lawful_key::<K>(),
        keys_ascending(s),
    ensures
        has_key(s, k) <==> exists|i: int| 0 <= i < s.len() && #[trigger] s[i].0 == k,
        forall|i: int| 0 <= i < s.len() && #[trigger] s[i].0 == k ==> lower_bound(s, k) == i,
{
    reveal(keys_ascending);
    lemma_lower_bound(s, k);
    assert forall|i: int| 0 <= i < s.len() && #[trigger] s[i].0 == k implies lower_bound(s, k)
        == i by {
        lemma_key_at_rank(s, i);
    }
    if has_key(s, k) {
        assert(s[lower_bound(s, k)].0 == k);
    }
}

/// Both parts of an ascending sequence are ascending.
pub proof fn lemma_ascending_parts<K: Ord, V>(s: Seq<(K, V)>, t: Seq<(K, V)>)
    requires
        keys_ascending(s + t),
    ensures
        keys_ascending(s),
        keys_ascending(t),
        s.len() > 0 && t.len() > 0 ==> key_lt(s.last().0, t[0].0),
{
    reveal(keys_ascending);
    let u = s + t;
    assert forall|i: int, j: int| 0 <= i < j < s.len() implies key_lt(
        #[trigger] s[i].0,
        #[trigger] s[j].0,
    ) by {
        assert(u[i] == s[i] && u[j] == s[j]);
    }
    assert forall|i: int, j: int| 0 <= i < j < t.len() implies key_lt(
        #[trigger] t[i].0,
        #[trigger] t[j].0,
    ) by {
        assert(u[s.len() + i] == t[i] && u[s.len() + j] == t[j]);
    }
    if s.len() > 0 && t.len() > 0 {
        assert(u[s.len() - 1] == s.last() && u[s.len() as int] == t[0]);
    }
}

/// What `with_entry` does to an ascending sequence.
pub proof fn lemma_with_entry<K: Ord + Clone, V>(s: Seq<(K, V)>, k: K, v: V)
    requires
        lawful_key::<K>(),
        keys_ascending(s),
    ensures
        keys_ascending(with_entry(s, k, v)),
        with_entry(s, k, v).len() == s.len() + (if has_key(s, k) { 0int } else { 1 }),
        lower_bound(with_entry(s, k, v), k) == lower_bound(s, k),
        with_entry(s, k, v)[lower_bound(s, k)] == (k, v),
        value_of(with_entry(s, k, v), k) == Some(v),
{
    reveal(with_entry);
    reveal(keys_ascending);
    lemma_lower_bound(s, k);
    let p = lower_bound(s, k);
    let r = with_entry(s, k, v);
    if has_key(s, k) {
        assert forall|i: int, j: int| 0 <= i < j < r.len() implies key_lt(
            #[trigger] r[i].0,
            #[trigger] r[j].0,
        ) by {
            assert(r[i].0 == s[i].0 && r[j].0 == s[j].0);
        }
    } else {
        assert forall|m: int| p <= m < s.len() implies key_lt(k, #[trigger] s[m].0) by {
            lemma_trichotomy(k, s[m].0);
            if s[m].0 == k {
                lemma_key_at_rank(s, m);
            }
        }
        assert forall|i: int, j: int| 0 <= i < j < r.len() implies key_lt(
            #[trigger] r[i].0,
            #[trigger] r[j].0,
        ) by {
            if j < p {
                assert(r[i] == s[i] && r[j] == s[j]);
            } else if j == p {
                assert(r[i] == s[i]);
            } else if i < p {
                assert(r[i] == s[i] && r[j] == s[j - 1]);
            } else if i == p {
                assert(r[j] == s[j - 1]);
            } else {
                assert(r[i] == s[i - 1] && r[j] == s[j - 1]);
            }
        }
    }
    assert(r[p] == (k, v));
    lemma_key_at_rank(r, p);
}

/// What `without_key` does to an ascending sequence.
pub proof fn lemma_without_key<K: Ord + Clone, V>(s: Seq<(K, V)>, k: K)
    requires
        lawful_key::<K>(),
        keys_ascending(s),
    ensures
        keys_ascending(without_key(s, k)),
        without_key(s, k).len() == s.len() - (if has_key(s, k) { 1int } else { 0 }),
        lower_bound(without_key(s, k), k) == lower_bound(s, k),
        !has_key(without_key(s, k), k),
        !has_key(s, k) ==> without_key(s, k) == s,
{
    reveal(without_key);
    reveal(keys_ascending);
    lemma_lower_bound(s, k);
    let p = lower_bound(s, k);
    let r = without_key(s, k);
    if has_key(s, k) {
        assert forall|i: int, j: int| 0 <= i < j < r.len() implies key_lt(
            #[trigger] r[i].0,
            #[trigger] r[j].0,
        ) by {
            if j < p {
                assert(r[i] == s[i] && r[j] == s[j]);
            } else if i < p {
                assert(r[i] == s[i] && r[j] == s[j + 1]);
            } else {
                assert(r[i] == s[i + 1] && r[j] == s[j + 1]);
            }
        }
        assert forall|i: int| 0 <= i < p implies key_lt(#[trigger] r[i].0, k) by {
            assert(r[i] == s[i]);
        }
        assert forall|i: int| p <= i < r.len() implies !key_lt(#[trigger] r[i].0, k) by {
            assert(r[i] == s[i + 1]);
        }
        lemma_lower_bound_is(r, k, p);
        if p < r.len() {
            assert(r[p] == s[p + 1]);
            assert(key_lt(s[p].0, s[p + 1].0));
            lemma_trichotomy(k, r[p].0);
        }
    }
}

/// In an ascending sequence an earlier key is smaller than a later one.
pub proof fn lemma_ascending_at<K: Ord, V>(s: Seq<(K, V)>, i: int, j: int)
    requires
        keys_ascending(s),
        0 <= i < j < s.len(),
    ensures
        key_lt(s[i].0, s[j].0),
{
    reveal(keys_ascending);
}

/// The rank of a key below the first key of `r` is the same in `l + r` as in
/// `l`.
pub proof fn lemma_lower_bound_left<K: Ord + Clone, V>(l: Seq<(K, V)>, r: Seq<(K, V)>, k: K)
    requires
        lawful_key::<K>(),
        keys_ascending(l + r),
        r.len() > 0,
        key_lt(k, r[0].0),
    ensures
        keys_ascending(l),
        0 <= lower_bound(l, k) <= l.len(),
        lower_bound(l + r, k) == lower_bound(l, k),
        has_key(l + r, k) == has_key(l, k),
        has_key(l, k) ==> (l + r)[lower_bound(l, k)] == l[lower_bound(l, k)],
{
    let u = l + r;
    lemma_ascending_parts(l, r);
    lemma_lower_bound(l, k);
    let p = lower_bound(l, k);
    assert forall|i: int| 0 <= i < p implies key_lt(#[trigger] u[i].0, k) by {
        assert(u[i] == l[i]);
    }
    assert forall|i: int| p <= i < u.len() implies !key_lt(#[trigger] u[i].0, k) by {
        if i < l.len() {
            assert(u[i] == l[i]);
        } else {
            assert(u[i] == r[i - l.len()]);
            assert(u[l.len() as int] == r[0]);
            if i > l.len() {
                lemma_ascending_at(u, l.len() as int, i);
                lemma_lt_transitive(k, r[0].0, u[i].0);
            }
            lemma_trichotomy(k, u[i].0);
        }
    }
    lemma_lower_bound_is(u, k, p);
    if p < l.len() {
        assert(u[p] == l[p]);
    } else {
        assert(u[p] == r[0]);
        lemma_trichotomy(k, r[0].0);
    }
}

/// The rank of a key not below the first key of `r` is in `l + r` its rank in
/// `r`, after the entries of `l`.
pub proof fn lemma_lower_bound_right<K: Ord + Clone, V>(l: Seq<(K, V)>, r: Seq<(K, V)>, k: K)
    requires
        lawful_key::<K>(),
        keys_ascending(l + r),
        r.len() > 0,
        !key_lt(k, r[0].0),
    ensures
        keys_ascending(r),
        0 <= lower_bound(r, k) <= r.len(),
        lower_bound(l + r, k) == l.len() + lower_bound(r, k),
        has_key(l + r, k) == has_key(r, k),
        has_key(r, k) ==> (l + r)[l.len() + lower_bound(r, k)] == r[lower_bound(r, k)],
{
    let u = l + r;
    lemma_ascending_parts(l, r);
    lemma_lower_bound(r, k);
    let q = lower_bound(r, k);
    let p = l.len() + q;
    lemma_trichotomy(k, r[0].0);
    assert(u[l.len() as int] == r[0]);
    assert forall|i: int| 0 <= i < p implies key_lt(#[trigger] u[i].0, k) by {
        if i < l.len() {
            lemma_ascending_at(u, i, l.len() as int);
            lemma_le_lt_transitive(u[i].0, r[0].0, k);
        } else {
            assert(u[i] == r[i - l.len()]);
        }
    }
    assert forall|i: int| p <= i < u.len() implies !key_lt(#[trigger] u[i].0, k) by {
        assert(u[i] == r[i - l.len()]);
    }
    lemma_lower_bound_is(u, k, p);
    if q < r.len() {
        assert(u[p] == r[q]);
    }
}

/// A key below the first key of `r` is looked up, set and removed in `l + r`
/// as it is in `l`.
pub proof fn lemma_route_left<K: Ord + Clone, V>(l: Seq<(K, V)>, r: Seq<(K, V)>, k: K)
    requires
        lawful_key::<K>(),
        keys_ascending(l + r),
        r.len() > 0,
        key_lt(k, r[0].0),
    ensures
        lower_bound(l + r, k) == lower_bound(l, k),
        has_key(l + r, k) == has_key(l, k),
        value_of(l + r, k) == value_of(l, k),
        without_key(l + r, k) == without_key(l, k) + r,
        forall|v: V| #[trigger] with_entry(l + r, k, v) == with_entry(l, k, v) + r,
{
    reveal(with_entry);
    reveal(without_key);
    lemma_lower_bound_left(l, r, k);
    assert(without_key(l + r, k) =~= without_key(l, k) + r);
    assert forall|v: V| #[trigger] with_entry(l + r, k, v) == with_entry(l, k, v) + r by {
        assert(with_entry(l + r, k, v) =~= with_entry(l, k, v) + r);
    }
}

/// A key not below the first key of `r` is looked up, set and removed in
/// `l + r` as it is in `r`.
pub proof fn lemma_route_right<K: Ord + Clone, V>(l: Seq<(K, V)>, r: Seq<(K, V)>, k: K)
    requires
        lawful_key::<K>(),
        keys_ascending(l + r),
        r.len() > 0,
        !key_lt(k, r[0].0),
    ensures
        lower_bound(l + r, k) == l.len() + lower_bound(r, k),
        has_key(l + r, k) == has_key(r, k),
        value_of(l + r, k) == value_of(r, k),
        without_key(l + r, k) == l + without_key(r, k),
        forall|v: V| #[trigger] with_entry(l + r, k, v) == l + with_entry(r, k, v),
{
    reveal(with_entry);
    reveal(without_key);
    lemma_lower_bound_right(l, r, k);
    assert(without_key(l + r, k) =~= l + without_key(r, k));
    assert forall|v: V| #[trigger] with_entry(l + r, k, v) == l + with_entry(r, k, v) by {
        assert(with_entry(l + r, k, v) =~= l + with_entry(r, k, v));
    }
}

/// Where the key at rank `p` is not above `k` and the next key, if there is
/// one, is above `k`, the rank of `k` is `p` or `p + 1`.
pub proof fn lemma_lower_bound_beside<K: Ord + Clone, V>(s: Seq<(K, V)>, k: K, p: int)
    requires
        lawful_key::<K>(),
        keys_ascending(s),
        0 <= p < s.len(),
        key_le(s[p].0, k),
        p + 1 < s.len() ==> key_lt(k, s[p + 1].0),
    ensures
        lower_bound(s, k) == (if s[p].0 == k { p } else { p + 1 }),
{
    if s[p].0 == k {
        lemma_key_at_rank(s, p);
    } else {
        assert forall|i: int| 0 <= i < p + 1 implies key_lt(#[trigger] s[i].0, k) by {
            if i < p {
                lemma_ascending_at(s, i, p);
                lemma_lt_transitive(s[i].0, s[p].0, k);
            }
        }
        assert forall|i: int| p + 1 <= i < s.len() implies !key_lt(#[trigger] s[i].0, k) by {
            if i > p + 1 {
                lemma_ascending_at(s, p + 1, i);
                lemma_lt_transitive(k, s[p + 1].0, s[i].0);
            }
            lemma_trichotomy(k, s[i].0);
        }
        lemma_lower_bound_is(s, k, p + 1);
    }
}

/// `seek_rank` is the first rank at or after `from` whose key is not smaller
/// than `k`: the keys from `from` up to it are smaller than `k`, and its own
/// key, where it is a rank of `s`, is not.
pub proof fn lemma_seek_rank<K: Ord + Clone, V>(s: Seq<(K, V)>, from: int, k: K)
    requires
        lawful_key::<K>(),
        keys_ascending(s),
        0 <= from <= s.len(),
    ensures
        from <= seek_rank(s, from, k) <= s.len(),
        forall|i: int| from <= i < seek_rank(s, from, k) ==> key_lt(#[trigger] s[i].0, k),
        seek_rank(s, from, k) < s.len() ==> !key_lt(s[seek_rank(s, from, k)].0, k),
{
    lemma_lower_bound(s, k);
}

/// Looking a key up in the sequence and in its map gives the same.
pub proof fn lemma_as_map_value<K: Ord, V>(s: Seq<(K, V)>, k: K)
    ensures
        as_map(s).dom().contains(k) == has_key(s, k),
        value_of(s, k) == (if as_map(s).dom().contains(k) {
            Some(as_map(s)[k])
        } else {
            None
        }),
{
}

/// What `with_entry` does to the value of every key: the key that was set
/// has the new value, every other key the value that it had.
pub proof fn lemma_with_entry_values<K: Ord + Clone, V>(s: Seq<(K, V)>, k: K, v: V, other: K)
    requires
        lawful_key::<K>(),
        keys_ascending(s),
    ensures
        value_of(with_entry(s, k, v), other) == (if other == k {
            Some(v)
        } else {
            value_of(s, other)
        }),
{
    reveal(with_entry);
    lemma_with_entry(s, k, v);
    lemma_lower_bound(s, k);
    let p = lower_bound(s, k);
    let r = with_entry(s, k, v);
    if other != k {
        lemma_has_key(s, other);
        lemma_has_key(r, other);
        lemma_lower_bound(s, other);
        lemma_lower_bound(r, other);
        if has_key(s, other) {
            let j = lower_bound(s, other);
            if has_key(s, k) {
                assert(r[j] == s[j]);
            } else if j < p {
                assert(r[j] == s[j]);
            } else {
                assert(r[j + 1] == s[j]);
            }
        }
        if has_key(r, other) {
            let j = lower_bound(r, other);
            if has_key(s, k) {
                assert(r[j] == s[j]);
            } else if j < p {
                assert(r[j] == s[j]);
            } else {
                assert(r[j] == s[j - 1]);
            }
        }
    }
}

/// What `without_key` does to the value of every key: the key that was
/// removed has none, every other key the value that it had.
pub proof fn lemma_without_key_values<K: Ord + Clone, V>(s: Seq<(K, V)>, k: K, other: K)
    requires
        lawful_key::<K>(),
        keys_ascending(s),
    ensures
        value_of(without_key(s, k), other) == (if other == k {
            None
        } else {
            value_of(s, other)
        }),
{
    reveal(without_key);
    lemma_without_key(s, k);
    lemma_lower_bound(s, k);
    let p = lower_bound(s, k);
    let r = without_key(s, k);
    if other != k && has_key(s, k) {
        lemma_has_key(s, other);
        lemma_has_key(r, other);
        lemma_lower_bound(s, other);
        lemma_lower_bound(r, other);
        if has_key(s, other) {
            let j = lower_bound(s, other);
            if j < p {
                assert(r[j] == s[j]);
            } else {
                assert(r[j - 1] == s[j]);
            }
        }
        if has_key(r, other) {
            let j = lower_bound(r, other);
            if j < p {
                assert(r[j] == s[j]);
            } else {
                assert(r[j] == s[j + 1]);
            }
        }
    }
}

/// Setting an entry in the sequence is `Map::insert` on its map.
pub proof fn lemma_as_map_with_entry<K: Ord + Clone, V>(s: Seq<(K, V)>, k: K, v: V)
    requires
        lawful_key::<K>(),
        keys_ascending(s),
    ensures
        as_map(with_entry(s, k, v)) == as_map(s).insert(k, v),
{
    let r = with_entry(s, k, v);
    let m = as_map(s).insert(k, v);
    assert forall|other: K| #[trigger]
        as_map(r).dom().contains(other) == m.dom().contains(other) by {
        lemma_with_entry_values(s, k, v, other);
        lemma_as_map_value(s, other);
        lemma_as_map_value(r, other);
    }
    assert forall|other: K| as_map(r).dom().contains(other) implies #[trigger] as_map(r)[other]
        == m[other] by {
        lemma_with_entry_values(s, k, v, other);
        lemma_as_map_value(s, other);
        lemma_as_map_value(r, other);
    }
    assert(as_map(r) =~= as_map(s).insert(k, v));
}

/// Removing a key from the sequence is `Map::remove` on its map.
pub proof fn lemma_as_map_without_key<K: Ord + Clone, V>(s: Seq<(K, V)>, k: K)
    requires
        lawful_key::<K>(),
        keys_ascending(s),
    ensures
        as_map(without_key(s, k)) == as_map(s).remove(k),
{
    let r = without_key(s, k);
    let m = as_map(s).remove(k);
    assert forall|other: K| #[trigger]
        as_map(r).dom().contains(other) == m.dom().contains(other) by {
        lemma_without_key_values(s, k, other);
        lemma_as_map_value(s, other);
        lemma_as_map_value(r, other);
    }
    assert forall|other: K| as_map(r).dom().contains(other) implies #[trigger] as_map(r)[other]
        == m[other] by {
        lemma_without_key_values(s, k, other);
        lemma_as_map_value(s, other);
        lemma_as_map_value(r, other);
    }
    assert(as_map(r) =~= as_map(s).remove(k));
}

/// An ascending sequence has as many entries as its map has keys.
pub proof fn lemma_as_map_len<K: Ord + Clone, V>(s: Seq<(K, V)>)
    requires
        lawful_key::<K>(),
        keys_ascending(s),
    ensures
        as_map(s).dom().finite(),
        as_map(s).dom().len() == s.len(),
    decreases s.len(),
{
    reveal(with_entry);
    if s.len() == 0 {
        assert(as_map(s).dom() =~= Set::empty());
    } else {
        let t = s.drop_last();
        let k = s.last().0;
        let v = s.last().1;
        assert(s =~= t + seq![s.last()]);
        lemma_ascending_parts(t, seq![s.last()]);
        lemma_as_map_len(t);
        assert forall|i: int| 0 <= i < t.len() implies key_lt(#[trigger] t[i].0, k) by {
            lemma_ascending_at(s, i, s.len() - 1);
        }
        lemma_lower_bound_is(t, k, t.len() as int);
        assert(with_entry(t, k, v) =~= s);
        lemma_as_map_with_entry(t, k, v);
        lemma_as_map_value(t, k);
        assert(as_map(s).dom() =~= as_map(t).dom().insert(k));
    }
}

/// Removing a key that was just set, where the sequence had no entry for it
/// before, gives the sequence back.
pub proof fn lemma_with_entry_then_without<K: Ord + Clone, V>(s: Seq<(K, V)>, k: K, v: V)
    requires
        lawful_key::<K>(),
        keys_ascending(s),
        !has_key(s, k),
    ensures
        without_key(with_entry(s, k, v), k) == s,
{
    reveal(with_entry);
    reveal(without_key);
    lemma_with_entry(s, k, v);
    lemma_lower_bound(s, k);
    assert(without_key(with_entry(s, k, v), k) =~= s);
}

/// The empty sequence holds no key.
pub proof fn lemma_empty<K: Ord + Clone, V>(k: K)
    ensures
        keys_ascending(Seq::<(K, V)>::empty()),
        lower_bound(Seq::<(K, V)>::empty(), k) == 0,
        value_of(Seq::<(K, V)>::empty(), k) == None::<V>,
        without_key(Seq::<(K, V)>::empty(), k) == Seq::<(K, V)>::empty(),
{
    reveal(keys_ascending);
    reveal(without_key);
}

/// Setting an entry in the empty sequence gives the sequence of that entry.
pub proof fn lemma_empty_with_entry<K: Ord + Clone, V>(k: K, v: V)
    ensures
        with_entry(Seq::<(K, V)>::empty(), k, v) == seq![(k, v)],
{
    reveal(with_entry);
    assert(with_entry(Seq::<(K, V)>::empty(), k, v) =~= seq![(k, v)]);
}

/// The operations on a sequence of one entry.
pub proof fn lemma_single<K: Ord + Clone, V>(held: (K, V), k: K, v: V)
    requires
        lawful_key::<K>(),
    ensures
        keys_ascending(seq![held]),
        value_of(seq![held], k) == (if k == held.0 {
            Some(held.1)
        } else {
            None
        }),
        with_entry(seq![held], k, v) == (if k == held.0 {
            seq![(k, v)]
        } else if key_lt(k, held.0) {
            seq![(k, v)] + seq![held]
        } else {
            seq![held] + seq![(k, v)]
        }),
        without_key(seq![held], k) == (if k == held.0 {
            Seq::empty()
        } else {
            seq![held]
        }),
{
    reveal(keys_ascending);
    reveal(with_entry);
    reveal(without_key);
    let s = seq![held];
    lemma_trichotomy(k, held.0);
    lemma_lower_bound(s, k);
    if key_lt(held.0, k) {
        lemma_lower_bound_is(s, k, 1);
    } else {
        lemma_lower_bound_is(s, k, 0);
    }
    if k == held.0 {
        assert(with_entry(s, k, v) =~= seq![(k, v)]);
        assert(without_key(s, k) =~= Seq::empty());
    } else if key_lt(k, held.0) {
        assert(with_entry(s, k, v) =~= seq![(k, v)] + seq![held]);
    } else {
        assert(with_entry(s, k, v) =~= seq![held] + seq![(k, v)]);
    }
}

} // verus!
