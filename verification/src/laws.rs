//! What holds of every valid map and of every valid cursor.

use crate::indexable_sorted_map::IndexableSortedMap;
use crate::key_order::{key_le, key_lt, lemma_trichotomy};
use crate::node::{Node, Tree};
use crate::sorted_entries::{
    as_map, has_key, lemma_as_map_len, lemma_as_map_value, lemma_as_map_with_entry,
    lemma_as_map_without_key, lemma_ascending_at, lemma_seek_rank,
    lemma_with_entry_then_without, lemma_with_entry_values, lemma_without_key_values,
    seek_rank, value_of, with_entry, without_key,
};
use crate::zipper::{lemma_chain_is_determined, lemma_chain_window, TreeZipper};
use vstd::prelude::*;

verus! {

/// `base` to the power of `exp`.
pub open spec fn power(base: nat, exp: nat) -> nat
    decreases exp,
{
    if exp == 0 {
        1
    } else {
        base * power(base, (exp - 1) as nat)
    }
}

impl<K: Ord + Clone, V> Node<K, V> {
    /// All leaves of a valid node lie equally deep, as deep as the node is
    /// high.
    pub proof fn lemma_leaves_equally_deep(self)
        requires
            self.wf(),
        ensures
            self.every_leaf_at(self.height()),
        decreases self,
    {
        self.lemma_wf();
        match *self.tree {
            Tree::Leaf(_, _) => {},
            Tree::Branch2(a, b) => {
                a.lemma_leaves_equally_deep();
                b.lemma_leaves_equally_deep();
            },
            Tree::Branch3(a, b, c) => {
                a.lemma_leaves_equally_deep();
                b.lemma_leaves_equally_deep();
                c.lemma_leaves_equally_deep();
            },
        }
    }

    /// Every node of a valid subtree caches the key of its leftmost leaf and
    /// the number of its leaves.
    pub proof fn lemma_caches_hold(self)
        requires
            self.wf(),
        ensures
            self.caches_hold(),
        decreases self,
    {
        self.lemma_wf();
        match *self.tree {
            Tree::Leaf(_, _) => {},
            Tree::Branch2(a, b) => {
                a.lemma_caches_hold();
                b.lemma_caches_hold();
            },
            Tree::Branch3(a, b, c) => {
                a.lemma_caches_hold();
                b.lemma_caches_hold();
                c.lemma_caches_hold();
            },
        }
    }

    /// At every branch of a valid subtree the keys below a child are smaller
    /// than the smallest key of the next child.
    pub proof fn lemma_partitioned(self)
        requires
            self.wf(),
        ensures
            self.partitioned(),
        decreases self,
    {
        self.lemma_wf();
        self.lemma_shape();
        let s = self.leaves();
        match *self.tree {
            Tree::Leaf(_, _) => {},
            Tree::Branch2(a, b) => {
                a.lemma_wf();
                b.lemma_wf();
                a.lemma_partitioned();
                b.lemma_partitioned();
                assert forall|i: int| 0 <= i < a.leaves().len() implies key_lt(
                    #[trigger] a.leaves()[i].0,
                    b.min_key,
                ) by {
                    lemma_ascending_at(s, i, a.leaves().len() as int);
                }
            },
            Tree::Branch3(a, b, c) => {
                a.lemma_wf();
                b.lemma_wf();
                c.lemma_wf();
                a.lemma_partitioned();
                b.lemma_partitioned();
                c.lemma_partitioned();
                assert forall|i: int| 0 <= i < a.leaves().len() implies key_lt(
                    #[trigger] a.leaves()[i].0,
                    b.min_key,
                ) by {
                    lemma_ascending_at(s, i, a.leaves().len() as int);
                }
                assert forall|i: int| 0 <= i < b.leaves().len() implies key_lt(
                    #[trigger] b.leaves()[i].0,
                    c.min_key,
                ) by {
                    lemma_ascending_at(
                        s,
                        a.leaves().len() + i,
                        (a.leaves().len() + b.leaves().len()) as int,
                    );
                }
            },
        }
    }

    /// A valid node of height `h` has at least `2^h` and at most `3^h`
    /// entries, so its height is at most the binary logarithm of their number.
    pub proof fn lemma_height_bound(self)
        requires
            self.wf(),
        ensures
            power(2, self.height()) <= self.leaves().len() <= power(3, self.height()),
        decreases self,
    {
        self.lemma_wf();
        match *self.tree {
            Tree::Leaf(_, _) => {},
            Tree::Branch2(a, b) => {
                a.lemma_height_bound();
                b.lemma_height_bound();
            },
            Tree::Branch3(a, b, c) => {
                a.lemma_height_bound();
                b.lemma_height_bound();
                c.lemma_height_bound();
            },
        }
    }
}

impl<K: Ord + Clone, V> IndexableSortedMap<K, V> {
    /// The keys of a valid map, read by rank, ascend strictly: no key occurs
    /// twice.
    pub proof fn lemma_keys_ascend(self)
        requires
            self.wf(),
        ensures
            forall|i: int, j: int|
                0 <= i < j < self@.len() ==> key_lt(#[trigger] self@[i].0, #[trigger] self@[j].0),
            forall|i: int, j: int|
                0 <= i < self@.len() && 0 <= j < self@.len() && i != j ==> #[trigger] self@[i].0
                    != #[trigger] self@[j].0,
    {
        self.lemma_wf();
        assert forall|i: int, j: int| 0 <= i < j < self@.len() implies key_lt(
            #[trigger] self@[i].0,
            #[trigger] self@[j].0,
        ) by {
            lemma_ascending_at(self@, i, j);
        }
        assert forall|i: int, j: int|
            0 <= i < self@.len() && 0 <= j < self@.len() && i != j implies #[trigger] self@[i].0
            != #[trigger] self@[j].0 by {
            if i < j {
                lemma_ascending_at(self@, i, j);
            } else {
                lemma_ascending_at(self@, j, i);
            }
            lemma_trichotomy(self@[i].0, self@[j].0);
        }
    }

    /// The tree of a valid map has all its leaves at one depth, every node of
    /// it caches its smallest key and its size, the keys below a child are
    /// smaller than the smallest key of the next child, and the height of the
    /// tree is at most the binary logarithm of the number of entries: a map
    /// of `n` entries has at most `log2(n) + 1` levels.
    pub proof fn lemma_tree_is_balanced(self)
        requires
            self.wf(),
        ensures
            match self.tree() {
                None => self@.len() == 0,
                Some(root) => {
                    &&& root.leaves() == self@
                    &&& root.height() + 1 == self.levels()
                    &&& root.every_leaf_at(root.height())
                    &&& root.caches_hold()
                    &&& root.partitioned()
                    &&& power(2, root.height()) <= self@.len() <= power(3, root.height())
                },
            },
    {
        self.lemma_wf();
        match self.tree() {
            None => {},
            Some(root) => {
                root.lemma_leaves_equally_deep();
                root.lemma_caches_hold();
                root.lemma_partitioned();
                root.lemma_height_bound();
            },
        }
    }

    /// A valid map has as many entries as it has keys.
    pub proof fn lemma_len_counts_keys(self)
        requires
            self.wf(),
        ensures
            as_map(self@).dom().finite(),
            as_map(self@).dom().len() == self@.len(),
    {
        self.lemma_wf();
        lemma_as_map_len(self@);
    }

    /// An insertion is `Map::insert` on the map of the entries: afterwards
    /// `key` has the value `value`, and every other key what it had.
    pub proof fn lemma_insert_as_map(self, after: Self, key: K, value: V)
        requires
            self.wf(),
            after@ == with_entry(self@, key, value),
        ensures
            as_map(after@) == as_map(self@).insert(key, value),
            forall|other: K| #[trigger]
                value_of(after@, other) == (if other == key {
                    Some(value)
                } else {
                    value_of(self@, other)
                }),
    {
        self.lemma_wf();
        lemma_as_map_with_entry(self@, key, value);
        assert forall|other: K| #[trigger]
            value_of(after@, other) == (if other == key {
                Some(value)
            } else {
                value_of(self@, other)
            }) by {
            lemma_with_entry_values(self@, key, value, other);
        }
    }

    /// A removal is `Map::remove` on the map of the entries: afterwards `key`
    /// has no value, and every other key what it had.
    pub proof fn lemma_remove_as_map(self, after: Self, key: K)
        requires
            self.wf(),
            after@ == without_key(self@, key),
        ensures
            as_map(after@) == as_map(self@).remove(key),
            forall|other: K| #[trigger]
                value_of(after@, other) == (if other == key {
                    None
                } else {
                    value_of(self@, other)
                }),
    {
        self.lemma_wf();
        lemma_as_map_without_key(self@, key);
        assert forall|other: K| #[trigger]
            value_of(after@, other) == (if other == key {
                None
            } else {
                value_of(self@, other)
            }) by {
            lemma_without_key_values(self@, key, other);
        }
    }

    /// What `lookup` returns is what the map of the entries holds.
    pub proof fn lemma_lookup_as_map(self, key: K)
        ensures
            value_of(self@, key) == (if as_map(self@).dom().contains(key) {
                Some(as_map(self@)[key])
            } else {
                None
            }),
    {
        lemma_as_map_value(self@, key);
    }

    /// Removing a key right after it was inserted, where the map had no entry
    /// for it before, leaves the map with the entries that it had.
    pub proof fn lemma_insert_then_remove(self, inserted: Self, removed: Self, key: K, value: V)
        requires
            self.wf(),
            !has_key(self@, key),
            inserted@ == with_entry(self@, key, value),
            removed@ == without_key(inserted@, key),
        ensures
            removed@ == self@,
    {
        self.lemma_wf();
        lemma_with_entry_then_without(self@, key, value);
    }
}

impl<'a, K: Ord + Clone, V> TreeZipper<'a, K, V> {
    /// The path of a valid cursor has one step for every level of the tree
    /// above the leaves.
    pub proof fn lemma_path_length(self)
        requires
            self.wf(),
        ensures
            self.path_length() == self.root().height(),
    {
        lemma_chain_window(self.root(), self.stack@, self.leaf());
        self.leaf().lemma_shape();
    }

    /// A valid cursor is known by its tree and its rank: two cursors of one
    /// tree at one rank have the same path and stand at the same entry.
    pub proof fn lemma_known_by_rank(self, other: Self)
        requires
            self.wf(),
            other.wf(),
            self.root() == other.root(),
            self.rank() == other.rank(),
        ensures
            self.path() == other.path(),
            self.focus_spec() == other.focus_spec(),
    {
        let root = self.root();
        lemma_chain_window(root, self.stack@, self.leaf());
        lemma_chain_window(root, other.stack@, other.leaf());
        self.leaf().lemma_shape();
        other.leaf().lemma_shape();
        lemma_chain_is_determined(
            root,
            self.stack@,
            self.leaf(),
            other.stack@,
            other.leaf(),
            self.rank() as int,
        );
    }

    /// A cursor that was moved `i` entries forward from the first entry
    /// stands at the entry of rank `i`: at what `index(i)` returns.
    pub proof fn lemma_advance_is_index(self, moved: Self, i: nat)
        requires
            self.wf(),
            self.rank() == 0,
            moved.wf(),
            moved.entries() == self.entries(),
            moved.rank() == self.rank() + i,
        ensures
            i < self.entries().len(),
            (*moved.focus_spec().0, *moved.focus_spec().1) == self.entries()[i as int],
    {
        moved.lemma_rank_in_range();
    }

    /// A cursor that was moved to `k` has not gone back, has passed only keys
    /// smaller than `k`, and stands at a key that is not smaller than `k`.
    pub proof fn lemma_advance_to_is_first(self, moved: Self, k: K)
        requires
            self.wf(),
            moved.wf(),
            moved.entries() == self.entries(),
            moved.rank() == seek_rank(self.entries(), self.rank() as int, k),
        ensures
            self.rank() <= moved.rank(),
            forall|i: int|
                self.rank() <= i < moved.rank() ==> key_lt(#[trigger] self.entries()[i].0, k),
            !key_lt(*moved.focus_spec().0, k),
    {
        self.lemma_rank_in_range();
        moved.lemma_rank_in_range();
        lemma_seek_rank(self.entries(), self.rank() as int, k);
    }

    /// A cursor that was moved from the first entry to `k` stands at the
    /// smallest key of the map that is not smaller than `k`.
    pub proof fn lemma_advance_to_is_smallest(self, moved: Self, k: K)
        requires
            self.wf(),
            self.rank() == 0,
            moved.wf(),
            moved.entries() == self.entries(),
            moved.rank() == seek_rank(self.entries(), self.rank() as int, k),
        ensures
            !key_lt(*moved.focus_spec().0, k),
            forall|i: int|
                0 <= i < self.entries().len() && !key_lt(#[trigger] self.entries()[i].0, k)
                    ==> key_le(*moved.focus_spec().0, self.entries()[i].0),
    {
        self.lemma_advance_to_is_first(moved, k);
        moved.lemma_rank_in_range();
        let s = self.entries();
        let t = moved.rank() as int;
        assert forall|i: int| 0 <= i < s.len() && !key_lt(#[trigger] s[i].0, k) implies key_le(
            *moved.focus_spec().0,
            s[i].0,
        ) by {
            if i > t {
                lemma_ascending_at(s, t, i);
            }
        }
    }

    /// No cursor comes back from a move to `k` exactly when every key from
    /// the cursor on is smaller than `k`.
    pub proof fn lemma_advance_to_fails(self, k: K)
        requires
            self.wf(),
        ensures
            seek_rank(self.entries(), self.rank() as int, k) >= self.entries().len()
                <==> forall|i: int|
                self.rank() <= i < self.entries().len()
                    ==> key_lt(#[trigger] self.entries()[i].0, k),
    {
        self.lemma_rank_in_range();
        lemma_seek_rank(self.entries(), self.rank() as int, k);
    }
}

} // verus!
