//! The map itself: an optional root node, and the operations on it.

use crate::insertion::InsertResult;
use crate::key_order::{lawful_key, same};
use crate::node::Node;
use crate::removal::RemoveResult;
use crate::sorted_entries::{
    has_key, keys_ascending, lemma_empty, lemma_empty_with_entry, lemma_lower_bound, lemma_with_entry,
    value_of, with_entry, without_key,
};
use crate::zipper::TreeZipper;
use vstd::prelude::*;

verus! {

/// The tree `tree` after `key` has been given the value `value`: one leaf
/// where there was no tree, and a new root over the two nodes where the old
/// root has become two.
pub open spec fn tree_with<K: Ord + Clone, V>(
    tree: Option<Node<K, V>>,
    key: K,
    value: V,
) -> Option<Node<K, V>> {
    match tree {
        None => Some(Node::leaf(key, value)),
        Some(root) => match root.insertion(key, value) {
            InsertResult::SameDepth(node) => Some(node),
            InsertResult::Overflow(left, right) => Some(Node::pair(left, right)),
        },
    }
}

/// The tree `tree` after the entry of `key` has been removed: no tree where
/// the last entry has gone, and a tree that is one level lower where the
/// root has become so.
pub open spec fn tree_without<K: Ord + Clone, V>(
    tree: Option<Node<K, V>>,
    key: K,
) -> Option<Node<K, V>> {
    match tree {
        None => None,
        Some(root) => match root.removal(key) {
            RemoveResult::SameDepth(node) => Some(node),
            RemoveResult::Underflow(node) => Some(node),
            RemoveResult::Empty => None,
        },
    }
}

/// An ordered map that finds an entry by its key and by its rank.
pub struct IndexableSortedMap<K: Ord + Clone, V> {
    root: Option<Node<K, V>>,
}

impl<K: Ord + Clone, V> View for IndexableSortedMap<K, V> {
    type V = Seq<(K, V)>;

    /// The entries of the map in ascending key order.
    closed spec fn view(&self) -> Seq<(K, V)> {
        match self.root {
            None => Seq::empty(),
            Some(node) => node.leaves(),
        }
    }
}

impl<K: Ord + Clone, V> IndexableSortedMap<K, V> {
    /// The tree that holds the entries; none where the map is empty.
    pub closed spec fn tree(self) -> Option<Node<K, V>> {
        self.root
    }

    /// The number of levels of the tree: none for the empty map, one for a
    /// map of one entry.
    pub closed spec fn levels(self) -> nat {
        match self.root {
            None => 0,
            Some(node) => node.height() + 1,
        }
    }

    /// The map is valid: its key type is lawful, and its tree, if it has
    /// one, is a valid 2-3 tree.
    pub closed spec fn wf(self) -> bool {
        &&& lawful_key::<K>()
        &&& match self.root {
            None => true,
            Some(node) => node.wf(),
        }
    }

    /// A valid map holds the entries of its tree, in ascending key order.
    pub proof fn lemma_wf(self)
        requires
            self.wf(),
        ensures
            lawful_key::<K>(),
            keys_ascending(self@),
            self.tree().is_some() == (self@.len() > 0),
            match self.tree() {
                None => self@ == Seq::<(K, V)>::empty() && self.levels() == 0,
                Some(node) => node.wf() && self@ == node.leaves()
                    && self.levels() == node.height() + 1,
            },
    {
        reveal(keys_ascending);
        match self.root {
            None => {},
            Some(node) => {
                node.lemma_wf();
            },
        }
    }

    /// An empty map.
    pub fn new() -> (m: Self)
        requires
            lawful_key::<K>(),
        ensures
            m.wf(),
            m@ == Seq::<(K, V)>::empty(),
            m.tree().is_none(),
    {
        IndexableSortedMap { root: None }
    }

    /// The number of entries.
    pub fn len(&self) -> (n: usize)
        requires
            self.wf(),
        ensures
            n == self@.len(),
    {
        match &self.root {
            None => 0,
            Some(node) => node.len(),
        }
    }

    /// Whether the map has no entry.
    pub fn is_empty(&self) -> (b: bool)
        requires
            self.wf(),
        ensures
            b == (self@.len() == 0),
    {
        proof {
            self.lemma_wf();
        }
        self.root.is_none()
    }

    /// The value of `key`, if the map holds one.
    pub fn lookup(&self, key: &K) -> (r: Option<&V>)
        requires
            self.wf(),
        ensures
            match r {
                Some(v) => value_of(self@, *key) == Some(*v),
                None => value_of(self@, *key).is_none(),
            },
    {
        proof {
            self.lemma_wf();
            lemma_lower_bound(self@, *key);
        }
        let mut zipper = self.zipper()?;
        zipper = zipper.advance_to(key)?;
        let (k, v) = zipper.into_focus();
        if same(key, k) {
            Some(v)
        } else {
            None
        }
    }

    /// The entry at rank `i` in ascending key order, if the map has that many.
    pub fn index(&self, i: usize) -> (r: Option<(&K, &V)>)
        requires
            self.wf(),
        ensures
            match r {
                Some(e) => i < self@.len() && (*e.0, *e.1) == self@[i as int],
                None => i >= self@.len(),
            },
    {
        let mut zipper = self.zipper()?;
        zipper = zipper.advance(i)?;
        Some(zipper.into_focus())
    }

    /// Gives `key` the value `value`: a new entry where the map has none for
    /// `key`, the new value in place of the old one where it has. The tree
    /// keeps its number of levels or, where a new entry does not fit, gains
    /// one.
    pub fn insert(&mut self, key: K, value: V)
        requires
            old(self).wf(),
            old(self)@.len() < usize::MAX,
        ensures
            final(self).wf(),
            final(self)@ == with_entry(old(self)@, key, value),
            final(self).tree() == tree_with(old(self).tree(), key, value),
            final(self).levels() == old(self).levels()
                || final(self).levels() == old(self).levels() + 1,
            has_key(old(self)@, key) ==> final(self).levels() == old(self).levels(),
    {
        let mut map = None;
        core::mem::swap(&mut map, &mut self.root);
        match map {
            None => {
                proof {
                    lemma_empty_with_entry(key, value);
                }
                self.root = Some(Node::singleton(key, value));
            },
            Some(node) => {
                match node.insert(key, value) {
                    InsertResult::SameDepth(new_node) => {
                        self.root = Some(new_node);
                    },
                    InsertResult::Overflow(left, right) => {
                        proof {
                            node.lemma_wf();
                            lemma_with_entry(node.leaves(), key, value);
                        }
                        self.root = Some(Node::branch2(left, right));
                    },
                }
            },
        }
    }

    /// Removes the entry of `key` and returns its value; changes nothing and
    /// returns no value where the map has no entry for `key`. The tree keeps
    /// its number of levels or loses one.
    pub fn remove(&mut self, key: &K) -> (r: Option<V>)
        requires
            old(self).wf(),
        ensures
            final(self).wf(),
            final(self)@ == without_key(old(self)@, *key),
            r == value_of(old(self)@, *key),
            final(self).tree() == tree_without(old(self).tree(), *key),
            final(self).levels() == old(self).levels()
                || final(self).levels() + 1 == old(self).levels(),
            !has_key(old(self)@, *key) ==> final(self).tree() == old(self).tree(),
    {
        let mut map = None;
        core::mem::swap(&mut map, &mut self.root);
        match map {
            None => {
                proof {
                    lemma_empty::<K, V>(*key);
                }
                None
            },
            Some(node) => {
                match node.remove(key) {
                    (RemoveResult::SameDepth(new_node), result) => {
                        self.root = Some(new_node);
                        result
                    },
                    (RemoveResult::Underflow(new_node), result) => {
                        self.root = Some(new_node);
                        result
                    },
                    (RemoveResult::Empty, result) => {
                        self.root = None;
                        result
                    },
                }
            },
        }
    }

    /// A cursor at the first entry; none where the map is empty.
    pub fn zipper<'a>(&'a self) -> (r: Option<TreeZipper<'a, K, V>>)
        requires
            self.wf(),
        ensures
            r.is_some() == (self@.len() > 0),
            r matches Some(z) ==> z.wf() && z.entries() == self@ && z.rank() == 0,
    {
        match &self.root {
            None => None,
            Some(x) => {
                proof {
                    x.lemma_wf();
                }
                Some(x.zipper())
            },
        }
    }
}

} // verus!
