//! The nodes of the 2-3 tree and the builders that keep them valid.

use crate::key_order::{duplicate, key_lt, lawful_key};
use crate::sorted_entries::{keys_ascending, lemma_ascending_parts};
use vstd::prelude::*;

verus! {

/// A subtree: one entry, or two or three children in key order.
pub enum Tree<K: Ord + Clone, V> {
    Leaf(K, V),
    Branch2(Node<K, V>, Node<K, V>),
    Branch3(Node<K, V>, Node<K, V>, Node<K, V>),
}

/// A subtree together with its smallest key and its number of entries.
pub struct Node<K: Ord + Clone, V> {
    pub(crate) min_key: K,
    pub(crate) size: usize,
    pub(crate) tree: Box<Tree<K, V>>,
}

impl<K: Ord + Clone, V> Tree<K, V> {
    /// The entries of the subtree from left to right.
    pub open(crate) spec fn leaves(self) -> Seq<(K, V)>
        decreases self,
    {
        match self {
            Tree::Leaf(k, v) => seq![(k, v)],
            Tree::Branch2(a, b) => (*a.tree).leaves() + (*b.tree).leaves(),
            Tree::Branch3(a, b, c) => (*a.tree).leaves() + (*b.tree).leaves() + (*c.tree).leaves(),
        }
    }

    /// The number of branches on the way from here to the leftmost leaf.
    pub open(crate) spec fn height(self) -> nat
        decreases self,
    {
        match self {
            Tree::Leaf(_, _) => 0,
            Tree::Branch2(a, _) => (*a.tree).height() + 1,
            Tree::Branch3(a, _, _) => (*a.tree).height() + 1,
        }
    }

    /// The children are valid nodes of one height.
    pub open(crate) spec fn children_wf(self) -> bool {
        match self {
            Tree::Leaf(_, _) => true,
            Tree::Branch2(a, b) => a.wf() && b.wf() && a.height() == b.height(),
            Tree::Branch3(a, b, c) => a.wf() && b.wf() && c.wf() && a.height() == b.height()
                && b.height() == c.height(),
        }
    }

    /// The node of this subtree: the subtree with the key of its first entry
    /// and the number of its entries.
    #[verifier::opaque]
    pub open(crate) spec fn wrapped(self) -> Node<K, V> {
        Node {
            min_key: self.leaves()[0].0,
            size: self.leaves().len() as usize,
            tree: Box::new(self),
        }
    }

    /// A leaf that holds one entry.
    pub(crate) fn singleton(key: K, value: V) -> (r: Tree<K, V>)
        ensures
            r == Tree::Leaf(key, value),
    {
        Tree::Leaf(key, value)
    }

    /// The smallest key of the subtree.
    pub(crate) fn min_key(&self) -> (r: &K)
        requires
            self.children_wf(),
        ensures
            *r == self.leaves()[0].0,
    {
        match self {
            Tree::Leaf(k, _) => k,
            Tree::Branch2(left, _) => {
                proof {
                    left.lemma_wf();
                }
                &left.min_key
            },
            Tree::Branch3(left, _, _) => {
                proof {
                    left.lemma_wf();
                }
                &left.min_key
            },
        }
    }

    /// The number of entries of the subtree.
    pub(crate) fn len(&self) -> (r: usize)
        requires
            self.children_wf(),
            self.leaves().len() <= usize::MAX,
        ensures
            r == self.leaves().len(),
    {
        match self {
            Tree::Leaf(_, _) => 1,
            Tree::Branch2(left, right) => left.len() + right.len(),
            Tree::Branch3(left, middle, right) => left.len() + middle.len() + right.len(),
        }
    }
}

impl<K: Ord + Clone, V> Node<K, V> {
    /// The entries of the subtree from left to right.
    pub open(crate) spec fn leaves(self) -> Seq<(K, V)> {
        (*self.tree).leaves()
    }

    /// The number of branches on the way from this node to a leaf.
    pub open(crate) spec fn height(self) -> nat {
        (*self.tree).height()
    }

    /// The leaf node of one entry.
    pub open(crate) spec fn leaf(key: K, value: V) -> Node<K, V> {
        Tree::Leaf(key, value).wrapped()
    }

    /// The node over two children.
    pub open(crate) spec fn pair(a: Node<K, V>, b: Node<K, V>) -> Node<K, V> {
        Tree::Branch2(a, b).wrapped()
    }

    /// The node over three children.
    pub open(crate) spec fn triple(a: Node<K, V>, b: Node<K, V>, c: Node<K, V>) -> Node<K, V> {
        Tree::Branch3(a, b, c).wrapped()
    }

    /// The node over four subtrees: two children with two each.
    pub open(crate) spec fn four(
        a: Node<K, V>,
        b: Node<K, V>,
        c: Node<K, V>,
        d: Node<K, V>,
    ) -> Node<K, V> {
        Node::pair(Node::pair(a, b), Node::pair(c, d))
    }

    /// The node over five subtrees: a child with two and a child with three.
    pub open(crate) spec fn five(
        a: Node<K, V>,
        b: Node<K, V>,
        c: Node<K, V>,
        d: Node<K, V>,
        e: Node<K, V>,
    ) -> Node<K, V> {
        Node::pair(Node::pair(a, b), Node::triple(c, d, e))
    }

    /// The node over six subtrees: two children with three each.
    pub open(crate) spec fn six(
        a: Node<K, V>,
        b: Node<K, V>,
        c: Node<K, V>,
        d: Node<K, V>,
        e: Node<K, V>,
        f: Node<K, V>,
    ) -> Node<K, V> {
        Node::pair(Node::triple(a, b, c), Node::triple(d, e, f))
    }

    /// The node over seven subtrees: children with two, two and three.
    pub open(crate) spec fn seven(
        a: Node<K, V>,
        b: Node<K, V>,
        c: Node<K, V>,
        d: Node<K, V>,
        e: Node<K, V>,
        f: Node<K, V>,
        g: Node<K, V>,
    ) -> Node<K, V> {
        Node::triple(Node::pair(a, b), Node::pair(c, d), Node::triple(e, f, g))
    }

    /// The node that takes the place of a first child `u`, which has become
    /// one level lower, and of its siblings `x` and `y`: the children of the
    /// siblings, with `u` before them, under one node.
    pub open(crate) spec fn merged_first(
        u: Node<K, V>,
        x: Node<K, V>,
        y: Node<K, V>,
    ) -> Node<K, V> {
        match (x.shape(), y.shape()) {
            (Tree::Branch2(a, b), Tree::Branch2(c, d)) => Node::five(u, a, b, c, d),
            (Tree::Branch2(a, b), Tree::Branch3(c, d, e)) => Node::six(u, a, b, c, d, e),
            (Tree::Branch3(a, b, c), Tree::Branch2(d, e)) => Node::six(u, a, b, c, d, e),
            (Tree::Branch3(a, b, c), Tree::Branch3(d, e, f)) => Node::seven(u, a, b, c, d, e, f),
            _ => u,
        }
    }

    /// The same for a middle child `u`, which stands between the children of
    /// `x` and those of `y`.
    pub open(crate) spec fn merged_middle(
        x: Node<K, V>,
        u: Node<K, V>,
        y: Node<K, V>,
    ) -> Node<K, V> {
        match (x.shape(), y.shape()) {
            (Tree::Branch2(a, b), Tree::Branch2(c, d)) => Node::five(a, b, u, c, d),
            (Tree::Branch2(a, b), Tree::Branch3(c, d, e)) => Node::six(a, b, u, c, d, e),
            (Tree::Branch3(a, b, c), Tree::Branch2(d, e)) => Node::six(a, b, c, u, d, e),
            (Tree::Branch3(a, b, c), Tree::Branch3(d, e, f)) => Node::seven(a, b, c, u, d, e, f),
            _ => u,
        }
    }

    /// The same for a last child `u`, which stands after the children of `x`
    /// and `y`.
    pub open(crate) spec fn merged_last(
        x: Node<K, V>,
        y: Node<K, V>,
        u: Node<K, V>,
    ) -> Node<K, V> {
        match (x.shape(), y.shape()) {
            (Tree::Branch2(a, b), Tree::Branch2(c, d)) => Node::five(a, b, c, d, u),
            (Tree::Branch2(a, b), Tree::Branch3(c, d, e)) => Node::six(a, b, c, d, e, u),
            (Tree::Branch3(a, b, c), Tree::Branch2(d, e)) => Node::six(a, b, c, d, e, u),
            (Tree::Branch3(a, b, c), Tree::Branch3(d, e, f)) => Node::seven(a, b, c, d, e, f, u),
            _ => u,
        }
    }

    /// The node is a valid 2-3 tree over a lawful key type: the keys of its
    /// entries ascend from left to right, all leaves lie equally deep, and
    /// every node caches the smallest key and the number of entries below it.
    #[verifier::opaque]
    pub open(crate) spec fn wf(self) -> bool
        decreases self,
    {
        &&& lawful_key::<K>()
        &&& self.leaves().len() > 0
        &&& self.size == self.leaves().len()
        &&& self.min_key == self.leaves()[0].0
        &&& keys_ascending(self.leaves())
        &&& match *self.tree {
            Tree::Leaf(_, _) => true,
            Tree::Branch2(a, b) => a.wf() && b.wf() && a.height() == b.height(),
            Tree::Branch3(a, b, c) => a.wf() && b.wf() && c.wf() && a.height() == b.height()
                && b.height() == c.height(),
        }
    }

    /// The subtree below the node.
    pub open(crate) spec fn shape(self) -> Tree<K, V> {
        *self.tree
    }

    /// Every leaf of the subtree lies `depth` branches below this node.
    pub open(crate) spec fn every_leaf_at(self, depth: nat) -> bool
        decreases self,
    {
        match *self.tree {
            Tree::Leaf(_, _) => depth == 0,
            Tree::Branch2(a, b) => depth > 0 && a.every_leaf_at((depth - 1) as nat)
                && b.every_leaf_at((depth - 1) as nat),
            Tree::Branch3(a, b, c) => depth > 0 && a.every_leaf_at((depth - 1) as nat)
                && b.every_leaf_at((depth - 1) as nat) && c.every_leaf_at((depth - 1) as nat),
        }
    }

    /// At every branch of the subtree the keys below a child are smaller than
    /// the smallest key that the next child caches.
    pub open(crate) spec fn partitioned(self) -> bool
        decreases self,
    {
        match *self.tree {
            Tree::Leaf(_, _) => true,
            Tree::Branch2(a, b) => {
                &&& forall|i: int|
                    0 <= i < a.leaves().len() ==> key_lt(#[trigger] a.leaves()[i].0, b.min_key)
                &&& a.partitioned()
                &&& b.partitioned()
            },
            Tree::Branch3(a, b, c) => {
                &&& forall|i: int|
                    0 <= i < a.leaves().len() ==> key_lt(#[trigger] a.leaves()[i].0, b.min_key)
                &&& forall|i: int|
                    0 <= i < b.leaves().len() ==> key_lt(#[trigger] b.leaves()[i].0, c.min_key)
                &&& a.partitioned()
                &&& b.partitioned()
                &&& c.partitioned()
            },
        }
    }

    /// Every node of the subtree caches the key of its leftmost leaf as its
    /// smallest key, and the number of its leaves as its size.
    pub open(crate) spec fn caches_hold(self) -> bool
        decreases self,
    {
        &&& self.min_key == self.leaves()[0].0
        &&& self.size == self.leaves().len()
        &&& match *self.tree {
            Tree::Leaf(_, _) => true,
            Tree::Branch2(a, b) => a.caches_hold() && b.caches_hold(),
            Tree::Branch3(a, b, c) => a.caches_hold() && b.caches_hold() && c.caches_hold(),
        }
    }

    /// A valid node is the node of its subtree.
    pub(crate) proof fn lemma_wrapped(self)
        requires
            self.wf(),
        ensures
            self == self.shape().wrapped(),
    {
        reveal(Node::wf);
        reveal(Tree::wrapped);
    }

    /// What a valid node caches, and what its entries are like.
    pub(crate) proof fn lemma_wf(self)
        requires
            self.wf(),
        ensures
            lawful_key::<K>(),
            self.leaves().len() > 0,
            self.size == self.leaves().len(),
            self.min_key == self.leaves()[0].0,
            keys_ascending(self.leaves()),
            self.shape().children_wf(),
    {
        reveal(Node::wf);
    }

    /// The entries and the height of a node in terms of its children.
    pub(crate) proof fn lemma_shape(self)
        ensures
            match self.shape() {
                Tree::Leaf(k, v) => self.leaves() == seq![(k, v)] && self.height() == 0,
                Tree::Branch2(a, b) => self.leaves() == a.leaves() + b.leaves() && self.height()
                    == a.height() + 1,
                Tree::Branch3(a, b, c) => self.leaves() == a.leaves() + b.leaves() + c.leaves()
                    && self.height() == a.height() + 1,
            },
    {
    }

    /// The number of entries of the subtree.
    pub(crate) fn len(&self) -> (r: usize)
        requires
            self.wf(),
        ensures
            r == self.leaves().len(),
    {
        proof {
            self.lemma_wf();
        }
        self.size
    }

    /// Wraps a subtree, caching its smallest key and its number of entries.
    pub(crate) fn from_tree(tree: Tree<K, V>) -> (r: Node<K, V>)
        requires
            lawful_key::<K>(),
            tree.children_wf(),
            keys_ascending(tree.leaves()),
            tree.leaves().len() <= usize::MAX,
        ensures
            r.wf(),
            r == tree.wrapped(),
            r.shape() == tree,
    {
        proof {
            reveal(Node::wf);
            reveal(Tree::wrapped);
        }
        Node { min_key: duplicate(tree.min_key()), size: tree.len(), tree: Box::new(tree) }
    }

    /// A leaf node that holds one entry.
    pub(crate) fn singleton(key: K, value: V) -> (r: Node<K, V>)
        requires
            lawful_key::<K>(),
        ensures
            r.wf(),
            r == Node::leaf(key, value),
            r.leaves() == seq![(key, value)],
            r.height() == 0,
    {
        proof {
            reveal(keys_ascending);
        }
        Node::from_tree(Tree::singleton(key, value))
    }

    /// A node with two children.
    pub(crate) fn branch2(left: Node<K, V>, right: Node<K, V>) -> (r: Node<K, V>)
        requires
            left.wf(),
            right.wf(),
            left.height() == right.height(),
            keys_ascending(left.leaves() + right.leaves()),
            left.leaves().len() + right.leaves().len() <= usize::MAX,
        ensures
            r.wf(),
            r == Node::pair(left, right),
            r.leaves() == left.leaves() + right.leaves(),
            r.height() == left.height() + 1,
    {
        proof {
            left.lemma_wf();
            right.lemma_wf();
        }
        Node::from_tree(Tree::Branch2(left, right))
    }

    /// A node with three children.
    pub(crate) fn branch3(
        left: Node<K, V>,
        middle: Node<K, V>,
        right: Node<K, V>,
    ) -> (r: Node<K, V>)
        requires
            left.wf(),
            middle.wf(),
            right.wf(),
            left.height() == middle.height(),
            middle.height() == right.height(),
            keys_ascending(left.leaves() + middle.leaves() + right.leaves()),
            left.leaves().len() + middle.leaves().len() + right.leaves().len() <= usize::MAX,
        ensures
            r.wf(),
            r == Node::triple(left, middle, right),
            r.leaves() == left.leaves() + middle.leaves() + right.leaves(),
            r.height() == left.height() + 1,
    {
        proof {
            left.lemma_wf();
            middle.lemma_wf();
            right.lemma_wf();
        }
        Node::from_tree(Tree::Branch3(left, middle, right))
    }

    /// A node over four subtrees: two children with two each.
    pub(crate) fn branch4(
        a: Node<K, V>,
        b: Node<K, V>,
        c: Node<K, V>,
        d: Node<K, V>,
    ) -> (r: Node<K, V>)
        requires
            a.wf(),
            b.wf(),
            c.wf(),
            d.wf(),
            a.height() == b.height(),
            b.height() == c.height(),
            c.height() == d.height(),
            keys_ascending(a.leaves() + b.leaves() + c.leaves() + d.leaves()),
            a.leaves().len() + b.leaves().len() + c.leaves().len()
                + d.leaves().len() <= usize::MAX,
        ensures
            r.wf(),
            r.leaves() == a.leaves() + b.leaves() + c.leaves() + d.leaves(),
            r.height() == a.height() + 2,
            r == Node::four(a, b, c, d),
    {
        proof {
            let all = a.leaves() + b.leaves() + c.leaves() + d.leaves();
            let front = a.leaves() + b.leaves();
            let back = c.leaves() + d.leaves();
            assert(all =~= front + back);
            lemma_ascending_parts(front, back);
        }
        Node::branch2(Node::branch2(a, b), Node::branch2(c, d))
    }

    /// A node over five subtrees: a child with two and a child with three.
    pub(crate) fn branch5(
        a: Node<K, V>,
        b: Node<K, V>,
        c: Node<K, V>,
        d: Node<K, V>,
        e: Node<K, V>,
    ) -> (r: Node<K, V>)
        requires
            a.wf(),
            b.wf(),
            c.wf(),
            d.wf(),
            e.wf(),
            a.height() == b.height(),
            b.height() == c.height(),
            c.height() == d.height(),
            d.height() == e.height(),
            keys_ascending(a.leaves() + b.leaves() + c.leaves() + d.leaves() + e.leaves()),
            a.leaves().len() + b.leaves().len() + c.leaves().len() + d.leaves().len()
                + e.leaves().len() <= usize::MAX,
        ensures
            r.wf(),
            r.leaves() == a.leaves() + b.leaves() + c.leaves() + d.leaves() + e.leaves(),
            r.height() == a.height() + 2,
            r == Node::five(a, b, c, d, e),
    {
        proof {
            let all = a.leaves() + b.leaves() + c.leaves() + d.leaves() + e.leaves();
            let front = a.leaves() + b.leaves();
            let back = c.leaves() + d.leaves() + e.leaves();
            assert(all =~= front + back);
            lemma_ascending_parts(front, back);
        }
        Node::branch2(Node::branch2(a, b), Node::branch3(c, d, e))
    }

    /// A node over six subtrees: two children with three each.
    pub(crate) fn branch6(
        a: Node<K, V>,
        b: Node<K, V>,
        c: Node<K, V>,
        d: Node<K, V>,
        e: Node<K, V>,
        f: Node<K, V>,
    ) -> (r: Node<K, V>)
        requires
            a.wf(),
            b.wf(),
            c.wf(),
            d.wf(),
            e.wf(),
            f.wf(),
            a.height() == b.height(),
            b.height() == c.height(),
            c.height() == d.height(),
            d.height() == e.height(),
            e.height() == f.height(),
            keys_ascending(a.leaves() + b.leaves() + c.leaves() + d.leaves() + e.leaves()
                + f.leaves()),
            a.leaves().len() + b.leaves().len() + c.leaves().len() + d.leaves().len()
                + e.leaves().len() + f.leaves().len() <= usize::MAX,
        ensures
            r.wf(),
            r.leaves() == a.leaves() + b.leaves() + c.leaves() + d.leaves() + e.leaves()
                + f.leaves(),
            r.height() == a.height() + 2,
            r == Node::six(a, b, c, d, e, f),
    {
        proof {
            let all = a.leaves() + b.leaves() + c.leaves() + d.leaves() + e.leaves()
                + f.leaves();
            let front = a.leaves() + b.leaves() + c.leaves();
            let back = d.leaves() + e.leaves() + f.leaves();
            assert(all =~= front + back);
            lemma_ascending_parts(front, back);
        }
        Node::branch2(Node::branch3(a, b, c), Node::branch3(d, e, f))
    }

    /// A node over seven subtrees: children with two, two and three.
    pub(crate) fn branch7(
        a: Node<K, V>,
        b: Node<K, V>,
        c: Node<K, V>,
        d: Node<K, V>,
        e: Node<K, V>,
        f: Node<K, V>,
        g: Node<K, V>,
    ) -> (r: Node<K, V>)
        requires
            a.wf(),
            b.wf(),
            c.wf(),
            d.wf(),
            e.wf(),
            f.wf(),
            g.wf(),
            a.height() == b.height(),
            b.height() == c.height(),
            c.height() == d.height(),
            d.height() == e.height(),
            e.height() == f.height(),
            f.height() == g.height(),
            keys_ascending(a.leaves() + b.leaves() + c.leaves() + d.leaves() + e.leaves()
                + f.leaves() + g.leaves()),
            a.leaves().len() + b.leaves().len() + c.leaves().len() + d.leaves().len()
                + e.leaves().len() + f.leaves().len() + g.leaves().len() <= usize::MAX,
        ensures
            r.wf(),
            r.leaves() == a.leaves() + b.leaves() + c.leaves() + d.leaves() + e.leaves()
                + f.leaves() + g.leaves(),
            r.height() == a.height() + 2,
            r == Node::seven(a, b, c, d, e, f, g),
    {
        proof {
            let all = a.leaves() + b.leaves() + c.leaves() + d.leaves() + e.leaves()
                + f.leaves() + g.leaves();
            let first = a.leaves() + b.leaves();
            let second = c.leaves() + d.leaves();
            let third = e.leaves() + f.leaves() + g.leaves();
            assert(all =~= (first + second) + third);
            lemma_ascending_parts(first + second, third);
            lemma_ascending_parts(first, second);
        }
        Node::branch3(Node::branch2(a, b), Node::branch2(c, d), Node::branch3(e, f, g))
    }

    /// One node over a first child `u` that has become one level lower and its
    /// two siblings `x` and `y`: the children of the siblings join `u`.
    pub(crate) fn merge1(u: Node<K, V>, x: Node<K, V>, y: Node<K, V>) -> (r: Node<K, V>)
        requires
            u.wf(),
            x.wf(),
            y.wf(),
            x.height() == u.height() + 1,
            y.height() == u.height() + 1,
            keys_ascending(u.leaves() + x.leaves() + y.leaves()),
            u.leaves().len() + x.leaves().len() + y.leaves().len() <= usize::MAX,
        ensures
            r.wf(),
            r == Node::merged_first(u, x, y),
            r.leaves() == u.leaves() + x.leaves() + y.leaves(),
            r.height() == x.height() + 1,
    {
        let ghost all = u.leaves() + x.leaves() + y.leaves();
        proof {
            x.lemma_wf();
            y.lemma_wf();
        }
        match (*x.tree, *y.tree) {
            (Tree::Branch2(a, b), Tree::Branch2(c, d)) => {
                assert(all =~= u.leaves() + a.leaves() + b.leaves() + c.leaves() + d.leaves());
                Node::branch5(u, a, b, c, d)
            },
            (Tree::Branch2(a, b), Tree::Branch3(c, d, e)) => {
                assert(all =~= u.leaves() + a.leaves() + b.leaves() + c.leaves() + d.leaves()
                    + e.leaves());
                Node::branch6(u, a, b, c, d, e)
            },
            (Tree::Branch3(a, b, c), Tree::Branch2(d, e)) => {
                assert(all =~= u.leaves() + a.leaves() + b.leaves() + c.leaves() + d.leaves()
                    + e.leaves());
                Node::branch6(u, a, b, c, d, e)
            },
            (Tree::Branch3(a, b, c), Tree::Branch3(d, e, f)) => {
                assert(all =~= u.leaves() + a.leaves() + b.leaves() + c.leaves() + d.leaves()
                    + e.leaves() + f.leaves());
                Node::branch7(u, a, b, c, d, e, f)
            },
            _ => unreached(),
        }
    }

    /// One node over a middle child `u` that has become one level lower and its
    /// two siblings `x` and `y`: the children of the siblings join `u`.
    pub(crate) fn merge2(x: Node<K, V>, u: Node<K, V>, y: Node<K, V>) -> (r: Node<K, V>)
        requires
            u.wf(),
            x.wf(),
            y.wf(),
            x.height() == u.height() + 1,
            y.height() == u.height() + 1,
            keys_ascending(x.leaves() + u.leaves() + y.leaves()),
            u.leaves().len() + x.leaves().len() + y.leaves().len() <= usize::MAX,
        ensures
            r.wf(),
            r == Node::merged_middle(x, u, y),
            r.leaves() == x.leaves() + u.leaves() + y.leaves(),
            r.height() == x.height() + 1,
    {
        let ghost all = x.leaves() + u.leaves() + y.leaves();
        proof {
            x.lemma_wf();
            y.lemma_wf();
        }
        match (*x.tree, *y.tree) {
            (Tree::Branch2(a, b), Tree::Branch2(c, d)) => {
                assert(all =~= a.leaves() + b.leaves() + u.leaves() + c.leaves() + d.leaves());
                Node::branch5(a, b, u, c, d)
            },
            (Tree::Branch2(a, b), Tree::Branch3(c, d, e)) => {
                assert(all =~= a.leaves() + b.leaves() + u.leaves() + c.leaves() + d.leaves()
                    + e.leaves());
                Node::branch6(a, b, u, c, d, e)
            },
            (Tree::Branch3(a, b, c), Tree::Branch2(d, e)) => {
                assert(all =~= a.leaves() + b.leaves() + c.leaves() + u.leaves() + d.leaves()
                    + e.leaves());
                Node::branch6(a, b, c, u, d, e)
            },
            (Tree::Branch3(a, b, c), Tree::Branch3(d, e, f)) => {
                assert(all =~= a.leaves() + b.leaves() + c.leaves() + u.leaves() + d.leaves()
                    + e.leaves() + f.leaves());
                Node::branch7(a, b, c, u, d, e, f)
            },
            _ => unreached(),
        }
    }

    /// One node over a last child `u` that has become one level lower and its
    /// two siblings `x` and `y`: the children of the siblings join `u`.
    pub(crate) fn merge3(x: Node<K, V>, y: Node<K, V>, u: Node<K, V>) -> (r: Node<K, V>)
        requires
            u.wf(),
            x.wf(),
            y.wf(),
            x.height() == u.height() + 1,
            y.height() == u.height() + 1,
            keys_ascending(x.leaves() + y.leaves() + u.leaves()),
            u.leaves().len() + x.leaves().len() + y.leaves().len() <= usize::MAX,
        ensures
            r.wf(),
            r == Node::merged_last(x, y, u),
            r.leaves() == x.leaves() + y.leaves() + u.leaves(),
            r.height() == x.height() + 1,
    {
        let ghost all = x.leaves() + y.leaves() + u.leaves();
        proof {
            x.lemma_wf();
            y.lemma_wf();
        }
        match (*x.tree, *y.tree) {
            (Tree::Branch2(a, b), Tree::Branch2(c, d)) => {
                assert(all =~= a.leaves() + b.leaves() + c.leaves() + d.leaves() + u.leaves());
                Node::branch5(a, b, c, d, u)
            },
            (Tree::Branch2(a, b), Tree::Branch3(c, d, e)) => {
                assert(all =~= a.leaves() + b.leaves() + c.leaves() + d.leaves() + e.leaves()
                    + u.leaves());
                Node::branch6(a, b, c, d, e, u)
            },
            (Tree::Branch3(a, b, c), Tree::Branch2(d, e)) => {
                assert(all =~= a.leaves() + b.leaves() + c.leaves() + d.leaves() + e.leaves()
                    + u.leaves());
                Node::branch6(a, b, c, d, e, u)
            },
            (Tree::Branch3(a, b, c), Tree::Branch3(d, e, f)) => {
                assert(all =~= a.leaves() + b.leaves() + c.leaves() + d.leaves() + e.leaves()
                    + f.leaves() + u.leaves());
                Node::branch7(a, b, c, d, e, f, u)
            },
            _ => unreached(),
        }
    }
}

} // verus!
