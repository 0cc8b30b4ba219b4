//! Removal from a subtree: descend to the leaf, then mend what has become
//! too short by borrowing from a sibling or merging with it.

use crate::key_order::{key_lt, less, same};
use crate::node::{Node, Tree};
use crate::sorted_entries::{
    has_key, lemma_ascending_parts, lemma_route_left, lemma_route_right, lemma_single,
    lemma_without_key, value_of, without_key,
};
use vstd::prelude::*;

verus! {

/// What a removal made of a subtree.
pub enum RemoveResult<K: Ord + Clone, V> {
    /// One node of the height that the subtree had.
    SameDepth(Node<K, V>),
    /// One node that is one level lower than the subtree was.
    Underflow(Node<K, V>),
    /// Nothing: the subtree was a leaf, and its entry has gone.
    Empty,
}

impl<K: Ord + Clone, V> RemoveResult<K, V> {
    /// The entries of the result from left to right.
    pub open(crate) spec fn leaves(self) -> Seq<(K, V)> {
        match self {
            RemoveResult::SameDepth(n) => n.leaves(),
            RemoveResult::Underflow(n) => n.leaves(),
            RemoveResult::Empty => Seq::empty(),
        }
    }

    /// The result is valid for a subtree that had height `h`.
    pub open(crate) spec fn wf_at(self, h: nat) -> bool {
        match self {
            RemoveResult::SameDepth(n) => n.wf() && n.height() == h,
            RemoveResult::Underflow(n) => n.wf() && n.height() + 1 == h,
            RemoveResult::Empty => h == 0,
        }
    }

    /// What a branch of two makes of this result for its left child, beside
    /// the right child `right`. Where the left child has gone, the right one
    /// is what is left, one level lower. Where the left child has become one
    /// level lower, it joins the children of the right one: under one node,
    /// one level lower than the branch was, where that makes three of them,
    /// and under two branches of two where that makes four. (In a valid tree
    /// the child beside one that has become lower is no leaf.)
    pub open(crate) spec fn beside_right(self, right: Node<K, V>) -> RemoveResult<K, V> {
        match self {
            RemoveResult::Empty => RemoveResult::Underflow(right),
            RemoveResult::SameDepth(n) => RemoveResult::SameDepth(Node::pair(n, right)),
            RemoveResult::Underflow(n) => match right.shape() {
                Tree::Leaf(_, _) => RemoveResult::Empty,
                Tree::Branch2(a, b) => RemoveResult::Underflow(Node::triple(n, a, b)),
                Tree::Branch3(a, b, c) => RemoveResult::SameDepth(Node::four(n, a, b, c)),
            },
        }
    }

    /// What a branch of two makes of this result for its right child, beside
    /// the left child `left`.
    pub open(crate) spec fn beside_left(self, left: Node<K, V>) -> RemoveResult<K, V> {
        match self {
            RemoveResult::Empty => RemoveResult::Underflow(left),
            RemoveResult::SameDepth(n) => RemoveResult::SameDepth(Node::pair(left, n)),
            RemoveResult::Underflow(n) => match left.shape() {
                Tree::Leaf(_, _) => RemoveResult::Empty,
                Tree::Branch2(a, b) => RemoveResult::Underflow(Node::triple(a, b, n)),
                Tree::Branch3(a, b, c) => RemoveResult::SameDepth(Node::four(a, b, c, n)),
            },
        }
    }

    /// What a branch of three makes of this result for its first child,
    /// before the children `x` and `y`: a branch of the two others where the
    /// child has gone, and a merge where it has become one level lower.
    pub open(crate) spec fn before_two(self, x: Node<K, V>, y: Node<K, V>) -> Node<K, V> {
        match self {
            RemoveResult::Empty => Node::pair(x, y),
            RemoveResult::SameDepth(n) => Node::triple(n, x, y),
            RemoveResult::Underflow(n) => Node::merged_first(n, x, y),
        }
    }

    /// What a branch of three makes of this result for its middle child,
    /// between the children `x` and `y`.
    pub open(crate) spec fn between_two(self, x: Node<K, V>, y: Node<K, V>) -> Node<K, V> {
        match self {
            RemoveResult::Empty => Node::pair(x, y),
            RemoveResult::SameDepth(n) => Node::triple(x, n, y),
            RemoveResult::Underflow(n) => Node::merged_middle(x, n, y),
        }
    }

    /// What a branch of three makes of this result for its last child, after
    /// the children `x` and `y`.
    pub open(crate) spec fn after_two(self, x: Node<K, V>, y: Node<K, V>) -> Node<K, V> {
        match self {
            RemoveResult::Empty => Node::pair(x, y),
            RemoveResult::SameDepth(n) => Node::triple(x, y, n),
            RemoveResult::Underflow(n) => Node::merged_last(x, y, n),
        }
    }
}

impl<K: Ord + Clone, V> Node<K, V> {
    /// What becomes of the subtree when the entry of `key` is removed. The
    /// leaf of `key` goes, any other leaf stays. A branch lets the last child
    /// that does not begin above `key`, or its first child, remove the entry,
    /// and mends what comes back with the help of the other children.
    pub open(crate) spec fn removal(self, key: K) -> RemoveResult<K, V>
        decreases self,
    {
        match *self.tree {
            Tree::Leaf(lk, lv) => {
                if lk == key {
                    RemoveResult::Empty
                } else {
                    RemoveResult::SameDepth(Node::leaf(lk, lv))
                }
            },
            Tree::Branch2(l, r) => {
                if key_lt(key, r.min_key) {
                    l.removal(key).beside_right(r)
                } else {
                    r.removal(key).beside_left(l)
                }
            },
            Tree::Branch3(l, m, r) => {
                if key_lt(key, m.min_key) {
                    RemoveResult::SameDepth(l.removal(key).before_two(m, r))
                } else if key_lt(key, r.min_key) {
                    RemoveResult::SameDepth(m.removal(key).between_two(l, r))
                } else {
                    RemoveResult::SameDepth(r.removal(key).after_two(l, m))
                }
            },
        }
    }

    /// Removes the entry of `key` from the subtree and returns its value, or
    /// returns the subtree as it was and no value where `key` is not in it.
    /// The result is a node of the same height, a node one level lower, or
    /// nothing at all where the subtree was the leaf of `key`.
    #[verifier::rlimit(40)]
    pub fn remove(self, key: &K) -> (r: (RemoveResult<K, V>, Option<V>))
        requires
            self.wf(),
        ensures
            r.0 == self.removal(*key),
            r.0.wf_at(self.height()),
            r.0.leaves() == without_key(self.leaves(), *key),
            r.1 == value_of(self.leaves(), *key),
            !has_key(self.leaves(), *key) ==> r.0 == RemoveResult::SameDepth(self),
        decreases self,
    {
        let ghost before = self.leaves();
        let ghost after = without_key(before, *key);
        proof {
            self.lemma_wf();
            self.lemma_wrapped();
            lemma_without_key(before, *key);
        }
        match *self.tree {
            Tree::Leaf(lk, lv) => {
                proof {
                    lemma_single((lk, lv), *key, lv);
                }
                if same(&lk, key) {
                    (RemoveResult::Empty, Some(lv))
                } else {
                    (RemoveResult::SameDepth(Node::singleton(lk, lv)), None)
                }
            },
            Tree::Branch2(left, right) => {
                proof {
                    left.lemma_wf();
                    right.lemma_wf();
                }
                if less(key, &right.min_key) {
                    proof {
                        lemma_route_left(left.leaves(), right.leaves(), *key);
                    }
                    match left.remove(key) {
                        (RemoveResult::Empty, result) => {
                            proof {
                                assert(after =~= right.leaves());
                            }
                            (RemoveResult::Underflow(right), result)
                        },
                        (RemoveResult::SameDepth(new_left), result) => {
                            (RemoveResult::SameDepth(Node::branch2(new_left, right)), result)
                        },
                        (RemoveResult::Underflow(new_left), result) => {
                            proof {
                                right.lemma_shape();
                            }
                            match *right.tree {
                                Tree::Leaf(_k, _v) => unreached(),
                                Tree::Branch2(right_left, right_right) => {
                                    proof {
                                        assert(new_left.leaves() + right_left.leaves()
                                            + right_right.leaves() =~= after);
                                    }
                                    (
                                        RemoveResult::Underflow(
                                            Node::branch3(new_left, right_left, right_right),
                                        ),
                                        result,
                                    )
                                },
                                Tree::Branch3(right_left, right_middle, right_right) => {
                                    proof {
                                        assert(new_left.leaves() + right_left.leaves()
                                            + right_middle.leaves() + right_right.leaves()
                                            =~= after);
                                    }
                                    (
                                        RemoveResult::SameDepth(
                                            Node::branch4(
                                                new_left,
                                                right_left,
                                                right_middle,
                                                right_right,
                                            ),
                                        ),
                                        result,
                                    )
                                },
                            }
                        },
                    }
                } else {
                    proof {
                        lemma_route_right(left.leaves(), right.leaves(), *key);
                    }
                    match right.remove(key) {
                        (RemoveResult::Empty, result) => {
                            proof {
                                assert(after =~= left.leaves());
                            }
                            (RemoveResult::Underflow(left), result)
                        },
                        (RemoveResult::SameDepth(new_right), result) => {
                            (RemoveResult::SameDepth(Node::branch2(left, new_right)), result)
                        },
                        (RemoveResult::Underflow(new_right), result) => {
                            proof {
                                left.lemma_shape();
                            }
                            match *left.tree {
                                Tree::Leaf(_k, _v) => unreached(),
                                Tree::Branch2(left_left, left_right) => {
                                    proof {
                                        assert(left_left.leaves() + left_right.leaves()
                                            + new_right.leaves() =~= after);
                                    }
                                    (
                                        RemoveResult::Underflow(
                                            Node::branch3(left_left, left_right, new_right),
                                        ),
                                        result,
                                    )
                                },
                                Tree::Branch3(left_left, left_middle, left_right) => {
                                    proof {
                                        assert(left_left.leaves() + left_middle.leaves()
                                            + left_right.leaves() + new_right.leaves() =~= after);
                                    }
                                    (
                                        RemoveResult::SameDepth(
                                            Node::branch4(
                                                left_left,
                                                left_middle,
                                                left_right,
                                                new_right,
                                            ),
                                        ),
                                        result,
                                    )
                                },
                            }
                        },
                    }
                }
            },
            Tree::Branch3(left, middle, right) => {
                proof {
                    left.lemma_wf();
                    middle.lemma_wf();
                    right.lemma_wf();
                }
                if less(key, &middle.min_key) {
                    proof {
                        assert(before =~= left.leaves() + (middle.leaves() + right.leaves()));
                        lemma_route_left(left.leaves(), middle.leaves() + right.leaves(), *key);
                    }
                    match left.remove(key) {
                        (RemoveResult::Empty, result) => {
                            proof {
                                assert(after =~= middle.leaves() + right.leaves());
                            }
                            (RemoveResult::SameDepth(Node::branch2(middle, right)), result)
                        },
                        (RemoveResult::SameDepth(new_left), result) => {
                            proof {
                                assert(new_left.leaves() + middle.leaves() + right.leaves()
                                    =~= after);
                            }
                            (
                                RemoveResult::SameDepth(Node::branch3(new_left, middle, right)),
                                result,
                            )
                        },
                        (RemoveResult::Underflow(new_left), result) => {
                            proof {
                                assert(new_left.leaves() + middle.leaves() + right.leaves()
                                    =~= after);
                            }
                            (
                                RemoveResult::SameDepth(Node::merge1(new_left, middle, right)),
                                result,
                            )
                        },
                    }
                } else if less(key, &right.min_key) {
                    proof {
                        lemma_ascending_parts(left.leaves() + middle.leaves(), right.leaves());
                        lemma_route_left(left.leaves() + middle.leaves(), right.leaves(), *key);
                        lemma_route_right(left.leaves(), middle.leaves(), *key);
                    }
                    match middle.remove(key) {
                        (RemoveResult::Empty, result) => {
                            proof {
                                assert(after =~= left.leaves() + right.leaves());
                            }
                            (RemoveResult::SameDepth(Node::branch2(left, right)), result)
                        },
                        (RemoveResult::SameDepth(new_middle), result) => {
                            (
                                RemoveResult::SameDepth(Node::branch3(left, new_middle, right)),
                                result,
                            )
                        },
                        (RemoveResult::Underflow(new_middle), result) => {
                            (
                                RemoveResult::SameDepth(Node::merge2(left, new_middle, right)),
                                result,
                            )
                        },
                    }
                } else {
                    proof {
                        lemma_route_right(left.leaves() + middle.leaves(), right.leaves(), *key);
                    }
                    match right.remove(key) {
                        (RemoveResult::Empty, result) => {
                            proof {
                                assert(after =~= left.leaves() + middle.leaves());
                            }
                            (RemoveResult::SameDepth(Node::branch2(left, middle)), result)
                        },
                        (RemoveResult::SameDepth(new_right), result) => {
                            (
                                RemoveResult::SameDepth(Node::branch3(left, middle, new_right)),
                                result,
                            )
                        },
                        (RemoveResult::Underflow(new_right), result) => {
                            (
                                RemoveResult::SameDepth(Node::merge3(left, middle, new_right)),
                                result,
                            )
                        },
                    }
                }
            },
        }
    }
}

} // verus!
