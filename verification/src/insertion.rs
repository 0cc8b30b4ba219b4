//! Insertion into a subtree: descend to the leaf, then hand splits upward.

use crate::key_order::{key_lt, less, same};
use crate::node::{Node, Tree};
use crate::sorted_entries::{
    has_key, lemma_ascending_parts, lemma_route_left, lemma_route_right, lemma_single,
    lemma_with_entry, with_entry,
};
use vstd::prelude::*;

verus! {

/// What an insertion made of a subtree.
pub enum InsertResult<K: Ord + Clone, V> {
    /// One node of the height that the subtree had.
    SameDepth(Node<K, V>),
    /// Two nodes of that height, in key order, for the parent to take in.
    Overflow(Node<K, V>, Node<K, V>),
}

impl<K: Ord + Clone, V> InsertResult<K, V> {
    /// The entries of the result from left to right.
    pub open(crate) spec fn leaves(self) -> Seq<(K, V)> {
        match self {
            InsertResult::SameDepth(n) => n.leaves(),
            InsertResult::Overflow(l, r) => l.leaves() + r.leaves(),
        }
    }

    /// The nodes of the result are valid and of height `h`.
    pub open(crate) spec fn wf_at(self, h: nat) -> bool {
        match self {
            InsertResult::SameDepth(n) => n.wf() && n.height() == h,
            InsertResult::Overflow(l, r) => l.wf() && r.wf() && l.height() == h && r.height() == h,
        }
    }
}

impl<K: Ord + Clone, V> Node<K, V> {
    /// What becomes of the subtree when `key` is given the value `value`. A
    /// leaf of `key` is replaced, any other leaf becomes two leaves. A branch
    /// hands the entry to the last child that does not begin above `key`, or
    /// to its first child, and takes the result in: one node in place of the
    /// child; or two in its place, which makes a branch of two a branch of
    /// three, and splits a branch of three into two branches of two.
    pub open(crate) spec fn insertion(self, key: K, value: V) -> InsertResult<K, V>
        decreases self,
    {
        match *self.tree {
            Tree::Leaf(lk, lv) => {
                if key == lk {
                    InsertResult::SameDepth(Node::leaf(key, value))
                } else if key_lt(key, lk) {
                    InsertResult::Overflow(Node::leaf(key, value), Node::leaf(lk, lv))
                } else {
                    InsertResult::Overflow(Node::leaf(lk, lv), Node::leaf(key, value))
                }
            },
            Tree::Branch2(l, r) => {
                if key_lt(key, r.min_key) {
                    match l.insertion(key, value) {
                        InsertResult::SameDepth(n) => InsertResult::SameDepth(Node::pair(n, r)),
                        InsertResult::Overflow(n, m) => InsertResult::SameDepth(
                            Node::triple(n, m, r),
                        ),
                    }
                } else {
                    match r.insertion(key, value) {
                        InsertResult::SameDepth(n) => InsertResult::SameDepth(Node::pair(l, n)),
                        InsertResult::Overflow(m, n) => InsertResult::SameDepth(
                            Node::triple(l, m, n),
                        ),
                    }
                }
            },
            Tree::Branch3(l, m, r) => {
                if key_lt(key, m.min_key) {
                    match l.insertion(key, value) {
                        InsertResult::SameDepth(n) => InsertResult::SameDepth(
                            Node::triple(n, m, r),
                        ),
                        InsertResult::Overflow(a, b) => InsertResult::Overflow(
                            Node::pair(a, b),
                            Node::pair(m, r),
                        ),
                    }
                } else if key_lt(key, r.min_key) {
                    match m.insertion(key, value) {
                        InsertResult::SameDepth(n) => InsertResult::SameDepth(
                            Node::triple(l, n, r),
                        ),
                        InsertResult::Overflow(a, b) => InsertResult::Overflow(
                            Node::pair(l, a),
                            Node::pair(b, r),
                        ),
                    }
                } else {
                    match r.insertion(key, value) {
                        InsertResult::SameDepth(n) => InsertResult::SameDepth(
                            Node::triple(l, m, n),
                        ),
                        InsertResult::Overflow(a, b) => InsertResult::Overflow(
                            Node::pair(l, m),
                            Node::pair(a, b),
                        ),
                    }
                }
            },
        }
    }

    /// Gives `key` the value `value` in the subtree. The entries of the result
    /// are those of the subtree with that entry set; the height does not
    /// change, but where the subtree cannot hold one entry more the result is
    /// two nodes. A key that the subtree holds already gets the new value in
    /// place, which never makes two nodes.
    #[verifier::rlimit(40)]
    pub(crate) fn insert(self, key: K, value: V) -> (r: InsertResult<K, V>)
        requires
            self.wf(),
            self.leaves().len() < usize::MAX,
        ensures
            r == self.insertion(key, value),
            r.wf_at(self.height()),
            r.leaves() == with_entry(self.leaves(), key, value),
            has_key(self.leaves(), key) ==> r is SameDepth,
        decreases self,
    {
        let ghost before = self.leaves();
        let ghost after = with_entry(before, key, value);
        proof {
            self.lemma_wf();
            lemma_with_entry(before, key, value);
        }
        match *self.tree {
            Tree::Leaf(lk, lv) => {
                proof {
                    lemma_single((lk, lv), key, value);
                }
                if same(&key, &lk) {
                    InsertResult::SameDepth(Node::singleton(key, value))
                } else if less(&key, &lk) {
                    InsertResult::Overflow(Node::singleton(key, value), Node::singleton(lk, lv))
                } else {
                    InsertResult::Overflow(Node::singleton(lk, lv), Node::singleton(key, value))
                }
            },
            Tree::Branch2(left, right) => {
                proof {
                    left.lemma_wf();
                    right.lemma_wf();
                }
                if less(&key, &right.min_key) {
                    proof {
                        lemma_route_left(left.leaves(), right.leaves(), key);
                    }
                    match left.insert(key, value) {
                        InsertResult::SameDepth(new_left) => {
                            InsertResult::SameDepth(Node::branch2(new_left, right))
                        },
                        InsertResult::Overflow(new_left, middle) => {
                            InsertResult::SameDepth(Node::branch3(new_left, middle, right))
                        },
                    }
                } else {
                    proof {
                        lemma_route_right(left.leaves(), right.leaves(), key);
                    }
                    match right.insert(key, value) {
                        InsertResult::SameDepth(new_right) => {
                            InsertResult::SameDepth(Node::branch2(left, new_right))
                        },
                        InsertResult::Overflow(middle, new_right) => {
                            proof {
                                assert(left.leaves() + middle.leaves() + new_right.leaves()
                                    =~= after);
                            }
                            InsertResult::SameDepth(Node::branch3(left, middle, new_right))
                        },
                    }
                }
            },
            Tree::Branch3(left, middle, right) => {
                proof {
                    left.lemma_wf();
                    middle.lemma_wf();
                    right.lemma_wf();
                }
                if less(&key, &middle.min_key) {
                    proof {
                        assert(before =~= left.leaves() + (middle.leaves() + right.leaves()));
                        lemma_route_left(left.leaves(), middle.leaves() + right.leaves(), key);
                    }
                    match left.insert(key, value) {
                        InsertResult::SameDepth(new_left) => {
                            proof {
                                assert(new_left.leaves() + middle.leaves() + right.leaves()
                                    =~= after);
                            }
                            InsertResult::SameDepth(Node::branch3(new_left, middle, right))
                        },
                        InsertResult::Overflow(new_left, new_middle) => {
                            proof {
                                lemma_ascending_parts(
                                    new_left.leaves() + new_middle.leaves(),
                                    middle.leaves() + right.leaves(),
                                );
                            }
                            InsertResult::Overflow(
                                Node::branch2(new_left, new_middle),
                                Node::branch2(middle, right),
                            )
                        },
                    }
                } else if less(&key, &right.min_key) {
                    proof {
                        lemma_ascending_parts(left.leaves() + middle.leaves(), right.leaves());
                        lemma_route_left(left.leaves() + middle.leaves(), right.leaves(), key);
                        lemma_route_right(left.leaves(), middle.leaves(), key);
                    }
                    match middle.insert(key, value) {
                        InsertResult::SameDepth(new_middle) => {
                            InsertResult::SameDepth(Node::branch3(left, new_middle, right))
                        },
                        InsertResult::Overflow(l_middle, r_middle) => {
                            proof {
                                assert((left.leaves() + l_middle.leaves()) + (r_middle.leaves()
                                    + right.leaves()) =~= after);
                                lemma_ascending_parts(
                                    left.leaves() + l_middle.leaves(),
                                    r_middle.leaves() + right.leaves(),
                                );
                            }
                            InsertResult::Overflow(
                                Node::branch2(left, l_middle),
                                Node::branch2(r_middle, right),
                            )
                        },
                    }
                } else {
                    proof {
                        lemma_route_right(left.leaves() + middle.leaves(), right.leaves(), key);
                    }
                    match right.insert(key, value) {
                        InsertResult::SameDepth(new_right) => {
                            InsertResult::SameDepth(Node::branch3(left, middle, new_right))
                        },
                        InsertResult::Overflow(new_middle, new_right) => {
                            proof {
                                assert((left.leaves() + middle.leaves()) + (new_middle.leaves()
                                    + new_right.leaves()) =~= after);
                                lemma_ascending_parts(
                                    left.leaves() + middle.leaves(),
                                    new_middle.leaves() + new_right.leaves(),
                                );
                            }
                            InsertResult::Overflow(
                                Node::branch2(left, middle),
                                Node::branch2(new_middle, new_right),
                            )
                        },
                    }
                }
            },
        }
    }
}

} // verus!
