//! The cursor: a position at one leaf of the tree together with the path of
//! branches that leads to it, so that it can move on without starting at the
//! root again.

use crate::key_order::{key_le, key_lt, lawful_key, lemma_le_lt_transitive, lemma_trichotomy, less};
use crate::node::{Node, Tree};
use crate::sorted_entries::{
    keys_ascending, lemma_ascending_at, lemma_lower_bound, lemma_lower_bound_beside,
    lemma_lower_bound_is, seek_rank,
};
use vstd::prelude::*;

verus! {

/// The place of a child among the children of a branch.
pub enum TreeContext {
    Branch2Left,
    Branch2Right,
    Branch3Left,
    Branch3Middle,
    Branch3Right,
}

/// One step of a path: a branch and the child at which the path goes on.
pub struct NodeContext<'a, K: Ord + Clone, V> {
    pub(crate) context: TreeContext,
    pub(crate) node: &'a Node<K, V>,
}

/// A cursor at one entry of a map.
pub struct TreeZipper<'a, K: Ord + Clone, V> {
    pub(crate) stack: Vec<NodeContext<'a, K, V>>,
    pub(crate) focus: (&'a K, &'a V),
}

impl<'a, K: Ord + Clone, V> NodeContext<'a, K, V> {
    /// The branch has a child at the place that the step names.
    pub open(crate) spec fn fits(self) -> bool {
        match (self.context, self.node.shape()) {
            (TreeContext::Branch2Left, Tree::Branch2(_, _)) => true,
            (TreeContext::Branch2Right, Tree::Branch2(_, _)) => true,
            (TreeContext::Branch3Left, Tree::Branch3(_, _, _)) => true,
            (TreeContext::Branch3Middle, Tree::Branch3(_, _, _)) => true,
            (TreeContext::Branch3Right, Tree::Branch3(_, _, _)) => true,
            _ => false,
        }
    }

    /// The child at which the path goes on.
    pub open(crate) spec fn child(self) -> Node<K, V> {
        match (self.context, self.node.shape()) {
            (TreeContext::Branch2Left, Tree::Branch2(a, _)) => a,
            (TreeContext::Branch2Right, Tree::Branch2(_, b)) => b,
            (TreeContext::Branch3Left, Tree::Branch3(a, _, _)) => a,
            (TreeContext::Branch3Middle, Tree::Branch3(_, b, _)) => b,
            (TreeContext::Branch3Right, Tree::Branch3(_, _, c)) => c,
            _ => *self.node,
        }
    }

    /// The number of entries of the branch that lie before that child.
    pub open(crate) spec fn skipped(self) -> int {
        match (self.context, self.node.shape()) {
            (TreeContext::Branch2Right, Tree::Branch2(a, _)) => a.leaves().len() as int,
            (TreeContext::Branch3Middle, Tree::Branch3(a, _, _)) => a.leaves().len() as int,
            (TreeContext::Branch3Right, Tree::Branch3(a, b, _)) => (a.leaves().len()
                + b.leaves().len()) as int,
            _ => 0,
        }
    }
}

/// The steps lead from `root` down to `target`, each to a child of the branch
/// before it.
pub open(crate) spec fn chain<'a, K: Ord + Clone, V>(
    root: Node<K, V>,
    steps: Seq<NodeContext<'a, K, V>>,
    target: Node<K, V>,
) -> bool
    decreases steps.len(),
{
    if steps.len() == 0 {
        target == root
    } else {
        &&& steps.last().fits()
        &&& steps.last().child() == target
        &&& chain(root, steps.drop_last(), *steps.last().node)
    }
}

/// The number of entries that lie before the place to which the steps lead.
pub open(crate) spec fn offset<'a, K: Ord + Clone, V>(steps: Seq<NodeContext<'a, K, V>>) -> int
    decreases steps.len(),
{
    if steps.len() == 0 {
        0
    } else {
        offset(steps.drop_last()) + steps.last().skipped()
    }
}

/// A path that is lengthened by a step into a child of its target.
pub(crate) proof fn lemma_chain_push<'a, K: Ord + Clone, V>(
    root: Node<K, V>,
    steps: Seq<NodeContext<'a, K, V>>,
    step: NodeContext<'a, K, V>,
)
    requires
        chain(root, steps, *step.node),
        step.fits(),
    ensures
        chain(root, steps.push(step), step.child()),
        offset(steps.push(step)) == offset(steps) + step.skipped(),
{
    assert(steps.push(step).drop_last() =~= steps);
}

/// The target of a path is a valid node whose entries stand in those of the
/// root from `offset` on; the path is as long as the target lies deep.
pub(crate) proof fn lemma_chain_window<'a, K: Ord + Clone, V>(
    root: Node<K, V>,
    steps: Seq<NodeContext<'a, K, V>>,
    target: Node<K, V>,
)
    requires
        root.wf(),
        chain(root, steps, target),
    ensures
        target.wf(),
        steps.len() > 0 ==> *steps[0].node == root,
        target.height() + steps.len() == root.height(),
        0 <= offset(steps),
        offset(steps) + target.leaves().len() <= root.leaves().len(),
        root.leaves().subrange(offset(steps), offset(steps) + target.leaves().len())
            == target.leaves(),
    decreases steps.len(),
{
    if steps.len() == 0 {
        assert(root.leaves().subrange(0, root.leaves().len() as int) =~= root.leaves());
    } else {
        let step = steps.last();
        let branch = *step.node;
        let rest = steps.drop_last();
        lemma_chain_window(root, rest, branch);
        branch.lemma_wf();
        branch.lemma_shape();
        let o = offset(rest);
        let window = root.leaves().subrange(o, o + branch.leaves().len());
        let s = step.skipped();
        assert(window.subrange(s, s + target.leaves().len()) =~= target.leaves());
        assert(root.leaves().subrange(o + s, o + s + target.leaves().len())
            =~= window.subrange(s, s + target.leaves().len()));
        if rest.len() > 0 {
            assert(rest[0] == steps[0]);
        } else {
            assert(chain(root, rest, branch));
        }
    }
}

/// Two paths of one length from one root whose targets both hold the entry
/// of rank `at` are one path to one target.
pub(crate) proof fn lemma_chain_is_determined<'a, K: Ord + Clone, V>(
    root: Node<K, V>,
    steps: Seq<NodeContext<'a, K, V>>,
    target: Node<K, V>,
    other_steps: Seq<NodeContext<'a, K, V>>,
    other_target: Node<K, V>,
    at: int,
)
    requires
        root.wf(),
        chain(root, steps, target),
        chain(root, other_steps, other_target),
        steps.len() == other_steps.len(),
        offset(steps) <= at < offset(steps) + target.leaves().len(),
        offset(other_steps) <= at < offset(other_steps) + other_target.leaves().len(),
    ensures
        steps == other_steps,
        target == other_target,
    decreases steps.len(),
{
    if steps.len() == 0 {
        assert(steps =~= other_steps);
    } else {
        let step = steps.last();
        let other = other_steps.last();
        lemma_chain_window(root, steps.drop_last(), *step.node);
        lemma_chain_window(root, other_steps.drop_last(), *other.node);
        step.node.lemma_wf();
        step.node.lemma_shape();
        other.node.lemma_wf();
        other.node.lemma_shape();
        match step.node.shape() {
            Tree::Leaf(_, _) => {},
            Tree::Branch2(a, b) => {
                a.lemma_wf();
                b.lemma_wf();
            },
            Tree::Branch3(a, b, c) => {
                a.lemma_wf();
                b.lemma_wf();
                c.lemma_wf();
            },
        }
        match other.node.shape() {
            Tree::Leaf(_, _) => {},
            Tree::Branch2(a, b) => {
                a.lemma_wf();
                b.lemma_wf();
            },
            Tree::Branch3(a, b, c) => {
                a.lemma_wf();
                b.lemma_wf();
                c.lemma_wf();
            },
        }
        lemma_chain_is_determined(
            root,
            steps.drop_last(),
            *step.node,
            other_steps.drop_last(),
            *other.node,
            at,
        );
        assert(step.context == other.context);
        assert(step == other);
        assert(steps =~= steps.drop_last().push(step));
        assert(other_steps =~= other_steps.drop_last().push(other));
    }
}

/// An entry of a window of `all` is the entry of `all` at the same place.
pub(crate) proof fn lemma_window_at<T>(all: Seq<T>, base: int, window: Seq<T>, i: int)
    requires
        0 <= base,
        base + window.len() <= all.len(),
        all.subrange(base, base + window.len()) == window,
        0 <= i < window.len(),
    ensures
        all[base + i] == window[i],
{
    assert(all.subrange(base, base + window.len())[i] == all[base + i]);
}

/// How far a climb along the path is from its end: every step that the climb
/// takes makes this smaller.
pub open(crate) spec fn climb_remaining<'a, K: Ord + Clone, V>(
    steps: Seq<NodeContext<'a, K, V>>,
) -> int {
    if steps.len() == 0 {
        0
    } else {
        3 * steps.len() - match steps.last().context {
            TreeContext::Branch2Left => 0int,
            TreeContext::Branch3Left => 0int,
            TreeContext::Branch3Middle => 1int,
            TreeContext::Branch2Right => 2int,
            TreeContext::Branch3Right => 2int,
        }
    }
}

impl<'a, K: Ord + Clone, V> TreeZipper<'a, K, V> {
    /// The leaf at which the cursor stands, as a node.
    pub open(crate) spec fn leaf(self) -> Node<K, V> {
        Node {
            min_key: *self.focus.0,
            size: 1,
            tree: Box::new(Tree::Leaf(*self.focus.0, *self.focus.1)),
        }
    }

    /// The root of the tree that the cursor walks.
    pub open(crate) spec fn root(self) -> Node<K, V> {
        if self.stack@.len() == 0 {
            self.leaf()
        } else {
            *self.stack@[0].node
        }
    }

    /// The cursor stands at a leaf of a valid tree, and its path leads from
    /// the root of that tree to that leaf.
    pub open(crate) spec fn wf(self) -> bool {
        &&& self.root().wf()
        &&& chain(self.root(), self.stack@, self.leaf())
    }

    /// The entries of the map that the cursor walks, in ascending key order.
    pub open(crate) spec fn entries(self) -> Seq<(K, V)> {
        self.root().leaves()
    }

    /// The path from the root to the leaf at which the cursor stands.
    pub open(crate) spec fn path(self) -> Seq<NodeContext<'a, K, V>> {
        self.stack@
    }

    /// The number of steps on the path from the root to the cursor.
    pub open(crate) spec fn path_length(self) -> nat {
        self.stack@.len()
    }

    /// The rank of the entry at which the cursor stands.
    pub open(crate) spec fn rank(self) -> nat {
        offset(self.stack@) as nat
    }

    /// A valid cursor stands at an entry of its map.
    pub proof fn lemma_rank_in_range(self)
        requires
            self.wf(),
        ensures
            lawful_key::<K>(),
            keys_ascending(self.entries()),
            self.rank() < self.entries().len(),
            self.entries()[self.rank() as int] == (*self.focus_spec().0, *self.focus_spec().1),
    {
        lemma_chain_window(self.root(), self.stack@, self.leaf());
        self.root().lemma_wf();
        let o = self.rank() as int;
        assert(self.entries().subrange(o, o + 1)[0] == self.entries()[o]);
    }

    /// The key and the value at which the cursor stands.
    pub open(crate) spec fn focus_spec(self) -> (&'a K, &'a V) {
        self.focus
    }

    /// The key and the value at which the cursor stands.
    pub fn into_focus(self) -> (r: (&'a K, &'a V))
        requires
            self.wf(),
        ensures
            (*r.0, *r.1) == self.entries()[self.rank() as int],
            r == self.focus_spec(),
    {
        proof {
            self.lemma_rank_in_range();
        }
        self.focus
    }

    /// The key and the value at which the cursor stands.
    pub fn focus(&self) -> (r: (&K, &V))
        requires
            self.wf(),
        ensures
            (*r.0, *r.1) == self.entries()[self.rank() as int],
            r == self.focus_spec(),
    {
        proof {
            self.lemma_rank_in_range();
        }
        (self.focus.0, self.focus.1)
    }

    /// Moves the cursor forward to the first entry whose key is not smaller
    /// than `k`, and leaves it where it stands if that entry's key is not
    /// smaller already. There is no cursor where every entry from the cursor
    /// on has a key smaller than `k`.
    ///
    /// The cursor climbs to the lowest subtree around it whose next neighbour
    /// to the right begins above `k`, goes down in it to the last entry that
    /// is not above `k`, and steps on by one if that entry is below `k`.
    pub fn advance_to(self, k: &K) -> (r: Option<TreeZipper<'a, K, V>>)
        requires
            self.wf(),
        ensures
            r.is_some() == (seek_rank(self.entries(), self.rank() as int, *k)
                < self.entries().len()),
            r matches Some(z) ==> z.wf() && z.root() == self.root()
                && z.entries() == self.entries()
                && z.rank() == seek_rank(self.entries(), self.rank() as int, *k),
    {
        let ghost root = self.root();
        let ghost entries = self.entries();
        let ghost start = self.rank() as int;
        proof {
            self.lemma_rank_in_range();
            self.leaf().lemma_shape();
            lemma_chain_window(root, self.stack@, self.leaf());
            lemma_lower_bound(entries, *k);
        }
        if !less(self.focus.0, k) {
            return Some(self);
        }
        // The climb. `done` is the subtree at the end of the path; it begins
        // at or below `k`, and `behind` is the same subtree once the climb
        // has a reference to it. The climb ends at the subtree `under` whose
        // neighbour to the right begins above `k`, or at the root.
        let ghost mut done = self.leaf();
        let mut stack = self.stack;
        let mut behind: Option<&'a Node<K, V>> = None;
        let mut under: Option<&'a Node<K, V>> = None;
        loop
            invariant_except_break
                under.is_none(),
                chain(root, stack@, done),
                key_le(done.leaves()[0].0, *k),
                behind matches Some(d) ==> *d == done,
                behind.is_none() ==> done.leaves() =~= seq![entries[start]]
                    && stack@.len() == self.stack@.len(),
            invariant
                root.wf(),
                root == self.root(),
                entries == root.leaves(),
                start == self.rank(),
                0 <= start < entries.len(),
                key_lt(entries[start].0, *k),
            ensures
                under matches Some(t) && t.wf() && chain(root, stack@, *t)
                    && key_le(t.leaves()[0].0, *k)
                    && (offset(stack@) + t.leaves().len() < entries.len()
                        ==> key_lt(*k, entries[offset(stack@) + t.leaves().len()].0)),
            decreases climb_remaining(stack@),
        {
            let ghost path = stack@;
            proof {
                root.lemma_wf();
                lemma_chain_window(root, path, done);
            }
            match stack.pop() {
                None => {
                    match behind {
                        None => {
                            proof {
                                assert(entries =~= seq![entries[start]]);
                                lemma_lower_bound_is(entries, *k, 1);
                            }
                            return None;
                        },
                        Some(top) => {
                            under = Some(top);
                            break;
                        },
                    }
                },
                Some(step) => {
                    proof {
                        lemma_chain_window(root, path.drop_last(), *step.node);
                        step.node.lemma_wf();
                        step.node.lemma_shape();
                    }
                    let ghost base = offset(path.drop_last());
                    let ghost window = step.node.leaves();
                    match step.context {
                        TreeContext::Branch2Left => {
                            match &*step.node.tree {
                                Tree::Branch2(left, right) => {
                                    proof {
                                        left.lemma_wf();
                                        right.lemma_wf();
                                        lemma_trichotomy(*k, right.min_key);
                                        let at = left.leaves().len();
                                        lemma_window_at(entries, base, window, at as int);
                                    }
                                    if less(k, &right.min_key) {
                                        proof {
                                            lemma_chain_push(root, stack@, step);
                                        }
                                        stack.push(step);
                                        under = Some(left);
                                        break;
                                    } else {
                                        let turn = NodeContext {
                                            context: TreeContext::Branch2Right,
                                            node: step.node,
                                        };
                                        proof {
                                            lemma_chain_push(root, stack@, turn);
                                            done = *right;
                                        }
                                        stack.push(turn);
                                        behind = Some(right);
                                    }
                                },
                                _ => {
                                    unreached::<()>();
                                },
                            }
                        },
                        TreeContext::Branch2Right => {
                            proof {
                                match step.node.shape() {
                                    Tree::Branch2(a, b) => {
                                        a.lemma_wf();
                                        b.lemma_wf();
                                        lemma_ascending_at(window, 0, a.leaves().len() as int);
                                        lemma_le_lt_transitive(window[0].0, b.leaves()[0].0, *k);
                                    },
                                    _ => {},
                                }
                                done = *step.node;
                            }
                            behind = Some(step.node);
                        },
                        TreeContext::Branch3Left => {
                            match &*step.node.tree {
                                Tree::Branch3(left, middle, _right) => {
                                    proof {
                                        left.lemma_wf();
                                        middle.lemma_wf();
                                        _right.lemma_wf();
                                        lemma_trichotomy(*k, middle.min_key);
                                        let at = left.leaves().len();
                                        lemma_window_at(entries, base, window, at as int);
                                    }
                                    if less(k, &middle.min_key) {
                                        proof {
                                            lemma_chain_push(root, stack@, step);
                                        }
                                        stack.push(step);
                                        under = Some(left);
                                        break;
                                    } else {
                                        let turn = NodeContext {
                                            context: TreeContext::Branch3Middle,
                                            node: step.node,
                                        };
                                        proof {
                                            lemma_chain_push(root, stack@, turn);
                                            done = *middle;
                                        }
                                        stack.push(turn);
                                        behind = Some(middle);
                                    }
                                },
                                _ => {
                                    unreached::<()>();
                                },
                            }
                        },
                        TreeContext::Branch3Middle => {
                            match &*step.node.tree {
                                Tree::Branch3(_left, middle, right) => {
                                    proof {
                                        _left.lemma_wf();
                                        middle.lemma_wf();
                                        right.lemma_wf();
                                        lemma_trichotomy(*k, right.min_key);
                                        let at = _left.leaves().len() + middle.leaves().len();
                                        lemma_window_at(entries, base, window, at as int);
                                    }
                                    if less(k, &right.min_key) {
                                        proof {
                                            lemma_chain_push(root, stack@, step);
                                        }
                                        stack.push(step);
                                        under = Some(middle);
                                        break;
                                    } else {
                                        let turn = NodeContext {
                                            context: TreeContext::Branch3Right,
                                            node: step.node,
                                        };
                                        proof {
                                            lemma_chain_push(root, stack@, turn);
                                            done = *right;
                                        }
                                        stack.push(turn);
                                        behind = Some(right);
                                    }
                                },
                                _ => {
                                    unreached::<()>();
                                },
                            }
                        },
                        TreeContext::Branch3Right => {
                            proof {
                                match step.node.shape() {
                                    Tree::Branch3(a, b, c) => {
                                        a.lemma_wf();
                                        b.lemma_wf();
                                        c.lemma_wf();
                                        let at = (a.leaves().len() + b.leaves().len()) as int;
                                        lemma_ascending_at(window, 0, at);
                                        lemma_le_lt_transitive(window[0].0, c.leaves()[0].0, *k);
                                    },
                                    _ => {},
                                }
                                done = *step.node;
                            }
                            behind = Some(step.node);
                        },
                    }
                },
            }
        }
        // The way down. `focus` begins at or below `k`, and what follows it
        // begins above `k`: the last entry that is not above `k` is in it.
        let mut focus: &'a Node<K, V> = under.unwrap();
        loop
            invariant
                root.wf(),
                root == self.root(),
                entries == root.leaves(),
                start == self.rank(),
                0 <= start < entries.len(),
                key_lt(entries[start].0, *k),
                focus.wf(),
                chain(root, stack@, *focus),
                key_le(focus.leaves()[0].0, *k),
                offset(stack@) + focus.leaves().len() < entries.len()
                    ==> key_lt(*k, entries[offset(stack@) + focus.leaves().len()].0),
            decreases focus.height(),
        {
            let ghost base = offset(stack@);
            let ghost window = focus.leaves();
            proof {
                root.lemma_wf();
                focus.lemma_wf();
                focus.lemma_shape();
                lemma_chain_window(root, stack@, *focus);
            }
            match &*focus.tree {
                Tree::Branch2(left, right) => {
                    proof {
                        left.lemma_wf();
                        right.lemma_wf();
                        lemma_trichotomy(*k, right.min_key);
                        lemma_window_at(entries, base, window, left.leaves().len() as int);
                    }
                    if less(k, &right.min_key) {
                        let step = NodeContext { context: TreeContext::Branch2Left, node: focus };
                        proof {
                            lemma_chain_push(root, stack@, step);
                        }
                        stack.push(step);
                        focus = left;
                    } else {
                        let step = NodeContext { context: TreeContext::Branch2Right, node: focus };
                        proof {
                            lemma_chain_push(root, stack@, step);
                        }
                        stack.push(step);
                        focus = right;
                    }
                },
                Tree::Branch3(left, middle, right) => {
                    proof {
                        left.lemma_wf();
                        middle.lemma_wf();
                        right.lemma_wf();
                        lemma_trichotomy(*k, middle.min_key);
                        lemma_trichotomy(*k, right.min_key);
                        let at = left.leaves().len() + middle.leaves().len();
                        lemma_window_at(entries, base, window, left.leaves().len() as int);
                        lemma_window_at(entries, base, window, at as int);
                    }
                    if less(k, &middle.min_key) {
                        let step = NodeContext { context: TreeContext::Branch3Left, node: focus };
                        proof {
                            lemma_chain_push(root, stack@, step);
                        }
                        stack.push(step);
                        focus = left;
                    } else if less(k, &right.min_key) {
                        let step = NodeContext { context: TreeContext::Branch3Middle, node: focus };
                        proof {
                            lemma_chain_push(root, stack@, step);
                        }
                        stack.push(step);
                        focus = middle;
                    } else {
                        let step = NodeContext { context: TreeContext::Branch3Right, node: focus };
                        proof {
                            lemma_chain_push(root, stack@, step);
                        }
                        stack.push(step);
                        focus = right;
                    }
                },
                Tree::Leaf(key, value) => {
                    let z = TreeZipper { stack: stack, focus: (key, value) };
                    proof {
                        assert(z.leaf() == *focus);
                        lemma_window_at(entries, base, window, 0);
                        lemma_lower_bound(entries, *k);
                        lemma_lower_bound_beside(entries, *k, base);
                    }
                    if less(key, k) {
                        return z.advance(1);
                    } else {
                        return Some(z);
                    }
                },
            }
        }
    }

    /// Moves the cursor `n` entries forward. There is no cursor where fewer
    /// than `n` entries follow the one at which it stands.
    pub fn advance(self, n: usize) -> (r: Option<TreeZipper<'a, K, V>>)
        requires
            self.wf(),
        ensures
            r.is_some() == (self.rank() + n < self.entries().len()),
            r matches Some(z) ==> z.wf() && z.root() == self.root()
                && z.entries() == self.entries()
                && z.rank() == self.rank() + n,
    {
        proof {
            self.lemma_rank_in_range();
            self.leaf().lemma_shape();
            lemma_chain_window(self.root(), self.stack@, self.leaf());
        }
        if n == 0 {
            return Some(self);
        }
        // The climb. `done` is the subtree at the end of the path, and the
        // goal lies `ahead` entries after the last entry of `done`. The climb
        // ends at the subtree `next` that holds the goal.
        let ghost root = self.root();
        let ghost goal: int = self.rank() + n;
        let ghost mut done = self.leaf();
        let mut ahead: usize = n - 1;
        let mut stack = self.stack;
        let mut next: Option<&'a Node<K, V>> = None;
        loop
            invariant_except_break
                next.is_none(),
                chain(root, stack@, done),
                goal == offset(stack@) + done.leaves().len() + ahead,
            invariant
                root.wf(),
                root == self.root(),
                goal == self.rank() + n,
            ensures
                next matches Some(t) && t.wf() && chain(root, stack@, *t)
                    && goal == offset(stack@) + ahead && ahead < t.leaves().len(),
            decreases climb_remaining(stack@),
        {
            let ghost path = stack@;
            proof {
                lemma_chain_window(root, path, done);
            }
            match stack.pop() {
                None => {
                    return None;
                },
                Some(step) => {
                    proof {
                        lemma_chain_window(root, path.drop_last(), *step.node);
                        step.node.lemma_wf();
                        step.node.lemma_shape();
                    }
                    match step.context {
                        TreeContext::Branch2Left => {
                            match &*step.node.tree {
                                Tree::Branch2(_left, right) => {
                                    let turn = NodeContext {
                                        context: TreeContext::Branch2Right,
                                        node: step.node,
                                    };
                                    proof {
                                        lemma_chain_push(root, stack@, turn);
                                        _left.lemma_wf();
                                        right.lemma_wf();
                                    }
                                    stack.push(turn);
                                    if ahead < right.size {
                                        next = Some(right);
                                        break;
                                    } else {
                                        ahead -= right.size;
                                        proof {
                                            done = *right;
                                        }
                                    }
                                },
                                _ => {
                                    unreached::<()>();
                                },
                            }
                        },
                        TreeContext::Branch2Right => {
                            proof {
                                match step.node.shape() {
                                    Tree::Branch2(a, b) => {
                                        a.lemma_wf();
                                        b.lemma_wf();
                                    },
                                    _ => {},
                                }
                                done = *step.node;
                            }
                        },
                        TreeContext::Branch3Left => {
                            match &*step.node.tree {
                                Tree::Branch3(_left, middle, _right) => {
                                    let turn = NodeContext {
                                        context: TreeContext::Branch3Middle,
                                        node: step.node,
                                    };
                                    proof {
                                        lemma_chain_push(root, stack@, turn);
                                        _left.lemma_wf();
                                        middle.lemma_wf();
                                    }
                                    stack.push(turn);
                                    if ahead < middle.size {
                                        next = Some(middle);
                                        break;
                                    } else {
                                        ahead -= middle.size;
                                        proof {
                                            done = *middle;
                                        }
                                    }
                                },
                                _ => {
                                    unreached::<()>();
                                },
                            }
                        },
                        TreeContext::Branch3Middle => {
                            match &*step.node.tree {
                                Tree::Branch3(_left, _middle, right) => {
                                    let turn = NodeContext {
                                        context: TreeContext::Branch3Right,
                                        node: step.node,
                                    };
                                    proof {
                                        lemma_chain_push(root, stack@, turn);
                                        _left.lemma_wf();
                                        _middle.lemma_wf();
                                        right.lemma_wf();
                                    }
                                    stack.push(turn);
                                    if ahead < right.size {
                                        next = Some(right);
                                        break;
                                    } else {
                                        ahead -= right.size;
                                        proof {
                                            done = *right;
                                        }
                                    }
                                },
                                _ => {
                                    unreached::<()>();
                                },
                            }
                        },
                        TreeContext::Branch3Right => {
                            proof {
                                match step.node.shape() {
                                    Tree::Branch3(a, b, c) => {
                                        a.lemma_wf();
                                        b.lemma_wf();
                                        c.lemma_wf();
                                    },
                                    _ => {},
                                }
                                done = *step.node;
                            }
                        },
                    }
                },
            }
        }
        // The way down. The goal is the entry of `focus` at place `ahead`.
        let mut focus: &'a Node<K, V> = next.unwrap();
        loop
            invariant
                root.wf(),
                root == self.root(),
                goal == self.rank() + n,
                focus.wf(),
                chain(root, stack@, *focus),
                goal == offset(stack@) + ahead,
                ahead < focus.leaves().len(),
            decreases focus.height(),
        {
            proof {
                focus.lemma_wf();
                focus.lemma_shape();
            }
            match &*focus.tree {
                Tree::Branch2(left_child, right_child) => {
                    proof {
                        left_child.lemma_wf();
                        right_child.lemma_wf();
                    }
                    if ahead < left_child.size {
                        let step = NodeContext { context: TreeContext::Branch2Left, node: focus };
                        proof {
                            lemma_chain_push(root, stack@, step);
                        }
                        stack.push(step);
                        focus = left_child;
                    } else {
                        ahead -= left_child.size;
                        let step = NodeContext { context: TreeContext::Branch2Right, node: focus };
                        proof {
                            lemma_chain_push(root, stack@, step);
                        }
                        stack.push(step);
                        focus = right_child;
                    }
                },
                Tree::Branch3(left_child, middle_child, right_child) => {
                    proof {
                        left_child.lemma_wf();
                        middle_child.lemma_wf();
                        right_child.lemma_wf();
                    }
                    if ahead < left_child.size {
                        let step = NodeContext { context: TreeContext::Branch3Left, node: focus };
                        proof {
                            lemma_chain_push(root, stack@, step);
                        }
                        stack.push(step);
                        focus = left_child;
                    } else {
                        ahead -= left_child.size;
                        if ahead < middle_child.size {
                            let step = NodeContext {
                                context: TreeContext::Branch3Middle,
                                node: focus,
                            };
                            proof {
                                lemma_chain_push(root, stack@, step);
                            }
                            stack.push(step);
                            focus = middle_child;
                        } else {
                            ahead -= middle_child.size;
                            let step = NodeContext {
                                context: TreeContext::Branch3Right,
                                node: focus,
                            };
                            proof {
                                lemma_chain_push(root, stack@, step);
                            }
                            stack.push(step);
                            focus = right_child;
                        }
                    }
                },
                Tree::Leaf(key, value) => {
                    let z = TreeZipper { stack: stack, focus: (key, value) };
                    proof {
                        assert(z.leaf() == *focus);
                        lemma_chain_window(root, stack@, *focus);
                    }
                    return Some(z);
                },
            }
        }
    }
}

impl<K: Ord + Clone, V> Node<K, V> {
    /// A cursor at the first entry of the subtree.
    pub(crate) fn zipper<'a>(&'a self) -> (z: TreeZipper<'a, K, V>)
        requires
            self.wf(),
        ensures
            z.wf(),
            z.root() == *self,
            z.entries() == self.leaves(),
            z.rank() == 0,
    {
        let mut stack: Vec<NodeContext<'a, K, V>> = Vec::new();
        let mut focus: &'a Node<K, V> = self;
        loop
            invariant
                self.wf(),
                focus.wf(),
                chain(*self, stack@, *focus),
                offset(stack@) == 0,
            decreases focus.height(),
        {
            proof {
                focus.lemma_wf();
                focus.lemma_shape();
            }
            match &*focus.tree {
                Tree::Branch2(left, _right) => {
                    let step = NodeContext { context: TreeContext::Branch2Left, node: focus };
                    proof {
                        lemma_chain_push(*self, stack@, step);
                    }
                    stack.push(step);
                    focus = left;
                },
                Tree::Branch3(left, _middle, _right) => {
                    let step = NodeContext { context: TreeContext::Branch3Left, node: focus };
                    proof {
                        lemma_chain_push(*self, stack@, step);
                    }
                    stack.push(step);
                    focus = left;
                },
                Tree::Leaf(key, value) => {
                    let z = TreeZipper { stack: stack, focus: (key, value) };
                    proof {
                        assert(z.leaf() == *focus);
                        lemma_chain_window(*self, stack@, *focus);
                    }
                    return z;
                },
            }
        }
    }
}

} // verus!
