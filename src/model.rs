use vstd::prelude::*;
use crate::node::{Node, min_keys_of};

verus! {

/// The shape of a subtree as a value: a node's keys and its children's shapes.
pub struct Tree {
    pub keys: Seq<usize>,
    pub children: Seq<Tree>,
}

impl Node {
    /// The shape of the subtree below this node.
    pub open spec fn tree(self) -> Tree
        decreases self,
    {
        Tree {
            keys: self.keys@,
            children: Seq::new(
                self.children@.len(),
                |i: int|
                    if 0 <= i < self.children@.len() {
                        self.children@[i].tree()
                    } else {
                        Tree { keys: Seq::empty(), children: Seq::empty() }
                    },
            ),
        }
    }

    /// The shape of a node is made of its keys and its children's shapes.
    pub proof fn lemma_tree(self)
        ensures
            self.tree().keys == self.keys@,
            self.tree().children.len() == self.children@.len(),
            forall|i: int| 0 <= i < self.children@.len() ==> #[trigger] self.tree().children[i] == self.children@[i].tree(),
    {
    }

    /// A node whose keys are `t`'s keys and whose children have `t`'s
    /// children's shapes has shape `t`.
    pub proof fn lemma_tree_eq(self, t: Tree)
        requires
            self.keys@ == t.keys,
            self.children@.len() == t.children.len(),
            forall|i: int| 0 <= i < t.children.len() ==> #[trigger] self.children@[i].tree() == t.children[i],
        ensures
            self.tree() == t,
    {
        self.lemma_tree();
        assert(self.tree().children =~= t.children);
    }
}

/// The keys of `s` before index `i` lie below `k` and the others above it.
pub open spec fn splits(s: Seq<usize>, k: usize, i: int) -> bool {
    &&& 0 <= i <= s.len()
    &&& forall|j: int| 0 <= j < i ==> s[j] < k
    &&& forall|j: int| i <= j < s.len() ==> s[j] > k
}

/// Where a key absent from ascending keys `s` would go: the index of the
/// child whose range covers it.
pub open spec fn slot(s: Seq<usize>, k: usize) -> int {
    choose|i: int| splits(s, k, i)
}

/// Index of a key present in `s`.
pub open spec fn index_of(s: Seq<usize>, k: usize) -> int {
    choose|i: int| 0 <= i < s.len() && s[i] == k
}

/// `slot` names the index that splits ascending keys around `k`.
pub proof fn lemma_slot(s: Seq<usize>, k: usize, i: int)
    requires
        splits(s, k, i),
    ensures
        slot(s, k) == i,
{
    let r = slot(s, k);
    if r < i {
        assert(s[r] > k);
    } else if r > i {
        assert(s[i] > k);
    }
}

/// `index_of` names the position of a key in strictly ascending keys.
pub proof fn lemma_index_of(s: Seq<usize>, k: usize, i: int)
    requires
        crate::node::strictly_sorted(s),
        0 <= i < s.len(),
        s[i] == k,
    ensures
        index_of(s, k) == i,
{
    let r = index_of(s, k);
    if r < i {
        assert(s[r] < s[i]);
    } else if r > i {
        assert(s[i] < s[r]);
    }
}

/// Split of an overflowing node at `mid = keys.len() / 2`: the left half,
/// the key at `mid`, which goes up, and the right half.
pub open spec fn split_t(t: Tree) -> (Tree, usize, Tree) {
    let m = (t.keys.len() / 2) as int;
    let n = t.keys.len() as int;
    (
        Tree {
            keys: t.keys.subrange(0, m),
            children: if t.children.len() == 0 { t.children } else { t.children.subrange(0, m + 1) },
        },
        t.keys[m],
        Tree {
            keys: t.keys.subrange(m + 1, n),
            children: if t.children.len() == 0 { t.children } else { t.children.subrange(m + 1, n + 1) },
        },
    )
}

/// Insertion of `key` below `t`: the key goes into the leaf whose range
/// covers it; a node left with more than `order - 1` keys splits, and its
/// separator and right half go up to the parent.
pub open spec fn insert_t(t: Tree, key: usize, order: nat) -> (Tree, Option<(usize, Tree)>)
    decreases t,
{
    let i = slot(t.keys, key);
    let grown = if t.children.len() == 0 {
        Tree { keys: t.keys.insert(i, key), children: t.children }
    } else if 0 <= i < t.children.len() {
        let (c, up) = insert_t(t.children[i], key, order);
        match up {
            None => Tree { keys: t.keys, children: t.children.update(i, c) },
            Some((sep, r)) => Tree { keys: t.keys.insert(i, sep), children: t.children.update(i, c).insert(i + 1, r) },
        }
    } else {
        t
    };
    if grown.keys.len() > order - 1 {
        let (l, sep, r) = split_t(grown);
        (l, Some((sep, r)))
    } else {
        (grown, None)
    }
}

/// Insertion at the root: when the root splits, a new root holds the
/// separator above the two halves.
pub open spec fn add_t(t: Tree, key: usize, order: nat) -> Tree {
    let (g, up) = insert_t(t, key, order);
    match up {
        None => g,
        Some((sep, r)) => Tree { keys: seq![sep], children: seq![g, r] },
    }
}

/// Rotation into child `i` from its left sibling: the sibling's last key
/// goes up to separator `i - 1`, the old separator goes to the front of
/// child `i`, and the sibling's last child, if any, moves along with it.
pub open spec fn rotate_from_left_t(t: Tree, i: int) -> Tree {
    let l = t.children[i - 1];
    let c = t.children[i];
    let l2 = Tree {
        keys: l.keys.drop_last(),
        children: if l.children.len() == 0 { l.children } else { l.children.drop_last() },
    };
    let c2 = Tree {
        keys: seq![t.keys[i - 1]] + c.keys,
        children: if l.children.len() == 0 { c.children } else { seq![l.children.last()] + c.children },
    };
    Tree { keys: t.keys.update(i - 1, l.keys.last()), children: t.children.update(i - 1, l2).update(i, c2) }
}

/// Rotation into child `i` from its right sibling: the sibling's first key
/// goes up to separator `i`, the old separator goes to the end of child
/// `i`, and the sibling's first child, if any, moves along with it.
pub open spec fn rotate_from_right_t(t: Tree, i: int) -> Tree {
    let c = t.children[i];
    let r = t.children[i + 1];
    let r2 = Tree {
        keys: r.keys.subrange(1, r.keys.len() as int),
        children: if r.children.len() == 0 { r.children } else { r.children.subrange(1, r.children.len() as int) },
    };
    let c2 = Tree {
        keys: c.keys.push(t.keys[i]),
        children: if r.children.len() == 0 { c.children } else { c.children.push(r.children[0]) },
    };
    Tree { keys: t.keys.update(i, r.keys[0]), children: t.children.update(i, c2).update(i + 1, r2) }
}

/// Merge of children `a` and `a + 1` with separator `a` between them.
pub open spec fn merge_t(t: Tree, a: int) -> Tree {
    let m = Tree {
        keys: t.children[a].keys + seq![t.keys[a]] + t.children[a + 1].keys,
        children: t.children[a].children + t.children[a + 1].children,
    };
    Tree { keys: t.keys.remove(a), children: t.children.remove(a + 1).update(a, m) }
}

/// Repair of child `i` after a deletion below it: nothing when it still
/// meets the minimum; else borrow from the left sibling, else from the right
/// sibling, else merge with the left sibling, else with the right one.
pub open spec fn rebalance_t(t: Tree, i: int, order: nat) -> Tree {
    let mk = min_keys_of(order);
    if t.children[i].keys.len() >= mk {
        t
    } else if i > 0 && t.children[i - 1].keys.len() > mk {
        rotate_from_left_t(t, i)
    } else if i < t.keys.len() && t.children[i + 1].keys.len() > mk {
        rotate_from_right_t(t, i)
    } else if i > 0 {
        merge_t(t, i - 1)
    } else {
        merge_t(t, i)
    }
}

/// Removal of the largest key below `t`, repairing the last child on the
/// way up; returns the new subtree and the key removed.
pub open spec fn remove_max_t(t: Tree, order: nat) -> (Tree, usize)
    decreases t,
{
    if t.children.len() == 0 {
        (Tree { keys: t.keys.drop_last(), children: t.children }, t.keys.last())
    } else {
        let last = t.children.len() - 1;
        let (c, r) = remove_max_t(t.children[last], order);
        (rebalance_t(Tree { keys: t.keys, children: t.children.update(last, c) }, last, order), r)
    }
}

/// Removal of the smallest key below `t`, repairing the first child on the
/// way up; returns the new subtree and the key removed.
pub open spec fn remove_min_t(t: Tree, order: nat) -> (Tree, usize)
    decreases t,
{
    if t.children.len() == 0 {
        (Tree { keys: t.keys.remove(0), children: t.children }, t.keys[0])
    } else {
        let (c, r) = remove_min_t(t.children[0], order);
        (rebalance_t(Tree { keys: t.keys, children: t.children.update(0, c) }, 0, order), r)
    }
}

/// Deletion of `key` below `t`. A key of a leaf is removed. A key of an
/// internal node at index `i` is replaced by its predecessor when child `i`
/// can spare a key or child `i + 1` cannot, else by its successor. Otherwise
/// the deletion goes into the child whose range covers the key. Every child
/// touched is repaired on the way back up.
pub open spec fn delete_t(t: Tree, key: usize, order: nat) -> Tree
    decreases t,
{
    let mk = min_keys_of(order);
    if t.keys.contains(key) {
        let i = index_of(t.keys, key);
        if t.children.len() == 0 {
            Tree { keys: t.keys.remove(i), children: t.children }
        } else if !(0 <= i && i + 1 < t.children.len()) {
            t
        } else if t.children[i].keys.len() > mk || t.children[i + 1].keys.len() <= mk {
            let (c, p) = remove_max_t(t.children[i], order);
            rebalance_t(Tree { keys: t.keys.update(i, p), children: t.children.update(i, c) }, i, order)
        } else {
            let (c, s) = remove_min_t(t.children[i + 1], order);
            rebalance_t(Tree { keys: t.keys.update(i, s), children: t.children.update(i + 1, c) }, i + 1, order)
        }
    } else {
        let i = slot(t.keys, key);
        if 0 <= i < t.children.len() {
            rebalance_t(Tree { keys: t.keys, children: t.children.update(i, delete_t(t.children[i], key, order)) }, i, order)
        } else {
            t
        }
    }
}

/// Deletion at the root: a root left without keys but with a child is
/// replaced by that child.
pub open spec fn remove_t(t: Tree, key: usize, order: nat) -> Tree {
    let d = delete_t(t, key, order);
    if d.keys.len() == 0 && d.children.len() > 0 {
        d.children[0]
    } else {
        d
    }
}

} // verus!
