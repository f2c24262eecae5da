use vstd::prelude::*;
use crate::node::{Node, min_keys_of, max_keys_of};
use crate::search_status::SearchStatus;
use crate::model::{Tree, insert_t, add_t, delete_t, remove_t};

verus! {

/// Exclusive upper bound of every key, as an integer.
pub open spec fn key_limit() -> int {
    usize::MAX as int + 1
}

/// The key set after adding each key of `ks` in turn to a tree whose key set
/// is `s`, as `add` states it step by step (a key already present leaves the
/// set as it was).
pub open spec fn keys_after_adds(s: Set<usize>, ks: Seq<usize>) -> Set<usize>
    decreases ks.len(),
{
    if ks.len() == 0 {
        s
    } else {
        keys_after_adds(s, ks.drop_last()).insert(ks.last())
    }
}

/// Adding any keys, in any order, to an empty tree makes `search` find
/// exactly those keys; deleting one of them afterwards makes `search` miss
/// it and find every other key as before.
pub proof fn lemma_round_trip(ks: Seq<usize>, x: usize)
    ensures
        forall|k: usize| keys_after_adds(Set::empty(), ks).contains(k) == ks.contains(k),
        forall|k: usize| keys_after_adds(Set::empty(), ks).remove(x).contains(k) == (ks.contains(k) && k != x),
    decreases ks.len(),
{
    if ks.len() > 0 {
        lemma_round_trip(ks.drop_last(), x);
        assert forall|k: usize| keys_after_adds(Set::empty(), ks).contains(k) == ks.contains(k) by {
            if ks.drop_last().contains(k) {
                let i = choose|i: int| 0 <= i < ks.drop_last().len() && ks.drop_last()[i] == k;
                assert(ks[i] == k);
            }
            if ks.contains(k) && k != ks.last() {
                let i = choose|i: int| 0 <= i < ks.len() && ks[i] == k;
                assert(ks.drop_last()[i] == k);
            }
        }
    }
}

/// Why an insertion or a deletion was refused. The tree is left unchanged.
#[derive(Debug, Clone, Copy, PartialEq, Eq, Structural)]
pub enum BTreeError {
    /// The key to insert is already present.
    ValueAlreadyExists,
    /// The key to delete is absent.
    NotFound,
}

/// A B-tree of unique keys. Every leaf lies at the same depth; every node
/// but the root holds between `min_keys_of(order)` and `max_keys_of(order)`
/// keys, and a root with children holds at least one.
pub struct BTree {
    pub root: Node,
    pub order: usize,
}

impl BTree {
    /// Fewest keys the root may hold at the given height.
    pub open spec fn root_min(h: nat) -> nat {
        if h > 0 {
            1
        } else {
            0
        }
    }

    /// The tree invariant, which `new` establishes and `add` and `delete`
    /// keep: the order is at least 3; the root is marked as the root and
    /// every other node is not; in every node the keys ascend strictly and
    /// lie between the separators around it in the parent; an internal node
    /// has one child more than keys; every node but the root holds at least
    /// `min_keys_of(order)` keys, a root with children at least one, and no
    /// node more than `max_keys_of(order)`; all leaves lie at the root's
    /// height. A child's parent and index are where it is stored.
    pub open spec fn wf(self) -> bool {
        &&& self.order >= 3
        &&& self.root.at_root
        &&& self.root.wf_node(self.order as nat, -1, key_limit(), self.root.height(),
            Self::root_min(self.root.height()), max_keys_of(self.order as nat))
    }

    /// The set of keys held by the tree.
    pub open spec fn view(self) -> Set<usize> {
        Set::new(|k: usize| self.root.has(k))
    }

    /// An empty tree of the given order.
    pub fn new(order: usize) -> (r: BTree)
        requires
            order >= 3,
        ensures
            r.wf(),
            r@ == Set::<usize>::empty(),
            r.order == order,
    {
        let r = BTree { root: Node::new(order), order };
        proof {
            assert(r.root.height() == 0);
            assert forall|k: usize| !r.root.has(k) by {
                r.root.lemma_has(k);
            }
            assert(r@ =~= Set::<usize>::empty());
        }
        r
    }

    /// Descends from the root to the node that holds `value`, or to the leaf
    /// where it would be inserted, and reports the search in that node.
    pub fn find(&self, value: usize) -> (r: (SearchStatus, &Node))
        requires
            self.wf(),
        ensures
            *r.1 == self.root.descend(value),
            (r.0 is Found) == self@.contains(value),
            r.0 is Found ==> r.0.index() < r.1.keys@.len() && r.1.keys@[r.0.index() as int] == value,
            r.0 is NotFound ==> r.1.children@.len() == 0 && r.1.splits_at(value, r.0.index() as int),
    {
        let ghost order = self.order as nat;
        let ghost mut lo: int = -1;
        let ghost mut hi: int = key_limit();
        let ghost mut h: nat = self.root.height();
        let ghost mut min: nat = Self::root_min(h);
        let mut node: &Node = &self.root;
        loop
            invariant
                self.wf(),
                order == self.order,
                node.wf_node(order, lo, hi, h, min, max_keys_of(order)),
                lo < value < hi,
                self.root.has(value) == node.has(value),
                self.root.descend(value) == node.descend(value),
            decreases h,
        {
            let st = node.find_key_index(value);
            match st {
                SearchStatus::Found(i) => {
                    proof {
                        node.lemma_has(value);
                        assert(node.keys@.contains(value));
                    }
                    return (st, node);
                },
                SearchStatus::NotFound(i) => {
                    proof {
                        node.lemma_has(value);
                        node.lemma_route(value, i as int);
                    }
                    if node.children.len() == 0 {
                        return (st, node);
                    }
                    proof {
                        assert(node.lo_of(i as int, lo) < value) by {
                            if i > 0 {
                                assert(node.keys@[i - 1] < value);
                            }
                        }
                        assert(value < node.hi_of(i as int, hi)) by {
                            if i < node.keys@.len() {
                                assert(node.keys@[i as int] > value);
                            }
                        }
                        node.lemma_has_descend(order, lo, hi, h, min, max_keys_of(order), i as int, value);
                        lo = node.lo_of(i as int, lo);
                        hi = node.hi_of(i as int, hi);
                        h = (h - 1) as nat;
                        min = min_keys_of(order);
                    }
                    node = &node.children[i];
                },
            }
        }
    }

    /// Reports whether `value` is in the tree.
    pub fn search(&self, value: usize) -> (r: bool)
        requires
            self.wf(),
        ensures
            r == self@.contains(value),
    {
        let (st, _node) = self.find(value);
        st.is_found()
    }

    /// The leaf into which `value` would be inserted, or an error when it is
    /// already present.
    pub fn find_insert_node(&self, value: usize) -> (r: Result<&Node, BTreeError>)
        requires
            self.wf(),
        ensures
            self@.contains(value) ==> r == Err::<&Node, BTreeError>(BTreeError::ValueAlreadyExists),
            !self@.contains(value) ==> (r matches Ok(n) && *n == self.root.descend(value)
                && n.children@.len() == 0),
    {
        let (st, node) = self.find(value);
        if st.is_found() {
            return Err(BTreeError::ValueAlreadyExists);
        }
        Ok(node)
    }

    /// Adds `value` to the tree, or reports that it is already there and
    /// leaves the tree as it was.
    pub fn add(&mut self, value: usize) -> (r: Result<(), BTreeError>)
        requires
            old(self).wf(),
        ensures
            final(self).wf(),
            old(self)@.contains(value) ==> r == Err::<(), BTreeError>(BTreeError::ValueAlreadyExists)
                && *final(self) == *old(self),
            !old(self)@.contains(value) ==> r is Ok && final(self)@ == old(self)@.insert(value),
            !old(self)@.contains(value) ==> final(self).root.tree() == add_t(old(self).root.tree(), value, old(self).order as nat),
            !old(self)@.contains(value) ==> final(self).root.height() == old(self).root.height() + if insert_t(
                old(self).root.tree(),
                value,
                old(self).order as nat,
            ).1 is Some {
                1nat
            } else {
                0nat
            },
            final(self).order == old(self).order,
    {
        if let Err(e) = self.find_insert_node(value) {
            return Err(e);
        }
        let ghost old_t = *self;
        let ghost order = self.order as nat;
        let ghost h = self.root.height();
        proof {
            assert(!self.root.has(value));
        }
        let res = self.root.insert_rec(value, Ghost(-1), Ghost(key_limit()), Ghost(h), Ghost(Self::root_min(h)));
        match res {
            None => {
                proof {
                    self.root.lemma_height(order, -1, key_limit(), h, Self::root_min(h), max_keys_of(order));
                    old_t.root.lemma_height(order, -1, key_limit(), h, Self::root_min(h), max_keys_of(order));
                    assert(self@ =~= old_t@.insert(value));
                }
            },
            Some((sep, right)) => {
                let ghost left_g = self.root;
                let mut left = Node::new(self.order);
                std::mem::swap(&mut self.root, &mut left);
                left.at_root = false;
                self.root.keys.push(sep);
                self.root.children.push(left);
                self.root.children.push(right);
                proof {
                    let nr = self.root;
                    assert(nr.keys@ =~= seq![sep]);
                    assert(nr.children@[0].keys == left_g.keys && nr.children@[0].children == left_g.children);
                    assert(nr.children@[0].wf_node(order, -1, sep as int, h, min_keys_of(order), max_keys_of(order)));
                    assert(nr.wf_node(order, -1, key_limit(), h + 1, 1, max_keys_of(order)));
                    nr.lemma_height(order, -1, key_limit(), h + 1, 1, max_keys_of(order));
                    assert forall|k: usize| nr.has(k) == (old_t.root.has(k) || k == value) by {
                        nr.lemma_has(k);
                        left_g.lemma_has(k);
                        nr.children@[0].lemma_has(k);
                        if left_g.has(k) {
                            assert(nr.children@[0].has(k));
                        }
                        if right.has(k) {
                            assert(nr.children@[1] == right);
                        }
                        if k == sep {
                            assert(nr.keys@[0] == k);
                        }
                    }
                    assert(self@ =~= old_t@.insert(value));
                    old_t.root.lemma_height(order, -1, key_limit(), h, Self::root_min(h), max_keys_of(order));
                    left_g.lemma_tree();
                    nr.children@[0].lemma_tree_eq(left_g.tree());
                    let t = Tree { keys: seq![sep], children: seq![left_g.tree(), right.tree()] };
                    assert forall|j: int| 0 <= j < t.children.len() implies #[trigger] nr.children@[j].tree() == t.children[j] by {
                        if j == 1 {
                            assert(nr.children@[1] == right);
                        }
                    }
                    nr.lemma_tree_eq(t);
                }
            },
        }
        Ok(())
    }
    /// Removes `value` from the tree, or reports that it is absent and
    /// leaves the tree as it was. When the root gives up its last key, its
    /// only child becomes the root and the tree loses a level.
    pub fn delete(&mut self, value: usize) -> (r: Result<(), BTreeError>)
        requires
            old(self).wf(),
        ensures
            final(self).wf(),
            !old(self)@.contains(value) ==> r == Err::<(), BTreeError>(BTreeError::NotFound)
                && *final(self) == *old(self),
            old(self)@.contains(value) ==> r is Ok && final(self)@ == old(self)@.remove(value),
            old(self)@.contains(value) ==> final(self).root.tree() == remove_t(old(self).root.tree(), value, old(self).order as nat),
            old(self)@.contains(value) ==> final(self).root.height() == if ({
                let d = delete_t(old(self).root.tree(), value, old(self).order as nat);
                d.keys.len() == 0 && d.children.len() > 0
            }) {
                (old(self).root.height() - 1) as nat
            } else {
                old(self).root.height()
            },
            final(self).order == old(self).order,
    {
        let (st, _node) = self.find(value);
        if !st.is_found() {
            return Err(BTreeError::NotFound);
        }
        let ghost old_t = *self;
        let ghost order = self.order as nat;
        let ghost h = self.root.height();
        self.root.delete_rec(value, Ghost(-1), Ghost(key_limit()), Ghost(h), Ghost(Self::root_min(h)));
        if self.root.keys.len() == 0 && self.root.children.len() > 0 {
            let ghost emptied = self.root;
            let mut new_root = match self.root.children.pop() {
                Some(c) => c,
                None => Node::new(self.order),
            };
            new_root.at_root = true;
            self.root = new_root;
            proof {
                let c = emptied.children@[0];
                let nr = self.root;
                assert(c.wf_node(order, -1, key_limit(), (h - 1) as nat, min_keys_of(order), max_keys_of(order)));
                assert(nr.wf_node(order, -1, key_limit(), (h - 1) as nat, Self::root_min((h - 1) as nat), max_keys_of(order)));
                nr.lemma_height(order, -1, key_limit(), (h - 1) as nat, Self::root_min((h - 1) as nat), max_keys_of(order));
                emptied.lemma_tree();
                nr.lemma_tree_eq(c.tree());
                assert forall|k: usize| nr.has(k) == emptied.has(k) by {
                    nr.lemma_has(k);
                    c.lemma_has(k);
                    emptied.lemma_has(k);
                    if emptied.has(k) {
                        assert(emptied.children@[0].has(k));
                    }
                }
            }
        } else {
            proof {
                self.root.lemma_height(order, -1, key_limit(), h, 0, max_keys_of(order));
                self.root.lemma_tree();
            }
        }
        proof {
            assert(self@ =~= old_t@.remove(value));
            old_t.root.lemma_height(order, -1, key_limit(), h, Self::root_min(h), max_keys_of(order));
        }
        Ok(())
    }
}

} // verus!
