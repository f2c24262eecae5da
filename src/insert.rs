use vstd::prelude::*;
use crate::node::{Node, strictly_sorted, min_keys_of, max_keys_of};
use crate::model::{Tree, insert_t, splits, lemma_slot};

verus! {

/// Splitting a node that holds one key too many leaves two halves that meet
/// the minimum, on either side of the separator, with the same keys below them.
proof fn lemma_split(old_n: Node, left: Node, sep: usize, right: Node, order: nat, lo: int, hi: int, h: nat, min: nat)
    requires
        order >= 3,
        old_n.wf_node(order, lo, hi, h, min, order),
        old_n.keys@.len() == order,
        ({
            let m = (old_n.keys@.len() / 2) as int;
            let n = old_n.keys@.len() as int;
            &&& left.keys@ == old_n.keys@.subrange(0, m)
            &&& sep == old_n.keys@[m]
            &&& right.keys@ == old_n.keys@.subrange(m + 1, n)
            &&& old_n.children@.len() == 0 ==> left.children@.len() == 0 && right.children@.len() == 0
            &&& old_n.children@.len() > 0 ==> left.children@ == old_n.children@.subrange(0, m + 1)
                && right.children@ == old_n.children@.subrange(m + 1, n + 1)
        }),
        left.order == order,
        right.order == order,
    ensures
        lo < sep < hi,
        left.wf_node(order, lo, sep as int, h, min_keys_of(order), max_keys_of(order)),
        right.wf_node(order, sep as int, hi, h, min_keys_of(order), max_keys_of(order)),
        forall|k: usize| (left.has(k) || k == sep || right.has(k)) == old_n.has(k),
{
    let m = (old_n.keys@.len() / 2) as int;
    let n = old_n.keys@.len() as int;
    assert(old_n.keys@[m] == sep);
    assert(left.keys@.len() == m);
    assert(right.keys@.len() == n - m - 1);
    assert(min_keys_of(order) <= m);
    assert(min_keys_of(order) <= n - m - 1);
    assert forall|i: int| 0 <= i < left.keys@.len() implies lo < #[trigger] left.keys@[i] < sep by {
        assert(left.keys@[i] == old_n.keys@[i]);
    }
    assert forall|i: int| 0 <= i < right.keys@.len() implies sep < #[trigger] right.keys@[i] < hi by {
        assert(right.keys@[i] == old_n.keys@[i + m + 1]);
    }
    if h > 0 {
        assert forall|i: int| 0 <= i < left.children@.len() implies {
            &&& !(#[trigger] left.children@[i]).at_root
            &&& left.children@[i].wf_node(order, left.lo_of(i, lo), left.hi_of(i, sep as int),
                (h - 1) as nat, min_keys_of(order), max_keys_of(order))
        } by {
            assert(left.children@[i] == old_n.children@[i]);
            assert(left.lo_of(i, lo) == old_n.lo_of(i, lo));
            assert(left.hi_of(i, sep as int) == old_n.hi_of(i, hi));
        }
        assert forall|i: int| 0 <= i < right.children@.len() implies {
            &&& !(#[trigger] right.children@[i]).at_root
            &&& right.children@[i].wf_node(order, right.lo_of(i, sep as int), right.hi_of(i, hi),
                (h - 1) as nat, min_keys_of(order), max_keys_of(order))
        } by {
            assert(right.children@[i] == old_n.children@[i + m + 1]);
            assert(right.lo_of(i, sep as int) == old_n.lo_of(i + m + 1, lo));
            assert(right.hi_of(i, hi) == old_n.hi_of(i + m + 1, hi));
        }
    }
    assert(left.wf_node(order, lo, sep as int, h, min_keys_of(order), max_keys_of(order)));
    assert(right.wf_node(order, sep as int, hi, h, min_keys_of(order), max_keys_of(order)));
    assert forall|k: usize| (left.has(k) || k == sep || right.has(k)) == old_n.has(k) by {
        old_n.lemma_has(k);
        left.lemma_has(k);
        right.lemma_has(k);
        if old_n.keys@.contains(k) {
            let j = choose|j: int| 0 <= j < n && old_n.keys@[j] == k;
            if j < m {
                assert(left.keys@[j] == k);
            } else if j > m {
                assert(right.keys@[j - m - 1] == k);
            }
        } else if old_n.has(k) {
            let j = choose|j: int| 0 <= j < old_n.children@.len() && #[trigger] old_n.children@[j].has(k);
            if j < m + 1 {
                assert(left.children@[j] == old_n.children@[j]);
            } else {
                assert(right.children@[j - m - 1] == old_n.children@[j]);
            }
        }
        if left.keys@.contains(k) {
            let j = choose|j: int| 0 <= j < left.keys@.len() && left.keys@[j] == k;
            assert(old_n.keys@[j] == k);
        } else if left.has(k) {
            let j = choose|j: int| 0 <= j < left.children@.len() && #[trigger] left.children@[j].has(k);
            assert(old_n.children@[j] == left.children@[j]);
        }
        if right.keys@.contains(k) {
            let j = choose|j: int| 0 <= j < right.keys@.len() && right.keys@[j] == k;
            assert(old_n.keys@[j + m + 1] == k);
        } else if right.has(k) {
            let j = choose|j: int| 0 <= j < right.children@.len() && #[trigger] right.children@[j].has(k);
            assert(old_n.children@[j + m + 1] == right.children@[j]);
        }
        if k == sep {
            assert(old_n.keys@[m] == k);
        }
    }
}

/// Replacing child `i` by a well-formed subtree that holds one key more
/// keeps the node well formed and adds that key to it.
proof fn lemma_child_grown(old_n: Node, new_n: Node, i: int, key: usize, order: nat, lo: int, hi: int, h: nat, min: nat, max: nat)
    requires
        old_n.wf_node(order, lo, hi, h, min, max),
        h > 0,
        0 <= i < old_n.children@.len(),
        new_n.keys@ == old_n.keys@,
        new_n.order == old_n.order,
        new_n.children@ == old_n.children@.update(i, new_n.children@[i]),
        !new_n.children@[i].at_root,
        new_n.children@[i].wf_node(order, old_n.lo_of(i, lo), old_n.hi_of(i, hi), (h - 1) as nat,
            min_keys_of(order), max_keys_of(order)),
        forall|k: usize| new_n.children@[i].has(k) == (old_n.children@[i].has(k) || k == key),
    ensures
        new_n.wf_node(order, lo, hi, h, min, max),
        forall|k: usize| new_n.has(k) == (old_n.has(k) || k == key),
{
    assert forall|j: int| 0 <= j < new_n.children@.len() implies {
        &&& !(#[trigger] new_n.children@[j]).at_root
        &&& new_n.children@[j].wf_node(order, new_n.lo_of(j, lo), new_n.hi_of(j, hi),
            (h - 1) as nat, min_keys_of(order), max_keys_of(order))
    } by {
        assert(new_n.lo_of(j, lo) == old_n.lo_of(j, lo));
        assert(new_n.hi_of(j, hi) == old_n.hi_of(j, hi));
    }
    assert forall|k: usize| new_n.has(k) == (old_n.has(k) || k == key) by {
        old_n.lemma_has(k);
        new_n.lemma_has(k);
        if k == key {
            assert(new_n.children@[i].has(k));
        }
        if old_n.has(k) && !old_n.keys@.contains(k) {
            let j = choose|j: int| 0 <= j < old_n.children@.len() && #[trigger] old_n.children@[j].has(k);
            assert(new_n.children@[j].has(k));
        }
        if new_n.has(k) && !new_n.keys@.contains(k) {
            let j = choose|j: int| 0 <= j < new_n.children@.len() && #[trigger] new_n.children@[j].has(k);
            if j != i {
                assert(old_n.children@[j].has(k));
            }
        }
    }
}

/// Child `i` split into `c`, `sep` and `r`: putting the separator at key
/// index `i` and `r` at child index `i + 1` keeps every bound, allows one key
/// too many, and adds the key that caused the split.
#[verifier::rlimit(40)]
proof fn lemma_child_split(old_n: Node, new_n: Node, i: int, key: usize, c: Node, sep: usize, r: Node, order: nat, lo: int, hi: int, h: nat, min: nat)
    requires
        order >= 3,
        old_n.wf_node(order, lo, hi, h, min, max_keys_of(order)),
        h > 0,
        0 <= i < old_n.children@.len(),
        new_n.keys@ == old_n.keys@.insert(i, sep),
        new_n.order == old_n.order,
        new_n.children@ == old_n.children@.update(i, c).insert(i + 1, r),
        !c.at_root,
        !r.at_root,
        old_n.lo_of(i, lo) < sep < old_n.hi_of(i, hi),
        c.wf_node(order, old_n.lo_of(i, lo), sep as int, (h - 1) as nat, min_keys_of(order), max_keys_of(order)),
        r.wf_node(order, sep as int, old_n.hi_of(i, hi), (h - 1) as nat, min_keys_of(order), max_keys_of(order)),
        forall|k: usize| (c.has(k) || k == sep || r.has(k)) == (old_n.children@[i].has(k) || k == key),
    ensures
        new_n.wf_node(order, lo, hi, h, min, order),
        forall|k: usize| new_n.has(k) == (old_n.has(k) || k == key),
{
    assert(new_n.children@.len() == new_n.keys@.len() + 1);
    assert(min <= new_n.keys@.len() <= order);
    let ok = old_n.keys@;
    let nk = new_n.keys@;
    assert(strictly_sorted(nk)) by {
        assert forall|a: int, b: int| 0 <= a < b < nk.len() implies nk[a] < nk[b] by {
            if a < i {
                assert(ok[a] <= old_n.lo_of(i, lo));
            }
            if b > i {
                assert(old_n.hi_of(i, hi) <= ok[b - 1]);
            }
        }
    }
    assert forall|j: int| 0 <= j < nk.len() implies lo < #[trigger] nk[j] < hi by {
        if j == i {
            if i > 0 {
                assert(lo < ok[i - 1]);
            }
            if i < ok.len() {
                assert(ok[i] < hi);
            }
        } else if j < i {
            assert(nk[j] == ok[j]);
        } else {
            assert(nk[j] == ok[j - 1]);
        }
    }
    assert forall|j: int| 0 <= j < new_n.children@.len() implies {
        &&& !(#[trigger] new_n.children@[j]).at_root
        &&& new_n.children@[j].wf_node(order, new_n.lo_of(j, lo), new_n.hi_of(j, hi),
            (h - 1) as nat, min_keys_of(order), max_keys_of(order))
    } by {
        if j < i {
            assert(new_n.children@[j] == old_n.children@[j]);
            assert(new_n.lo_of(j, lo) == old_n.lo_of(j, lo));
            assert(new_n.hi_of(j, hi) == old_n.hi_of(j, hi));
        } else if j == i {
            assert(new_n.lo_of(j, lo) == old_n.lo_of(i, lo));
            assert(new_n.hi_of(j, hi) == sep);
        } else if j == i + 1 {
            assert(new_n.lo_of(j, lo) == sep);
            assert(new_n.hi_of(j, hi) == old_n.hi_of(i, hi));
        } else {
            assert(new_n.children@[j] == old_n.children@[j - 1]);
            assert(new_n.lo_of(j, lo) == old_n.lo_of(j - 1, lo));
            assert(new_n.hi_of(j, hi) == old_n.hi_of(j - 1, hi));
        }
    }
    assert forall|k: usize| new_n.has(k) == (old_n.has(k) || k == key) by {
        old_n.lemma_has(k);
        new_n.lemma_has(k);
        c.lemma_has(k);
        if k == key {
            if c.has(k) {
                assert(new_n.children@[i] == c);
            } else if k == sep {
                assert(nk[i] == k);
            } else {
                assert(new_n.children@[i + 1] == r);
            }
        }
        if old_n.keys@.contains(k) {
            let j = choose|j: int| 0 <= j < ok.len() && ok[j] == k;
            if j < i {
                assert(nk[j] == k);
            } else {
                assert(nk[j + 1] == k);
            }
        } else if old_n.has(k) {
            let j = choose|j: int| 0 <= j < old_n.children@.len() && #[trigger] old_n.children@[j].has(k);
            if j < i {
                assert(new_n.children@[j] == old_n.children@[j]);
            } else if j > i {
                assert(new_n.children@[j + 1] == old_n.children@[j]);
            } else if c.has(k) {
                assert(new_n.children@[i] == c);
            } else if k == sep {
                assert(nk[i] == k);
            } else {
                assert(new_n.children@[i + 1] == r);
            }
        }
        if new_n.keys@.contains(k) {
            let j = choose|j: int| 0 <= j < nk.len() && nk[j] == k;
            if j < i {
                assert(ok[j] == k);
            } else if j > i {
                assert(ok[j - 1] == k);
            }
        } else if new_n.has(k) {
            let j = choose|j: int| 0 <= j < new_n.children@.len() && #[trigger] new_n.children@[j].has(k);
            if j < i {
                assert(old_n.children@[j] == new_n.children@[j]);
            } else if j > i + 1 {
                assert(old_n.children@[j - 1] == new_n.children@[j]);
            } else if j == i {
                assert(new_n.children@[j] == c);
            } else {
                assert(new_n.children@[j] == r);
            }
        }
    }
}

/// A key put at its sorted place in a leaf keeps the leaf ordered.
proof fn lemma_leaf_insert(old_n: Node, new_n: Node, i: int, key: usize, order: nat, lo: int, hi: int, min: nat)
    requires
        order >= 3,
        old_n.wf_node(order, lo, hi, 0, min, max_keys_of(order)),
        0 <= i <= old_n.keys@.len(),
        forall|j: int| 0 <= j < i ==> old_n.keys@[j] < key,
        forall|j: int| i <= j < old_n.keys@.len() ==> old_n.keys@[j] > key,
        lo < key < hi,
        new_n.keys@ == old_n.keys@.insert(i, key),
        new_n.children@.len() == 0,
        new_n.order == old_n.order,
    ensures
        new_n.wf_node(order, lo, hi, 0, min, order),
        forall|k: usize| new_n.has(k) == (old_n.has(k) || k == key),
{
    let ok = old_n.keys@;
    let nk = new_n.keys@;
    assert(nk.len() == ok.len() + 1);
    assert forall|a: int, b: int| 0 <= a < b < nk.len() implies nk[a] < nk[b] by {
        if a < i && b < i + 1 {
            assert(nk[a] == ok[a]);
        }
    }
    assert forall|j: int| 0 <= j < nk.len() implies lo < #[trigger] nk[j] < hi by {
        if j < i {
            assert(nk[j] == ok[j]);
        } else if j > i {
            assert(nk[j] == ok[j - 1]);
        }
    }
    assert forall|k: usize| new_n.has(k) == (old_n.has(k) || k == key) by {
        new_n.lemma_has(k);
        old_n.lemma_has(k);
        if k == key {
            assert(nk[i] == k);
        }
        if ok.contains(k) {
            let j = choose|j: int| 0 <= j < ok.len() && ok[j] == k;
            if j < i {
                assert(nk[j] == k);
            } else {
                assert(nk[j + 1] == k);
            }
        }
        if nk.contains(k) {
            let j = choose|j: int| 0 <= j < nk.len() && nk[j] == k;
            if j < i {
                assert(ok[j] == k);
            } else if j > i {
                assert(ok[j - 1] == k);
            }
        }
    }
}

impl Node {
    /// Inserts `key` below this node. When the node ends up with one key too
    /// many it splits, and the separator and the new right half are returned
    /// for the parent to take in.
    pub(crate) fn insert_rec(&mut self, key: usize, Ghost(lo): Ghost<int>, Ghost(hi): Ghost<int>, Ghost(h): Ghost<nat>, Ghost(min): Ghost<nat>) -> (r: Option<(usize, Node)>)
        requires
            old(self).order >= 3,
            old(self).wf_node(old(self).order as nat, lo, hi, h, min, max_keys_of(old(self).order as nat)),
            min <= min_keys_of(old(self).order as nat),
            lo < key < hi,
            !old(self).has(key),
        ensures
            final(self).order == old(self).order,
            final(self).at_root == old(self).at_root,
            r is None ==> {
                &&& final(self).wf_node(old(self).order as nat, lo, hi, h, min, max_keys_of(old(self).order as nat))
                &&& forall|k: usize| final(self).has(k) == (old(self).has(k) || k == key)
            },
            r matches Some((sep, right)) ==> {
                &&& lo < sep < hi
                &&& !right.at_root
                &&& right.order == old(self).order
                &&& final(self).wf_node(old(self).order as nat, lo, sep as int, h,
                    min_keys_of(old(self).order as nat), max_keys_of(old(self).order as nat))
                &&& right.wf_node(old(self).order as nat, sep as int, hi, h,
                    min_keys_of(old(self).order as nat), max_keys_of(old(self).order as nat))
                &&& forall|k: usize|
                    #![trigger final(self).has(k)]
                    #![trigger right.has(k)]
                    #![trigger old(self).has(k)]
                    (final(self).has(k) || k == sep || right.has(k)) == (old(self).has(k) || k == key)
            },
            final(self).tree() == insert_t(old(self).tree(), key, old(self).order as nat).0,
            (r is None) == (insert_t(old(self).tree(), key, old(self).order as nat).1 is None),
            r matches Some((sep, right)) ==> insert_t(old(self).tree(), key, old(self).order as nat).1
                == Some((sep, right.tree())),
        decreases h,
    {
        let ghost old_n = *self;
        let ghost order = self.order as nat;
        let st = self.find_key_index(key);
        let i = st.unwrap();
        proof {
            old_n.lemma_has(key);
            if st is Found {
                assert(old_n.keys@.contains(key));
            }
            assert(splits(old_n.keys@, key, i as int));
            lemma_slot(old_n.keys@, key, i as int);
            old_n.lemma_tree();
        }
        if self.children.len() == 0 {
            self.keys.insert(i, key);
            proof {
                lemma_leaf_insert(old_n, *self, i as int, key, order, lo, hi, min);
                self.lemma_tree_eq(Tree { keys: old_n.tree().keys.insert(i as int, key), children: old_n.tree().children });
            }
        } else {
            proof {
                assert(old_n.lo_of(i as int, lo) < key) by {
                    if i > 0 {
                        assert(old_n.keys@[i - 1] < key);
                    }
                }
                assert(key < old_n.hi_of(i as int, hi)) by {
                    if i < old_n.keys@.len() {
                        assert(old_n.keys@[i as int] > key);
                    }
                }
                old_n.lemma_has_descend(order, lo, hi, h, min, max_keys_of(order), i as int, key);
                let c = old_n.children@[i as int];
                assert(c.wf_node(order, old_n.lo_of(i as int, lo), old_n.hi_of(i as int, hi), (h - 1) as nat,
                    min_keys_of(order), max_keys_of(order)));
                assert(c.order >= 3);
                assert(!c.has(key));
            }
            let res = self.children[i].insert_rec(
                key,
                Ghost(old_n.lo_of(i as int, lo)),
                Ghost(old_n.hi_of(i as int, hi)),
                Ghost((h - 1) as nat),
                Ghost(min_keys_of(order)),
            );
            match res {
                None => {
                    proof {
                        lemma_child_grown(old_n, *self, i as int, key, order, lo, hi, h, min, order);
                        let t = Tree { keys: old_n.tree().keys, children: old_n.tree().children.update(i as int, self.children@[i as int].tree()) };
                        assert forall|j: int| 0 <= j < t.children.len() implies #[trigger] self.children@[j].tree() == t.children[j] by {
                            if j != i {
                                assert(self.children@[j] == old_n.children@[j]);
                            }
                        }
                        self.lemma_tree_eq(t);
                    }
                },
                Some((sep, right)) => {
                    let ghost c = self.children@[i as int];
                    let ghost rr = right;
                    self.keys.insert(i, sep);
                    self.children.insert(i + 1, right);
                    proof {
                        assert(self.children@ == old_n.children@.update(i as int, c).insert(i + 1, rr));
                        lemma_child_split(old_n, *self, i as int, key, c, sep, rr, order, lo, hi, h, min);
                        let t = Tree {
                            keys: old_n.tree().keys.insert(i as int, sep),
                            children: old_n.tree().children.update(i as int, c.tree()).insert(i + 1, rr.tree()),
                        };
                        assert forall|j: int| 0 <= j < t.children.len() implies #[trigger] self.children@[j].tree() == t.children[j] by {
                            if j < i {
                                assert(self.children@[j] == old_n.children@[j]);
                            } else if j > i + 1 {
                                assert(self.children@[j] == old_n.children@[j - 1]);
                            }
                        }
                        self.lemma_tree_eq(t);
                    }
                },
            }
        }
        if self.keys.len() > self.order - 1 {
            let ghost pre = *self;
            let (mid, right) = self.split_node();
            proof {
                lemma_split(pre, *self, mid, right, order, lo, hi, h, min);
            }
            return Some((mid, right));
        }
        None
    }
}

} // verus!
