use vstd::prelude::*;
use crate::node::{Node, strictly_sorted, min_keys_of, max_keys_of};
use crate::tree::{BTree, key_limit};

verus! {

impl Node {
    /// In-order traversal from child `j` on: the keys below child `j`, then
    /// key `j`, then the traversal from child `j + 1`. A leaf yields its keys.
    pub open spec fn inorder_from(self, j: int) -> Seq<usize>
        decreases self, self.children@.len() - j,
    {
        if self.children@.len() == 0 {
            self.keys@
        } else if j < 0 || j >= self.children@.len() {
            Seq::empty()
        } else {
            self.children@[j].inorder_from(0) + (if j < self.keys@.len() {
                seq![self.keys@[j]]
            } else {
                Seq::empty()
            }) + self.inorder_from(j + 1)
        }
    }

    /// In-order traversal of the subtree.
    pub open spec fn inorder(self) -> Seq<usize> {
        self.inorder_from(0)
    }

    proof fn lemma_inorder_from(self, order: nat, lo: int, hi: int, h: nat, min: nat, max: nat, j: int)
        requires
            self.wf_node(order, lo, hi, h, min, max),
            0 <= j <= self.children@.len(),
        ensures
            strictly_sorted(self.inorder_from(j)),
            forall|x: int| 0 <= x < self.inorder_from(j).len() ==> self.lo_of(j, lo) < #[trigger] self.inorder_from(j)[x] < hi,
            h == 0 ==> forall|k: usize| self.inorder_from(j).contains(k) == self.has(k),
            h > 0 ==> forall|k: usize| self.inorder_from(j).contains(k) == (
                (exists|m: int| j <= m < self.children@.len() && #[trigger] self.children@[m].has(k))
                || (exists|m: int| j <= m < self.keys@.len() && #[trigger] self.keys@[m] == k)),
        decreases h, self.children@.len() - j,
    {
        let s = self.inorder_from(j);
        if h == 0 {
            assert forall|k: usize| s.contains(k) == self.has(k) by {
                self.lemma_has(k);
            }
            if j > 0 {
                assert(self.keys@.len() == 0);
            }
        } else if j == self.children@.len() {
            assert(s.len() == 0);
        } else {
            let c = self.children@[j];
            let a = c.inorder_from(0);
            let mid: Seq<usize> = if j < self.keys@.len() {
                seq![self.keys@[j]]
            } else {
                Seq::empty()
            };
            let b = self.inorder_from(j + 1);
            assert(s == a + mid + b);
            c.lemma_inorder_from(order, self.lo_of(j, lo), self.hi_of(j, hi), (h - 1) as nat,
                min_keys_of(order), max_keys_of(order), 0);
            self.lemma_inorder_from(order, lo, hi, h, min, max, j + 1);
            let hj = self.hi_of(j, hi);
            assert forall|k: usize| a.contains(k) == c.has(k) by {
                c.lemma_has(k);
                if h - 1 > 0 {
                    if c.keys@.contains(k) {
                        let m = choose|m: int| 0 <= m < c.keys@.len() && c.keys@[m] == k;
                        assert(c.keys@[m] == k);
                    }
                    if c.has(k) && !c.keys@.contains(k) {
                        let m = choose|m: int| 0 <= m < c.children@.len() && #[trigger] c.children@[m].has(k);
                        assert(c.children@[m].has(k));
                    }
                }
            }
            assert(forall|x: int| 0 <= x < a.len() ==> a[x] < hj) by {
                assert forall|x: int| 0 <= x < a.len() implies a[x] < hj by {
                    assert(c.lo_of(0, self.lo_of(j, lo)) == self.lo_of(j, lo));
                    assert(a.contains(a[x]));
                    c.lemma_has_bounds(order, self.lo_of(j, lo), hj, (h - 1) as nat,
                        min_keys_of(order), max_keys_of(order), a[x]);
                }
            }
            assert forall|x: int| 0 <= x < s.len() implies self.lo_of(j, lo) < #[trigger] s[x] < hi by {
                if x < a.len() {
                    assert(s[x] == a[x]);
                    assert(a.contains(a[x]));
                    c.lemma_has_bounds(order, self.lo_of(j, lo), hj, (h - 1) as nat,
                        min_keys_of(order), max_keys_of(order), a[x]);
                    if j < self.keys@.len() {
                        assert(self.keys@[j] < hi);
                    }
                } else if x < a.len() + mid.len() {
                    assert(s[x] == self.keys@[j]);
                } else {
                    assert(s[x] == b[x - a.len() - mid.len()]);
                    if j + 1 < self.children@.len() {
                        assert(self.lo_of(j + 1, lo) == self.keys@[j]);
                    }
                    if j > 0 {
                        assert(self.keys@[j - 1] < self.keys@[j]);
                    }
                }
            }
            assert(strictly_sorted(s)) by {
                assert forall|x: int, y: int| 0 <= x < y < s.len() implies s[x] < s[y] by {
                    let al = a.len() as int;
                    let ml = mid.len() as int;
                    if y < al {
                        assert(s[x] == a[x] && s[y] == a[y]);
                    } else if x >= al + ml {
                        assert(s[x] == b[x - al - ml] && s[y] == b[y - al - ml]);
                    } else {
                        // s[x] lies at or below the separator, s[y] above it
                        if x < al {
                            assert(s[x] == a[x]);
                            assert(a[x] < hj);
                        } else {
                            assert(s[x] == self.keys@[j]);
                        }
                        if y < al + ml {
                            assert(s[y] == self.keys@[j]);
                        } else {
                            assert(s[y] == b[y - al - ml]);
                            assert(self.lo_of(j + 1, lo) == self.keys@[j]);
                        }
                    }
                }
            }
            assert forall|k: usize| s.contains(k) == (
                (exists|m: int| j <= m < self.children@.len() && #[trigger] self.children@[m].has(k))
                || (exists|m: int| j <= m < self.keys@.len() && #[trigger] self.keys@[m] == k)) by {
                if s.contains(k) {
                    let x = choose|x: int| 0 <= x < s.len() && s[x] == k;
                    if x < a.len() {
                        assert(a[x] == k);
                        assert(a.contains(k));
                        assert(self.children@[j].has(k));
                    } else if x < a.len() + mid.len() {
                        assert(self.keys@[j] == k);
                    } else {
                        assert(b[x - a.len() - mid.len()] == k);
                        assert(b.contains(k));
                    }
                }
                if exists|m: int| j <= m < self.children@.len() && #[trigger] self.children@[m].has(k) {
                    let m = choose|m: int| j <= m < self.children@.len() && #[trigger] self.children@[m].has(k);
                    if m == j {
                        assert(a.contains(k));
                        let x = choose|x: int| 0 <= x < a.len() && a[x] == k;
                        assert(s[x] == k);
                    } else {
                        assert(b.contains(k));
                        let x = choose|x: int| 0 <= x < b.len() && b[x] == k;
                        assert(s[x + a.len() + mid.len()] == k);
                    }
                }
                if exists|m: int| j <= m < self.keys@.len() && #[trigger] self.keys@[m] == k {
                    let m = choose|m: int| j <= m < self.keys@.len() && #[trigger] self.keys@[m] == k;
                    if m == j {
                        assert(s[a.len() as int] == k);
                    } else {
                        assert(b.contains(k));
                        let x = choose|x: int| 0 <= x < b.len() && b[x] == k;
                        assert(s[x + a.len() + mid.len()] == k);
                    }
                }
            }
        }
    }

    /// The in-order traversal of a well-formed subtree is ascending and
    /// holds exactly the subtree's keys.
    pub proof fn lemma_inorder(self, order: nat, lo: int, hi: int, h: nat, min: nat, max: nat)
        requires
            self.wf_node(order, lo, hi, h, min, max),
        ensures
            strictly_sorted(self.inorder()),
            forall|k: usize| self.inorder().contains(k) == self.has(k),
    {
        self.lemma_inorder_from(order, lo, hi, h, min, max, 0);
        if h > 0 {
            assert forall|k: usize| self.inorder().contains(k) == self.has(k) by {
                self.lemma_has(k);
                if self.keys@.contains(k) {
                    let m = choose|m: int| 0 <= m < self.keys@.len() && self.keys@[m] == k;
                    assert(self.keys@[m] == k);
                }
            }
        }
    }
}

impl BTree {
    /// The tree's keys in in-order traversal order.
    pub open spec fn in_order(self) -> Seq<usize> {
        self.root.inorder()
    }

    /// An in-order traversal of a tree built by any sequence of `add` and
    /// `delete` calls (all of which keep the tree well formed) yields the keys
    /// present, each once, in ascending order.
    pub proof fn lemma_in_order_sorted(self)
        requires
            self.wf(),
        ensures
            strictly_sorted(self.in_order()),
            forall|k: usize| self.in_order().contains(k) == self@.contains(k),
    {
        self.root.lemma_inorder(self.order as nat, -1, key_limit(), self.root.height(),
            BTree::root_min(self.root.height()), max_keys_of(self.order as nat));
    }
}

} // verus!
