use vstd::prelude::*;
use crate::node::{Node, strictly_sorted, min_keys_of, max_keys_of};
use crate::search_status::SearchStatus;
use crate::model::{Tree, merge_t, rotate_from_left_t, rotate_from_right_t, rebalance_t, remove_max_t, remove_min_t,
    delete_t, splits, lemma_slot, lemma_index_of};

verus! {

impl Node {
    /// Child `j` is a well-formed subtree within its range, holding at least
    /// `cmin` keys.
    pub open spec fn child_ok(self, j: int, order: nat, lo: int, hi: int, h: nat, cmin: nat) -> bool {
        &&& !self.children@[j].at_root
        &&& self.children@[j].wf_node(order, self.lo_of(j, lo), self.hi_of(j, hi), (h - 1) as nat, cmin,
            max_keys_of(order))
    }

    /// An internal node that is well formed except that child `d` may hold
    /// one key fewer than the minimum.
    pub open spec fn wf_except(self, order: nat, lo: int, hi: int, h: nat, min: nat, max: nat, d: int) -> bool {
        &&& self.order == order
        &&& min <= self.keys@.len() <= max
        &&& strictly_sorted(self.keys@)
        &&& forall|i: int| 0 <= i < self.keys@.len() ==> lo < #[trigger] self.keys@[i] < hi
        &&& h > 0
        &&& self.children@.len() == self.keys@.len() + 1
        &&& 0 <= d < self.children@.len()
        &&& forall|j: int|
            0 <= j < self.children@.len() && j != d ==> #[trigger] self.child_ok(j, order, lo, hi, h, min_keys_of(order))
        &&& self.child_ok(d, order, lo, hi, h, (min_keys_of(order) - 1) as nat)
    }

    /// A well-formed subtree stays well formed under any bounds that still
    /// enclose all of its keys.
    pub proof fn lemma_rebound(self, order: nat, lo: int, hi: int, h: nat, min: nat, max: nat, lo2: int, hi2: int)
        requires
            self.wf_node(order, lo, hi, h, min, max),
            forall|k: usize| self.has(k) ==> lo2 < k < hi2,
        ensures
            self.wf_node(order, lo2, hi2, h, min, max),
        decreases h,
    {
        assert forall|i: int| 0 <= i < self.keys@.len() implies lo2 < #[trigger] self.keys@[i] < hi2 by {
            self.lemma_has(self.keys@[i]);
        }
        if h > 0 {
            assert forall|j: int| 0 <= j < self.children@.len() implies {
                &&& !(#[trigger] self.children@[j]).at_root
                &&& self.children@[j].wf_node(order, self.lo_of(j, lo2), self.hi_of(j, hi2), (h - 1) as nat,
                    min_keys_of(order), max_keys_of(order))
            } by {
                let c = self.children@[j];
                assert forall|k: usize| c.has(k) implies self.lo_of(j, lo2) < k < self.hi_of(j, hi2) by {
                    self.lemma_has(k);
                    c.lemma_has_bounds(order, self.lo_of(j, lo), self.hi_of(j, hi), (h - 1) as nat,
                        min_keys_of(order), max_keys_of(order), k);
                }
                c.lemma_rebound(order, self.lo_of(j, lo), self.hi_of(j, hi), (h - 1) as nat,
                    min_keys_of(order), max_keys_of(order), self.lo_of(j, lo2), self.hi_of(j, hi2));
            }
        }
    }
}

/// Merging children `a` and `a + 1` with the separator between them, when
/// one of them is one key short and the other holds at most the minimum,
/// keeps the node well formed with one key fewer and the same keys below it.
#[verifier::rlimit(60)]
proof fn lemma_merge(p: Node, q: Node, a: int, d: int, order: nat, lo: int, hi: int, h: nat, min: nat, max: nat)
    requires
        order >= 3,
        p.wf_except(order, lo, hi, h, min, max, d),
        0 <= a < p.keys@.len(),
        d == a || d == a + 1,
        p.children@[a].keys@.len() + p.children@[a + 1].keys@.len() < 2 * min_keys_of(order),
        q.order == order,
        q.keys@ == p.keys@.remove(a),
        q.children@.len() == p.children@.len() - 1,
        forall|j: int| 0 <= j < a ==> q.children@[j] == p.children@[j],
        forall|j: int| a < j < q.children@.len() ==> q.children@[j] == p.children@[j + 1],
        q.children@[a].order == order,
        !q.children@[a].at_root,
        q.children@[a].keys@ == p.children@[a].keys@ + seq![p.keys@[a]] + p.children@[a + 1].keys@,
        q.children@[a].children@ == p.children@[a].children@ + p.children@[a + 1].children@,
    ensures
        q.wf_node(order, lo, hi, h, if min > 0 { (min - 1) as nat } else { 0 }, max),
        forall|k: usize| q.has(k) == p.has(k),
{
    let sep = p.keys@[a];
    let l = p.children@[a];
    let r = p.children@[a + 1];
    let m = q.children@[a];
    let ln = l.keys@.len() as int;
    let mlo = p.lo_of(a, lo);
    let mhi = p.hi_of(a + 1, hi);
    if d == a {
        assert(p.child_ok(a + 1, order, lo, hi, h, min_keys_of(order)));
    } else {
        assert(p.child_ok(a, order, lo, hi, h, min_keys_of(order)));
    }
    assert(l.wf_node(order, mlo, sep as int, (h - 1) as nat, (min_keys_of(order) - 1) as nat, max_keys_of(order)));
    assert(r.wf_node(order, sep as int, mhi, (h - 1) as nat, (min_keys_of(order) - 1) as nat, max_keys_of(order)));
    // the merged child
    assert(strictly_sorted(m.keys@)) by {
        assert forall|x: int, y: int| 0 <= x < y < m.keys@.len() implies m.keys@[x] < m.keys@[y] by {
            if y < ln {
            } else if x < ln && y == ln {
                assert(l.keys@[x] < sep);
            } else if x < ln {
                assert(l.keys@[x] < sep);
                assert(sep < r.keys@[y - ln - 1]);
            } else if x == ln {
                assert(sep < r.keys@[y - ln - 1]);
            } else {
                assert(r.keys@[x - ln - 1] < r.keys@[y - ln - 1]);
            }
        }
    }
    assert forall|x: int| 0 <= x < m.keys@.len() implies mlo < #[trigger] m.keys@[x] < mhi by {
        if x < ln {
            assert(m.keys@[x] == l.keys@[x]);
        } else if x > ln {
            assert(m.keys@[x] == r.keys@[x - ln - 1]);
        }
        if a > 0 {
            assert(p.keys@[a - 1] < sep);
        }
        if a + 1 < p.keys@.len() {
            assert(sep < p.keys@[a + 1]);
        }
    }
    assert(min_keys_of(order) <= m.keys@.len() <= max_keys_of(order)) by {
        assert(2 * min_keys_of(order) <= max_keys_of(order));
    }
    if h > 1 {
        assert forall|j: int| 0 <= j < m.children@.len() implies {
            &&& !(#[trigger] m.children@[j]).at_root
            &&& m.children@[j].wf_node(order, m.lo_of(j, mlo), m.hi_of(j, mhi), (h - 2) as nat,
                min_keys_of(order), max_keys_of(order))
        } by {
            if j <= ln {
                assert(m.children@[j] == l.children@[j]);
                assert(m.lo_of(j, mlo) == l.lo_of(j, mlo));
                assert(m.hi_of(j, mhi) == l.hi_of(j, sep as int));
            } else {
                assert(m.children@[j] == r.children@[j - ln - 1]);
                assert(m.lo_of(j, mlo) == r.lo_of(j - ln - 1, sep as int));
                assert(m.hi_of(j, mhi) == r.hi_of(j - ln - 1, mhi));
            }
        }
    }
    assert(m.wf_node(order, mlo, mhi, (h - 1) as nat, min_keys_of(order), max_keys_of(order)));
    // the parent
    assert(strictly_sorted(q.keys@));
    assert forall|j: int| 0 <= j < q.children@.len() implies {
        &&& !(#[trigger] q.children@[j]).at_root
        &&& q.children@[j].wf_node(order, q.lo_of(j, lo), q.hi_of(j, hi), (h - 1) as nat,
            min_keys_of(order), max_keys_of(order))
    } by {
        if j < a {
            assert(p.child_ok(j, order, lo, hi, h, min_keys_of(order)));
            assert(q.lo_of(j, lo) == p.lo_of(j, lo));
            assert(q.hi_of(j, hi) == p.hi_of(j, hi));
        } else if j == a {
            assert(q.lo_of(j, lo) == mlo);
            assert(q.hi_of(j, hi) == mhi);
        } else {
            assert(p.child_ok(j + 1, order, lo, hi, h, min_keys_of(order)));
            assert(q.lo_of(j, lo) == p.lo_of(j + 1, lo));
            assert(q.hi_of(j, hi) == p.hi_of(j + 1, hi));
        }
    }
    assert forall|k: usize| q.has(k) == p.has(k) by {
        q.lemma_has(k);
        p.lemma_has(k);
        m.lemma_has(k);
        l.lemma_has(k);
        r.lemma_has(k);
        if p.keys@.contains(k) {
            let x = choose|x: int| 0 <= x < p.keys@.len() && p.keys@[x] == k;
            if x < a {
                assert(q.keys@[x] == k);
            } else if x > a {
                assert(q.keys@[x - 1] == k);
            } else {
                assert(m.keys@[ln] == k);
            }
        } else if p.has(k) {
            let x = choose|x: int| 0 <= x < p.children@.len() && #[trigger] p.children@[x].has(k);
            if x < a {
                assert(q.children@[x] == p.children@[x]);
            } else if x > a + 1 {
                assert(q.children@[x - 1] == p.children@[x]);
            } else if x == a {
                if l.keys@.contains(k) {
                    let y = choose|y: int| 0 <= y < l.keys@.len() && l.keys@[y] == k;
                    assert(m.keys@[y] == k);
                } else {
                    let y = choose|y: int| 0 <= y < l.children@.len() && #[trigger] l.children@[y].has(k);
                    assert(m.children@[y] == l.children@[y]);
                }
            } else {
                if r.keys@.contains(k) {
                    let y = choose|y: int| 0 <= y < r.keys@.len() && r.keys@[y] == k;
                    assert(m.keys@[y + ln + 1] == k);
                } else {
                    let y = choose|y: int| 0 <= y < r.children@.len() && #[trigger] r.children@[y].has(k);
                    assert(m.children@[y + ln + 1] == r.children@[y]);
                }
            }
        }
        if q.keys@.contains(k) {
            let x = choose|x: int| 0 <= x < q.keys@.len() && q.keys@[x] == k;
            if x < a {
                assert(p.keys@[x] == k);
            } else {
                assert(p.keys@[x + 1] == k);
            }
        } else if q.has(k) {
            let x = choose|x: int| 0 <= x < q.children@.len() && #[trigger] q.children@[x].has(k);
            if x < a {
                assert(p.children@[x] == q.children@[x]);
            } else if x > a {
                assert(p.children@[x + 1] == q.children@[x]);
            } else if m.keys@.contains(k) {
                let y = choose|y: int| 0 <= y < m.keys@.len() && m.keys@[y] == k;
                if y < ln {
                    assert(l.keys@[y] == k);
                    assert(p.children@[a].has(k));
                } else if y == ln {
                    assert(p.keys@[a] == k);
                } else {
                    assert(r.keys@[y - ln - 1] == k);
                    assert(p.children@[a + 1].has(k));
                }
            } else {
                let y = choose|y: int| 0 <= y < m.children@.len() && #[trigger] m.children@[y].has(k);
                if y <= ln {
                    assert(l.children@[y] == m.children@[y]);
                    assert(p.children@[a].has(k));
                } else {
                    assert(r.children@[y - ln - 1] == m.children@[y]);
                    assert(p.children@[a + 1].has(k));
                }
            }
        }
    }
}

/// Moving the largest key of child `i - 1` up into the separator slot, and the
/// old separator down to the front of child `i` (with the last child of
/// `i - 1` when they are internal), repairs a short child `i`.
#[verifier::rlimit(80)]
proof fn lemma_rotate_from_left(p: Node, q: Node, i: int, order: nat, lo: int, hi: int, h: nat, min: nat, max: nat)
    requires
        order >= 3,
        p.wf_except(order, lo, hi, h, min, max, i),
        0 < i < p.children@.len(),
        p.children@[i - 1].keys@.len() > min_keys_of(order),
        p.children@[i].keys@.len() < min_keys_of(order),
        q.order == order,
        q.keys@ == p.keys@.update(i - 1, p.children@[i - 1].keys@.last()),
        q.children@.len() == p.children@.len(),
        forall|j: int| 0 <= j < q.children@.len() && j != i - 1 && j != i ==> q.children@[j] == p.children@[j],
        ({
            let l = p.children@[i - 1];
            let c = p.children@[i];
            let l2 = q.children@[i - 1];
            let c2 = q.children@[i];
            &&& l2.order == order && c2.order == order && !l2.at_root && !c2.at_root
            &&& l2.keys@ == l.keys@.drop_last()
            &&& c2.keys@ == seq![p.keys@[i - 1]] + c.keys@
            &&& h > 1 ==> l2.children@ == l.children@.drop_last() && c2.children@ == seq![l.children@.last()] + c.children@
            &&& h == 1 ==> l2.children@.len() == 0 && c2.children@.len() == 0
        }),
    ensures
        q.wf_node(order, lo, hi, h, min, max),
        forall|k: usize| q.has(k) == p.has(k),
{
    let l = p.children@[i - 1];
    let c = p.children@[i];
    let l2 = q.children@[i - 1];
    let c2 = q.children@[i];
    let sep = p.keys@[i - 1];
    let ln = l.keys@.len() as int;
    let up = l.keys@[ln - 1];
    let llo = p.lo_of(i - 1, lo);
    let chi = p.hi_of(i, hi);
    assert(p.child_ok(i - 1, order, lo, hi, h, min_keys_of(order)));
    assert(p.child_ok(i, order, lo, hi, h, (min_keys_of(order) - 1) as nat));
    assert(l.wf_node(order, llo, sep as int, (h - 1) as nat, min_keys_of(order), max_keys_of(order)));
    assert(c.wf_node(order, sep as int, chi, (h - 1) as nat, (min_keys_of(order) - 1) as nat, max_keys_of(order)));
    assert(llo < up < sep);
    // the shrunk left sibling
    assert forall|x: int| 0 <= x < l2.keys@.len() implies llo < #[trigger] l2.keys@[x] < up by {
        assert(l2.keys@[x] == l.keys@[x]);
    }
    if h > 1 {
        assert forall|j: int| 0 <= j < l2.children@.len() implies {
            &&& !(#[trigger] l2.children@[j]).at_root
            &&& l2.children@[j].wf_node(order, l2.lo_of(j, llo), l2.hi_of(j, up as int), (h - 2) as nat,
                min_keys_of(order), max_keys_of(order))
        } by {
            assert(l2.children@[j] == l.children@[j]);
            assert(l2.lo_of(j, llo) == l.lo_of(j, llo));
            assert(l2.hi_of(j, up as int) == l.hi_of(j, sep as int));
        }
    }
    assert(l2.wf_node(order, llo, up as int, (h - 1) as nat, min_keys_of(order), max_keys_of(order)));
    // the grown child
    assert(strictly_sorted(c2.keys@)) by {
        assert forall|x: int, y: int| 0 <= x < y < c2.keys@.len() implies c2.keys@[x] < c2.keys@[y] by {
            if x == 0 {
                assert(sep < c.keys@[y - 1]);
            } else {
                assert(c.keys@[x - 1] < c.keys@[y - 1]);
            }
        }
    }
    assert forall|x: int| 0 <= x < c2.keys@.len() implies up < #[trigger] c2.keys@[x] < chi by {
        if x > 0 {
            assert(c2.keys@[x] == c.keys@[x - 1]);
        }
        if i < p.keys@.len() {
            assert(sep < p.keys@[i]);
        }
    }
    if h > 1 {
        assert forall|j: int| 0 <= j < c2.children@.len() implies {
            &&& !(#[trigger] c2.children@[j]).at_root
            &&& c2.children@[j].wf_node(order, c2.lo_of(j, up as int), c2.hi_of(j, chi), (h - 2) as nat,
                min_keys_of(order), max_keys_of(order))
        } by {
            if j == 0 {
                assert(c2.children@[0] == l.children@[ln]);
                assert(l.lo_of(ln, llo) == up);
                assert(l.hi_of(ln, sep as int) == sep);
            } else {
                assert(c2.children@[j] == c.children@[j - 1]);
                assert(c2.lo_of(j, up as int) == c.lo_of(j - 1, sep as int));
                assert(c2.hi_of(j, chi) == c.hi_of(j - 1, chi));
            }
        }
    }
    assert(c2.wf_node(order, up as int, chi, (h - 1) as nat, min_keys_of(order), max_keys_of(order)));
    // the parent
    assert(strictly_sorted(q.keys@)) by {
        assert forall|x: int, y: int| 0 <= x < y < q.keys@.len() implies q.keys@[x] < q.keys@[y] by {
            if x == i - 1 {
                assert(up < sep);
            } else if y == i - 1 {
                assert(p.keys@[x] <= llo);
            }
        }
    }
    assert forall|x: int| 0 <= x < q.keys@.len() implies lo < #[trigger] q.keys@[x] < hi by {
        if x == i - 1 {
            if i > 1 {
                assert(lo < p.keys@[i - 2]);
            }
            assert(sep < hi);
        }
    }
    assert forall|j: int| 0 <= j < q.children@.len() implies {
        &&& !(#[trigger] q.children@[j]).at_root
        &&& q.children@[j].wf_node(order, q.lo_of(j, lo), q.hi_of(j, hi), (h - 1) as nat,
            min_keys_of(order), max_keys_of(order))
    } by {
        if j != i - 1 && j != i {
            assert(p.child_ok(j, order, lo, hi, h, min_keys_of(order)));
            assert(q.lo_of(j, lo) == p.lo_of(j, lo));
            assert(q.hi_of(j, hi) == p.hi_of(j, hi));
        }
    }
    assert forall|k: usize| q.has(k) == p.has(k) by {
        q.lemma_has(k);
        p.lemma_has(k);
        l.lemma_has(k);
        c.lemma_has(k);
        l2.lemma_has(k);
        c2.lemma_has(k);
        if p.keys@.contains(k) {
            let x = choose|x: int| 0 <= x < p.keys@.len() && p.keys@[x] == k;
            if x == i - 1 {
                assert(c2.keys@[0] == k);
                assert(q.children@[i].has(k));
            } else {
                assert(q.keys@[x] == k);
            }
        } else if p.has(k) {
            let x = choose|x: int| 0 <= x < p.children@.len() && #[trigger] p.children@[x].has(k);
            if x == i - 1 {
                if l.keys@.contains(k) {
                    let y = choose|y: int| 0 <= y < l.keys@.len() && l.keys@[y] == k;
                    if y == ln - 1 {
                        assert(q.keys@[i - 1] == k);
                    } else {
                        assert(l2.keys@[y] == k);
                        assert(q.children@[i - 1].has(k));
                    }
                } else {
                    let y = choose|y: int| 0 <= y < l.children@.len() && #[trigger] l.children@[y].has(k);
                    if y == ln {
                        assert(c2.children@[0] == l.children@[y]);
                    } else {
                        assert(l2.children@[y] == l.children@[y]);
                    }
                }
            } else if x == i {
                if c.keys@.contains(k) {
                    let y = choose|y: int| 0 <= y < c.keys@.len() && c.keys@[y] == k;
                    assert(c2.keys@[y + 1] == k);
                } else {
                    let y = choose|y: int| 0 <= y < c.children@.len() && #[trigger] c.children@[y].has(k);
                    assert(c2.children@[y + 1] == c.children@[y]);
                }
            } else {
                assert(q.children@[x] == p.children@[x]);
            }
        }
        if q.keys@.contains(k) {
            let x = choose|x: int| 0 <= x < q.keys@.len() && q.keys@[x] == k;
            if x == i - 1 {
                assert(l.keys@[ln - 1] == k);
                assert(p.children@[i - 1].has(k));
            } else {
                assert(p.keys@[x] == k);
            }
        } else if q.has(k) {
            let x = choose|x: int| 0 <= x < q.children@.len() && #[trigger] q.children@[x].has(k);
            if x == i - 1 {
                if l2.keys@.contains(k) {
                    let y = choose|y: int| 0 <= y < l2.keys@.len() && l2.keys@[y] == k;
                    assert(l.keys@[y] == k);
                } else {
                    let y = choose|y: int| 0 <= y < l2.children@.len() && #[trigger] l2.children@[y].has(k);
                    assert(l.children@[y] == l2.children@[y]);
                }
                assert(p.children@[i - 1].has(k));
            } else if x == i {
                if c2.keys@.contains(k) {
                    let y = choose|y: int| 0 <= y < c2.keys@.len() && c2.keys@[y] == k;
                    if y == 0 {
                        assert(p.keys@[i - 1] == k);
                    } else {
                        assert(c.keys@[y - 1] == k);
                        assert(p.children@[i].has(k));
                    }
                } else {
                    let y = choose|y: int| 0 <= y < c2.children@.len() && #[trigger] c2.children@[y].has(k);
                    if y == 0 {
                        assert(l.children@[ln] == c2.children@[0]);
                        assert(p.children@[i - 1].has(k));
                    } else {
                        assert(c.children@[y - 1] == c2.children@[y]);
                        assert(p.children@[i].has(k));
                    }
                }
            } else {
                assert(p.children@[x] == q.children@[x]);
            }
        }
    }
}

/// Moving the smallest key of child `i + 1` up into the separator slot, and
/// the old separator down to the end of child `i` (with the first child of
/// `i + 1` when they are internal), repairs a short child `i`.
#[verifier::rlimit(80)]
proof fn lemma_rotate_from_right(p: Node, q: Node, i: int, order: nat, lo: int, hi: int, h: nat, min: nat, max: nat)
    requires
        order >= 3,
        p.wf_except(order, lo, hi, h, min, max, i),
        0 <= i < p.keys@.len(),
        p.children@[i + 1].keys@.len() > min_keys_of(order),
        p.children@[i].keys@.len() < min_keys_of(order),
        q.order == order,
        q.keys@ == p.keys@.update(i, p.children@[i + 1].keys@[0]),
        q.children@.len() == p.children@.len(),
        forall|j: int| 0 <= j < q.children@.len() && j != i && j != i + 1 ==> q.children@[j] == p.children@[j],
        ({
            let c = p.children@[i];
            let r = p.children@[i + 1];
            let c2 = q.children@[i];
            let r2 = q.children@[i + 1];
            &&& r2.order == order && c2.order == order && !r2.at_root && !c2.at_root
            &&& r2.keys@ == r.keys@.subrange(1, r.keys@.len() as int)
            &&& c2.keys@ == c.keys@.push(p.keys@[i])
            &&& h > 1 ==> r2.children@ == r.children@.subrange(1, r.children@.len() as int)
                && c2.children@ == c.children@.push(r.children@[0])
            &&& h == 1 ==> r2.children@.len() == 0 && c2.children@.len() == 0
        }),
    ensures
        q.wf_node(order, lo, hi, h, min, max),
        forall|k: usize| q.has(k) == p.has(k),
{
    let c = p.children@[i];
    let r = p.children@[i + 1];
    let c2 = q.children@[i];
    let r2 = q.children@[i + 1];
    let sep = p.keys@[i];
    let cn = c.keys@.len() as int;
    let up = r.keys@[0];
    let clo = p.lo_of(i, lo);
    let rhi = p.hi_of(i + 1, hi);
    assert(p.child_ok(i + 1, order, lo, hi, h, min_keys_of(order)));
    assert(p.child_ok(i, order, lo, hi, h, (min_keys_of(order) - 1) as nat));
    assert(r.wf_node(order, sep as int, rhi, (h - 1) as nat, min_keys_of(order), max_keys_of(order)));
    assert(c.wf_node(order, clo, sep as int, (h - 1) as nat, (min_keys_of(order) - 1) as nat, max_keys_of(order)));
    assert(sep < up < rhi);
    // the shrunk right sibling
    assert(strictly_sorted(r2.keys@)) by {
        assert forall|x: int, y: int| 0 <= x < y < r2.keys@.len() implies r2.keys@[x] < r2.keys@[y] by {
            assert(r.keys@[x + 1] < r.keys@[y + 1]);
        }
    }
    assert forall|x: int| 0 <= x < r2.keys@.len() implies up < #[trigger] r2.keys@[x] < rhi by {
        assert(r2.keys@[x] == r.keys@[x + 1]);
    }
    if h > 1 {
        assert forall|j: int| 0 <= j < r2.children@.len() implies {
            &&& !(#[trigger] r2.children@[j]).at_root
            &&& r2.children@[j].wf_node(order, r2.lo_of(j, up as int), r2.hi_of(j, rhi), (h - 2) as nat,
                min_keys_of(order), max_keys_of(order))
        } by {
            assert(r2.children@[j] == r.children@[j + 1]);
            assert(r2.lo_of(j, up as int) == r.lo_of(j + 1, sep as int));
            assert(r2.hi_of(j, rhi) == r.hi_of(j + 1, rhi));
        }
    }
    assert(r2.wf_node(order, up as int, rhi, (h - 1) as nat, min_keys_of(order), max_keys_of(order)));
    // the grown child
    assert(strictly_sorted(c2.keys@)) by {
        assert forall|x: int, y: int| 0 <= x < y < c2.keys@.len() implies c2.keys@[x] < c2.keys@[y] by {
            if y == cn {
                assert(c.keys@[x] < sep);
            }
        }
    }
    assert forall|x: int| 0 <= x < c2.keys@.len() implies clo < #[trigger] c2.keys@[x] < up by {
        if x < cn {
            assert(c2.keys@[x] == c.keys@[x]);
        }
        if i > 0 {
            assert(p.keys@[i - 1] < sep);
        }
    }
    if h > 1 {
        assert forall|j: int| 0 <= j < c2.children@.len() implies {
            &&& !(#[trigger] c2.children@[j]).at_root
            &&& c2.children@[j].wf_node(order, c2.lo_of(j, clo), c2.hi_of(j, up as int), (h - 2) as nat,
                min_keys_of(order), max_keys_of(order))
        } by {
            if j == cn + 1 {
                assert(c2.children@[j] == r.children@[0]);
                assert(r.lo_of(0, sep as int) == sep);
                assert(r.hi_of(0, rhi) == up);
            } else {
                assert(c2.children@[j] == c.children@[j]);
                assert(c2.lo_of(j, clo) == c.lo_of(j, clo));
                assert(c2.hi_of(j, up as int) == c.hi_of(j, sep as int));
            }
        }
    }
    assert(c2.wf_node(order, clo, up as int, (h - 1) as nat, min_keys_of(order), max_keys_of(order)));
    // the parent
    assert(strictly_sorted(q.keys@)) by {
        assert forall|x: int, y: int| 0 <= x < y < q.keys@.len() implies q.keys@[x] < q.keys@[y] by {
            if y == i {
                assert(p.keys@[x] <= sep);
            } else if x == i {
                assert(rhi <= p.keys@[y]);
            }
        }
    }
    assert forall|x: int| 0 <= x < q.keys@.len() implies lo < #[trigger] q.keys@[x] < hi by {
        if x == i {
            assert(lo < sep);
            if i + 1 < p.keys@.len() {
                assert(p.keys@[i + 1] < hi);
            }
        }
    }
    assert forall|j: int| 0 <= j < q.children@.len() implies {
        &&& !(#[trigger] q.children@[j]).at_root
        &&& q.children@[j].wf_node(order, q.lo_of(j, lo), q.hi_of(j, hi), (h - 1) as nat,
            min_keys_of(order), max_keys_of(order))
    } by {
        if j != i && j != i + 1 {
            assert(p.child_ok(j, order, lo, hi, h, min_keys_of(order)));
            assert(q.lo_of(j, lo) == p.lo_of(j, lo));
            assert(q.hi_of(j, hi) == p.hi_of(j, hi));
        }
    }
    assert forall|k: usize| q.has(k) == p.has(k) by {
        q.lemma_has(k);
        p.lemma_has(k);
        r.lemma_has(k);
        c.lemma_has(k);
        r2.lemma_has(k);
        c2.lemma_has(k);
        if p.keys@.contains(k) {
            let x = choose|x: int| 0 <= x < p.keys@.len() && p.keys@[x] == k;
            if x == i {
                assert(c2.keys@[cn] == k);
                assert(q.children@[i].has(k));
            } else {
                assert(q.keys@[x] == k);
            }
        } else if p.has(k) {
            let x = choose|x: int| 0 <= x < p.children@.len() && #[trigger] p.children@[x].has(k);
            if x == i + 1 {
                if r.keys@.contains(k) {
                    let y = choose|y: int| 0 <= y < r.keys@.len() && r.keys@[y] == k;
                    if y == 0 {
                        assert(q.keys@[i] == k);
                    } else {
                        assert(r2.keys@[y - 1] == k);
                        assert(q.children@[i + 1].has(k));
                    }
                } else {
                    let y = choose|y: int| 0 <= y < r.children@.len() && #[trigger] r.children@[y].has(k);
                    if y == 0 {
                        assert(c2.children@[cn + 1] == r.children@[y]);
                    } else {
                        assert(r2.children@[y - 1] == r.children@[y]);
                    }
                }
            } else if x == i {
                if c.keys@.contains(k) {
                    let y = choose|y: int| 0 <= y < c.keys@.len() && c.keys@[y] == k;
                    assert(c2.keys@[y] == k);
                } else {
                    let y = choose|y: int| 0 <= y < c.children@.len() && #[trigger] c.children@[y].has(k);
                    assert(c2.children@[y] == c.children@[y]);
                }
            } else {
                assert(q.children@[x] == p.children@[x]);
            }
        }
        if q.keys@.contains(k) {
            let x = choose|x: int| 0 <= x < q.keys@.len() && q.keys@[x] == k;
            if x == i {
                assert(r.keys@[0] == k);
                assert(p.children@[i + 1].has(k));
            } else {
                assert(p.keys@[x] == k);
            }
        } else if q.has(k) {
            let x = choose|x: int| 0 <= x < q.children@.len() && #[trigger] q.children@[x].has(k);
            if x == i + 1 {
                if r2.keys@.contains(k) {
                    let y = choose|y: int| 0 <= y < r2.keys@.len() && r2.keys@[y] == k;
                    assert(r.keys@[y + 1] == k);
                } else {
                    let y = choose|y: int| 0 <= y < r2.children@.len() && #[trigger] r2.children@[y].has(k);
                    assert(r.children@[y + 1] == r2.children@[y]);
                }
                assert(p.children@[i + 1].has(k));
            } else if x == i {
                if c2.keys@.contains(k) {
                    let y = choose|y: int| 0 <= y < c2.keys@.len() && c2.keys@[y] == k;
                    if y == cn {
                        assert(p.keys@[i] == k);
                    } else {
                        assert(c.keys@[y] == k);
                        assert(p.children@[i].has(k));
                    }
                } else {
                    let y = choose|y: int| 0 <= y < c2.children@.len() && #[trigger] c2.children@[y].has(k);
                    if y == cn + 1 {
                        assert(r.children@[0] == c2.children@[y]);
                        assert(p.children@[i + 1].has(k));
                    } else {
                        assert(c.children@[y] == c2.children@[y]);
                        assert(p.children@[i].has(k));
                    }
                }
            } else {
                assert(p.children@[x] == q.children@[x]);
            }
        }
    }
}

/// Every key of `a` lies below every key of `b`.
pub open spec fn all_below(a: Seq<usize>, b: Seq<usize>) -> bool {
    forall|x: int, y: int| 0 <= x < a.len() && 0 <= y < b.len() ==> a[x] < b[y]
}

/// A key lies below at most one child.
proof fn lemma_unique_child(n: Node, order: nat, lo: int, hi: int, h: nat, min: nat, max: nat, i: int, j: int, k: usize)
    requires
        n.wf_node(order, lo, hi, h, min, max),
        h > 0,
        0 <= i < n.children@.len(),
        0 <= j < n.children@.len(),
        i != j,
        n.children@[i].has(k),
    ensures
        !n.children@[j].has(k),
        !n.keys@.contains(k),
{
    n.children@[i].lemma_has_bounds(order, n.lo_of(i, lo), n.hi_of(i, hi), (h - 1) as nat,
        min_keys_of(order), max_keys_of(order), k);
    n.lemma_has_descend(order, lo, hi, h, min, max, i, k);
    if n.children@[j].has(k) {
        n.children@[j].lemma_has_bounds(order, n.lo_of(j, lo), n.hi_of(j, hi), (h - 1) as nat,
            min_keys_of(order), max_keys_of(order), k);
        if j < i {
            assert(n.keys@[j] <= n.keys@[i - 1]);
        } else {
            assert(n.keys@[i] <= n.keys@[j - 1]);
        }
    }
}

/// Child `i` lost key `x` and may now be one key short: the node is well
/// formed but for that child, and has lost `x`.
proof fn lemma_child_shrunk(p: Node, q: Node, i: int, x: usize, order: nat, lo: int, hi: int, h: nat, min: nat, max: nat)
    requires
        p.wf_node(order, lo, hi, h, min, max),
        h > 0,
        0 <= i < p.children@.len(),
        q.keys@ == p.keys@,
        q.order == p.order,
        q.children@ == p.children@.update(i, q.children@[i]),
        !q.children@[i].at_root,
        q.children@[i].wf_node(order, p.lo_of(i, lo), p.hi_of(i, hi), (h - 1) as nat,
            (min_keys_of(order) - 1) as nat, max_keys_of(order)),
        p.children@[i].has(x),
        forall|k: usize| q.children@[i].has(k) == (p.children@[i].has(k) && k != x),
    ensures
        q.wf_except(order, lo, hi, h, min, max, i),
        forall|k: usize| q.has(k) == (p.has(k) && k != x),
{
    assert forall|j: int| 0 <= j < q.children@.len() && j != i implies #[trigger] q.child_ok(j, order, lo, hi, h, min_keys_of(order)) by {
        assert(q.lo_of(j, lo) == p.lo_of(j, lo));
        assert(q.hi_of(j, hi) == p.hi_of(j, hi));
    }
    assert(q.lo_of(i, lo) == p.lo_of(i, lo));
    assert(q.hi_of(i, hi) == p.hi_of(i, hi));
    assert forall|k: usize| q.has(k) == (p.has(k) && k != x) by {
        q.lemma_has(k);
        p.lemma_has(k);
        if k == x {
            p.children@[i].lemma_has_bounds(order, p.lo_of(i, lo), p.hi_of(i, hi), (h - 1) as nat,
                min_keys_of(order), max_keys_of(order), x);
            p.lemma_has_descend(order, lo, hi, h, min, max, i, x);
            if q.has(k) && !q.keys@.contains(k) {
                let j = choose|j: int| 0 <= j < q.children@.len() && #[trigger] q.children@[j].has(k);
                if j != i {
                    lemma_unique_child(p, order, lo, hi, h, min, max, i, j, x);
                }
            }
        } else {
            if p.has(k) && !p.keys@.contains(k) {
                let j = choose|j: int| 0 <= j < p.children@.len() && #[trigger] p.children@[j].has(k);
                assert(q.children@[j].has(k));
            }
            if q.has(k) && !q.keys@.contains(k) {
                let j = choose|j: int| 0 <= j < q.children@.len() && #[trigger] q.children@[j].has(k);
                assert(p.children@[j].has(k));
            }
        }
    }
}

/// Separator `i` replaced by the largest key `x` of child `i`, which child
/// `i` gave up: the node is well formed but for child `i`, and has lost the
/// old separator.
#[verifier::rlimit(40)]
proof fn lemma_pred_replaced(p: Node, q: Node, i: int, x: usize, order: nat, lo: int, hi: int, h: nat, min: nat, max: nat)
    requires
        p.wf_node(order, lo, hi, h, min, max),
        h > 0,
        0 <= i < p.keys@.len(),
        q.keys@ == p.keys@.update(i, x),
        q.order == p.order,
        q.children@ == p.children@.update(i, q.children@[i]),
        !q.children@[i].at_root,
        q.children@[i].wf_node(order, p.lo_of(i, lo), p.hi_of(i, hi), (h - 1) as nat,
            (min_keys_of(order) - 1) as nat, max_keys_of(order)),
        p.children@[i].has(x),
        forall|k: usize| p.children@[i].has(k) ==> k <= x,
        forall|k: usize| q.children@[i].has(k) == (p.children@[i].has(k) && k != x),
    ensures
        q.wf_except(order, lo, hi, h, min, max, i),
        forall|k: usize| q.has(k) == (p.has(k) && k != p.keys@[i]),
{
    let key = p.keys@[i];
    let c = q.children@[i];
    let r = p.children@[i + 1];
    p.children@[i].lemma_has_bounds(order, p.lo_of(i, lo), p.hi_of(i, hi), (h - 1) as nat,
        min_keys_of(order), max_keys_of(order), x);
    assert(p.lo_of(i, lo) < x < key);
    assert forall|k: usize| c.has(k) implies p.lo_of(i, lo) < k < x by {
        p.children@[i].lemma_has_bounds(order, p.lo_of(i, lo), p.hi_of(i, hi), (h - 1) as nat,
            min_keys_of(order), max_keys_of(order), k);
    }
    c.lemma_rebound(order, p.lo_of(i, lo), p.hi_of(i, hi), (h - 1) as nat, (min_keys_of(order) - 1) as nat,
        max_keys_of(order), q.lo_of(i, lo), q.hi_of(i, hi));
    assert forall|k: usize| r.has(k) implies x < k < q.hi_of(i + 1, hi) by {
        r.lemma_has_bounds(order, p.lo_of(i + 1, lo), p.hi_of(i + 1, hi), (h - 1) as nat,
            min_keys_of(order), max_keys_of(order), k);
    }
    r.lemma_rebound(order, p.lo_of(i + 1, lo), p.hi_of(i + 1, hi), (h - 1) as nat, min_keys_of(order),
        max_keys_of(order), q.lo_of(i + 1, lo), q.hi_of(i + 1, hi));
    assert(strictly_sorted(q.keys@)) by {
        assert forall|a: int, b: int| 0 <= a < b < q.keys@.len() implies q.keys@[a] < q.keys@[b] by {
            if b == i {
                assert(p.keys@[a] <= p.lo_of(i, lo));
            } else if a == i {
                assert(key < p.keys@[b]);
            }
        }
    }
    assert forall|a: int| 0 <= a < q.keys@.len() implies lo < #[trigger] q.keys@[a] < hi by {
        if a == i {
            assert(lo <= p.lo_of(i, lo));
        }
    }
    assert forall|j: int| 0 <= j < q.children@.len() && j != i implies #[trigger] q.child_ok(j, order, lo, hi, h, min_keys_of(order)) by {
        if j != i + 1 {
            assert(q.lo_of(j, lo) == p.lo_of(j, lo));
            assert(q.hi_of(j, hi) == p.hi_of(j, hi));
        }
    }
    assert forall|k: usize| q.has(k) == (p.has(k) && k != key) by {
        q.lemma_has(k);
        p.lemma_has(k);
        if k == key {
            assert(p.keys@.contains(k));
            if q.keys@.contains(k) {
                let j = choose|j: int| 0 <= j < q.keys@.len() && q.keys@[j] == k;
                if j != i {
                    assert(p.keys@[j] == k);
                }
            }
            if q.has(k) && !q.keys@.contains(k) {
                let j = choose|j: int| 0 <= j < q.children@.len() && #[trigger] q.children@[j].has(k);
                if j != i {
                    p.children@[j].lemma_has_bounds(order, p.lo_of(j, lo), p.hi_of(j, hi), (h - 1) as nat,
                        min_keys_of(order), max_keys_of(order), k);
                    if j < i {
                        assert(p.keys@[j] <= p.keys@[i - 1]);
                    } else if j > i + 1 {
                        assert(p.keys@[i + 1] <= p.keys@[j - 1]);
                    }
                }
            }
        } else if k == x {
            assert(q.keys@[i] == k);
            assert(p.children@[i].has(k));
        } else {
            if p.keys@.contains(k) {
                let j = choose|j: int| 0 <= j < p.keys@.len() && p.keys@[j] == k;
                assert(q.keys@[j] == k);
            } else if p.has(k) {
                let j = choose|j: int| 0 <= j < p.children@.len() && #[trigger] p.children@[j].has(k);
                assert(q.children@[j].has(k));
            }
            if q.keys@.contains(k) {
                let j = choose|j: int| 0 <= j < q.keys@.len() && q.keys@[j] == k;
                assert(p.keys@[j] == k);
            } else if q.has(k) {
                let j = choose|j: int| 0 <= j < q.children@.len() && #[trigger] q.children@[j].has(k);
                assert(p.children@[j].has(k));
            }
        }
    }
}

/// Separator `i` replaced by the smallest key `x` of child `i + 1`, which
/// that child gave up: the node is well formed but for child `i + 1`, and
/// has lost the old separator.
#[verifier::rlimit(40)]
proof fn lemma_succ_replaced(p: Node, q: Node, i: int, x: usize, order: nat, lo: int, hi: int, h: nat, min: nat, max: nat)
    requires
        p.wf_node(order, lo, hi, h, min, max),
        h > 0,
        0 <= i < p.keys@.len(),
        q.keys@ == p.keys@.update(i, x),
        q.order == p.order,
        q.children@ == p.children@.update(i + 1, q.children@[i + 1]),
        !q.children@[i + 1].at_root,
        q.children@[i + 1].wf_node(order, p.lo_of(i + 1, lo), p.hi_of(i + 1, hi), (h - 1) as nat,
            (min_keys_of(order) - 1) as nat, max_keys_of(order)),
        p.children@[i + 1].has(x),
        forall|k: usize| #[trigger] p.children@[i + 1].has(k) ==> x <= k,
        forall|k: usize| #[trigger] q.children@[i + 1].has(k) == (p.children@[i + 1].has(k) && k != x),
    ensures
        q.wf_except(order, lo, hi, h, min, max, i + 1),
        forall|k: usize| q.has(k) == (p.has(k) && k != p.keys@[i]),
{
    let key = p.keys@[i];
    let c = q.children@[i + 1];
    let l = p.children@[i];
    p.children@[i + 1].lemma_has_bounds(order, p.lo_of(i + 1, lo), p.hi_of(i + 1, hi), (h - 1) as nat,
        min_keys_of(order), max_keys_of(order), x);
    assert(key < x < p.hi_of(i + 1, hi));
    assert forall|k: usize| c.has(k) implies x < k < p.hi_of(i + 1, hi) by {
        p.children@[i + 1].lemma_has_bounds(order, p.lo_of(i + 1, lo), p.hi_of(i + 1, hi), (h - 1) as nat,
            min_keys_of(order), max_keys_of(order), k);
    }
    c.lemma_rebound(order, p.lo_of(i + 1, lo), p.hi_of(i + 1, hi), (h - 1) as nat, (min_keys_of(order) - 1) as nat,
        max_keys_of(order), q.lo_of(i + 1, lo), q.hi_of(i + 1, hi));
    assert forall|k: usize| l.has(k) implies q.lo_of(i, lo) < k < x by {
        l.lemma_has_bounds(order, p.lo_of(i, lo), p.hi_of(i, hi), (h - 1) as nat,
            min_keys_of(order), max_keys_of(order), k);
    }
    l.lemma_rebound(order, p.lo_of(i, lo), p.hi_of(i, hi), (h - 1) as nat, min_keys_of(order),
        max_keys_of(order), q.lo_of(i, lo), q.hi_of(i, hi));
    assert(strictly_sorted(q.keys@)) by {
        assert forall|a: int, b: int| 0 <= a < b < q.keys@.len() implies q.keys@[a] < q.keys@[b] by {
            if a == i {
                assert(p.hi_of(i + 1, hi) <= p.keys@[b]);
            } else if b == i {
                assert(p.keys@[a] < key);
            }
        }
    }
    assert forall|a: int| 0 <= a < q.keys@.len() implies lo < #[trigger] q.keys@[a] < hi by {
        if a == i {
            assert(p.hi_of(i + 1, hi) <= hi);
        }
    }
    assert forall|j: int| 0 <= j < q.children@.len() && j != i + 1 implies #[trigger] q.child_ok(j, order, lo, hi, h, min_keys_of(order)) by {
        if j != i {
            assert(q.lo_of(j, lo) == p.lo_of(j, lo));
            assert(q.hi_of(j, hi) == p.hi_of(j, hi));
        }
    }
    assert forall|k: usize| q.has(k) == (p.has(k) && k != key) by {
        q.lemma_has(k);
        p.lemma_has(k);
        if k == key {
            assert(p.keys@.contains(k));
            if q.keys@.contains(k) {
                let j = choose|j: int| 0 <= j < q.keys@.len() && q.keys@[j] == k;
                if j != i {
                    assert(p.keys@[j] == k);
                }
            }
            if q.has(k) && !q.keys@.contains(k) {
                let j = choose|j: int| 0 <= j < q.children@.len() && #[trigger] q.children@[j].has(k);
                if j != i + 1 {
                    p.children@[j].lemma_has_bounds(order, p.lo_of(j, lo), p.hi_of(j, hi), (h - 1) as nat,
                        min_keys_of(order), max_keys_of(order), k);
                    if j < i {
                        assert(p.keys@[j] <= p.keys@[i - 1]);
                    } else if j > i + 1 {
                        assert(p.keys@[i + 1] <= p.keys@[j - 1]);
                    }
                }
            }
        } else if k == x {
            assert(q.keys@[i] == k);
            assert(p.children@[i + 1].has(k));
        } else {
            if p.keys@.contains(k) {
                let j = choose|j: int| 0 <= j < p.keys@.len() && p.keys@[j] == k;
                assert(q.keys@[j] == k);
            } else if p.has(k) {
                let j = choose|j: int| 0 <= j < p.children@.len() && #[trigger] p.children@[j].has(k);
                assert(q.children@[j].has(k));
            }
            if q.keys@.contains(k) {
                let j = choose|j: int| 0 <= j < q.keys@.len() && q.keys@[j] == k;
                assert(p.keys@[j] == k);
            } else if q.has(k) {
                let j = choose|j: int| 0 <= j < q.children@.len() && #[trigger] q.children@[j].has(k);
                assert(p.children@[j].has(k));
            }
        }
    }
}

impl Node {
    /// Moves the keys and children of child `merge_from` into its neighbour
    /// `merge_into`, in key order, and leaves `merge_from` empty.
    pub fn merge_child_vectors(&mut self, merge_into: usize, merge_from: usize) -> (r: Result<(), String>)
        requires
            merge_into < old(self).children@.len(),
            merge_from < old(self).children@.len(),
            merge_into == merge_from + 1 || merge_from == merge_into + 1,
        ensures
            r is Ok,
            final(self).keys == old(self).keys,
            final(self).order == old(self).order,
            final(self).at_root == old(self).at_root,
            final(self).children@.len() == old(self).children@.len(),
            forall|j: int| 0 <= j < final(self).children@.len() && j != merge_into && j != merge_from
                ==> final(self).children@[j] == old(self).children@[j],
            ({
                let a = old(self).children@[merge_into as int];
                let b = old(self).children@[merge_from as int];
                let m = final(self).children@[merge_into as int];
                let e = final(self).children@[merge_from as int];
                &&& m.order == a.order && m.at_root == a.at_root
                &&& e.order == b.order && e.at_root == b.at_root
                &&& e.keys@.len() == 0 && e.children@.len() == 0
                &&& merge_into < merge_from ==> m.keys@ == a.keys@ + b.keys@ && m.children@ == a.children@ + b.children@
                &&& merge_from < merge_into ==> m.keys@ == b.keys@ + a.keys@ && m.children@ == b.children@ + a.children@
            }),
            ({
                let lo_c = old(self).children@[if merge_into < merge_from { merge_into as int } else { merge_from as int }];
                let hi_c = old(self).children@[if merge_into < merge_from { merge_from as int } else { merge_into as int }];
                let m = final(self).children@[merge_into as int];
                strictly_sorted(lo_c.keys@) && strictly_sorted(hi_c.keys@) && all_below(lo_c.keys@, hi_c.keys@)
                    ==> strictly_sorted(m.keys@)
            }),
    {
        let mut from_keys: Vec<usize> = Vec::new();
        let mut from_children: Vec<Node> = Vec::new();
        std::mem::swap(&mut self.children[merge_from].keys, &mut from_keys);
        std::mem::swap(&mut self.children[merge_from].children, &mut from_children);
        if merge_into < merge_from {
            self.children[merge_into].keys.append(&mut from_keys);
            self.children[merge_into].children.append(&mut from_children);
        } else {
            std::mem::swap(&mut self.children[merge_into].keys, &mut from_keys);
            std::mem::swap(&mut self.children[merge_into].children, &mut from_children);
            self.children[merge_into].keys.append(&mut from_keys);
            self.children[merge_into].children.append(&mut from_children);
        }
        proof {
            let lo_i = if merge_into < merge_from { merge_into as int } else { merge_from as int };
            let hi_i = if merge_into < merge_from { merge_from as int } else { merge_into as int };
            let lk = old(self).children@[lo_i].keys@;
            let hk = old(self).children@[hi_i].keys@;
            let mk = self.children@[merge_into as int].keys@;
            assert(mk == lk + hk);
            if strictly_sorted(lk) && strictly_sorted(hk) && all_below(lk, hk) {
                assert forall|x: int, y: int| 0 <= x < y < mk.len() implies mk[x] < mk[y] by {
                    if y < lk.len() {
                        assert(mk[x] == lk[x] && mk[y] == lk[y]);
                    } else if x >= lk.len() {
                        assert(mk[x] == hk[x - lk.len()] && mk[y] == hk[y - lk.len()]);
                    } else {
                        assert(mk[x] == lk[x] && mk[y] == hk[y - lk.len()]);
                    }
                }
            }
        }
        Ok(())
    }

    /// Merges two neighbouring children and the separator between them into
    /// one child, which takes the place of the left one.
    pub fn merge_children(&mut self, merge_into_index: usize, merge_from_index: usize) -> (r: Result<(), String>)
        requires
            merge_into_index < old(self).children@.len(),
            merge_from_index < old(self).children@.len(),
            merge_into_index == merge_from_index + 1 || merge_from_index == merge_into_index + 1,
            old(self).children@.len() == old(self).keys@.len() + 1,
        ensures
            r is Ok,
            ({
                let a = if merge_into_index < merge_from_index { merge_into_index as int } else { merge_from_index as int };
                let into = old(self).children@[merge_into_index as int];
                let m = final(self).children@[a];
                &&& final(self).order == old(self).order
                &&& final(self).at_root == old(self).at_root
                &&& final(self).keys@ == old(self).keys@.remove(a)
                &&& final(self).children@.len() == old(self).children@.len() - 1
                &&& forall|j: int| 0 <= j < a ==> final(self).children@[j] == old(self).children@[j]
                &&& forall|j: int| a < j < final(self).children@.len() ==> final(self).children@[j] == old(self).children@[j + 1]
                &&& m.order == into.order && m.at_root == into.at_root
                &&& m.keys@ == old(self).children@[a].keys@ + seq![old(self).keys@[a]] + old(self).children@[a + 1].keys@
                &&& m.children@ == old(self).children@[a].children@ + old(self).children@[a + 1].children@
                &&& final(self).tree() == merge_t(old(self).tree(), a)
            }),
    {
        let a: usize = if merge_into_index < merge_from_index { merge_into_index } else { merge_from_index };
        let left_len = self.children[a].keys.len();
        let parent_key = self.keys.remove(a);
        let _ = self.merge_child_vectors(merge_into_index, merge_from_index);
        self.children[merge_into_index].keys.insert(left_len, parent_key);
        self.children.remove(merge_from_index);
        proof {
            let m = self.children@[a as int];
            assert(m.keys@ =~= old(self).children@[a as int].keys@ + seq![old(self).keys@[a as int]]
                + old(self).children@[a + 1].keys@);
            let p = *old(self);
            let q = *self;
            let ai = a as int;
            let t = merge_t(p.tree(), ai);
            p.lemma_tree();
            p.children@[ai].lemma_tree();
            p.children@[ai + 1].lemma_tree();
            let la = p.children@[ai].children@.len() as int;
            assert forall|j: int| 0 <= j < t.children[ai].children.len() implies #[trigger] m.children@[j].tree() == t.children[ai].children[j] by {
                if j < la {
                    assert(m.children@[j] == p.children@[ai].children@[j]);
                } else {
                    assert(m.children@[j] == p.children@[ai + 1].children@[j - la]);
                }
            }
            m.lemma_tree_eq(t.children[ai]);
            assert forall|j: int| 0 <= j < t.children.len() implies #[trigger] q.children@[j].tree() == t.children[j] by {
                if j > ai {
                    assert(q.children@[j] == p.children@[j + 1]);
                }
            }
            q.lemma_tree_eq(t);
        }
        Ok(())
    }
}

/// A node whose short child already meets the minimum is well formed.
proof fn lemma_except_ok(p: Node, d: int, order: nat, lo: int, hi: int, h: nat, min: nat, max: nat)
    requires
        p.wf_except(order, lo, hi, h, min, max, d),
        p.children@[d].keys@.len() >= min_keys_of(order),
    ensures
        p.wf_node(order, lo, hi, h, min, max),
{
    assert forall|j: int| 0 <= j < p.children@.len() implies {
        &&& !(#[trigger] p.children@[j]).at_root
        &&& p.children@[j].wf_node(order, p.lo_of(j, lo), p.hi_of(j, hi), (h - 1) as nat,
            min_keys_of(order), max_keys_of(order))
    } by {
        if j != d {
            assert(p.child_ok(j, order, lo, hi, h, min_keys_of(order)));
        }
    }
}

impl Node {
    /// Rotates one key from child `moved_from` through the parent into its
    /// short neighbour `moved_to`, provided `moved_from` holds more than the
    /// minimum; reports whether it did.
    fn shift_key_from_sibling(&mut self, moved_from: usize, moved_to: usize, Ghost(lo): Ghost<int>, Ghost(hi): Ghost<int>, Ghost(h): Ghost<nat>, Ghost(min): Ghost<nat>, Ghost(max): Ghost<nat>) -> (r: bool)
        requires
            old(self).order >= 3,
            old(self).wf_except(old(self).order as nat, lo, hi, h, min, max, moved_to as int),
            moved_from < old(self).children@.len(),
            moved_from == moved_to + 1 || moved_to == moved_from + 1,
            old(self).children@[moved_to as int].keys@.len() < min_keys_of(old(self).order as nat),
        ensures
            r == (old(self).children@[moved_from as int].keys@.len() > min_keys_of(old(self).order as nat)),
            r ==> final(self).wf_node(old(self).order as nat, lo, hi, h, min, max),
            r ==> forall|k: usize| final(self).has(k) == old(self).has(k),
            r && moved_from < moved_to ==> final(self).tree() == rotate_from_left_t(old(self).tree(), moved_to as int),
            r && moved_to < moved_from ==> final(self).tree() == rotate_from_right_t(old(self).tree(), moved_to as int),
            !r ==> *final(self) == *old(self),
            final(self).order == old(self).order,
            final(self).at_root == old(self).at_root,
    {
        let ghost p = *self;
        let ghost order = self.order as nat;
        let min_keys: usize = (self.order - 1) / 2;
        if self.children[moved_from].keys.len() <= min_keys {
            return false;
        }
        proof {
            assert(p.child_ok(moved_from as int, order, lo, hi, h, min_keys_of(order)));
        }
        if moved_from < moved_to {
            let sep = self.keys[moved_from];
            let up = match self.children[moved_from].keys.pop() {
                Some(k) => k,
                None => 0,
            };
            let moved = self.children[moved_from].children.pop();
            self.keys.set(moved_from, up);
            self.children[moved_to].keys.insert(0, sep);
            match moved {
                Some(c) => {
                    self.children[moved_to].children.insert(0, c);
                },
                None => {},
            }
            proof {
                let q = *self;
                let i = moved_to as int;
                assert(q.children@[i].keys@ =~= seq![p.keys@[i - 1]] + p.children@[i].keys@);
                if h > 1 {
                    assert(q.children@[i].children@ =~= seq![p.children@[i - 1].children@.last()] + p.children@[i].children@);
                }
                lemma_rotate_from_left(p, q, i, order, lo, hi, h, min, max);
                let t = rotate_from_left_t(p.tree(), i);
                let l = p.children@[i - 1];
                let c = p.children@[i];
                let l2 = q.children@[i - 1];
                let c2 = q.children@[i];
                p.lemma_tree();
                l.lemma_tree();
                c.lemma_tree();
                assert forall|j: int| 0 <= j < t.children[i - 1].children.len() implies #[trigger] l2.children@[j].tree() == t.children[i - 1].children[j] by {
                    assert(l2.children@[j] == l.children@[j]);
                }
                l2.lemma_tree_eq(t.children[i - 1]);
                assert forall|j: int| 0 <= j < t.children[i].children.len() implies #[trigger] c2.children@[j].tree() == t.children[i].children[j] by {
                    if l.children@.len() > 0 {
                        if j == 0 {
                            assert(c2.children@[0] == l.children@.last());
                        } else {
                            assert(c2.children@[j] == c.children@[j - 1]);
                        }
                    } else {
                        assert(c2.children@[j] == c.children@[j]);
                    }
                }
                c2.lemma_tree_eq(t.children[i]);
                assert forall|j: int| 0 <= j < t.children.len() implies #[trigger] q.children@[j].tree() == t.children[j] by {
                    if j != i - 1 && j != i {
                        assert(q.children@[j] == p.children@[j]);
                    }
                }
                q.lemma_tree_eq(t);
            }
        } else {
            let sep = self.keys[moved_to];
            let up = self.children[moved_from].keys.remove(0);
            self.keys.set(moved_to, up);
            self.children[moved_to].keys.push(sep);
            if self.children[moved_from].children.len() > 0 {
                let c = self.children[moved_from].children.remove(0);
                self.children[moved_to].children.push(c);
            }
            proof {
                let q = *self;
                let i = moved_to as int;
                let r = p.children@[i + 1];
                assert(q.children@[i + 1].keys@ =~= r.keys@.subrange(1, r.keys@.len() as int));
                if h > 1 {
                    assert(q.children@[i + 1].children@ =~= r.children@.subrange(1, r.children@.len() as int));
                }
                lemma_rotate_from_right(p, q, i, order, lo, hi, h, min, max);
                let t = rotate_from_right_t(p.tree(), i);
                let c = p.children@[i];
                let c2 = q.children@[i];
                let r2 = q.children@[i + 1];
                p.lemma_tree();
                r.lemma_tree();
                c.lemma_tree();
                assert forall|j: int| 0 <= j < t.children[i + 1].children.len() implies #[trigger] r2.children@[j].tree() == t.children[i + 1].children[j] by {
                    if r.children@.len() > 0 {
                        assert(r2.children@[j] == r.children@[j + 1]);
                    } else {
                        assert(r2.children@[j] == r.children@[j]);
                    }
                }
                r2.lemma_tree_eq(t.children[i + 1]);
                assert forall|j: int| 0 <= j < t.children[i].children.len() implies #[trigger] c2.children@[j].tree() == t.children[i].children[j] by {
                    if j < c.children@.len() {
                        assert(c2.children@[j] == c.children@[j]);
                    } else {
                        assert(c2.children@[j] == r.children@[0]);
                    }
                }
                c2.lemma_tree_eq(t.children[i]);
                assert forall|j: int| 0 <= j < t.children.len() implies #[trigger] q.children@[j].tree() == t.children[j] by {
                    if j != i + 1 && j != i {
                        assert(q.children@[j] == p.children@[j]);
                    }
                }
                q.lemma_tree_eq(t);
            }
        }
        true
    }

    /// Restores the minimum key count of child `i` after a deletion below it:
    /// borrow from the left sibling, else from the right one, else merge with
    /// the left sibling, else with the right one.
    pub(crate) fn rebalance_child(&mut self, i: usize, Ghost(lo): Ghost<int>, Ghost(hi): Ghost<int>, Ghost(h): Ghost<nat>, Ghost(min): Ghost<nat>, Ghost(max): Ghost<nat>)
        requires
            old(self).order >= 3,
            old(self).wf_except(old(self).order as nat, lo, hi, h, min, max, i as int),
            min >= 1,
        ensures
            final(self).wf_node(old(self).order as nat, lo, hi, h, (min - 1) as nat, max),
            forall|k: usize| final(self).has(k) == old(self).has(k),
            final(self).tree() == rebalance_t(old(self).tree(), i as int, old(self).order as nat),
            final(self).order == old(self).order,
            final(self).at_root == old(self).at_root,
    {
        let ghost p = *self;
        let ghost order = self.order as nat;
        proof {
            p.lemma_tree();
            p.children@[i as int].lemma_tree();
            if i > 0 {
                p.children@[i - 1].lemma_tree();
            }
            if i < p.keys@.len() {
                p.children@[i + 1].lemma_tree();
            }
        }
        let min_keys: usize = (self.order - 1) / 2;
        if self.children[i].keys.len() >= min_keys {
            proof {
                lemma_except_ok(p, i as int, order, lo, hi, h, min, max);
            }
            return;
        }
        if i > 0 {
            if self.shift_key_from_sibling(i - 1, i, Ghost(lo), Ghost(hi), Ghost(h), Ghost(min), Ghost(max)) {
                return;
            }
        }
        if i < self.keys.len() {
            if self.shift_key_from_sibling(i + 1, i, Ghost(lo), Ghost(hi), Ghost(h), Ghost(min), Ghost(max)) {
                return;
            }
        }
        if i > 0 {
            proof {
                assert(p.child_ok(i - 1, order, lo, hi, h, min_keys_of(order)));
            }
            let _ = self.merge_children(i - 1, i);
            proof {
                lemma_merge(p, *self, i - 1, i as int, order, lo, hi, h, min, max);
            }
        } else {
            proof {
                assert(p.child_ok(i + 1, order, lo, hi, h, min_keys_of(order)));
            }
            let _ = self.merge_children(i + 1, i);
            proof {
                lemma_merge(p, *self, i as int, i as int, order, lo, hi, h, min, max);
            }
        }
    }
}

/// Removing the key at index `i` of a leaf keeps it ordered and drops just
/// that key.
proof fn lemma_leaf_remove(p: Node, q: Node, i: int, order: nat, lo: int, hi: int, min: nat, max: nat)
    requires
        p.wf_node(order, lo, hi, 0, min, max),
        0 <= i < p.keys@.len(),
        q.keys@ == p.keys@.remove(i),
        q.children@.len() == 0,
        q.order == p.order,
    ensures
        q.wf_node(order, lo, hi, 0, if min > 0 { (min - 1) as nat } else { 0 }, max),
        forall|k: usize| q.has(k) == (p.has(k) && k != p.keys@[i]),
        forall|k: usize| p.has(k) ==> p.keys@[0] <= k <= p.keys@.last(),
{
    let pk = p.keys@;
    let qk = q.keys@;
    assert forall|a: int| 0 <= a < qk.len() implies lo < #[trigger] qk[a] < hi by {
        if a < i {
            assert(qk[a] == pk[a]);
        } else {
            assert(qk[a] == pk[a + 1]);
        }
    }
    assert forall|k: usize| q.has(k) == (p.has(k) && k != pk[i]) by {
        q.lemma_has(k);
        p.lemma_has(k);
        if pk.contains(k) && k != pk[i] {
            let j = choose|j: int| 0 <= j < pk.len() && pk[j] == k;
            if j < i {
                assert(qk[j] == k);
            } else {
                assert(qk[j - 1] == k);
            }
        }
        if qk.contains(k) {
            let j = choose|j: int| 0 <= j < qk.len() && qk[j] == k;
            if j < i {
                assert(pk[j] == k);
            } else {
                assert(pk[j + 1] == k);
            }
        }
    }
    assert forall|k: usize| p.has(k) implies pk[0] <= k <= pk.last() by {
        p.lemma_has(k);
        let j = choose|j: int| 0 <= j < pk.len() && pk[j] == k;
        if j > 0 {
            assert(pk[0] < pk[j]);
        }
        if j < pk.len() - 1 {
            assert(pk[j] < pk[pk.len() - 1]);
        }
    }
}

/// A node whose keys are `keys` and whose children are those of `p` with
/// child `i` replaced has the matching shape.
proof fn lemma_tree_child_replaced(p: Node, m: Node, i: int, keys: Seq<usize>)
    requires
        0 <= i < p.children@.len(),
        m.keys@ == keys,
        m.children@ == p.children@.update(i, m.children@[i]),
    ensures
        m.tree() == (Tree { keys: keys, children: p.tree().children.update(i, m.children@[i].tree()) }),
{
    p.lemma_tree();
    let t = Tree { keys: keys, children: p.tree().children.update(i, m.children@[i].tree()) };
    assert forall|j: int| 0 <= j < t.children.len() implies #[trigger] m.children@[j].tree() == t.children[j] by {
        if j != i {
            assert(m.children@[j] == p.children@[j]);
        }
    }
    m.lemma_tree_eq(t);
}

impl Node {
    /// Removes and returns the largest key below this node.
    pub(crate) fn remove_max(&mut self, Ghost(lo): Ghost<int>, Ghost(hi): Ghost<int>, Ghost(h): Ghost<nat>, Ghost(min): Ghost<nat>) -> (r: usize)
        requires
            old(self).order >= 3,
            old(self).wf_node(old(self).order as nat, lo, hi, h, min, max_keys_of(old(self).order as nat)),
            1 <= min <= min_keys_of(old(self).order as nat),
        ensures
            old(self).has(r),
            forall|k: usize| old(self).has(k) ==> k <= r,
            forall|k: usize| final(self).has(k) == (old(self).has(k) && k != r),
            final(self).wf_node(old(self).order as nat, lo, hi, h, (min - 1) as nat, max_keys_of(old(self).order as nat)),
            (final(self).tree(), r) == remove_max_t(old(self).tree(), old(self).order as nat),
            final(self).order == old(self).order,
            final(self).at_root == old(self).at_root,
        decreases h,
    {
        let ghost p = *self;
        let ghost order = self.order as nat;
        proof {
            p.lemma_tree();
        }
        if self.children.len() == 0 {
            let r = match self.keys.pop() {
                Some(k) => k,
                None => 0,
            };
            proof {
                self.lemma_tree_eq(remove_max_t(p.tree(), order).0);
                assert(self.keys@ =~= p.keys@.remove(p.keys@.len() - 1));
                lemma_leaf_remove(p, *self, p.keys@.len() - 1, order, lo, hi, min, max_keys_of(order));
                p.lemma_has(r);
            }
            return r;
        }
        let last: usize = self.children.len() - 1;
        proof {
            let c = p.children@[last as int];
            assert(c.wf_node(order, p.lo_of(last as int, lo), p.hi_of(last as int, hi), (h - 1) as nat,
                min_keys_of(order), max_keys_of(order)));
            assert(c.order >= 3 && !c.at_root);
        }
        let r = self.children[last].remove_max(
            Ghost(p.lo_of(last as int, lo)),
            Ghost(p.hi_of(last as int, hi)),
            Ghost((h - 1) as nat),
            Ghost(min_keys_of(order)),
        );
        proof {
            let c = p.children@[last as int];
            lemma_child_shrunk(p, *self, last as int, r, order, lo, hi, h, min, max_keys_of(order));
            c.lemma_has_bounds(order, p.lo_of(last as int, lo), p.hi_of(last as int, hi), (h - 1) as nat,
                min_keys_of(order), max_keys_of(order), r);
            p.lemma_has(r);
            assert(p.children@[last as int].has(r));
            assert forall|k: usize| p.has(k) implies k <= r by {
                p.lemma_has(k);
                if p.keys@.contains(k) {
                    let j = choose|j: int| 0 <= j < p.keys@.len() && p.keys@[j] == k;
                    assert(p.keys@[j] <= p.keys@[last - 1]);
                } else {
                    let j = choose|j: int| 0 <= j < p.children@.len() && #[trigger] p.children@[j].has(k);
                    if j < last {
                        p.children@[j].lemma_has_bounds(order, p.lo_of(j, lo), p.hi_of(j, hi), (h - 1) as nat,
                            min_keys_of(order), max_keys_of(order), k);
                        assert(p.keys@[j] <= p.keys@[last - 1]);
                    }
                }
            }
        }
        proof {
            lemma_tree_child_replaced(p, *self, last as int, p.keys@);
        }
        self.rebalance_child(last, Ghost(lo), Ghost(hi), Ghost(h), Ghost(min), Ghost(max_keys_of(order)));
        r
    }

    /// Removes and returns the smallest key below this node.
    pub(crate) fn remove_min(&mut self, Ghost(lo): Ghost<int>, Ghost(hi): Ghost<int>, Ghost(h): Ghost<nat>, Ghost(min): Ghost<nat>) -> (r: usize)
        requires
            old(self).order >= 3,
            old(self).wf_node(old(self).order as nat, lo, hi, h, min, max_keys_of(old(self).order as nat)),
            1 <= min <= min_keys_of(old(self).order as nat),
        ensures
            old(self).has(r),
            forall|k: usize| old(self).has(k) ==> r <= k,
            forall|k: usize| final(self).has(k) == (old(self).has(k) && k != r),
            final(self).wf_node(old(self).order as nat, lo, hi, h, (min - 1) as nat, max_keys_of(old(self).order as nat)),
            (final(self).tree(), r) == remove_min_t(old(self).tree(), old(self).order as nat),
            final(self).order == old(self).order,
            final(self).at_root == old(self).at_root,
        decreases h,
    {
        let ghost p = *self;
        let ghost order = self.order as nat;
        proof {
            p.lemma_tree();
        }
        if self.children.len() == 0 {
            let r = self.keys.remove(0);
            proof {
                self.lemma_tree_eq(remove_min_t(p.tree(), order).0);
                lemma_leaf_remove(p, *self, 0, order, lo, hi, min, max_keys_of(order));
                p.lemma_has(r);
            }
            return r;
        }
        proof {
            let c = p.children@[0];
            assert(c.wf_node(order, p.lo_of(0, lo), p.hi_of(0, hi), (h - 1) as nat,
                min_keys_of(order), max_keys_of(order)));
            assert(c.order >= 3 && !c.at_root);
        }
        let r = self.children[0].remove_min(
            Ghost(p.lo_of(0, lo)),
            Ghost(p.hi_of(0, hi)),
            Ghost((h - 1) as nat),
            Ghost(min_keys_of(order)),
        );
        proof {
            let c = p.children@[0];
            lemma_child_shrunk(p, *self, 0, r, order, lo, hi, h, min, max_keys_of(order));
            c.lemma_has_bounds(order, p.lo_of(0, lo), p.hi_of(0, hi), (h - 1) as nat,
                min_keys_of(order), max_keys_of(order), r);
            p.lemma_has(r);
            assert(p.children@[0].has(r));
            assert forall|k: usize| p.has(k) implies r <= k by {
                p.lemma_has(k);
                if p.keys@.contains(k) {
                    let j = choose|j: int| 0 <= j < p.keys@.len() && p.keys@[j] == k;
                    assert(p.keys@[0] <= p.keys@[j]);
                } else {
                    let j = choose|j: int| 0 <= j < p.children@.len() && #[trigger] p.children@[j].has(k);
                    if j > 0 {
                        p.children@[j].lemma_has_bounds(order, p.lo_of(j, lo), p.hi_of(j, hi), (h - 1) as nat,
                            min_keys_of(order), max_keys_of(order), k);
                        assert(p.keys@[0] <= p.keys@[j - 1]);
                    }
                }
            }
        }
        proof {
            lemma_tree_child_replaced(p, *self, 0, p.keys@);
        }
        self.rebalance_child(0, Ghost(lo), Ghost(hi), Ghost(h), Ghost(min), Ghost(max_keys_of(order)));
        r
    }

    /// Deletes `key`, which must be below this node. A key held by an
    /// internal node is replaced by its predecessor when the left child can
    /// spare a key or the right child cannot, else by its successor; every
    /// child that falls short on the way back up is rebalanced.
    pub(crate) fn delete_rec(&mut self, key: usize, Ghost(lo): Ghost<int>, Ghost(hi): Ghost<int>, Ghost(h): Ghost<nat>, Ghost(min): Ghost<nat>)
        requires
            old(self).order >= 3,
            old(self).wf_node(old(self).order as nat, lo, hi, h, min, max_keys_of(old(self).order as nat)),
            min <= min_keys_of(old(self).order as nat),
            h > 0 ==> min >= 1,
            old(self).has(key),
        ensures
            final(self).wf_node(old(self).order as nat, lo, hi, h, if min > 0 { (min - 1) as nat } else { 0 },
                max_keys_of(old(self).order as nat)),
            forall|k: usize| final(self).has(k) == (old(self).has(k) && k != key),
            final(self).tree() == delete_t(old(self).tree(), key, old(self).order as nat),
            final(self).order == old(self).order,
            final(self).at_root == old(self).at_root,
        decreases h,
    {
        let ghost p = *self;
        let ghost order = self.order as nat;
        let ghost max = max_keys_of(order);
        proof {
            p.lemma_tree();
        }
        let st = self.find_key_index(key);
        match st {
            SearchStatus::Found(i) => {
                proof {
                    lemma_index_of(p.keys@, key, i as int);
                }
                if self.children.len() == 0 {
                    self.keys.remove(i);
                    proof {
                        lemma_leaf_remove(p, *self, i as int, order, lo, hi, min, max);
                        self.lemma_tree_eq(delete_t(p.tree(), key, order));
                    }
                } else {
                    let min_keys: usize = (self.order - 1) / 2;
                    if self.children[i].keys.len() > min_keys || self.children[i + 1].keys.len() <= min_keys {
                        proof {
                            let c = p.children@[i as int];
                            assert(c.wf_node(order, p.lo_of(i as int, lo), p.hi_of(i as int, hi), (h - 1) as nat,
                                min_keys_of(order), max_keys_of(order)));
                            assert(c.order >= 3 && !c.at_root);
                        }
                        let pred = self.children[i].remove_max(
                            Ghost(p.lo_of(i as int, lo)),
                            Ghost(p.hi_of(i as int, hi)),
                            Ghost((h - 1) as nat),
                            Ghost(min_keys_of(order)),
                        );
                        self.keys.set(i, pred);
                        proof {
                            lemma_pred_replaced(p, *self, i as int, pred, order, lo, hi, h, min, max);
                            lemma_tree_child_replaced(p, *self, i as int, p.keys@.update(i as int, pred));
                        }
                        self.rebalance_child(i, Ghost(lo), Ghost(hi), Ghost(h), Ghost(min), Ghost(max));
                    } else {
                        proof {
                            let c = p.children@[i + 1];
                            assert(c.wf_node(order, p.lo_of(i + 1, lo), p.hi_of(i + 1, hi), (h - 1) as nat,
                                min_keys_of(order), max_keys_of(order)));
                            assert(c.order >= 3 && !c.at_root);
                        }
                        let succ = self.children[i + 1].remove_min(
                            Ghost(p.lo_of(i + 1, lo)),
                            Ghost(p.hi_of(i + 1, hi)),
                            Ghost((h - 1) as nat),
                            Ghost(min_keys_of(order)),
                        );
                        self.keys.set(i, succ);
                        proof {
                            lemma_succ_replaced(p, *self, i as int, succ, order, lo, hi, h, min, max);
                            lemma_tree_child_replaced(p, *self, i + 1, p.keys@.update(i as int, succ));
                        }
                        self.rebalance_child(i + 1, Ghost(lo), Ghost(hi), Ghost(h), Ghost(min), Ghost(max));
                    }
                }
            },
            SearchStatus::NotFound(i) => {
                proof {
                    p.lemma_has(key);
                    p.lemma_route(key, i as int);
                    p.lemma_has_bounds(order, lo, hi, h, min, max, key);
                    assert(p.lo_of(i as int, lo) < key) by {
                        if i > 0 {
                            assert(p.keys@[i - 1] < key);
                        }
                    }
                    assert(key < p.hi_of(i as int, hi)) by {
                        if i < p.keys@.len() {
                            assert(p.keys@[i as int] > key);
                        }
                    }
                    p.lemma_has_descend(order, lo, hi, h, min, max, i as int, key);
                    let c = p.children@[i as int];
                    assert(c.wf_node(order, p.lo_of(i as int, lo), p.hi_of(i as int, hi), (h - 1) as nat,
                        min_keys_of(order), max_keys_of(order)));
                    assert(c.order >= 3 && !c.at_root);
                }
                self.children[i].delete_rec(
                    key,
                    Ghost(p.lo_of(i as int, lo)),
                    Ghost(p.hi_of(i as int, hi)),
                    Ghost((h - 1) as nat),
                    Ghost(min_keys_of(order)),
                );
                proof {
                    lemma_child_shrunk(p, *self, i as int, key, order, lo, hi, h, min, max);
                    assert(splits(p.keys@, key, i as int));
                    lemma_slot(p.keys@, key, i as int);
                    lemma_tree_child_replaced(p, *self, i as int, p.keys@);
                }
                self.rebalance_child(i, Ghost(lo), Ghost(hi), Ghost(h), Ghost(min), Ghost(max));
            },
        }
    }
}

} // verus!
