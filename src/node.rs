use vstd::prelude::*;
use crate::search_status::SearchStatus;
use vstd::string::StringExecFns;
use crate::model::split_t;

verus! {

/// The keys are strictly ascending.
pub open spec fn strictly_sorted(s: Seq<usize>) -> bool {
    forall|i: int, j: int| 0 <= i < j < s.len() ==> s[i] < s[j]
}

/// Fewest keys a node other than the root may hold: `ceil(order / 2) - 1`.
pub open spec fn min_keys_of(order: nat) -> nat {
    ((order - 1) as nat / 2) as nat
}

/// Most keys any node may hold.
pub open spec fn max_keys_of(order: nat) -> nat {
    (order - 1) as nat
}

/// A B-tree node: ascending keys and, unless it is a leaf, one child more
/// than it has keys. Each child is owned by its parent, at the index that
/// gives its key range.
#[derive(Debug)]
pub struct Node {
    pub keys: Vec<usize>,
    pub children: Vec<Node>,
    pub order: usize,
    pub at_root: bool,
}

impl Node {
    /// The key occurs in this node's keys or below one of its children from
    /// index `j` on.
    pub open spec fn has_from(self, k: usize, j: int) -> bool
        decreases self, self.children@.len() - j,
    {
        if j < 0 || j >= self.children@.len() {
            self.keys@.contains(k)
        } else {
            self.children@[j].has_from(k, 0) || self.has_from(k, j + 1)
        }
    }

    /// The key occurs in this node or in one of its descendants.
    pub open spec fn has(self, k: usize) -> bool {
        self.has_from(k, 0)
    }

    proof fn lemma_has_from(self, k: usize, j: int)
        requires
            0 <= j <= self.children@.len(),
        ensures
            self.has_from(k, j) == (self.keys@.contains(k) || exists|i: int|
                j <= i < self.children@.len() && #[trigger] self.children@[i].has(k)),
        decreases self.children@.len() - j,
    {
        if j < self.children@.len() {
            self.lemma_has_from(k, j + 1);
            if self.has_from(k, j + 1) && !self.keys@.contains(k) {
                let i = choose|i: int| j + 1 <= i < self.children@.len() && #[trigger] self.children@[i].has(k);
                assert(j <= i < self.children@.len() && self.children@[i].has(k));
            }
            if self.children@[j].has(k) {
                assert(j <= j < self.children@.len() && self.children@[j].has(k));
            }
        }
    }

    /// A key is in a subtree when it is one of the root's keys or lies below
    /// one of its children.
    pub proof fn lemma_has(self, k: usize)
        ensures
            self.has(k) == (self.keys@.contains(k) || exists|i: int|
                0 <= i < self.children@.len() && #[trigger] self.children@[i].has(k)),
    {
        self.lemma_has_from(k, 0);
    }

    /// The order this node was created with.
    pub open spec fn order_spec(self) -> nat {
        self.order as nat
    }

    /// The node was made as a root and has not been attached below a parent.
    pub open spec fn is_root_spec(self) -> bool {
        self.at_root
    }

    /// Lower bound (exclusive) of the keys of child `i`, inside a node whose
    /// own keys lie above `lo`.
    pub open spec fn lo_of(self, i: int, lo: int) -> int {
        if i == 0 {
            lo
        } else {
            self.keys@[i - 1] as int
        }
    }

    /// Upper bound (exclusive) of the keys of child `i`, inside a node whose
    /// own keys lie below `hi`.
    pub open spec fn hi_of(self, i: int, hi: int) -> int {
        if i == self.keys@.len() {
            hi
        } else {
            self.keys@[i] as int
        }
    }

    /// The subtree below this node is a B-tree of the given order whose keys
    /// lie strictly between `lo` and `hi`, whose leaves all lie `height`
    /// levels down, and whose own key count lies in `min ..= max`. Every
    /// descendant holds between `min_keys_of(order)` and `max_keys_of(order)`
    /// keys and is not marked as a root.
    pub open spec fn wf_node(self, order: nat, lo: int, hi: int, height: nat, min: nat, max: nat) -> bool
        decreases self,
    {
        &&& self.order == order
        &&& min <= self.keys@.len() <= max
        &&& strictly_sorted(self.keys@)
        &&& forall|i: int| 0 <= i < self.keys@.len() ==> lo < #[trigger] self.keys@[i] < hi
        &&& (height == 0) == (self.children@.len() == 0)
        &&& height > 0 ==> {
            &&& self.children@.len() == self.keys@.len() + 1
            &&& forall|i: int|
                0 <= i < self.children@.len() ==> {
                    &&& !(#[trigger] self.children@[i]).at_root
                    &&& self.children@[i].wf_node(
                        order,
                        self.lo_of(i, lo),
                        self.hi_of(i, hi),
                        (height - 1) as nat,
                        min_keys_of(order),
                        max_keys_of(order),
                    )
                }
        }
    }

    /// An empty node of the given order, not attached to any parent.
    pub fn new(order: usize) -> (r: Node)
        ensures
            r.keys@.len() == 0,
            r.children@.len() == 0,
            r.order_spec() == order,
            r.is_root_spec(),
    {
        Node { keys: Vec::new(), children: Vec::new(), order, at_root: true }
    }

    /// Binary search among this node's keys.
    pub fn find_key_index(&self, key: usize) -> (r: SearchStatus)
        requires
            strictly_sorted(self.keys@),
        ensures
            r.index() <= self.keys@.len(),
            (r is Found) == self.keys@.contains(key),
            r is Found ==> r.index() < self.keys@.len() && self.keys@[r.index() as int] == key,
            r is NotFound ==> {
                &&& forall|j: int| 0 <= j < r.index() ==> self.keys@[j] < key
                &&& forall|j: int| r.index() <= j < self.keys@.len() ==> self.keys@[j] > key
            },
    {
        let mut start: usize = 0;
        let mut end: usize = self.keys.len();
        while start < end
            invariant
                start <= end <= self.keys@.len(),
                strictly_sorted(self.keys@),
                forall|j: int| 0 <= j < start ==> self.keys@[j] < key,
                forall|j: int| end <= j < self.keys@.len() ==> self.keys@[j] > key,
            decreases end - start,
        {
            let mid: usize = start + (end - start) / 2;
            if self.keys[mid] == key {
                return SearchStatus::Found(mid);
            } else if self.keys[mid] < key {
                start = mid + 1;
            } else {
                end = mid;
            }
        }
        proof {
            if self.keys@.contains(key) {
                let j = choose|j: int| 0 <= j < self.keys@.len() && self.keys@[j] == key;
                assert(j < start || j >= end);
            }
        }
        SearchStatus::NotFound(start)
    }

    /// Inserts `key` into this node's keys, keeping them ascending. The key
    /// must not be among them yet.
    pub fn add_key(&mut self, key: usize)
        requires
            strictly_sorted(old(self).keys@),
            !old(self).keys@.contains(key),
        ensures
            strictly_sorted(final(self).keys@),
            forall|x: usize| final(self).keys@.contains(x) == (old(self).keys@.contains(x) || x == key),
            final(self).keys@.len() == old(self).keys@.len() + 1,
            final(self).children == old(self).children,
            final(self).order == old(self).order,
            final(self).at_root == old(self).at_root,
    {
        self.keys.push(key);
        let mut idx: usize = self.keys.len() - 1;
        // shift the new key left until the keys before it are smaller
        while idx > 0 && self.keys[idx - 1] > key
            invariant
                0 <= idx < self.keys@.len(),
                self.keys@.len() == old(self).keys@.len() + 1,
                self.keys@[idx as int] == key,
                forall|j: int| 0 <= j < idx ==> self.keys@[j] == old(self).keys@[j],
                forall|j: int| idx < j < self.keys@.len() ==> self.keys@[j] == old(self).keys@[j - 1],
                forall|j: int| idx < j < self.keys@.len() ==> self.keys@[j] > key,
                strictly_sorted(old(self).keys@),
                !old(self).keys@.contains(key),
                self.children == old(self).children,
                self.order == old(self).order,
                self.at_root == old(self).at_root,
            decreases idx,
        {
            let prev = self.keys[idx - 1];
            self.keys.set(idx, prev);
            self.keys.set(idx - 1, key);
            idx = idx - 1;
        }
        proof {
            let s = self.keys@;
            let o = old(self).keys@;
            assert(s == o.insert(idx as int, key));
            assert(strictly_sorted(s));
            assert forall|x: usize| s.contains(x) == (o.contains(x) || x == key) by {
                if s.contains(x) {
                    let j = choose|j: int| 0 <= j < s.len() && s[j] == x;
                    if j < idx {
                        assert(o[j] == x);
                    } else if j > idx {
                        assert(o[j - 1] == x);
                    }
                }
                if x == key {
                    assert(s[idx as int] == x);
                } else if o.contains(x) {
                    let j = choose|j: int| 0 <= j < o.len() && o[j] == x;
                    if j < idx {
                        assert(s[j] == x);
                    } else {
                        assert(s[j + 1] == x);
                    }
                }
            }
        }
    }

    /// Splits an overflowing node at `mid = keys.len() / 2`: the keys after
    /// `mid` (and the children after `mid + 1`) move to a new right node, and
    /// the key at `mid` is handed back as the separator between the halves.
    pub fn split_node(&mut self) -> (r: (usize, Node))
        requires
            old(self).keys@.len() >= 1,
            old(self).children@.len() == 0 || old(self).children@.len() == old(self).keys@.len() + 1,
        ensures
            ({
                let m = (old(self).keys@.len() / 2) as int;
                let n = old(self).keys@.len() as int;
                &&& final(self).keys@ == old(self).keys@.subrange(0, m)
                &&& r.0 == old(self).keys@[m]
                &&& r.1.keys@ == old(self).keys@.subrange(m + 1, n)
                &&& old(self).children@.len() == 0 ==> final(self).children@.len() == 0
                    && r.1.children@.len() == 0
                &&& old(self).children@.len() > 0 ==> final(self).children@ == old(self).children@.subrange(0, m + 1)
                    && r.1.children@ == old(self).children@.subrange(m + 1, n + 1)
            }),
            (final(self).tree(), r.0, r.1.tree()) == split_t(old(self).tree()),
            final(self).order == old(self).order,
            final(self).at_root == old(self).at_root,
            r.1.order == old(self).order,
            !r.1.at_root,
    {
        let ghost p = *self;
        let mid: usize = self.keys.len() / 2;
        let right_keys = self.keys.split_off(mid + 1);
        let right_children = if self.children.len() > 0 {
            self.children.split_off(mid + 1)
        } else {
            Vec::new()
        };
        let mid_key = match self.keys.pop() {
            Some(k) => k,
            None => 0,
        };
        let right = Node { keys: right_keys, children: right_children, order: self.order, at_root: false };
        proof {
            let t = split_t(p.tree());
            let m = mid as int;
            p.lemma_tree();
            assert(self.keys@ =~= p.keys@.subrange(0, m));
            assert forall|j: int| 0 <= j < t.0.children.len() implies #[trigger] self.children@[j].tree() == t.0.children[j] by {
                assert(self.children@[j] == p.children@[j]);
            }
            self.lemma_tree_eq(t.0);
            assert forall|j: int| 0 <= j < t.2.children.len() implies #[trigger] right.children@[j].tree() == t.2.children[j] by {
                assert(right.children@[j] == p.children@[j + m + 1]);
            }
            right.lemma_tree_eq(t.2);
        }
        (mid_key, right)
    }

    /// Shows if the key container is over capacity and ready for a split.
    pub fn is_key_overflowing(&self) -> (r: bool)
        requires
            self.order >= 1,
        ensures
            r == (self.keys@.len() > max_keys_of(self.order as nat)),
    {
        self.keys.len() > self.order - 1
    }

    /// Every key of a well-formed subtree lies within its bounds.
    pub proof fn lemma_has_bounds(self, order: nat, lo: int, hi: int, height: nat, min: nat, max: nat, k: usize)
        requires
            self.wf_node(order, lo, hi, height, min, max),
            self.has(k),
        ensures
            lo < k < hi,
        decreases height,
    {
        self.lemma_has(k);
        if !self.keys@.contains(k) {
            let i = choose|i: int| 0 <= i < self.children@.len() && #[trigger] self.children@[i].has(k);
            let c = self.children@[i];
            c.lemma_has_bounds(order, self.lo_of(i, lo), self.hi_of(i, hi), (height - 1) as nat,
                min_keys_of(order), max_keys_of(order), k);
            if i > 0 {
                assert(lo < self.keys@[i - 1]);
            }
            if i < self.keys@.len() {
                assert(self.keys@[i] < hi);
            }
        }
    }

    /// A key that is not among a node's own keys, and that falls in the
    /// range of child `i`, is in the subtree exactly when it is below that child.
    pub proof fn lemma_has_descend(self, order: nat, lo: int, hi: int, height: nat, min: nat, max: nat, i: int, k: usize)
        requires
            self.wf_node(order, lo, hi, height, min, max),
            height > 0,
            0 <= i < self.children@.len(),
            self.lo_of(i, lo) < k < self.hi_of(i, hi),
        ensures
            self.has(k) == self.children@[i].has(k),
            !self.keys@.contains(k),
    {
        if self.keys@.contains(k) {
            let j = choose|j: int| 0 <= j < self.keys@.len() && self.keys@[j] == k;
            if j < i {
                assert(self.keys@[j] <= self.keys@[i - 1]);
            } else {
                assert(self.keys@[i] <= self.keys@[j]);
            }
        }
        self.lemma_has(k);
        self.children@[i].lemma_has(k);
        if self.has(k) && !self.keys@.contains(k) {
            let j = choose|j: int| 0 <= j < self.children@.len() && #[trigger] self.children@[j].has(k);
            let c = self.children@[j];
            c.lemma_has_bounds(order, self.lo_of(j, lo), self.hi_of(j, hi), (height - 1) as nat,
                min_keys_of(order), max_keys_of(order), k);
            if j < i {
                assert(self.keys@[j] <= self.keys@[i - 1]);
            } else if j > i {
                assert(self.keys@[i] <= self.keys@[j - 1]);
            }
        }
    }
    /// Number of levels below this node, measured along the first children.
    pub open spec fn height(self) -> nat
        decreases self,
    {
        if self.children@.len() == 0 {
            0
        } else {
            1 + self.children@[0].height()
        }
    }

    /// In a well-formed subtree every leaf lies `height` levels down.
    pub proof fn lemma_height(self, order: nat, lo: int, hi: int, h: nat, min: nat, max: nat)
        requires
            self.wf_node(order, lo, hi, h, min, max),
        ensures
            self.height() == h,
        decreases h,
    {
        if h > 0 {
            self.children@[0].lemma_height(order, self.lo_of(0, lo), self.hi_of(0, hi), (h - 1) as nat,
                min_keys_of(order), max_keys_of(order));
        }
    }

    /// Index of the child whose key range covers `k`, for a `k` that is not
    /// one of this node's keys.
    pub open spec fn route(self, k: usize) -> int {
        choose|i: int| self.splits_at(k, i)
    }

    /// The keys before index `i` lie below `k` and the others above it.
    pub open spec fn splits_at(self, k: usize, i: int) -> bool {
        &&& 0 <= i <= self.keys@.len()
        &&& forall|j: int| 0 <= j < i ==> self.keys@[j] < k
        &&& forall|j: int| i <= j < self.keys@.len() ==> self.keys@[j] > k
    }

    /// The node at which a search for `k` stops: the node holding `k`, or
    /// the leaf whose range covers it.
    pub open spec fn descend(self, k: usize) -> Node
        decreases self,
    {
        if self.keys@.contains(k) || self.children@.len() == 0 {
            self
        } else if 0 <= self.route(k) < self.children@.len() {
            self.children@[self.route(k)].descend(k)
        } else {
            self
        }
    }

    /// `route` is the index that a binary search reports for a missing key.
    pub proof fn lemma_route(self, k: usize, i: int)
        requires
            strictly_sorted(self.keys@),
            0 <= i <= self.keys@.len(),
            forall|j: int| 0 <= j < i ==> self.keys@[j] < k,
            forall|j: int| i <= j < self.keys@.len() ==> self.keys@[j] > k,
        ensures
            self.route(k) == i,
            !self.keys@.contains(k),
    {
        assert(self.splits_at(k, i));
        let r = self.route(k);
        if r < i {
            assert(self.keys@[r] > k);
        } else if r > i {
            assert(self.keys@[i] > k);
        }
    }
    /// Every key of node `a` lies below every key of node `b`.
    pub open spec fn spans_before(a: Node, b: Node) -> bool {
        a.keys@.last() < b.keys@[0]
    }

    /// The children hold ascending, non-overlapping key ranges.
    pub open spec fn children_ordered(s: Seq<Node>) -> bool {
        forall|i: int, j: int| 0 <= i < j < s.len() ==> Node::spans_before(s[i], s[j])
    }

    /// A node usable as a child: keys present and ascending.
    pub open spec fn keyed(n: Node) -> bool {
        n.keys@.len() > 0 && strictly_sorted(n.keys@)
    }

    /// The node has no parent.
    pub fn is_root(&self) -> (r: bool)
        ensures
            r == self.at_root,
    {
        self.at_root
    }

    /// The node has no children.
    pub fn is_leaf(&self) -> (r: bool)
        ensures
            r == (self.children@.len() == 0),
    {
        self.children.len() == 0
    }

    /// A root is at its minimum with one key, any other node with
    /// `ceil(order / 2) - 1` keys.
    pub fn has_min_key_count(&self) -> (r: bool)
        requires
            self.order >= 1,
        ensures
            r == if self.at_root {
                self.keys@.len() == 1
            } else {
                self.keys@.len() == min_keys_of(self.order as nat)
            },
    {
        if self.is_root() {
            self.keys.len() == 1
        } else {
            self.keys.len() == (self.order - 1) / 2
        }
    }

    /// The node can give up a key and still meet its minimum.
    pub fn has_more_than_min_keys(&self) -> (r: bool)
        requires
            self.order >= 1,
        ensures
            r == if self.at_root {
                self.keys@.len() > 1
            } else {
                self.keys@.len() > min_keys_of(self.order as nat)
            },
    {
        if self.is_root() {
            self.keys.len() > 1
        } else {
            self.keys.len() > (self.order - 1) / 2
        }
    }

    /// The key at `index`.
    pub fn get_key(&self, index: usize) -> (r: usize)
        requires
            index < self.keys@.len(),
        ensures
            r == self.keys@[index as int],
    {
        self.keys[index]
    }

    /// The smallest key of a node with ascending keys.
    pub fn get_min_key(&self) -> (r: usize)
        requires
            self.keys@.len() > 0,
        ensures
            r == self.keys@[0],
    {
        self.get_key(0)
    }

    /// The largest key of a node with ascending keys.
    pub fn get_max_key(&self) -> (r: usize)
        requires
            self.keys@.len() > 0,
        ensures
            r == self.keys@.last(),
    {
        self.get_key(self.keys.len() - 1)
    }

    /// Index of `key` among this node's keys, if it is one of them.
    pub fn find_key(&self, key: usize) -> (r: Option<usize>)
        requires
            strictly_sorted(self.keys@),
        ensures
            (r is Some) == self.keys@.contains(key),
            r matches Some(i) ==> i < self.keys@.len() && self.keys@[i as int] == key,
    {
        match self.find_key_index(key) {
            SearchStatus::Found(i) => Some(i),
            SearchStatus::NotFound(i) => {
                proof {
                    self.lemma_route(key, i as int);
                }
                None
            },
        }
    }

    /// The index at which `key` would be inserted, or, when it is already
    /// present, its index and a message saying so.
    pub fn find_future_key_index(&self, key: usize) -> (r: Result<usize, (usize, String)>)
        requires
            strictly_sorted(self.keys@),
        ensures
            (r is Ok) == !self.keys@.contains(key),
            r matches Ok(i) ==> self.splits_at(key, i as int),
            r matches Err(e) ==> e.0 < self.keys@.len() && self.keys@[e.0 as int] == key,
    {
        match self.find_key_index(key) {
            SearchStatus::Found(i) => {
                let mut msg = "value already exists at ".to_owned();
                msg.append(i.to_string().as_str());
                Err((i, msg))
            },
            SearchStatus::NotFound(i) => {
                proof {
                    self.lemma_route(key, i as int);
                }
                Ok(i)
            },
        }
    }

    /// The child at `index`, or none when there is no such child.
    pub fn get_child(&self, index: usize) -> (r: Option<&Node>)
        ensures
            index < self.children@.len() ==> r == Some(&self.children@[index as int]),
            index >= self.children@.len() ==> r is None,
    {
        if index >= self.children.len() {
            return None;
        }
        Some(&self.children[index])
    }

    /// The child at `index`, or none when the index is negative or past the
    /// last child.
    pub fn try_clone_child(&self, index: isize) -> (r: Option<&Node>)
        ensures
            0 <= index < self.children@.len() ==> r == Some(&self.children@[index as int]),
            !(0 <= index < self.children@.len()) ==> r is None,
    {
        if index < 0 || index as usize >= self.children.len() {
            return None;
        }
        Some(&self.children[index as usize])
    }

    /// Attaches `child` below this node, placed among the children by its
    /// key range.
    pub fn add_child(&mut self, child: Node)
        requires
            Node::keyed(child),
            forall|j: int| 0 <= j < old(self).children@.len() ==> Node::keyed(#[trigger] old(self).children@[j]),
            Node::children_ordered(old(self).children@),
            forall|j: int| 0 <= j < old(self).children@.len() ==>
                Node::spans_before(#[trigger] old(self).children@[j], child) || Node::spans_before(child, old(self).children@[j]),
        ensures
            final(self).keys == old(self).keys,
            final(self).order == old(self).order,
            final(self).at_root == old(self).at_root,
            final(self).children@.len() == old(self).children@.len() + 1,
            Node::children_ordered(final(self).children@),
            exists|p: int| {
                &&& 0 <= p <= old(self).children@.len()
                &&& final(self).children@ == old(self).children@.insert(p, final(self).children@[p])
                &&& final(self).children@[p].keys == child.keys
                &&& final(self).children@[p].children == child.children
                &&& final(self).children@[p].order == child.order
                &&& !final(self).children@[p].at_root
            },
    {
        let ghost given = child;
        let mut child = child;
        child.at_root = false;
        let min_key = child.get_min_key();
        let mut p: usize = self.children.len();
        while p > 0 && self.children[p - 1].get_max_key() >= min_key
            invariant
                p <= self.children@.len(),
                *self == *old(self),
                child.keys@.len() > 0,
                min_key == child.keys@[0],
                forall|j: int| 0 <= j < self.children@.len() ==> Node::keyed(#[trigger] self.children@[j]),
                forall|j: int| p <= j < self.children@.len() ==> Node::spans_before(child, #[trigger] self.children@[j]),
                forall|j: int| 0 <= j < old(self).children@.len() ==>
                    Node::spans_before(#[trigger] old(self).children@[j], child) || Node::spans_before(child, old(self).children@[j]),
            decreases p,
        {
            proof {
                let c = self.children@[p - 1];
                assert(Node::spans_before(c, child) || Node::spans_before(child, c));
                if Node::spans_before(c, child) {
                    assert(child.keys@[0] <= child.keys@.last()) by {
                        if child.keys@.len() > 1 {
                            assert(child.keys@[0] < child.keys@[child.keys@.len() - 1]);
                        }
                    }
                }
            }
            p = p - 1;
        }
        let ghost placed = child;
        self.children.insert(p, child);
        proof {
            let s = self.children@;
            let o = old(self).children@;
            assert(s == o.insert(p as int, placed));
            if p > 0 {
                assert(Node::spans_before(o[p - 1], placed));
            }
            assert forall|i: int, j: int| 0 <= i < j < s.len() implies Node::spans_before(s[i], s[j]) by {
                if j == p {
                    if i < p - 1 {
                        let c = o[p - 1];
                        assert(Node::spans_before(o[i], c));
                        assert(c.keys@[0] <= c.keys@.last()) by {
                            if c.keys@.len() > 1 {
                                assert(c.keys@[0] < c.keys@[c.keys@.len() - 1]);
                            }
                        }
                    }
                } else if i == p {
                    assert(s[j] == o[j - 1]);
                } else if i < p && j > p {
                    assert(s[j] == o[j - 1]);
                } else if i > p {
                    assert(s[i] == o[i - 1]);
                    assert(s[j] == o[j - 1]);
                }
            }
            assert(s[p as int].keys == given.keys);
            assert(s == o.insert(p as int, s[p as int]));
        }
    }

    /// Moves the first (`is_left`) or last key of child `index` into this
    /// node, provided the child can spare a key.
    pub fn try_move_key_from_child(&mut self, index: usize, is_left: bool) -> (r: Result<(), ()>)
        requires
            index < old(self).children@.len(),
            old(self).children@[index as int].order >= 1,
            strictly_sorted(old(self).keys@),
            old(self).children@[index as int].keys@.len() > 0 ==> {
                let ck = old(self).children@[index as int].keys@;
                !old(self).keys@.contains(if is_left { ck[0] } else { ck.last() })
            },
        ensures
            ({
                let c = old(self).children@[index as int];
                let more = if c.at_root {
                    c.keys@.len() > 1
                } else {
                    c.keys@.len() > min_keys_of(c.order as nat)
                };
                let j = if is_left { 0 } else { c.keys@.len() - 1 };
                &&& (r is Ok) == more
                &&& !more ==> *final(self) == *old(self)
                &&& more ==> {
                    &&& strictly_sorted(final(self).keys@)
                    &&& forall|x: usize| final(self).keys@.contains(x) == (old(self).keys@.contains(x) || x == c.keys@[j])
                    &&& final(self).keys@.len() == old(self).keys@.len() + 1
                    &&& final(self).children@.len() == old(self).children@.len()
                    &&& forall|m: int| 0 <= m < final(self).children@.len() && m != index
                        ==> final(self).children@[m] == old(self).children@[m]
                    &&& final(self).children@[index as int].keys@ == c.keys@.remove(j)
                    &&& final(self).children@[index as int].children == c.children
                }
            }),
    {
        if !self.children[index].has_more_than_min_keys() {
            return Err(());
        }
        let key = if is_left {
            self.children[index].keys.remove(0)
        } else {
            let last = self.children[index].keys.len() - 1;
            self.children[index].keys.remove(last)
        };
        self.add_key(key);
        Ok(())
    }

    /// Moves the first key of child `index` into this node, provided the
    /// child can spare a key.
    pub fn try_move_key_from_left_child(&mut self, index: usize) -> (r: Result<(), ()>)
        requires
            index < old(self).children@.len(),
            old(self).children@[index as int].order >= 1,
            strictly_sorted(old(self).keys@),
            old(self).children@[index as int].keys@.len() > 0
                ==> !old(self).keys@.contains(old(self).children@[index as int].keys@[0]),
        ensures
            ({
                let c = old(self).children@[index as int];
                let more = if c.at_root {
                    c.keys@.len() > 1
                } else {
                    c.keys@.len() > min_keys_of(c.order as nat)
                };
                &&& (r is Ok) == more
                &&& !more ==> *final(self) == *old(self)
                &&& more ==> (forall|x: usize| final(self).keys@.contains(x) == (old(self).keys@.contains(x) || x == c.keys@[0]))
                    && strictly_sorted(final(self).keys@)
                    && final(self).children@[index as int].keys@ == c.keys@.remove(0)
            }),
    {
        self.try_move_key_from_child(index, true)
    }

    /// Moves the last key of child `index` into this node, provided the
    /// child can spare a key.
    pub fn try_move_key_from_right_child(&mut self, index: usize) -> (r: Result<(), ()>)
        requires
            index < old(self).children@.len(),
            old(self).children@[index as int].order >= 1,
            strictly_sorted(old(self).keys@),
            old(self).children@[index as int].keys@.len() > 0
                ==> !old(self).keys@.contains(old(self).children@[index as int].keys@.last()),
        ensures
            ({
                let c = old(self).children@[index as int];
                let more = if c.at_root {
                    c.keys@.len() > 1
                } else {
                    c.keys@.len() > min_keys_of(c.order as nat)
                };
                &&& (r is Ok) == more
                &&& !more ==> *final(self) == *old(self)
                &&& more ==> (forall|x: usize| final(self).keys@.contains(x) == (old(self).keys@.contains(x) || x == c.keys@.last()))
                    && strictly_sorted(final(self).keys@)
                    && final(self).children@[index as int].keys@ == c.keys@.remove(c.keys@.len() - 1)
            }),
    {
        self.try_move_key_from_child(index, false)
    }
}

} // verus!
