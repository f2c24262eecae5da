use btree_rust::{BTree, BTreeError, Node, SearchStatus};

/// Keys of every node, level by level, left to right.
fn shape(tree: &BTree) -> Vec<Vec<Vec<usize>>> {
    let mut levels: Vec<Vec<Vec<usize>>> = Vec::new();
    let mut current: Vec<&Node> = vec![&tree.root];
    while !current.is_empty() {
        levels.push(current.iter().map(|n| n.keys.clone()).collect());
        let mut next: Vec<&Node> = Vec::new();
        for n in current {
            for c in n.children.iter() {
                next.push(c);
            }
        }
        current = next;
    }
    levels
}

fn in_order(node: &Node, out: &mut Vec<usize>) {
    if node.children.is_empty() {
        out.extend(node.keys.iter().copied());
        return;
    }
    for (i, c) in node.children.iter().enumerate() {
        in_order(c, out);
        if i < node.keys.len() {
            out.push(node.keys[i]);
        }
    }
}

/// Asserts the B-tree rules below `node` and returns the depth of its leaves.
fn assert_node_rules(node: &Node, order: usize, is_root: bool, lo: Option<usize>, hi: Option<usize>) -> usize {
    let min_keys = (order + 1) / 2 - 1;
    assert!(node.keys.len() <= order - 1);
    if !is_root {
        assert!(node.keys.len() >= min_keys);
        assert!(!node.is_root());
    } else {
        assert!(node.is_root());
    }
    for w in node.keys.windows(2) {
        assert!(w[0] < w[1]);
    }
    for k in node.keys.iter() {
        if let Some(l) = lo {
            assert!(*k > l);
        }
        if let Some(h) = hi {
            assert!(*k < h);
        }
    }
    if node.children.is_empty() {
        return 0;
    }
    assert_eq!(node.children.len(), node.keys.len() + 1);
    let mut depth = None;
    for (i, c) in node.children.iter().enumerate() {
        let clo = if i == 0 { lo } else { Some(node.keys[i - 1]) };
        let chi = if i == node.keys.len() { hi } else { Some(node.keys[i]) };
        let d = assert_node_rules(c, order, false, clo, chi);
        match depth {
            None => depth = Some(d),
            Some(e) => assert_eq!(d, e),
        }
    }
    depth.unwrap() + 1
}

fn assert_tree_rules(tree: &BTree) {
    if !tree.root.children.is_empty() {
        assert!(!tree.root.keys.is_empty());
    }
    assert_node_rules(&tree.root, tree.order, true, None, None);
}

/// A fixed permutation of 0..n, scaled so that gaps are left between keys.
fn shuffled(n: usize) -> Vec<usize> {
    (0..n).map(|i| ((i * 37) % n) * 2).collect()
}

#[test]
fn scenario_order_three_split_then_rotate_from_left() {
    let mut tree = BTree::new(3);
    for k in [0, 5, 10, 15, 1] {
        assert_eq!(tree.add(k), Ok(()));
    }
    assert_eq!(shape(&tree), vec![vec![vec![5]], vec![vec![0, 1], vec![10, 15]]]);
    assert_eq!(tree.delete(15), Ok(()));
    assert_eq!(shape(&tree), vec![vec![vec![5]], vec![vec![0, 1], vec![10]]]);
    assert_eq!(tree.delete(10), Ok(()));
    assert_eq!(shape(&tree), vec![vec![vec![1]], vec![vec![0], vec![5]]]);
    assert_tree_rules(&tree);
}

#[test]
fn scenario_order_five_merge_with_left() {
    let mut tree = BTree::new(5);
    for k in [0, 5, 10, 15, 20, 25, 30, 35, 40] {
        assert_eq!(tree.add(k), Ok(()));
    }
    assert_eq!(tree.delete(20), Ok(()));
    assert_eq!(tree.delete(25), Ok(()));
    assert_eq!(shape(&tree), vec![vec![vec![30]], vec![vec![0, 5, 10, 15], vec![35, 40]]]);
    assert_tree_rules(&tree);
}

#[test]
fn round_trip_search_after_inserts_and_delete() {
    for order in [3, 4, 5, 6, 7] {
        let mut tree = BTree::new(order);
        let keys = shuffled(60);
        for k in keys.iter() {
            assert_eq!(tree.add(*k), Ok(()));
            assert_tree_rules(&tree);
        }
        for k in 0..130 {
            assert_eq!(tree.search(k), k % 2 == 0 && k < 120);
        }
        assert_eq!(tree.delete(42), Ok(()));
        assert_tree_rules(&tree);
        for k in 0..130 {
            assert_eq!(tree.search(k), k % 2 == 0 && k < 120 && k != 42);
        }
    }
}

#[test]
fn duplicate_insert_fails_and_leaves_tree_unchanged() {
    let mut tree = BTree::new(3);
    for k in [4, 2, 9, 7, 1] {
        assert_eq!(tree.add(k), Ok(()));
    }
    let before = shape(&tree);
    assert_eq!(tree.add(7), Err(BTreeError::ValueAlreadyExists));
    assert_eq!(shape(&tree), before);
}

#[test]
fn deleting_absent_key_fails_and_leaves_tree_unchanged() {
    let mut tree = BTree::new(4);
    for k in [4, 2, 9, 7, 1, 12] {
        assert_eq!(tree.add(k), Ok(()));
    }
    let before = shape(&tree);
    assert_eq!(tree.delete(5), Err(BTreeError::NotFound));
    assert_eq!(shape(&tree), before);
    let mut empty = BTree::new(3);
    assert_eq!(empty.delete(0), Err(BTreeError::NotFound));
}

#[test]
fn in_order_traversal_is_sorted_after_mixed_operations() {
    let mut tree = BTree::new(4);
    for k in shuffled(50) {
        assert_eq!(tree.add(k), Ok(()));
    }
    for k in [0, 14, 98, 50, 36, 2, 72] {
        assert_eq!(tree.delete(k), Ok(()));
    }
    let mut keys = Vec::new();
    in_order(&tree.root, &mut keys);
    let mut expected: Vec<usize> = (0..50).map(|i| i * 2).filter(|k| ![0, 14, 98, 50, 36, 2, 72].contains(k)).collect();
    expected.sort();
    assert_eq!(keys, expected);
    assert_tree_rules(&tree);
}

#[test]
fn deleting_everything_shrinks_tree_to_an_empty_leaf() {
    for order in [3, 4, 5] {
        let mut tree = BTree::new(order);
        let keys = shuffled(40);
        for k in keys.iter() {
            assert_eq!(tree.add(*k), Ok(()));
        }
        for k in keys.iter().rev() {
            assert_eq!(tree.delete(*k), Ok(()));
            assert_tree_rules(&tree);
            assert!(!tree.search(*k));
        }
        assert!(tree.root.keys.is_empty());
        assert!(tree.root.children.is_empty());
    }
}

#[test]
fn delete_from_internal_node_cascades_to_root() {
    let mut tree = BTree::new(3);
    for k in 1..8 {
        assert_eq!(tree.add(k), Ok(()));
    }
    assert_eq!(
        shape(&tree),
        vec![vec![vec![4]], vec![vec![2], vec![6]], vec![vec![1], vec![3], vec![5], vec![7]]]
    );
    assert_eq!(tree.delete(4), Ok(()));
    assert_eq!(shape(&tree), vec![vec![vec![3, 6]], vec![vec![1, 2], vec![5], vec![7]]]);
    assert_tree_rules(&tree);
}

#[test]
fn delete_from_internal_node_uses_successor_when_only_right_can_spare() {
    let mut tree = BTree::new(3);
    for k in [10, 20, 30, 40, 50] {
        assert_eq!(tree.add(k), Ok(()));
    }
    assert_eq!(shape(&tree), vec![vec![vec![20, 40]], vec![vec![10], vec![30], vec![50]]]);
    assert_eq!(tree.add(35), Ok(()));
    assert_eq!(tree.delete(20), Ok(()));
    assert_eq!(shape(&tree), vec![vec![vec![30, 40]], vec![vec![10], vec![35], vec![50]]]);
    assert_tree_rules(&tree);
}

#[test]
fn largest_keys_are_accepted() {
    let mut tree = BTree::new(3);
    for k in [usize::MAX, 0, usize::MAX - 1, 1] {
        assert_eq!(tree.add(k), Ok(()));
    }
    assert!(tree.search(usize::MAX));
    assert_eq!(tree.delete(usize::MAX), Ok(()));
    assert!(!tree.search(usize::MAX));
    assert_tree_rules(&tree);
}

#[test]
fn find_reports_index_in_holding_node() {
    let mut tree = BTree::new(3);
    for k in [1, 2, 3, 4, 5] {
        assert_eq!(tree.add(k), Ok(()));
    }
    let (st, node) = tree.find(4);
    assert_eq!(st, SearchStatus::Found(1));
    assert_eq!(node.keys, vec![2, 4]);
    let (st, node) = tree.find(6);
    assert_eq!(st, SearchStatus::NotFound(1));
    assert_eq!(node.keys, vec![5]);
    assert_eq!(tree.find_insert_node(3).err(), Some(BTreeError::ValueAlreadyExists));
}

#[test]
fn search_status_accessors() {
    assert!(SearchStatus::Found(3).is_found());
    assert!(!SearchStatus::NotFound(3).is_found());
    assert_eq!(SearchStatus::Found(3).unwrap(), 3);
    assert_eq!(SearchStatus::NotFound(7).unwrap(), 7);
}

#[test]
fn add_key_keeps_keys_sorted() {
    let mut node = Node::new(8);
    for k in [9, 3, 7, 1, 5] {
        node.add_key(k);
    }
    assert_eq!(node.keys, vec![1, 3, 5, 7, 9]);
}

#[test]
fn min_key_counts_and_overflow() {
    let mut node = Node::new(5);
    assert!(node.is_root());
    assert!(node.is_leaf());
    node.keys = vec![1];
    assert!(node.has_min_key_count());
    assert!(!node.has_more_than_min_keys());
    node.keys = vec![1, 2, 3, 4];
    assert!(!node.is_key_overflowing());
    node.keys.push(5);
    assert!(node.is_key_overflowing());

    let mut parent = Node::new(5);
    parent.add_key(10);
    let mut child = Node::new(5);
    child.keys = vec![1, 2];
    parent.add_child(child);
    let c = parent.get_child(0).unwrap();
    assert!(!c.is_root());
    assert!(c.has_min_key_count());
    assert!(!c.has_more_than_min_keys());
}

#[test]
fn missing_children_are_reported_as_none() {
    let mut parent = Node::new(3);
    assert!(parent.get_child(0).is_none());
    assert!(parent.try_clone_child(0).is_none());
    let mut child = Node::new(3);
    child.add_key(4);
    parent.add_child(child);
    assert!(parent.try_clone_child(-1).is_none());
    assert!(parent.try_clone_child(1).is_none());
    assert_eq!(parent.try_clone_child(0).unwrap().keys, vec![4]);
    assert!(parent.get_child(1).is_none());
}

#[test]
fn find_future_key_index_reports_existing_key() {
    let mut node = Node::new(5);
    node.keys = vec![5, 10, 15];
    match node.find_future_key_index(10) {
        Ok(_) => panic!("10 is present"),
        Err((i, msg)) => {
            assert_eq!(i, 1);
            assert_eq!(msg, "value already exists at 1");
        }
    }
    assert_eq!(node.find_key(15), Some(2));
    assert_eq!(node.get_min_key(), 5);
    assert_eq!(node.get_max_key(), 15);
}

#[test]
fn split_internal_node_moves_children_right() {
    let mut tree = BTree::new(7);
    for k in 0..30 {
        assert_eq!(tree.add(k * 10), Ok(()));
    }
    let mut root = Node::new(7);
    std::mem::swap(&mut root, &mut tree.root);
    let n_keys = root.keys.len();
    let left_children: Vec<Vec<usize>> = root.children.iter().map(|c| c.keys.clone()).collect();
    let mid = n_keys / 2;
    let expected_sep = root.keys[mid];
    let (sep, right) = root.split_node();
    assert_eq!(sep, expected_sep);
    assert_eq!(root.keys.len(), mid);
    assert_eq!(root.children.len(), mid + 1);
    assert_eq!(right.children.len(), n_keys - mid);
    assert_eq!(right.children[0].keys, left_children[mid + 1]);
    assert!(!right.is_root());
}

#[test]
fn merge_children_joins_neighbours_with_separator() {
    let mut parent = Node::new(5);
    parent.keys = vec![10, 20];
    for ks in [vec![1, 2], vec![11], vec![21, 22]] {
        let mut c = Node::new(5);
        c.keys = ks;
        parent.add_child(c);
    }
    assert_eq!(parent.merge_children(0, 1), Ok(()));
    assert_eq!(parent.keys, vec![20]);
    assert_eq!(parent.children.len(), 2);
    assert_eq!(parent.children[0].keys, vec![1, 2, 10, 11]);
    assert_eq!(parent.children[1].keys, vec![21, 22]);

    assert_eq!(parent.merge_children(1, 0), Ok(()));
    assert!(parent.keys.is_empty());
    assert_eq!(parent.children.len(), 1);
    assert_eq!(parent.children[0].keys, vec![1, 2, 10, 11, 20, 21, 22]);
}

#[test]
fn merge_child_vectors_empties_source() {
    let mut parent = Node::new(5);
    parent.keys = vec![10];
    for ks in [vec![1, 2], vec![11, 12]] {
        let mut c = Node::new(5);
        c.keys = ks;
        parent.add_child(c);
    }
    assert_eq!(parent.merge_child_vectors(1, 0), Ok(()));
    assert_eq!(parent.children[1].keys, vec![1, 2, 11, 12]);
    assert!(parent.children[0].keys.is_empty());
}

#[test]
fn try_move_key_from_children() {
    let mut parent = Node::new(5);
    parent.keys = vec![10];
    for ks in [vec![1, 2, 3], vec![11, 12]] {
        let mut c = Node::new(5);
        c.keys = ks;
        parent.add_child(c);
    }
    assert_eq!(parent.try_move_key_from_left_child(0), Ok(()));
    assert_eq!(parent.keys, vec![1, 10]);
    assert_eq!(parent.children[0].keys, vec![2, 3]);
    assert_eq!(parent.try_move_key_from_right_child(0), Err(()));
    assert_eq!(parent.try_move_key_from_right_child(1), Err(()));
    assert_eq!(parent.children[1].keys, vec![11, 12]);
    parent.children[1].keys.push(13);
    assert_eq!(parent.try_move_key_from_right_child(1), Ok(()));
    assert_eq!(parent.keys, vec![1, 10, 13]);
    assert_eq!(parent.try_move_key_from_child(1, true), Err(()));
}
