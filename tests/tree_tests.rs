use btree_rust::{BTree, Node, SearchStatus};

fn build_tree() -> BTree {
    let mut left_child = Node::new(3);
    left_child.add_key(1);
    left_child.add_key(3);

    let mut right_child = Node::new(3);
    right_child.add_key(7);
    right_child.add_key(9);

    let mut root = Node::new(3);
    root.add_key(5);

    root.add_child(left_child);
    root.add_child(right_child);

    BTree { root, order: 3 }
}

#[test]
fn test_find_node() {
    let tree = build_tree();
    let left_node_test = tree.find_insert_node(2).unwrap();
    let right_node_test = tree.find_insert_node(8).unwrap();

    assert_eq!(left_node_test.keys, vec![1, 3]);
    assert_eq!(right_node_test.keys, vec![7, 9]);

    let left_node_test = tree.find_insert_node(4).unwrap();
    let right_node_test = tree.find_insert_node(6).unwrap();

    assert_eq!(left_node_test.keys, vec![1, 3]);
    assert_eq!(right_node_test.keys, vec![7, 9]);
}

#[test]
fn test_add_node() {
    let mut tree = BTree::new(3);
    let _ = tree.add(1);
    let _ = tree.add(2);
    let _ = tree.add(3);
    let _ = tree.add(4);

    let root = &tree.root;

    assert_eq!(root.keys.len(), 1);
    assert_eq!(root.keys[0], 2);
    assert_eq!(root.children.len(), 2);

    let first_child = &root.children[0];
    assert_eq!(first_child.keys[0], 1);
    assert_eq!(first_child.keys.len(), 1);

    let second_child = &root.children[1];
    assert_eq!(second_child.keys[0], 3);
    assert_eq!(second_child.keys[1], 4);
    assert_eq!(second_child.keys.len(), 2);
}

#[test]
fn test_out_of_order_add() {
    let mut tree = BTree::new(3);
    let _ = tree.add(4);
    let _ = tree.add(2);
    let _ = tree.add(1);
    let _ = tree.add(3);

    let root = &tree.root;

    assert_eq!(root.keys.len(), 1);
    assert_eq!(root.keys[0], 2);
    assert_eq!(root.children.len(), 2);

    let first_child = &root.children[0];
    assert_eq!(first_child.keys[0], 1);
    assert_eq!(first_child.keys.len(), 1);

    let second_child = &root.children[1];
    assert_eq!(second_child.keys[0], 3);
    assert_eq!(second_child.keys[1], 4);
    assert_eq!(second_child.keys.len(), 2);
}

#[test]
fn test_out_two_splits() {
    let mut tree = BTree::new(3);
    let _ = tree.add(4);
    let _ = tree.add(2);
    let _ = tree.add(1);
    let _ = tree.add(3);
    let _ = tree.add(5);

    let root = &tree.root;

    assert_eq!(root.keys.len(), 2);
    assert_eq!(root.keys[0], 2);
    assert_eq!(root.children.len(), 3);

    let first_child = &root.children[0];
    assert_eq!(first_child.keys[0], 1);
    assert_eq!(first_child.keys.len(), 1);

    let second_child = &root.children[1];
    assert_eq!(second_child.keys[0], 3);
    assert_eq!(second_child.keys.len(), 1);

    let third_child = &root.children[2];
    assert_eq!(third_child.keys[0], 5);
    assert_eq!(third_child.keys.len(), 1);
}

#[test]
fn test_out_three_levels() {
    let mut tree = BTree::new(3);
    let _ = tree.add(1);
    let _ = tree.add(2);
    let _ = tree.add(3);
    let _ = tree.add(4);
    let _ = tree.add(5);
    let _ = tree.add(6);
    let _ = tree.add(7);

    let root = &tree.root;

    assert_eq!(root.keys.len(), 1);
    assert_eq!(root.keys[0], 4);
    assert_eq!(root.children.len(), 2);

    let first_child = &root.children[0];
    assert_eq!(first_child.keys[0], 2);
    assert_eq!(first_child.keys.len(), 1);
    assert_eq!(first_child.children.len(), 2);

    let level_3_first_child = &first_child.children[0];
    assert_eq!(level_3_first_child.keys[0], 1);
    assert_eq!(level_3_first_child.keys.len(), 1);

    let level_3_second_child = &first_child.children[1];
    assert_eq!(level_3_second_child.keys[0], 3);
    assert_eq!(level_3_second_child.keys.len(), 1);

    let second_child = &root.children[1];
    assert_eq!(second_child.keys[0], 6);
    assert_eq!(second_child.keys.len(), 1);

    let level_3_first_child = &second_child.children[0];
    assert_eq!(level_3_first_child.keys[0], 5);
    assert_eq!(level_3_first_child.keys.len(), 1);

    let level_3_second_child = &second_child.children[1];
    assert_eq!(level_3_second_child.keys[0], 7);
    assert_eq!(level_3_second_child.keys.len(), 1);
}

#[test]
fn test_simple_leaf_delete() {
    let mut tree = BTree::new(3);
    let _ = tree.add(0);
    let _ = tree.add(5);
    let _ = tree.add(10);
    let _ = tree.add(15);
    let _ = tree.add(1);

    let res = tree.delete(15);
    assert!(res.is_ok());
    let (res, _) = tree.find(15);
    match res {
        SearchStatus::NotFound(_) => assert!(true),
        SearchStatus::Found(_) => assert!(false, "Key 15 should be deleted"),
    }

    let root = &tree.root;
    let key_vec = &root.keys;
    assert_eq!(*key_vec, vec![5]);

    let left_child = &root.children[0];
    let left_child_keys = &left_child.keys;
    assert_eq!(*left_child_keys, vec![0, 1]);

    let right_child = &root.children[1];
    let right_child_keys = &right_child.keys;
    assert_eq!(*right_child_keys, vec![10]);
}

#[test]
fn test_leaf_delete_with_left_move() {
    let mut tree = BTree::new(3);
    let _ = tree.add(0);
    let _ = tree.add(5);
    let _ = tree.add(10);
    let _ = tree.add(15);
    let _ = tree.add(1);

    let _ = tree.delete(15);
    let res = tree.delete(10);
    assert!(res.is_ok());
    let (res, _) = tree.find(10);
    match res {
        SearchStatus::NotFound(_) => assert!(true),
        SearchStatus::Found(_) => assert!(false, "Key 15 should be deleted"),
    }

    let root = &tree.root;
    let key_vec = &root.keys;
    assert_eq!(*key_vec, vec![1]);

    let left_child = &root.children[0];
    let left_child_keys = &left_child.keys;
    assert_eq!(*left_child_keys, vec![0]);

    let right_child = &root.children[1];
    let right_child_keys = &right_child.keys;
    assert_eq!(*right_child_keys, vec![5]);
}

#[test]
fn test_leaf_delete_with_right_move() {
    let mut tree = BTree::new(3);
    let _ = tree.add(0);
    let _ = tree.add(5);
    let _ = tree.add(10);
    let _ = tree.add(15);
    let _ = tree.add(1);

    let _ = tree.delete(1);
    let res = tree.delete(0);
    assert!(res.is_ok());

    let root = &tree.root;
    let key_vec = &root.keys;
    assert_eq!(*key_vec, vec![10]);

    let left_child = &root.children[0];
    let left_child_keys = &left_child.keys;
    assert_eq!(*left_child_keys, vec![5]);

    let right_child = &root.children[1];
    let right_child_keys = &right_child.keys;
    assert_eq!(*right_child_keys, vec![15]);
}

#[test]
fn test_delete_when_root_is_leaf_and_key_is_deleted() {
    let mut tree = BTree::new(5);
    let _ = tree.add(0);
    let _ = tree.add(5);
    let res = tree.delete(5);

    assert!(res.is_ok());
    let (res, _) = tree.find(5);

    match res {
        SearchStatus::NotFound(_) => assert!(true),
        SearchStatus::Found(_) => assert!(false, "Key 5 should be deleted"),
    }
}

#[test]
fn test_leaf_delete_with_left_merge() {
    let mut tree = BTree::new(5);
    let _ = tree.add(0);
    let _ = tree.add(5);
    let _ = tree.add(10);
    let _ = tree.add(15);
    let _ = tree.add(20);
    let _ = tree.add(25);
    let _ = tree.add(30);
    let _ = tree.add(35);
    let _ = tree.add(40);

    let _ = tree.delete(20);
    let res = tree.delete(25);

    assert!(res.is_ok());
    let (res, _) = tree.find(25);

    match res {
        SearchStatus::NotFound(_) => assert!(true),
        SearchStatus::Found(_) => assert!(false, "Key 5 should be deleted"),
    }

    let root = &tree.root;
    let key_vec = &root.keys;
    assert_eq!(*key_vec, vec![30]);

    let child_count = root.children.len();
    assert_eq!(child_count, 2);

    let left_child = &root.children[0];
    let left_child_keys = &left_child.keys;
    assert_eq!(*left_child_keys, vec![0, 5, 10, 15]);

    let middle_child = &root.children[1];
    let middle_child_keys = &middle_child.keys;
    assert_eq!(*middle_child_keys, vec![35, 40]);
}

#[test]
fn test_leaf_delete_with_right_merge() {
    let mut tree = BTree::new(5);
    let _ = tree.add(0);
    let _ = tree.add(5);
    let _ = tree.add(10);
    let _ = tree.add(15);
    let _ = tree.add(20);
    let _ = tree.add(25);
    let _ = tree.add(30);
    let _ = tree.add(35);
    let _ = tree.add(40);

    let res = tree.delete(5);
    assert!(res.is_ok());

    let root = &tree.root;
    let key_vec = &root.keys;
    assert_eq!(*key_vec, vec![25]);

    let child_count = root.children.len();
    assert_eq!(child_count, 2);

    let left_child = &root.children[0];
    let left_child_keys = &left_child.keys;
    assert_eq!(*left_child_keys, vec![0, 10, 15, 20]);

    let right_child = &root.children[1];
    let right_child_keys = &right_child.keys;
    assert_eq!(*right_child_keys, vec![30, 35, 40]);
}
