use btree_rust::{Node, SearchStatus};

fn build_parent_and_two_nodes() -> (Node, Node, Node) {
    let parent = Node::new(5);

    let mut first_child = Node::new(5);
    first_child.add_key(1);

    let mut second_child = Node::new(5);
    second_child.add_key(2);

    return (parent, first_child, second_child);
}

#[test]
fn node_find_key_in_1_element() {
    let mut node = Node::new(5);
    node.keys.push(5);

    let res = node.find_key(5);
    assert!(res.is_some());
    assert_eq!(res.unwrap(), 0);

    let res = node.find_key(3);
    assert!(res.is_none());
}

#[test]
fn node_find_key_in_2_element() {
    let mut node = Node::new(5);
    node.keys.push(5);
    node.keys.push(7);

    let res = node.find_key(5);
    assert!(res.is_some());
    assert_eq!(res.unwrap(), 0);

    let res = node.find_key(7);
    assert!(res.is_some());
    assert_eq!(res.unwrap(), 1);

    let res = node.find_key(3);
    assert!(res.is_none());

    let res = node.find_key(6);
    assert!(res.is_none());

    let res = node.find_key(8);
    assert!(res.is_none());
}

#[test]
fn node_find_key_in_3_element() {
    let mut node = Node::new(8);
    node.keys = vec![5,7,9];

    let res = node.find_key(5);
    assert!(res.is_some());
    assert_eq!(res.unwrap(), 0);

    let res = node.find_key(7);
    assert!(res.is_some());
    assert_eq!(res.unwrap(), 1);

    let res = node.find_key(9);
    assert!(res.is_some());
    assert_eq!(res.unwrap(), 2);

    let res = node.find_key(3);
    assert!(res.is_none());

    let res = node.find_key(6);
    assert!(res.is_none());

    let res = node.find_key(8);
    assert!(res.is_none());

    let res = node.find_key(10);
    assert!(res.is_none());
}

#[test]
fn node_find_key_in_4_element() {
    let mut node = Node::new(8);
    node.keys = vec![5,7,9,11];

    let res = node.find_key(5);
    assert!(res.is_some());
    assert_eq!(res.unwrap(), 0);

    let res = node.find_key(7);
    assert!(res.is_some());
    assert_eq!(res.unwrap(), 1);

    let res = node.find_key(9);
    assert!(res.is_some());
    assert_eq!(res.unwrap(), 2);

    let res = node.find_key(11);
    assert!(res.is_some());
    assert_eq!(res.unwrap(), 3);

    let res = node.find_key(3);
    assert!(res.is_none());

    let res = node.find_key(6);
    assert!(res.is_none());

    let res = node.find_key(8);
    assert!(res.is_none());

    let res = node.find_key(10);
    assert!(res.is_none());

    let res = node.find_key(12);
    assert!(res.is_none());
}

#[test]
fn node_find_location_in_even_vector() {
    let mut node = Node::new(5);
    node.keys = vec![5, 10, 15, 20];

    match node.find_future_key_index(3) {
       Ok(index) => assert_eq!(index, 0, "Value must be 0 instead got {}", index),
       Err(_) => assert!(false, "Value")
    }

    match node.find_future_key_index(8) {
       Ok(index) => assert_eq!(index, 1, "Value must be 1 instead got {}", index),
       Err(_) => assert!(false, "Value")
    }

    match node.find_future_key_index(11) {
       Ok(index) => assert_eq!(index, 2, "Value must be 2 instead got {}", index),
       Err(_) => assert!(false, "Value")
    }

    match node.find_future_key_index(18) {
       Ok(index) => assert_eq!(index, 3, "Value must be 3 instead got {}", index),
       Err(_) => assert!(false, "Value")
    }

    match node.find_future_key_index(25) {
       Ok(index) => assert_eq!(index, 4, "Value must be 4 instead got {}", index),
       Err(_) => assert!(false, "Value")
    }
}

#[test]
fn node_find_location_in_odd_vector() {
    let mut node = Node::new(5);
    node.keys = vec![5, 10, 15, 20, 25];

    match node.find_future_key_index(3) {
       Ok(index) => assert_eq!(index, 0, "Value must be 0 instead got {}", index),
       Err(_) => assert!(false, "Value")
    }

    match node.find_future_key_index(8) {
       Ok(index) => assert_eq!(index, 1, "Value must be 1 instead got {}", index),
       Err(_) => assert!(false, "Value")
    }

    match node.find_future_key_index(11) {
       Ok(index) => assert_eq!(index, 2, "Value must be 2 instead got {}", index),
       Err(_) => assert!(false, "Value")
    }

    match node.find_future_key_index(18) {
       Ok(index) => assert_eq!(index, 3, "Value must be 3 instead got {}", index),
       Err(_) => assert!(false, "Value")
    }

    match node.find_future_key_index(23) {
       Ok(index) => assert_eq!(index, 4, "Value must be 4 instead got {}", index),
       Err(_) => assert!(false, "Value")
    }

    match node.find_future_key_index(26) {
       Ok(index) => assert_eq!(index, 5, "Value must be 5 instead got {}", index),
       Err(_) => assert!(false, "Value")
    }
}

#[test]
fn node_find_location_in_single_element() {
    let mut node = Node::new(5);
    node.keys = vec![5];

    match node.find_future_key_index(3) {
       Ok(index) => assert_eq!(index, 0, "Value must be 0 instead got {}", index),
       Err(_) => assert!(false, "Value")
    }

    match node.find_future_key_index(8) {
       Ok(index) => assert_eq!(index, 1, "Value must be 1 instead got {}", index),
       Err(_) => assert!(false, "Value")
    }
}

#[test]
fn node_split_nodes_with_odd_order() {
    let order = 3;
    let min_key = (order as f32 / 2.0).ceil() as usize - 1;

    let mut node = Node::new(order);
    node.keys.push(1);
    node.keys.push(2);
    node.keys.push(3);
    node.keys.push(4);

    let (mid_key, right) = node.split_node();

    assert!(node.keys.len() >= min_key);
    assert!(right.keys.len() >= min_key);

    assert_eq!(node.keys, vec![1,2]);
    assert_eq!(right.keys, vec![4]);
    assert_eq!(mid_key, 3);
}

#[test]
fn node_split_nodes_with_even_order() {
    let order = 4;
    let min_key = (order as f32 / 2.0).ceil() as usize - 1;

    let mut node = Node::new(order);
    node.keys.push(1);
    node.keys.push(2);
    node.keys.push(3);
    node.keys.push(4);
    node.keys.push(5);

    let (mid_key, right) = node.split_node();

    assert!(node.keys.len() >= min_key);
    assert!(right.keys.len() >= min_key);

    assert_eq!(node.keys, vec![1,2]);
    assert_eq!(right.keys, vec![4,5]);
    assert_eq!(mid_key, 3);
}

#[test]
fn node_split_nodes_with_6_order() {
    let order = 6;
    let min_key = (order as f32 / 2.0).ceil() as usize - 1;

    let mut node = Node::new(order);
    node.keys.push(1);
    node.keys.push(2);
    node.keys.push(3);
    node.keys.push(4);
    node.keys.push(5);
    node.keys.push(6);

    let (mid_key, right) = node.split_node();

    assert!(node.keys.len() >= min_key);
    assert!(right.keys.len() >= min_key);
    assert_eq!(node.keys, vec![1,2, 3]);
    assert_eq!(right.keys, vec![5, 6]);
    assert_eq!(mid_key, 4);
}

#[test]
fn node_add_children_in_order() {
    let (mut parent, first_child, second_child) =
       build_parent_and_two_nodes();

    parent.add_child(first_child);
    parent.add_child(second_child);

    let first = parent.get_child(0).unwrap();
    let second = parent.get_child(1).unwrap();

    assert_eq!(first.get_key(0), 1);
    assert_eq!(second.get_key(0), 2);
}

#[test]
fn node_add_children_out_of_order() {
    let (mut parent, first_child, second_child) =
       build_parent_and_two_nodes();

    parent.add_child(second_child);
    parent.add_child(first_child);

    let first = parent.get_child(0).unwrap();
    let second = parent.get_child(1).unwrap();

    assert_eq!(first.get_key(0), 1);
    assert_eq!(second.get_key(0), 2);
}

#[test]
fn mod_find_key_in_1_element() {
    let mut node = Node::new(5);
    node.keys.push(5);

    let res = node.find_key_index(5);
    assert!(res.is_found());
    assert_eq!(res.unwrap(), 0);

    let res = node.find_key_index(3);
    assert!(!res.is_found());
}

#[test]
fn mod_find_key_in_2_element() {
    let mut node = Node::new(5);
    node.keys.push(5);
    node.keys.push(7);

    let res = node.find_key_index(5);
    assert!(res.is_found());
    assert_eq!(res.unwrap(), 0);

    let res = node.find_key_index(7);
    assert!(res.is_found());
    assert_eq!(res.unwrap(), 1);

    let res = node.find_key_index(3);
    assert!(!res.is_found());

    let res = node.find_key_index(6);
    assert!(!res.is_found());

    let res = node.find_key_index(8);
    assert!(!res.is_found());
}

#[test]
fn mod_find_key_in_3_element() {
    let mut node = Node::new(8);
    node.keys = vec![5, 7, 9];

    let res = node.find_key_index(5);
    assert!(res.is_found());
    assert_eq!(res.unwrap(), 0);

    let res = node.find_key_index(7);
    assert!(res.is_found());
    assert_eq!(res.unwrap(), 1);

    let res = node.find_key_index(9);
    assert!(res.is_found());
    assert_eq!(res.unwrap(), 2);

    let res = node.find_key_index(3);
    assert!(!res.is_found());

    let res = node.find_key_index(6);
    assert!(!res.is_found());

    let res = node.find_key_index(8);
    assert!(!res.is_found());

    let res = node.find_key_index(10);
    assert!(!res.is_found());
}

#[test]
fn mod_find_key_in_4_element() {
    let mut node = Node::new(8);
    node.keys = vec![5, 7, 9, 11];

    let res = node.find_key_index(5);
    assert!(res.is_found());
    assert_eq!(res.unwrap(), 0);

    let res = node.find_key_index(7);
    assert!(res.is_found());
    assert_eq!(res.unwrap(), 1);

    let res = node.find_key_index(9);
    assert!(res.is_found());
    assert_eq!(res.unwrap(), 2);

    let res = node.find_key_index(11);
    assert!(res.is_found());
    assert_eq!(res.unwrap(), 3);

    let res = node.find_key_index(3);
    assert!(!res.is_found());

    let res = node.find_key_index(6);
    assert!(!res.is_found());

    let res = node.find_key_index(8);
    assert!(!res.is_found());

    let res = node.find_key_index(10);
    assert!(!res.is_found());

    let res = node.find_key_index(12);
    assert!(!res.is_found());
}

#[test]
fn mod_find_location_in_even_vector() {
    let mut node = Node::new(5);
    node.keys = vec![5, 10, 15, 20];

    match node.find_key_index(3) {
        SearchStatus::NotFound(index) => {
            assert_eq!(index, 0, "Value must be 0 instead got {}", index)
        }
        SearchStatus::Found(_) => assert!(false, "Value"),
    }

    match node.find_key_index(8) {
        SearchStatus::NotFound(index) => {
            assert_eq!(index, 1, "Value must be 1 instead got {}", index)
        }
        SearchStatus::Found(_) => assert!(false, "Value"),
    }

    match node.find_key_index(11) {
        SearchStatus::NotFound(index) => {
            assert_eq!(index, 2, "Value must be 2 instead got {}", index)
        }
        SearchStatus::Found(_) => assert!(false, "Value"),
    }

    match node.find_key_index(18) {
        SearchStatus::NotFound(index) => {
            assert_eq!(index, 3, "Value must be 3 instead got {}", index)
        }
        SearchStatus::Found(_) => assert!(false, "Value"),
    }

    match node.find_key_index(25) {
        SearchStatus::NotFound(index) => {
            assert_eq!(index, 4, "Value must be 4 instead got {}", index)
        }
        SearchStatus::Found(_) => assert!(false, "Value"),
    }
}

#[test]
fn mod_find_location_in_odd_vector() {
    let mut node = Node::new(5);
    node.keys = vec![5, 10, 15, 20, 25];

    match node.find_key_index(3) {
        SearchStatus::NotFound(index) => {
            assert_eq!(index, 0, "Value must be 0 instead got {}", index)
        }
        SearchStatus::Found(_) => assert!(false, "Value"),
    }

    match node.find_key_index(8) {
        SearchStatus::NotFound(index) => {
            assert_eq!(index, 1, "Value must be 1 instead got {}", index)
        }
        SearchStatus::Found(_) => assert!(false, "Value"),
    }

    match node.find_key_index(11) {
        SearchStatus::NotFound(index) => {
            assert_eq!(index, 2, "Value must be 2 instead got {}", index)
        }
        SearchStatus::Found(_) => assert!(false, "Value"),
    }

    match node.find_key_index(18) {
        SearchStatus::NotFound(index) => {
            assert_eq!(index, 3, "Value must be 3 instead got {}", index)
        }
        SearchStatus::Found(_) => assert!(false, "Value"),
    }

    match node.find_key_index(23) {
        SearchStatus::NotFound(index) => {
            assert_eq!(index, 4, "Value must be 4 instead got {}", index)
        }
        SearchStatus::Found(_) => assert!(false, "Value"),
    }

    match node.find_key_index(26) {
        SearchStatus::NotFound(index) => {
            assert_eq!(index, 5, "Value must be 5 instead got {}", index)
        }
        SearchStatus::Found(_) => assert!(false, "Value"),
    }
}

#[test]
fn mod_find_location_in_single_element() {
    let mut node = Node::new(5);
    node.keys = vec![5];

    match node.find_key_index(3) {
        SearchStatus::NotFound(index) => {
            assert_eq!(index, 0, "Value must be 0 instead got {}", index)
        }
        SearchStatus::Found(_) => assert!(false, "Value"),
    }

    match node.find_key_index(8) {
        SearchStatus::NotFound(index) => {
            assert_eq!(index, 1, "Value must be 1 instead got {}", index)
        }
        SearchStatus::Found(_) => assert!(false, "Value"),
    }
}

#[test]
fn mod_split_nodes_with_odd_order() {
    let order = 3;
    let min_key = (order as f32 / 2.0).ceil() as usize - 1;

    let mut node = Node::new(order);
    node.keys.push(1);
    node.keys.push(2);
    node.keys.push(3);
    node.keys.push(4);

    let (mid_key, right) = node.split_node();

    assert!(node.keys.len() >= min_key);
    assert!(right.keys.len() >= min_key);

    assert_eq!(node.keys, vec![1, 2]);
    assert_eq!(right.keys, vec![4]);
    assert_eq!(mid_key, 3);
}

#[test]
fn mod_split_nodes_with_even_order() {
    let order = 4;
    let min_key = (order as f32 / 2.0).ceil() as usize - 1;

    let mut node = Node::new(order);
    node.keys.push(1);
    node.keys.push(2);
    node.keys.push(3);
    node.keys.push(4);
    node.keys.push(5);

    let (mid_key, right) = node.split_node();

    assert!(node.keys.len() >= min_key);
    assert!(right.keys.len() >= min_key);

    assert_eq!(node.keys, vec![1, 2]);
    assert_eq!(right.keys, vec![4, 5]);
    assert_eq!(mid_key, 3);
}

#[test]
fn mod_split_nodes_with_6_order() {
    let order = 6;
    let min_key = (order as f32 / 2.0).ceil() as usize - 1;

    let mut node = Node::new(order);
    node.keys.push(1);
    node.keys.push(2);
    node.keys.push(3);
    node.keys.push(4);
    node.keys.push(5);
    node.keys.push(6);

    let (mid_key, right) = node.split_node();

    assert!(node.keys.len() >= min_key);
    assert!(right.keys.len() >= min_key);
    assert_eq!(node.keys, vec![1, 2, 3]);
    assert_eq!(right.keys, vec![5, 6]);
    assert_eq!(mid_key, 4);
}

#[test]
fn node_child_operations_add_children_in_order() {
    let (mut parent, first_child, second_child) = build_parent_and_two_nodes();

    parent.add_child(first_child);
    parent.add_child(second_child);

    let first = parent.try_clone_child(0).unwrap();
    let second = parent.try_clone_child(1).unwrap();

    assert_eq!(first.get_key(0), 1);
    assert_eq!(second.get_key(0), 2);
}

#[test]
fn node_child_operations_add_children_out_of_order() {
    let (mut parent, first_child, second_child) = build_parent_and_two_nodes();

    parent.add_child(second_child);
    parent.add_child(first_child);

    let first = parent.try_clone_child(0).unwrap();
    let second = parent.try_clone_child(1).unwrap();

    assert_eq!(first.get_key(0), 1);
    assert_eq!(first.get_key(0), 1);
    assert_eq!(parent.children.iter().position(|c| std::ptr::eq(c, first)).unwrap(), 0);
    assert_eq!(second.get_key(0), 2);
    assert_eq!(parent.children.iter().position(|c| std::ptr::eq(c, second)).unwrap(), 1);
}
