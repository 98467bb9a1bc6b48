use iavl::{Node, IAVL};

fn height_of(t: &Option<Box<Node<i32, i32>>>) -> i32 {
    match t {
        None => 0,
        Some(node) => match node.as_ref() {
            Node::Leaf { .. } => 0,
            Node::Inner { left, right, .. } => 1 + height_of(left).max(height_of(right)),
        },
    }
}

fn check_shape(t: &Option<Box<Node<i32, i32>>>) {
    if let Some(node) = t {
        if let Node::Inner { left, right, key, height, .. } = node.as_ref() {
            assert!(left.is_some() && right.is_some());
            let l = height_of(left);
            let r = height_of(right);
            assert!((l - r).abs() <= 1);
            assert_eq!(*height as i32, 1 + l.max(r));
            let mut below = Vec::new();
            leaf_keys(left, &mut below);
            assert!(below.iter().all(|k| k < key));
            let mut above = Vec::new();
            leaf_keys(right, &mut above);
            assert!(above.iter().all(|k| k >= key));
            check_shape(left);
            check_shape(right);
        }
    }
}

fn leaf_keys(t: &Option<Box<Node<i32, i32>>>, out: &mut Vec<i32>) {
    if let Some(node) = t {
        match node.as_ref() {
            Node::Leaf { key, .. } => out.push(*key),
            Node::Inner { left, right, .. } => {
                leaf_keys(left, out);
                leaf_keys(right, out);
            }
        }
    }
}

fn split_key(t: &Option<Box<Node<i32, i32>>>) -> Option<i32> {
    match t.as_deref() {
        Some(Node::Inner { key, .. }) => Some(*key),
        _ => None,
    }
}

#[test]
fn iavl_construct_tree() {
    let mut iavl = IAVL::new();
    iavl.insert(4, 4);
}

#[test]
fn search() {
    let mut iavl = IAVL::new();
    for i in 0..10 {
        iavl.insert(i, i);
    }
    let root = &iavl.root.unwrap();
    let s = Node::search(&11, root);
    match s {
        None => {}
        Some(_) => assert!(false),
    }
    let s = Node::search(&4, root);
    match s {
        None => assert!(false),
        Some(_) => {}
    }
}

#[test]
fn calculate_hash() {
    let mut iavl = IAVL::new();
    for i in 0..10 {
        iavl.insert(i, i);
    }
    iavl.save_tree();
}

#[test]
fn construct_node() {
    let node = Node::new(1, 1);
    match node {
        Node::Leaf { key, .. } => assert_eq!(key, 1),
        _ => panic!(""),
    }
}

#[test]
fn lib_construct_tree() {
    let mut iavl = IAVL { root: Some(Box::new(Node::new(8, 8))), version: 0 };
    iavl.insert(4, 4);
    iavl.insert(3, 3);
    iavl.insert(11, 11);
    let mut keys = Vec::new();
    leaf_keys(&iavl.root, &mut keys);
    assert_eq!(keys, vec![3, 4, 8, 11]);
}

#[test]
fn new_tree_is_empty_at_version_zero() {
    let iavl: IAVL<i32, i32> = IAVL::new();
    assert!(iavl.root.is_none());
    assert_eq!(iavl.version, 0);
}

#[test]
fn new_node_is_an_unhashed_dirty_leaf() {
    match Node::new(7, 70) {
        Node::Leaf { key, value, version, hash, dirty } => {
            assert_eq!(key, 7);
            assert_eq!(value, 70);
            assert_eq!(version, 0);
            assert!(hash.is_none());
            assert!(dirty);
        }
        _ => panic!("a new node is a leaf"),
    }
}

#[test]
fn insert_below_a_leaf_puts_the_lesser_key_left() {
    let root = Node::insert(Box::new(Node::new(50, 50)), 40, 40, 3);
    match *root {
        Node::Inner { left, right, key, height, version, dirty, hash } => {
            assert_eq!(key, 50);
            assert_eq!(height, 1);
            assert_eq!(version, 3);
            assert!(dirty);
            assert!(hash.is_none());
            assert!(matches!(*left.unwrap(), Node::Leaf { key: 40, value: 40, version: 3, .. }));
            assert!(matches!(*right.unwrap(), Node::Leaf { key: 50, value: 50, version: 0, .. }));
        }
        _ => panic!("two entries make an inner node"),
    }
}

#[test]
fn insert_above_a_leaf_takes_the_new_key_as_split_key() {
    let root = Node::insert(Box::new(Node::new(50, 50)), 60, 60, 1);
    match *root {
        Node::Inner { left, right, key, height, .. } => {
            assert_eq!(key, 60);
            assert_eq!(height, 1);
            assert!(matches!(*left.unwrap(), Node::Leaf { key: 50, .. }));
            assert!(matches!(*right.unwrap(), Node::Leaf { key: 60, .. }));
        }
        _ => panic!("two entries make an inner node"),
    }
}

#[test]
fn insert_of_an_existing_key_replaces_the_value() {
    let mut iavl = IAVL::new();
    for k in [50, 40, 70, 45] {
        iavl.insert(k, k);
    }
    iavl.version = 9;
    iavl.insert(45, 4500);
    let mut keys = Vec::new();
    leaf_keys(&iavl.root, &mut keys);
    assert_eq!(keys, vec![40, 45, 50, 70]);
    let root = iavl.root.unwrap();
    assert_eq!(Node::search(&45, &root), Some((&45, &4500)));
    assert_eq!(Node::search(&50, &root), Some((&50, &50)));
    let replaced = Node::insert(Box::new(Node::new(1, 1)), 1, 2, 5);
    assert!(matches!(*replaced, Node::Leaf { key: 1, value: 2, version: 5, dirty: true, .. }));
}

#[test]
fn descending_inserts_rotate_to_height_three() {
    let mut iavl = IAVL::new();
    for k in [50, 40, 30, 20, 10, 9, 8] {
        iavl.insert(k, k);
    }
    assert_eq!(Node::height(&iavl.root), 3);
    assert_eq!(split_key(&iavl.root), Some(20));
    check_shape(&iavl.root);
    let root = iavl.root.unwrap();
    assert_eq!(Node::search(&9, &root), Some((&9, &9)));
    assert_eq!(Node::search(&100, &root), None);
}

#[test]
fn ascending_inserts_rotate_left() {
    let mut iavl = IAVL::new();
    for k in 1..=7 {
        iavl.insert(k, k * 10);
    }
    assert_eq!(Node::height(&iavl.root), 3);
    check_shape(&iavl.root);
    let mut keys = Vec::new();
    leaf_keys(&iavl.root, &mut keys);
    assert_eq!(keys, vec![1, 2, 3, 4, 5, 6, 7]);
}

#[test]
fn zigzag_inserts_take_a_double_rotation() {
    let mut left_right = IAVL::new();
    for k in [50, 10, 30, 20, 25] {
        left_right.insert(k, k);
        check_shape(&left_right.root);
    }
    let mut right_left = IAVL::new();
    for k in [10, 50, 30, 40, 35] {
        right_left.insert(k, k);
        check_shape(&right_left.root);
    }
    let mut keys = Vec::new();
    leaf_keys(&left_right.root, &mut keys);
    assert_eq!(keys, vec![10, 20, 25, 30, 50]);
    keys.clear();
    leaf_keys(&right_left.root, &mut keys);
    assert_eq!(keys, vec![10, 30, 35, 40, 50]);
}

#[test]
fn every_insert_keeps_balance_and_order() {
    let mut iavl = IAVL::new();
    let mut x: i32 = 17;
    let mut seen = Vec::new();
    for _ in 0..400 {
        x = (x * 73 + 41) % 1009;
        iavl.insert(x, x + 1);
        if !seen.contains(&x) {
            seen.push(x);
        }
        check_shape(&iavl.root);
    }
    seen.sort();
    let mut keys = Vec::new();
    leaf_keys(&iavl.root, &mut keys);
    assert_eq!(keys, seen);
    assert!(keys.windows(2).all(|w| w[0] < w[1]));
}

#[test]
fn search_finds_the_last_value_and_nothing_else() {
    let mut iavl = IAVL::new();
    for k in 0..50 {
        iavl.insert(k * 2, k);
    }
    for k in 0..50 {
        if k % 3 == 0 {
            iavl.insert(k * 2, -k);
        }
    }
    let root = iavl.root.unwrap();
    for k in 0..50 {
        let expected = if k % 3 == 0 { -k } else { k };
        assert_eq!(Node::search(&(k * 2), &root), Some((&(k * 2), &expected)));
        assert_eq!(Node::search(&(k * 2 + 1), &root), None);
    }
}

#[test]
fn search_in_a_single_leaf() {
    let root = Box::new(Node::new(5, 55));
    assert_eq!(Node::search(&5, &root), Some((&5, &55)));
    assert_eq!(Node::search(&4, &root), None);
    assert_eq!(Node::search(&6, &root), None);
}

#[test]
fn height_of_empty_and_leaf_is_zero() {
    let none: Option<Box<Node<i32, i32>>> = None;
    assert_eq!(Node::height(&none), 0);
    assert_eq!(Node::height(&Some(Box::new(Node::new(1, 1)))), 0);
    let two = Node::insert(Box::new(Node::new(1, 1)), 2, 2, 0);
    assert_eq!(Node::height(&Some(two)), 1);
}

#[test]
fn nodes_carry_the_version_of_their_insertion() {
    let mut iavl = IAVL::new();
    iavl.insert(1, 1);
    iavl.version = 4;
    iavl.insert(2, 2);
    match iavl.root.as_deref() {
        Some(Node::Inner { left, right, version, .. }) => {
            assert_eq!(*version, 4);
            assert!(matches!(left.as_deref(), Some(Node::Leaf { key: 1, version: 0, .. })));
            assert!(matches!(right.as_deref(), Some(Node::Leaf { key: 2, version: 4, .. })));
        }
        _ => panic!("two entries make an inner node"),
    }
    assert_eq!(iavl.version, 4);
}
