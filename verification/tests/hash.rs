use crypto::digest::Digest;
use crypto::sha3::Sha3;
use iavl::digest::{digest, hash_inner, hash_leaf, sentinel, LEAF_TAG};
use iavl::encode::Encode;
use iavl::{Node, IAVL};

fn sha3(data: &[u8]) -> [u8; 32] {
    let mut hasher = Sha3::sha3_256();
    hasher.input(data);
    let mut out = [0u8; 32];
    hasher.result(&mut out);
    out
}

fn expected_leaf(key: i32, value: i32) -> [u8; 32] {
    let mut data = vec![0u8];
    data.extend_from_slice(&sha3(&key.to_le_bytes()));
    data.extend_from_slice(&sha3(&value.to_le_bytes()));
    sha3(&data)
}

fn full_digest(t: &Option<Box<Node<i32, i32>>>) -> [u8; 32] {
    match t {
        None => [0u8; 32],
        Some(node) => match node.as_ref() {
            Node::Leaf { key, value, .. } => expected_leaf(*key, *value),
            Node::Inner { left, right, .. } => {
                let mut data = Vec::new();
                data.extend_from_slice(&full_digest(left));
                data.extend_from_slice(&full_digest(right));
                sha3(&data)
            }
        },
    }
}

fn count_dirty(t: &Option<Box<Node<i32, i32>>>) -> usize {
    match t {
        None => 0,
        Some(node) => match node.as_ref() {
            Node::Leaf { dirty, .. } => *dirty as usize,
            Node::Inner { left, right, dirty, .. } => {
                *dirty as usize + count_dirty(left) + count_dirty(right)
            }
        },
    }
}

fn held(t: &Option<Box<Node<i32, i32>>>, out: &mut Vec<(i32, bool, Option<[u8; 32]>)>) {
    if let Some(node) = t {
        match node.as_ref() {
            Node::Leaf { key, hash, .. } => out.push((*key, true, *hash)),
            Node::Inner { left, right, key, hash, .. } => {
                out.push((*key, false, *hash));
                held(left, out);
                held(right, out);
            }
        }
    }
}

fn build(keys: &[i32]) -> IAVL<i32, i32> {
    let mut iavl = IAVL::new();
    for k in keys {
        iavl.insert(*k, *k);
    }
    iavl
}

#[test]
fn digest_is_sha3_256() {
    let abc = digest(b"abc");
    assert_eq!(
        hex::encode(abc),
        "3a985da74fe225b2045c172d6bd390bd855f086e3e9d525b46bfe24511431532"
    );
    let empty = digest(b"");
    assert_eq!(
        hex::encode(empty),
        "a7ffc6f8bf1ed76651c14756a061d662f580ff4de43b49fa82d80a4b80f8434a"
    );
}

#[test]
fn sentinel_is_all_zero() {
    assert_eq!(sentinel(), [0u8; 32]);
}

#[test]
fn inner_digest_hashes_left_then_right() {
    let l = digest(b"left");
    let r = digest(b"right");
    let mut data = Vec::new();
    data.extend_from_slice(&l);
    data.extend_from_slice(&r);
    assert_eq!(hash_inner(&l, &r), sha3(&data));
    assert_ne!(hash_inner(&l, &r), hash_inner(&r, &l));
}

#[test]
fn leaf_digest_hashes_tag_key_digest_value_digest() {
    assert_eq!(LEAF_TAG, 0);
    let got = hash_leaf(&4i32.to_le_bytes(), &9i32.to_le_bytes());
    assert_eq!(got, expected_leaf(4, 9));
    assert_ne!(got, expected_leaf(9, 4));
    assert_eq!(
        hex::encode(hash_leaf(b"", b"")),
        hex::encode({
            let e = sha3(b"");
            let mut data = vec![0u8];
            data.extend_from_slice(&e);
            data.extend_from_slice(&e);
            sha3(&data)
        })
    );
}

#[test]
fn encodings_are_little_endian() {
    assert_eq!(7u8.encode(), vec![7]);
    assert_eq!(0x0102_0304u32.encode(), vec![4, 3, 2, 1]);
    assert_eq!(0x0102_0304_0506_0708u64.encode(), vec![8, 7, 6, 5, 4, 3, 2, 1]);
    assert_eq!(1i32.encode(), vec![1, 0, 0, 0]);
    assert_eq!((-2i32).encode(), vec![0xfe, 0xff, 0xff, 0xff]);
    assert_eq!((-1i64).encode(), vec![0xff; 8]);
    assert_eq!(vec![1u8, 2, 3].encode(), vec![1, 2, 3]);
}

#[test]
fn empty_tree_has_the_sentinel_digest() {
    let mut iavl: IAVL<i32, i32> = IAVL::new();
    assert_eq!(iavl.save_tree(), [0u8; 32]);
    assert!(iavl.root.is_none());
}

#[test]
fn single_leaf_digest() {
    let mut iavl = IAVL::new();
    iavl.insert(4, 9);
    assert_eq!(iavl.save_tree(), expected_leaf(4, 9));
    match iavl.root.as_deref() {
        Some(Node::Leaf { hash, dirty, .. }) => {
            assert_eq!(*hash, Some(expected_leaf(4, 9)));
            assert!(!*dirty);
        }
        _ => panic!("one entry makes a leaf"),
    }
}

#[test]
fn two_leaves_digest() {
    let mut iavl = IAVL::new();
    iavl.insert(1, 10);
    iavl.insert(2, 20);
    let mut data = Vec::new();
    data.extend_from_slice(&expected_leaf(1, 10));
    data.extend_from_slice(&expected_leaf(2, 20));
    assert_eq!(iavl.save_tree(), sha3(&data));
}

#[test]
fn update_hash_on_a_node() {
    let mut root = Node::insert(Box::new(Node::new(1, 10)), 2, 20, 0);
    let got = Node::update_hash(&mut root);
    assert_eq!(got, full_digest(&Some(root)));
}

#[test]
fn same_insertions_give_the_same_digest() {
    let keys = [50, 40, 70, 45, 43, 47, 48, 10, 99, 1, 60];
    let mut a = build(&keys);
    let mut b: IAVL<i32, i32> = IAVL::new();
    for (i, k) in keys.iter().enumerate() {
        b.version = i as u32;
        b.insert(*k, *k);
        if i % 3 == 0 {
            b.save_tree();
        }
    }
    assert_eq!(a.save_tree(), b.save_tree());
    let mut c = build(&[50, 40, 70, 45, 43, 47, 48, 10, 99, 1, 61]);
    assert_ne!(a.save_tree(), c.save_tree());
}

#[test]
fn lazy_pass_equals_full_recomputation() {
    let mut iavl = IAVL::new();
    let mut x: i32 = 5;
    for i in 0..200 {
        x = (x * 37 + 11) % 499;
        iavl.insert(x, i);
        if i % 7 == 0 {
            let lazy = iavl.save_tree();
            assert_eq!(lazy, full_digest(&iavl.root));
            assert_eq!(count_dirty(&iavl.root), 0);
        }
    }
    let lazy = iavl.save_tree();
    assert_eq!(lazy, full_digest(&iavl.root));
}

#[test]
fn second_hash_pass_changes_nothing() {
    let mut iavl = build(&[50, 40, 70, 45, 43, 47, 48, 10]);
    let first = iavl.save_tree();
    let mut before = Vec::new();
    held(&iavl.root, &mut before);
    let second = iavl.save_tree();
    let mut after = Vec::new();
    held(&iavl.root, &mut after);
    assert_eq!(first, second);
    assert_eq!(before, after);
    assert_eq!(count_dirty(&iavl.root), 0);
    assert!(after.iter().all(|(_, _, h)| h.is_some()));
}

#[test]
fn a_clean_node_hands_out_the_digest_it_holds() {
    let marker = [7u8; 32];
    let mut root = Box::new(Node::Leaf {
        key: 1,
        value: 1,
        version: 0,
        hash: Some(marker),
        dirty: false,
    });
    assert_eq!(Node::update_hash(&mut root), marker);
    let mut stale = Box::new(Node::Leaf {
        key: 1,
        value: 1,
        version: 0,
        hash: Some(marker),
        dirty: true,
    });
    assert_eq!(Node::update_hash(&mut stale), expected_leaf(1, 1));
    let mut unhashed = Box::new(Node::Leaf { key: 1, value: 1, version: 0, hash: None, dirty: false });
    assert_eq!(Node::update_hash(&mut unhashed), expected_leaf(1, 1));
}

#[test]
fn reinsert_dirties_only_the_path_to_the_leaf() {
    let mut iavl = build(&[50, 40, 70, 45, 43, 47, 48, 10]);
    iavl.save_tree();
    let mut before = Vec::new();
    held(&iavl.root, &mut before);
    iavl.insert(50, 5000);
    let mut path = Vec::new();
    let mut at = &iavl.root;
    loop {
        match at.as_deref() {
            Some(Node::Inner { left, right, key, dirty, .. }) => {
                assert!(*dirty);
                path.push((*key, false));
                at = if 50 < *key { left } else { right };
            }
            Some(Node::Leaf { key, value, dirty, .. }) => {
                assert_eq!((*key, *value), (50, 5000));
                assert!(*dirty);
                path.push((*key, true));
                break;
            }
            None => panic!("the key is in the tree"),
        }
    }
    assert_eq!(count_dirty(&iavl.root), path.len());
    let digest = iavl.save_tree();
    assert_eq!(digest, full_digest(&iavl.root));
    let mut after = Vec::new();
    held(&iavl.root, &mut after);
    assert_eq!(before.len(), after.len());
    for (old, new) in before.iter().zip(after.iter()) {
        assert_eq!((old.0, old.1), (new.0, new.1));
        if path.contains(&(new.0, new.1)) {
            assert_ne!(old.2, new.2);
        } else {
            assert_eq!(old.2, new.2);
        }
    }
    assert_eq!(count_dirty(&iavl.root), 0);
}

#[test]
fn graphviz_tree() {
    let mut iavl = IAVL::new();
    iavl.insert(50, 50);
    iavl.insert(40, 40);
    iavl.insert(70, 70);
    iavl.insert(45, 45);
    iavl.insert(43, 43);
    iavl.insert(47, 47);
    iavl.insert(48, 48);
    iavl.insert(10, 10);
    let digest = iavl.save_tree();
    let root = iavl.root.unwrap();
    assert_eq!(root.hash_label(), Some(hex::encode(&digest[..4])));
    let mut leaf = &root;
    while let Node::Inner { left, .. } = leaf.as_ref() {
        leaf = left.as_ref().unwrap();
    }
    assert_eq!(leaf.hash_label(), Some(hex::encode(&expected_leaf(10, 10)[..3])));
}

#[test]
fn label_is_lower_case_hex_of_the_first_bytes() {
    let mut h = [0u8; 32];
    h[0] = 0xab;
    h[1] = 0x0f;
    h[2] = 0x10;
    h[3] = 0xff;
    h[4] = 0x77;
    let leaf = Node::Leaf { key: 1, value: 1, version: 0, hash: Some(h), dirty: false };
    assert_eq!(leaf.hash_label(), Some("ab0f10".to_string()));
    let inner: Node<i32, i32> = Node::Inner {
        left: None,
        right: None,
        key: 1,
        hash: Some(h),
        height: 1,
        version: 0,
        dirty: false,
    };
    assert_eq!(inner.hash_label(), Some("ab0f10ff".to_string()));
    assert_eq!(Node::new(1, 1).hash_label(), None);
}
