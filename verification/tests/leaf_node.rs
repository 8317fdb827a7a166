use execution_core::leaf::LeafNode;
use execution_core::nibble::NibbleSlice;
use execution_core::node::{Node, PathRLP};
use execution_core::node_ref::NodeRef;
use execution_core::trie::Trie;

#[test]
fn new() {
    let node = LeafNode::new(Default::default(), Default::default());
    assert_eq!(node.path, PathRLP::default());
    assert_eq!(node.value, PathRLP::default());
}

#[test]
fn get_some() {
    let node = LeafNode::new(vec![0x12], vec![0x12, 0x34, 0x56, 0x78]);

    assert_eq!(
        node.get(NibbleSlice::new(&[0x12])).unwrap(),
        Some(vec![0x12, 0x34, 0x56, 0x78]),
    );
}

#[test]
fn get_none() {
    let node = LeafNode::new(vec![0x12], vec![0x12, 0x34, 0x56, 0x78]);

    assert!(node.get(NibbleSlice::new(&[0x34])).unwrap().is_none());
}

#[test]
fn insert_replace() {
    let mut trie = Trie::new_temp();
    let node = LeafNode::new(vec![0x12], vec![0x12, 0x34, 0x56, 0x78]);

    let node = node
        .insert(&mut trie.db, NibbleSlice::new(&[0x12]), vec![0x13])
        .unwrap();
    let node = match node {
        Node::Leaf(x) => x,
        _ => panic!("expected a leaf node"),
    };

    assert_eq!(node.path, vec![0x12]);
    assert_eq!(node.value, vec![0x13]);
    assert!(node.hash.extract_ref().is_none());
}

#[test]
fn insert_branch() {
    let mut trie = Trie::new_temp();
    let node = LeafNode::new(vec![0x12], vec![0x12, 0x34, 0x56, 0x78]);
    let path = NibbleSlice::new(&[0x22]);
    let value = vec![0x23];
    let node = node
        .insert(&mut trie.db, path.duplicate(), value.clone())
        .unwrap();
    let node = match node {
        Node::Branch(x) => x,
        _ => panic!("expected a branch node"),
    };
    // New branch should contain the first node
    assert!(node.choices.iter().any(|x| x == &NodeRef::new(0)));
    assert_eq!(node.get(&trie.db, path).unwrap(), Some(value));
}

#[test]
fn insert_extension_branch() {
    let mut trie = Trie::new_temp();
    let node = LeafNode::new(vec![0x12], vec![0x12, 0x34, 0x56, 0x78]);

    let path = NibbleSlice::new(&[0x13]);
    let value = vec![0x15];

    let node = node
        .insert(&mut trie.db, path.duplicate(), value.clone())
        .unwrap();

    assert!(matches!(node, Node::Extension(_)));
    assert_eq!(node.get(&trie.db, path).unwrap(), Some(value));
}

#[test]
fn insert_extension_branch_value_self() {
    let mut trie = Trie::new_temp();
    let node = LeafNode::new(vec![0x12], vec![0x12, 0x34, 0x56, 0x78]);

    let path = NibbleSlice::new(&[0x12, 0x34]);
    let value = vec![0x17];

    let node = node
        .insert(&mut trie.db, path.duplicate(), value.clone())
        .unwrap();

    assert!(matches!(node, Node::Extension(_)));
    assert_eq!(node.get(&trie.db, path).unwrap(), Some(value));
}

#[test]
fn insert_extension_branch_value_other() {
    let mut trie = Trie::new_temp();
    let node = LeafNode::new(vec![0x12, 0x34], vec![0x12, 0x34, 0x56, 0x78]);

    let path = NibbleSlice::new(&[0x12]);
    let value = vec![0x17];

    let node = node
        .insert(&mut trie.db, path.duplicate(), value.clone())
        .unwrap();

    assert!(matches!(node, Node::Extension(_)));
    assert_eq!(node.get(&trie.db, path).unwrap(), Some(value));
}

// An insertion that returns branch [value=(x)] -> leaf (y) is not possible because of the path
// restrictions: nibbles come in pairs. If the first nibble is different, the node will be a
// branch but it cannot have a value. If the second nibble is different, then it'll be an
// extension followed by a branch with value and a child.
//
// Because of that, the two tests that would check those cases are neither necessary nor
// possible.

#[test]
fn remove_self() {
    let node = LeafNode::new(vec![0x12, 0x34], vec![0x12, 0x34, 0x56, 0x78]);
    let (node, value) = node.remove(NibbleSlice::new(&[0x12, 0x34])).unwrap();

    assert!(node.is_none());
    assert_eq!(value, Some(vec![0x12, 0x34, 0x56, 0x78]));
}

#[test]
fn remove_none() {
    let node = LeafNode::new(vec![0x12, 0x34], vec![0x12, 0x34, 0x56, 0x78]);

    let (node, value) = node.remove(NibbleSlice::new(&[0x12])).unwrap();

    assert!(node.is_some());
    assert_eq!(value, None);
}

#[test]
fn compute_hash() {
    let node = LeafNode::new(b"key".to_vec(), b"value".to_vec());

    let node_hash_ref = node.compute_hash(0).unwrap();
    assert_eq!(
        node_hash_ref.as_ref(),
        &[0xCB, 0x84, 0x20, 0x6B, 0x65, 0x79, 0x85, 0x76, 0x61, 0x6C, 0x75, 0x65],
    );
}

#[test]
fn compute_hash_long() {
    let node = LeafNode::new(b"key".to_vec(), b"a comparatively long value".to_vec());

    let node_hash_ref = node.compute_hash(0).unwrap();
    assert_eq!(
        node_hash_ref.as_ref(),
        &[
            0xEB, 0x92, 0x75, 0xB3, 0xAE, 0x09, 0x3A, 0x17, 0x75, 0x7C, 0xFB, 0x42, 0xF7, 0xD5,
            0x57, 0xF9, 0xE5, 0x77, 0xBD, 0x5B, 0xEB, 0x86, 0xA8, 0x68, 0x49, 0x91, 0xA6, 0x5B,
            0x87, 0x5F, 0x80, 0x7A,
        ],
    );
}
