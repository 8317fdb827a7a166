use execution_core::error::StoreError;
use execution_core::db::TrieDB;
use execution_core::node::Node;
use execution_core::node_ref::NodeRef;
use execution_core::trie::Trie;

#[test]
fn trie_insert_then_get() {
    let mut trie = Trie::new_temp();
    trie.insert(b"doe".to_vec(), b"reindeer".to_vec()).unwrap();
    trie.insert(b"dog".to_vec(), b"puppy".to_vec()).unwrap();
    trie.insert(b"dogglesworth".to_vec(), b"cat".to_vec()).unwrap();

    assert_eq!(trie.get(&b"doe".to_vec()).unwrap(), Some(b"reindeer".to_vec()));
    assert_eq!(trie.get(&b"dog".to_vec()).unwrap(), Some(b"puppy".to_vec()));
    assert_eq!(
        trie.get(&b"dogglesworth".to_vec()).unwrap(),
        Some(b"cat".to_vec())
    );
    assert_eq!(trie.get(&b"unknown".to_vec()).unwrap(), None);
}

#[test]
fn trie_order_independent_root_hash() {
    let mut t1 = Trie::new_temp();
    t1.insert(vec![0x12], b"A".to_vec()).unwrap();
    t1.insert(vec![0x34, 0x56], b"B".to_vec()).unwrap();
    t1.insert(vec![0x34, 0x57], b"C".to_vec()).unwrap();

    let mut t2 = Trie::new_temp();
    t2.insert(vec![0x34, 0x57], b"C".to_vec()).unwrap();
    t2.insert(vec![0x12], b"A".to_vec()).unwrap();
    t2.insert(vec![0x34, 0x56], b"B".to_vec()).unwrap();

    assert_eq!(t1.root_hash().unwrap(), t2.root_hash().unwrap());
    assert_eq!(t1.get(&vec![0x12]).unwrap(), Some(b"A".to_vec()));
    assert_eq!(t2.get(&vec![0x12]).unwrap(), Some(b"A".to_vec()));
    assert_eq!(t1.get(&vec![0x34, 0x56]).unwrap(), Some(b"B".to_vec()));
    assert_eq!(t2.get(&vec![0x34, 0x56]).unwrap(), Some(b"B".to_vec()));
    assert_eq!(t1.get(&vec![0x34, 0x57]).unwrap(), Some(b"C".to_vec()));
    assert_eq!(t2.get(&vec![0x34, 0x57]).unwrap(), Some(b"C".to_vec()));
}

#[test]
fn trie_insert_remove_roundtrip() {
    let mut trie = Trie::new_temp();
    trie.insert(b"key".to_vec(), b"value".to_vec()).unwrap();

    let removed = trie.remove(b"key".to_vec()).unwrap();
    assert_eq!(removed, Some(b"value".to_vec()));
    assert_eq!(trie.get(&b"key".to_vec()).unwrap(), None);
}

#[test]
fn trie_remove_restores_prior_root() {
    let mut trie = Trie::new_temp();
    trie.insert(vec![0x12], b"A".to_vec()).unwrap();
    let hash_before = trie.root_hash().unwrap();

    trie.insert(vec![0x13], b"B".to_vec()).unwrap();
    let removed = trie.remove(vec![0x13]).unwrap();
    assert_eq!(removed, Some(b"B".to_vec()));

    let hash_after = trie.root_hash().unwrap();
    assert_eq!(hash_before, hash_after);
    assert_eq!(trie.get(&vec![0x12]).unwrap(), Some(b"A".to_vec()));
    assert_eq!(trie.get(&vec![0x13]).unwrap(), None);
}

#[test]
fn trie_insert_idempotent() {
    let mut t1 = Trie::new_temp();
    t1.insert(b"key".to_vec(), b"value".to_vec()).unwrap();

    let mut t2 = Trie::new_temp();
    t2.insert(b"key".to_vec(), b"value".to_vec()).unwrap();
    t2.insert(b"key".to_vec(), b"value".to_vec()).unwrap();

    assert_eq!(t1.root_hash().unwrap(), t2.root_hash().unwrap());
    assert_eq!(t2.get(&b"key".to_vec()).unwrap(), Some(b"value".to_vec()));
}

#[test]
fn trie_single_nibble_divergence_extension() {
    let mut trie = Trie::new_temp();
    trie.insert(vec![0x12], b"A".to_vec()).unwrap();
    trie.insert(vec![0x13], b"B".to_vec()).unwrap();

    let root = trie.root.unwrap();
    let root_node = trie.db.get_node(root).unwrap();
    let ext = match root_node {
        Node::Extension(e) => e,
        _ => panic!("expected an extension wrapping the branch"),
    };
    let below = trie.db.get_node(ext.child).unwrap();
    assert!(matches!(below, Node::Branch(_)));

    assert_eq!(trie.get(&vec![0x12]).unwrap(), Some(b"A".to_vec()));
    assert_eq!(trie.get(&vec![0x13]).unwrap(), Some(b"B".to_vec()));
}

#[test]
fn trie_prefix_key_gets_branch_value() {
    let mut trie = Trie::new_temp();
    trie.insert(vec![0x12, 0x34], b"A".to_vec()).unwrap();
    trie.insert(vec![0x12], b"B".to_vec()).unwrap();

    let root = trie.root.unwrap();
    let root_node = trie.db.get_node(root).unwrap();
    let ext = match root_node {
        Node::Extension(e) => e,
        _ => panic!("expected an extension wrapping the branch"),
    };
    let below = trie.db.get_node(ext.child).unwrap();
    let branch = match below {
        Node::Branch(b) => b,
        _ => panic!("expected a branch below the extension"),
    };
    assert_eq!(branch.value, Some(b"B".to_vec()));

    assert_eq!(trie.get(&vec![0x12, 0x34]).unwrap(), Some(b"A".to_vec()));
    assert_eq!(trie.get(&vec![0x12]).unwrap(), Some(b"B".to_vec()));
}

#[test]
fn trie_empty_root_hash_is_known_constant() {
    let trie = Trie::new_temp();
    let hash = trie.root_hash().unwrap();
    assert_eq!(
        hash,
        vec![
            0x56, 0xE8, 0x1F, 0x17, 0x1B, 0xCC, 0x55, 0xA6, 0xFF, 0x83, 0x45, 0xE6, 0x92, 0xC0,
            0xF8, 0x6E, 0x5B, 0x48, 0xE0, 0x1B, 0x99, 0x6C, 0xAD, 0xC0, 0x01, 0x62, 0x2F, 0xB5,
            0xE3, 0x63, 0xB4, 0x21,
        ]
    );
}

#[test]
fn db_missing_node_is_not_found() {
    let db = TrieDB::new();
    let r = db.get_node(NodeRef::empty());
    assert_eq!(r.unwrap_err(), StoreError::NotFound);
}
