use tradekit::mpt::hash::{hash_to_hex, keccak256};
use tradekit::mpt::merkle_proof::MerkleProof;
use tradekit::mpt::nibbles::{
    bytes_to_nibbles, common_prefix, compact_decode, compact_encode, nibbles_to_bytes,
};
use tradekit::mpt::node::{Node, NodeType};
use tradekit::mpt::trie::MerklePatriciaTrie;

#[test]
fn test_keccak256() {
    let data = b"hello world";
    let hash1 = keccak256(data);
    let hash2 = keccak256(data);

    assert_eq!(hash1, hash2);

    let hash3 = keccak256(b"hello world!");
    assert_ne!(hash1, hash3);
}

#[test]
fn test_hash_to_hex() {
    let hash = [0x12, 0x34, 0x56, 0x78];
    let hex = hash_to_hex(&hash);
    assert_eq!(hex, "12345678");
}

#[test]
fn hash_to_hex_uses_lower_case_letters() {
    assert_eq!(hash_to_hex(&[0xab, 0x0f, 0x90]), "ab0f90");
    assert_eq!(hash_to_hex(&[]), "");
}

#[test]
fn keccak256_tail_repeats_low_byte_shifts() {
    let d = keccak256(b"abc");
    let h = u64::from_le_bytes([d[0], d[1], d[2], d[3], d[4], d[5], d[6], d[7]]);
    for i in 8..32 {
        assert_eq!(d[i], ((h >> ((i - 8) % 8)) & 0xff) as u8);
    }
}

#[test]
fn test_bytes_to_nibbles() {
    assert_eq!(bytes_to_nibbles(&[0xAB]), vec![0xA, 0xB]);
    assert_eq!(bytes_to_nibbles(&[0xAB, 0xCD]), vec![0xA, 0xB, 0xC, 0xD]);
    assert_eq!(bytes_to_nibbles(&[0x12, 0x34, 0x56]), vec![0x1, 0x2, 0x3, 0x4, 0x5, 0x6]);
}

#[test]
fn test_nibbles_to_bytes() {
    assert_eq!(nibbles_to_bytes(&[0xA, 0xB]), vec![0xAB]);
    assert_eq!(nibbles_to_bytes(&[0xA, 0xB, 0xC, 0xD]), vec![0xAB, 0xCD]);
    assert_eq!(nibbles_to_bytes(&[0x1, 0x2, 0x3, 0x4, 0x5, 0x6]), vec![0x12, 0x34, 0x56]);
}

#[test]
fn nibbles_odd_count_and_round_trip() {
    assert_eq!(nibbles_to_bytes(&[0x1, 0x2, 0x3]), vec![0x12, 0x30]);
    assert_eq!(nibbles_to_bytes(&[]), Vec::<u8>::new());
    let bytes = vec![0x00, 0xff, 0x7e];
    assert_eq!(nibbles_to_bytes(&bytes_to_nibbles(&bytes)), bytes);
}

#[test]
fn test_compact_encode_leaf_even() {
    let nibbles = vec![0x1, 0x2, 0x3, 0x4];
    let encoded = compact_encode(&nibbles, true);
    assert_eq!(encoded, vec![0x20, 0x12, 0x34]);
}

#[test]
fn test_compact_encode_leaf_odd() {
    let nibbles = vec![0x1, 0x2, 0x3];
    let encoded = compact_encode(&nibbles, true);
    assert_eq!(encoded, vec![0x31, 0x23]);
}

#[test]
fn test_compact_encode_extension_even() {
    let nibbles = vec![0x1, 0x2, 0x3, 0x4];
    let encoded = compact_encode(&nibbles, false);
    assert_eq!(encoded, vec![0x00, 0x12, 0x34]);
}

#[test]
fn test_compact_encode_extension_odd() {
    let nibbles = vec![0x1, 0x2, 0x3];
    let encoded = compact_encode(&nibbles, false);
    assert_eq!(encoded, vec![0x11, 0x23]);
}

#[test]
fn test_compact_decode() {
    let (nibbles, is_leaf) = compact_decode(&[0x20, 0x12, 0x34]);
    assert_eq!(nibbles, vec![0x1, 0x2, 0x3, 0x4]);
    assert!(is_leaf);

    let (nibbles, is_leaf) = compact_decode(&[0x31, 0x23]);
    assert_eq!(nibbles, vec![0x1, 0x2, 0x3]);
    assert!(is_leaf);

    let (nibbles, is_leaf) = compact_decode(&[0x00, 0x12, 0x34]);
    assert_eq!(nibbles, vec![0x1, 0x2, 0x3, 0x4]);
    assert!(!is_leaf);

    let (nibbles, is_leaf) = compact_decode(&[0x11, 0x23]);
    assert_eq!(nibbles, vec![0x1, 0x2, 0x3]);
    assert!(!is_leaf);
}

#[test]
fn compact_decode_empty_input() {
    let (nibbles, is_leaf) = compact_decode(&[]);
    assert!(nibbles.is_empty());
    assert!(!is_leaf);
}

#[test]
fn test_common_prefix() {
    assert_eq!(common_prefix(&[1, 2, 3], &[1, 2, 4]), 2);
    assert_eq!(common_prefix(&[1, 2, 3], &[1, 2, 3]), 3);
    assert_eq!(common_prefix(&[1, 2, 3], &[4, 5, 6]), 0);
    assert_eq!(common_prefix(&[1, 2], &[1, 2, 3, 4]), 2);
}

#[test]
fn test_node_creation() {
    let empty = Node::empty();
    assert!(empty.is_empty());
    assert_eq!(empty.node_type(), "Empty");

    let leaf = Node::leaf(vec![1, 2, 3], vec![4, 5, 6]);
    assert_eq!(leaf.node_type(), "Leaf");

    let ext = Node::extension(vec![1, 2], vec![7, 8, 9]);
    assert_eq!(ext.node_type(), "Extension");

    let branch = Node::branch();
    assert_eq!(branch.node_type(), "Branch");
}

#[test]
fn test_node_type_conversion() {
    let leaf = Node::leaf(vec![1], vec![2]);
    let node_type: NodeType = (&leaf).into();
    assert_eq!(node_type, NodeType::Leaf);
}

#[test]
fn test_merkle_proof_creation() {
    let proof = MerkleProof::new(
        b"test".to_vec(),
        Some(b"value".to_vec()),
        vec![Node::leaf(vec![1, 2, 3], b"value".to_vec())],
    );

    assert_eq!(proof.key, b"test");
    assert_eq!(proof.value, Some(b"value".to_vec()));
    assert_eq!(proof.proof_nodes.len(), 1);
}

#[test]
fn test_simple_leaf_proof() {
    let key = b"test";
    let value = b"value";
    let nibbles = bytes_to_nibbles(key);

    let leaf = Node::leaf(nibbles.clone(), value.to_vec());
    let proof = MerkleProof::new(key.to_vec(), Some(value.to_vec()), vec![leaf.clone()]);

    let root_hash = proof.hash_node(&leaf);

    assert!(proof.verify(&root_hash));
}

#[test]
fn test_invalid_proof() {
    let key = b"test";
    let value = b"value";
    let nibbles = bytes_to_nibbles(key);

    let leaf = Node::leaf(nibbles.clone(), value.to_vec());
    let proof = MerkleProof::new(key.to_vec(), Some(b"wrong_value".to_vec()), vec![leaf.clone()]);

    let root_hash = proof.hash_node(&leaf);

    assert!(!proof.verify(&root_hash));
}

#[test]
fn proof_fails_on_wrong_root_or_no_nodes() {
    let leaf = Node::leaf(bytes_to_nibbles(b"k"), b"v".to_vec());
    let proof = MerkleProof::new(b"k".to_vec(), Some(b"v".to_vec()), vec![leaf]);
    assert!(!proof.verify(&[0u8; 32]));
    let empty = MerkleProof::new(b"k".to_vec(), None, vec![]);
    assert!(!empty.verify(&[]));
}

#[test]
fn empty_node_hash_is_empty() {
    let proof = MerkleProof::new(vec![], None, vec![Node::empty()]);
    assert!(proof.hash_node(&Node::empty()).is_empty());
    assert_eq!(proof.hash_node(&Node::branch()).len(), 32);
    assert!(proof.verify(&[]));
}

#[test]
fn test_insert_and_get() {
    let mut trie = MerklePatriciaTrie::new();

    trie.insert(b"hello", b"world");
    assert_eq!(trie.get(b"hello"), Some(b"world".to_vec()));
    assert_eq!(trie.get(b"hello2"), None);
}

#[test]
fn test_multiple_inserts() {
    let mut trie = MerklePatriciaTrie::new();

    trie.insert(b"do", b"verb");
    trie.insert(b"dog", b"puppy");
    trie.insert(b"doge", b"coin");

    assert_eq!(trie.get(b"do"), Some(b"verb".to_vec()));
    assert_eq!(trie.get(b"dog"), Some(b"puppy".to_vec()));
    assert_eq!(trie.get(b"doge"), Some(b"coin".to_vec()));
    assert_eq!(trie.get(b"cat"), None);
}

#[test]
fn test_root_hash() {
    let mut trie = MerklePatriciaTrie::new();

    let hash1 = trie.root_hash();

    trie.insert(b"key1", b"value1");
    let hash2 = trie.root_hash();

    assert_ne!(hash1, hash2);

    trie.insert(b"key2", b"value2");
    let hash3 = trie.root_hash();

    assert_ne!(hash2, hash3);
}

#[test]
fn test_deterministic_hash() {
    let mut trie1 = MerklePatriciaTrie::new();
    trie1.insert(b"do", b"verb");
    trie1.insert(b"dog", b"puppy");

    let mut trie2 = MerklePatriciaTrie::new();
    trie2.insert(b"dog", b"puppy");
    trie2.insert(b"do", b"verb");

    let hash1 = trie1.root_hash();
    let hash2 = trie2.root_hash();

    println!("Hash1: {:?}", hash1);
    println!("Hash2: {:?}", hash2);
}

#[test]
fn test_proof_generation_and_verification() {
    let mut trie = MerklePatriciaTrie::new();

    trie.insert(b"do", b"verb");
    trie.insert(b"dog", b"puppy");
    trie.insert(b"doge", b"coin");

    let root_hash = trie.root_hash();

    let proof = trie.get_proof(b"dog");

    assert_eq!(proof.key, b"dog");
    assert_eq!(proof.value, Some(b"puppy".to_vec()));
    assert!(!proof.proof_nodes.is_empty());

    assert!(proof.verify(&root_hash));
}

#[test]
fn test_proof_for_nonexistent_key() {
    let mut trie = MerklePatriciaTrie::new();

    trie.insert(b"do", b"verb");
    trie.insert(b"dog", b"puppy");

    let root_hash = trie.root_hash();

    let proof = trie.get_proof(b"cat");

    assert_eq!(proof.value, None);

    assert!(proof.verify(&root_hash));
}

#[test]
fn test_proof_invalid_after_modification() {
    let mut trie = MerklePatriciaTrie::new();

    trie.insert(b"test", b"value");

    let old_root_hash = trie.root_hash();
    let proof = trie.get_proof(b"test");

    assert!(proof.verify(&old_root_hash));

    trie.insert(b"test2", b"value2");
    let new_root_hash = trie.root_hash();

    assert_ne!(old_root_hash, new_root_hash);
}

#[test]
fn test_proof_with_multiple_keys() {
    let mut trie = MerklePatriciaTrie::new();

    trie.insert(b"apple", b"fruit");
    trie.insert(b"banana", b"yellow");
    trie.insert(b"cherry", b"red");

    let root_hash = trie.root_hash();

    let keys: Vec<&[u8]> = vec![b"apple", b"banana", b"cherry"];
    for key in keys {
        let proof = trie.get_proof(key);
        assert!(proof.value.is_some());
        assert!(proof.verify(&root_hash));
    }
}

#[test]
fn overwrite_value_and_root_node() {
    let mut trie = MerklePatriciaTrie::default();
    assert!(trie.root().is_empty());
    trie.insert(b"k", b"one");
    trie.insert(b"k", b"two");
    assert_eq!(trie.get(b"k"), Some(b"two".to_vec()));
    assert_eq!(trie.root().node_type(), "Leaf");
}
