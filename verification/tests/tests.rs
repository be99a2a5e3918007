use rust_blockchain::block::Block;
use rust_blockchain::blockchain::Blockchain;
use rust_blockchain::hash::HashValue;
use rust_blockchain::merkle_tree::{MerkleTree, TreeError};

/// The difficulty the original test suite ran at.
const ZEROS: u8 = 5;

/// A transaction-like payload: a fixed, deterministic byte serialization of
/// (index 1, "Alice" -> "Bob", amount 100.0, signature [34; 32]).
fn transaction_1() -> Vec<u8> {
    let mut bytes = Vec::new();
    bytes.extend_from_slice(&1u32.to_be_bytes());
    bytes.extend_from_slice(b"Alice");
    bytes.extend_from_slice(b"Bob");
    bytes.extend_from_slice(&100.0f64.to_be_bytes());
    bytes.extend_from_slice(&[34u8; 32]);
    bytes
}

#[test]
fn it_works() {
    assert_eq!(2 + 2, 4);
}

#[test]
fn test_merkle_tree() {
    let tree1 = MerkleTree::new(&[transaction_1()]).unwrap();
    assert!(tree1.verify());
    assert_eq!(vec![transaction_1()], tree1.get_currently_stored_data());
}

#[test]
fn test_block() {
    let previous_hash = HashValue::from_bytes(vec![11u8; 32]);
    let data = MerkleTree::new(&[transaction_1()]).unwrap();
    let mut test_block = Block::new(previous_hash, data);
    assert!(!test_block.verify(ZEROS));
    test_block.calculate_nonce(ZEROS);
    assert!(test_block.verify(ZEROS));
}

#[test]
fn test_blockchain() {}

fn items(strs: &[&str]) -> Vec<Vec<u8>> {
    strs.iter().map(|s| s.as_bytes().to_vec()).collect()
}

#[test]
fn new_tree_verifies_and_stores_in_order() {
    let data = items(&["a", "b", "c", "d", "e"]);
    let tree = MerkleTree::new(&data).unwrap();
    assert!(tree.verify());
    assert_eq!(tree.get_currently_stored_data(), data);
}

#[test]
fn empty_sequence_is_rejected() {
    let data: Vec<Vec<u8>> = Vec::new();
    assert_eq!(
        MerkleTree::new(&data).err(),
        Some(TreeError::EmptyPayloadSequence)
    );
}

#[test]
fn order_matters_for_the_root_hash() {
    let t1 = MerkleTree::new(&items(&["a", "b"])).unwrap();
    let t2 = MerkleTree::new(&items(&["b", "a"])).unwrap();
    assert_ne!(t1.get_root_hash(), t2.get_root_hash());
}

#[test]
fn leaf_export_has_the_documented_form() {
    // SHA-256 of the single byte "a"; a wrapper that handed its input back
    // unchanged, or hashed something else, would fail this.
    let tree = MerkleTree::new(&items(&["a"])).unwrap();
    let expected = "<leaf hash=\"ca978112ca1bbdcafac231b39a23dc4da786eff8147c4e72b9807785afee48bb\" data=\"61\" />";
    assert_eq!(tree.export_xml(), expected.as_bytes().to_vec());
}

#[test]
fn shrink_keeps_root_hash_and_validity_and_empties_storage() {
    let mut tree = MerkleTree::new(&items(&["a", "b", "c"])).unwrap();
    let root_before = tree.get_root_hash().clone();
    tree.shrink_to_minimum();
    assert_eq!(*tree.get_root_hash(), root_before);
    assert!(tree.verify());
    assert!(tree.get_currently_stored_data().is_empty());
}

#[test]
fn forget_then_restore_brings_the_data_back() {
    let data = items(&["a", "b", "c", "d"]);
    let mut tree = MerkleTree::new(&data).unwrap();
    let stored_before = tree.get_currently_stored_data();
    assert!(tree.forget_leaf(&b"b".to_vec()));
    assert_eq!(tree.get_currently_stored_data(), items(&["a", "c", "d"]));
    assert!(tree.restore_element(&b"b".to_vec()));
    assert_eq!(tree.get_currently_stored_data(), stored_before);
    assert!(tree.verify());
}

#[test]
fn forget_leaf_fails_on_missing_or_already_absent_data() {
    let mut tree = MerkleTree::new(&items(&["a", "b"])).unwrap();
    assert!(!tree.forget_leaf(&b"z".to_vec()));
    assert!(tree.forget_leaf(&b"a".to_vec()));
    assert!(!tree.forget_leaf(&b"a".to_vec()));
}

#[test]
fn restore_element_fails_when_no_leaf_matches() {
    let mut tree = MerkleTree::new(&items(&["a", "b"])).unwrap();
    assert!(!tree.restore_element(&b"z".to_vec()));
    assert_eq!(tree.get_currently_stored_data(), items(&["a", "b"]));
}

#[test]
fn restore_element_accepts_an_already_present_element() {
    let mut tree = MerkleTree::new(&items(&["a", "b"])).unwrap();
    assert!(tree.restore_element(&b"a".to_vec()));
    assert_eq!(tree.get_currently_stored_data(), items(&["a", "b"]));
}

#[test]
fn forget_all_leaves_keeps_shape_and_hashes() {
    let mut tree = MerkleTree::new(&items(&["a", "b", "c"])).unwrap();
    let root_before = tree.get_root_hash().clone();
    let export_before = tree.export_xml();
    tree.forget_all_leaves();
    assert_eq!(*tree.get_root_hash(), root_before);
    assert!(tree.verify());
    assert!(tree.get_currently_stored_data().is_empty());
    // The shape survives: each element can come back individually, any order.
    assert!(tree.restore_element(&b"c".to_vec()));
    assert!(tree.restore_element(&b"a".to_vec()));
    assert!(tree.restore_element(&b"b".to_vec()));
    assert_eq!(tree.get_currently_stored_data(), items(&["a", "b", "c"]));
    assert_eq!(tree.export_xml(), export_before);
}

#[test]
fn forget_subtree_collapses_only_the_matching_subtree() {
    let mut tree = MerkleTree::new(&items(&["a", "b", "c", "d"])).unwrap();
    let left_subtree = MerkleTree::new(&items(&["a", "b"])).unwrap();
    let left_root = left_subtree.get_root_hash().clone();
    assert!(tree.contains_hash(&left_root));
    assert!(tree.forget_subtree(&left_root));
    assert_eq!(tree.get_currently_stored_data(), items(&["c", "d"]));
    assert!(tree.verify());
    // The digest of the collapsed subtree is still there.
    assert!(tree.contains_hash(&left_root));
}

#[test]
fn forget_subtree_fails_on_an_unknown_hash() {
    let mut tree = MerkleTree::new(&items(&["a", "b"])).unwrap();
    let stranger = HashValue::from_bytes(vec![7u8; 32]);
    assert!(!tree.forget_subtree(&stranger));
    assert_eq!(tree.get_currently_stored_data(), items(&["a", "b"]));
}

#[test]
fn forget_subtree_of_the_root_is_shrink_to_minimum() {
    let mut tree = MerkleTree::new(&items(&["a", "b", "c"])).unwrap();
    let root = tree.get_root_hash().clone();
    assert!(tree.forget_subtree(&root));
    assert_eq!(*tree.get_root_hash(), root);
    assert!(tree.get_currently_stored_data().is_empty());
}

#[test]
fn restore_subtree_regrows_a_pruned_subtree() {
    let mut tree = MerkleTree::new(&items(&["a", "b", "c", "d"])).unwrap();
    let candidate = MerkleTree::new(&items(&["a", "b"])).unwrap();
    let left_root = candidate.get_root_hash().clone();
    assert!(tree.forget_subtree(&left_root));
    assert_eq!(tree.get_currently_stored_data(), items(&["c", "d"]));
    assert!(tree.restore_subtree(candidate));
    assert_eq!(tree.get_currently_stored_data(), items(&["a", "b", "c", "d"]));
    assert!(tree.verify());
}

#[test]
fn restore_subtree_never_loses_data() {
    let mut tree = MerkleTree::new(&items(&["a", "b", "c", "d"])).unwrap();
    // A candidate with the same digests but all payload pruned.
    let mut pruned = tree.clone();
    pruned.forget_all_leaves();
    let count_before = tree.get_currently_stored_data().len();
    assert!(tree.restore_subtree(pruned));
    assert!(tree.get_currently_stored_data().len() >= count_before);
    assert_eq!(tree.get_currently_stored_data(), items(&["a", "b", "c", "d"]));
}

#[test]
fn restore_subtree_fails_on_an_unknown_root() {
    let mut tree = MerkleTree::new(&items(&["a", "b"])).unwrap();
    let stranger = MerkleTree::new(&items(&["x", "y"])).unwrap();
    assert!(!tree.restore_subtree(stranger));
    assert_eq!(tree.get_currently_stored_data(), items(&["a", "b"]));
}

#[test]
fn insert_subtree_replaces_wholesale_and_may_lose_data() {
    let mut tree = MerkleTree::new(&items(&["a", "b", "c", "d"])).unwrap();
    let mut pruned_left = MerkleTree::new(&items(&["a", "b"])).unwrap();
    pruned_left.shrink_to_minimum();
    assert!(tree.insert_subtree(pruned_left));
    // The documented hazard: the pruned candidate replaced a stored subtree.
    assert_eq!(tree.get_currently_stored_data(), items(&["c", "d"]));
    assert!(tree.verify());
}

#[test]
fn insert_subtree_fails_on_an_unknown_root() {
    let mut tree = MerkleTree::new(&items(&["a", "b"])).unwrap();
    let stranger = MerkleTree::new(&items(&["x", "y"])).unwrap();
    assert!(!tree.insert_subtree(stranger));
    assert_eq!(tree.get_currently_stored_data(), items(&["a", "b"]));
}

#[test]
fn xml_round_trip_reproduces_the_tree() {
    let tree = MerkleTree::new(&items(&["a", "b", "c"])).unwrap();
    let xml = tree.export_xml();
    let back = MerkleTree::import_xml(&xml).unwrap();
    assert_eq!(back.export_xml(), xml);
    assert_eq!(back.get_root_hash(), tree.get_root_hash());
    assert_eq!(
        back.get_currently_stored_data(),
        tree.get_currently_stored_data()
    );
    assert!(back.verify());
}

#[test]
fn xml_round_trip_keeps_absent_leaves_absent() {
    let mut tree = MerkleTree::new(&items(&["a", "b", "c"])).unwrap();
    tree.forget_leaf(&b"b".to_vec());
    let xml = tree.export_xml();
    let back = MerkleTree::import_xml(&xml).unwrap();
    assert_eq!(back.get_currently_stored_data(), items(&["a", "c"]));
    assert_eq!(back.get_root_hash(), tree.get_root_hash());
    assert_eq!(back.export_xml(), xml);
}

#[test]
fn xml_round_trip_survives_an_odd_split() {
    // Five items split 2/3 at the midpoint floor.
    let tree = MerkleTree::new(&items(&["a", "b", "c", "d", "e"])).unwrap();
    let back = MerkleTree::import_xml(&tree.export_xml()).unwrap();
    assert_eq!(
        back.get_currently_stored_data(),
        items(&["a", "b", "c", "d", "e"])
    );
    assert!(back.verify());
}

#[test]
fn xml_round_trip_keeps_a_collapsed_subtree_collapsed() {
    let mut tree = MerkleTree::new(&items(&["a", "b", "c", "d"])).unwrap();
    let left_root = MerkleTree::new(&items(&["a", "b"]))
        .unwrap()
        .get_root_hash()
        .clone();
    assert!(tree.forget_subtree(&left_root));
    let xml = tree.export_xml();
    let back = MerkleTree::import_xml(&xml).unwrap();
    assert_eq!(back.export_xml(), xml);
    assert_eq!(back.get_currently_stored_data(), items(&["c", "d"]));
    assert!(back.contains_hash(&left_root));
}

#[test]
fn import_rejects_malformed_documents() {
    assert!(MerkleTree::import_xml(b"").is_none());
    assert!(MerkleTree::import_xml(b"<leaf hash=\"zz\" />").is_none());
    let tree = MerkleTree::new(&items(&["a", "b"])).unwrap();
    let mut xml = tree.export_xml();
    xml.pop();
    assert!(MerkleTree::import_xml(&xml).is_none());
}

#[test]
fn import_does_not_verify() {
    // A syntactically well-formed document with a digest that matches
    // nothing: import accepts it, verify() then rejects it.
    let forged =
        "<leaf hash=\"0000000000000000000000000000000000000000000000000000000000000000\" data=\"61\" />";
    let tree = MerkleTree::import_xml(forged.as_bytes()).unwrap();
    assert!(!tree.verify());
}

#[test]
fn mined_nonce_yields_the_required_zero_bits() {
    let tree = MerkleTree::new(&items(&["a", "b", "c"])).unwrap();
    let mut block = Block::new(HashValue::from_bytes(vec![0u8; 32]), tree);
    let nonce = block.calculate_nonce(9).unwrap();
    assert_eq!(block.nonce, nonce);
    let hash = block.calculate_hash();
    // Nine leading zero bits: the first byte zero, the next byte's top bit too.
    assert_eq!(hash.bytes[0], 0);
    assert_eq!(hash.bytes[1] & 0x80, 0);
    assert!(block.verify_nonce(9));
}

#[test]
fn difficulty_zero_accepts_any_nonce() {
    let tree = MerkleTree::new(&items(&["a"])).unwrap();
    let block = Block::new(HashValue::from_bytes(vec![0u8; 32]), tree);
    assert!(block.verify_nonce(0));
}

#[test]
fn mining_resumes_from_the_current_nonce() {
    let tree = MerkleTree::new(&items(&["a", "b"])).unwrap();
    let mut block = Block::new(HashValue::from_bytes(vec![0u8; 32]), tree);
    let first = block.calculate_nonce(ZEROS).unwrap();
    // Already mined: the search starts at the current nonce and stops there.
    assert_eq!(block.calculate_nonce(ZEROS).unwrap(), first);
}

#[test]
fn block_hash_ignores_pruned_payload() {
    let tree = MerkleTree::new(&items(&["a", "b", "c"])).unwrap();
    let mut block = Block::new(HashValue::from_bytes(vec![0u8; 32]), tree);
    block.calculate_nonce(ZEROS);
    let hash_before = block.calculate_hash();
    block.clear_merkle_tree();
    assert_eq!(block.calculate_hash(), hash_before);
    assert!(block.verify(ZEROS));
}

#[test]
fn restore_merkle_tree_requires_matching_valid_data() {
    let tree = MerkleTree::new(&items(&["a", "b"])).unwrap();
    let full_copy = tree.clone();
    let mut block = Block::new(HashValue::from_bytes(vec![0u8; 32]), tree);
    block.clear_merkle_tree();
    assert!(block.merkle_tree.get_currently_stored_data().is_empty());
    assert!(block.restore_merkle_tree(full_copy));
    assert_eq!(
        block.merkle_tree.get_currently_stored_data(),
        items(&["a", "b"])
    );
    // A tree with some other root is turned away, and nothing changes.
    let stranger = MerkleTree::new(&items(&["x"])).unwrap();
    assert!(!block.restore_merkle_tree(stranger));
    assert_eq!(
        block.merkle_tree.get_currently_stored_data(),
        items(&["a", "b"])
    );
}

#[test]
fn append_block_rejects_a_stale_prev_hash() {
    let mut chain = Blockchain::new(ZEROS);
    let tree = MerkleTree::new(&items(&["a"])).unwrap();
    let mut block = Block::new(HashValue::from_bytes(vec![9u8; 32]), tree);
    block.calculate_nonce(ZEROS);
    // Mined, but naming the wrong predecessor: rejected, chain unchanged.
    assert!(!chain.append_block(block));
    assert_eq!(chain.length(), 0);
    assert!(chain.verify());
}

#[test]
fn append_block_rejects_an_unmined_block() {
    let mut chain = Blockchain::new(ZEROS);
    let tree = MerkleTree::new(&items(&["a"])).unwrap();
    let mut block = Block::new(chain.hash_of_last_block(), tree);
    // Find a nonce that fails the proof of work and force it in.
    while block.verify_nonce(ZEROS) {
        block.nonce += 1;
    }
    assert!(!chain.append_block(block));
    assert_eq!(chain.length(), 0);
}

#[test]
fn chain_verify_fails_after_tampering() {
    let mut chain = Blockchain::new(ZEROS);
    chain
        .append_data(MerkleTree::new(&items(&["a", "b"])).unwrap())
        .unwrap();
    chain
        .append_data(MerkleTree::new(&items(&["c", "d"])).unwrap())
        .unwrap();
    assert!(chain.verify());

    // Tamper with the interior block's stored nonce, then put it back.
    let saved = chain.blocks[0].nonce;
    chain.blocks[0].nonce ^= 1;
    assert!(!chain.verify());
    chain.blocks[0].nonce = saved;
    assert!(chain.verify());

    // Tamper with the interior block's stored tree data: swap one leaf's
    // payload while keeping every digest in place.
    if let MerkleTree::Node { left, .. } = &mut chain.blocks[0].merkle_tree {
        if let MerkleTree::Leaf { data, .. } = &mut **left {
            *data = Some(b"x".to_vec());
        }
    }
    assert!(!chain.blocks[0].verify_merkle_tree());
    assert!(!chain.verify());
}

#[test]
fn end_to_end_mine_append_tamper_and_race() {
    // Start empty: the tip is the all-zero sentinel.
    let mut chain = Blockchain::new(ZEROS);
    assert_eq!(chain.hash_of_last_block().bytes, vec![0u8; 32]);

    // Build a tree from ["a", "b", "c"], mine and append it.
    let tree = MerkleTree::new(&items(&["a", "b", "c"])).unwrap();
    let block = chain.append_data(tree).unwrap();
    assert_eq!(chain.length(), 1);
    assert!(chain.verify());

    // Corrupt the appended block's nonce to an unmined value.
    let mut unmined = block.nonce;
    loop {
        unmined = unmined.wrapping_add(1);
        chain.blocks[0].nonce = unmined;
        if !chain.blocks[0].verify_nonce(ZEROS) {
            break;
        }
    }
    assert!(!chain.verify());
    chain.blocks[0].nonce = block.nonce;
    assert!(chain.verify());

    // Two writers race from the same tip: both mine against it, only the
    // first append succeeds; the loser re-mines from the new tip and wins.
    let tip = chain.hash_of_last_block();
    let mut first = Block::new(tip.clone(), MerkleTree::new(&items(&["d"])).unwrap());
    first.calculate_nonce(ZEROS).unwrap();
    let mut second = Block::new(tip, MerkleTree::new(&items(&["e"])).unwrap());
    second.calculate_nonce(ZEROS).unwrap();

    assert!(chain.append_block(first));
    assert!(!chain.append_block(second.clone()));
    assert_eq!(chain.length(), 2);

    let mut retry = Block::new(
        chain.hash_of_last_block(),
        MerkleTree::new(&items(&["e"])).unwrap(),
    );
    retry.calculate_nonce(ZEROS).unwrap();
    assert!(chain.append_block(retry));
    assert_eq!(chain.length(), 3);
    assert!(chain.verify());
}

#[test]
fn hash_values_compare_byte_for_byte() {
    let a = HashValue::from_bytes(vec![1u8; 32]);
    let b = HashValue::from_bytes(vec![1u8; 32]);
    let mut c_bytes = vec![1u8; 32];
    c_bytes[31] = 2;
    let c = HashValue::from_bytes(c_bytes);
    assert_eq!(a, b);
    assert_ne!(a, c);
}
