use linera_lite::chain::{Block, CertificateValue, Epoch, ExecutedBlock, HashedValue};
use linera_lite::crypto::{BlockHeight, ChainId, CryptoHash};
use linera_lite::operation_key::{key_ge, OperationKey};
use linera_lite::operations::{
    hash_operation_key, hash_operation_key_input, OperationKeyInput, OperationKeyKind, OperationsPlugin,
};
use sha3::Digest;

fn hash(seed: u8) -> CryptoHash {
    CryptoHash::from_bytes(&[seed; 32])
}

fn key(chain: ChainId, height: u64, index: usize) -> OperationKey {
    OperationKey { chain_id: chain, height: BlockHeight(height), index }
}

fn value(chain: ChainId, height: u64, ops: Vec<Vec<u8>>) -> HashedValue {
    let block = Block {
        chain_id: chain,
        epoch: Epoch(0),
        incoming_messages: vec![],
        operations: ops,
        height: BlockHeight(height),
        timestamp: 0,
        authenticated_signer: None,
        previous_block_hash: None,
    };
    HashedValue {
        value: CertificateValue::ConfirmedBlock {
            executed_block: ExecutedBlock { block, messages: vec![], state_hash: hash(0) },
        },
        hash: hash(height as u8 + 100),
    }
}

#[test]
fn keys_are_ordered_by_height_then_index() {
    let c = ChainId(hash(1));
    assert!(key_ge(&key(c, 2, 0), &key(c, 1, 5)));
    assert!(key_ge(&key(c, 1, 5), &key(c, 1, 5)));
    assert!(!key_ge(&key(c, 1, 4), &key(c, 1, 5)));
    assert!(key(c, 1, 4) < key(c, 1, 5));
}

#[test]
fn key_hash_is_sha3_of_the_bcs_key() {
    let c = ChainId(hash(1));
    let k = key(c, 7, 3);
    let mut data = b"OperationKey::".to_vec();
    data.extend_from_slice(&[1u8; 32]);
    data.extend_from_slice(&7u64.to_le_bytes());
    data.extend_from_slice(&3u64.to_le_bytes());
    let digest = sha3::Sha3_256::digest(&data).to_vec();
    assert_eq!(hash_operation_key(&k), CryptoHash::from_bytes(&digest));
    let input = OperationKeyInput { chain_id: c, height: BlockHeight(7), index: 3 };
    assert_ne!(hash_operation_key_input(&input), hash_operation_key(&k));
}

#[test]
fn registered_operations_are_linked_and_counted() {
    let c = ChainId(hash(1));
    let mut plugin = OperationsPlugin::load();
    plugin.register_operation(key(c, 1, 0), hash(50), vec![10]);
    plugin.register_operation(key(c, 1, 1), hash(50), vec![11]);
    assert_eq!(plugin.count(c), 2);
    assert_eq!(plugin.last(c), Some(hash_operation_key(&key(c, 1, 1))));
    let last = plugin.operation(OperationKeyKind::Last(c)).unwrap();
    assert_eq!(last.operation.content, vec![11]);
    assert_eq!(last.operation.index, 1);
    assert_eq!(last.operation.previous_operation, Some(hash_operation_key(&key(c, 1, 0))));
    assert_eq!(last.hash, hash_operation_key(&key(c, 1, 1)));
    let first = plugin.operation(OperationKeyKind::Hash(hash_operation_key(&key(c, 1, 0)))).unwrap();
    assert_eq!(first.operation.previous_operation, None);
    assert_eq!(first.operation.index, 0);
}

#[test]
fn registering_again_changes_nothing() {
    let c = ChainId(hash(1));
    let mut plugin = OperationsPlugin::load();
    plugin.register_operation(key(c, 2, 0), hash(50), vec![10]);
    plugin.register_operation(key(c, 2, 0), hash(51), vec![99]);
    plugin.register_operation(key(c, 1, 9), hash(51), vec![98]);
    assert_eq!(plugin.count(c), 1);
    let last = plugin.operation(OperationKeyKind::Last(c)).unwrap();
    assert_eq!(last.operation.content, vec![10]);
    assert_eq!(last.operation.block, hash(50));
}

#[test]
fn registering_a_block_twice_changes_nothing() {
    let c = ChainId(hash(3));
    let mut plugin = OperationsPlugin::load();
    let v = value(c, 4, vec![vec![1], vec![2], vec![3]]);
    plugin.register(&v);
    plugin.register(&v);
    assert_eq!(plugin.count(c), 3);
    let walked = plugin.operations(OperationKeyKind::Last(c), None);
    let contents: Vec<Vec<u8>> = walked.iter().map(|op| op.operation.content.clone()).collect();
    assert_eq!(contents, vec![vec![3], vec![2], vec![1]]);
}

#[test]
fn walking_back_stops_at_the_limit() {
    let c = ChainId(hash(4));
    let mut plugin = OperationsPlugin::load();
    plugin.register(&value(c, 1, vec![vec![1], vec![2]]));
    plugin.register(&value(c, 2, vec![vec![3]]));
    let two = plugin.operations(OperationKeyKind::Last(c), Some(2));
    assert_eq!(two.len(), 2);
    assert_eq!(two[0].operation.key, key(c, 2, 0));
    assert_eq!(two[1].operation.key, key(c, 1, 1));
    let none = plugin.operations(OperationKeyKind::Last(ChainId(hash(9))), None);
    assert!(none.is_empty());
    assert!(plugin.operation(OperationKeyKind::Last(ChainId(hash(9)))).is_none());
    let from_key = plugin.operations(
        OperationKeyKind::Key(OperationKeyInput { chain_id: c, height: BlockHeight(1), index: 1 }),
        None,
    );
    assert!(from_key.is_empty());
}

#[test]
fn operations_come_in_downward_order() {
    let c = ChainId(hash(5));
    let mut plugin = OperationsPlugin::load();
    plugin.register(&value(c, 1, vec![vec![1], vec![2]]));
    plugin.register(&value(c, 3, vec![vec![3], vec![4], vec![5]]));
    assert_eq!(plugin.count(c), 5);
    let all = plugin.operations(OperationKeyKind::Last(c), Some(10));
    assert_eq!(all.len(), 5);
    for (j, op) in all.iter().enumerate() {
        assert_eq!(op.operation.index, 4 - j as u64);
        if j + 1 < all.len() {
            let next = &all[j + 1].operation;
            assert!(next.key < op.operation.key);
            assert_eq!(op.operation.previous_operation, Some(hash_operation_key(&next.key)));
        } else {
            assert_eq!(op.operation.previous_operation, None);
        }
    }
    assert_eq!(plugin.operations(OperationKeyKind::Last(c), Some(3)).len(), 3);
}

#[test]
fn block_fits_counts_only_new_operations() {
    let c = ChainId(hash(1));
    let mut plugin = OperationsPlugin::load();
    let v = value(c, 3, vec![vec![1], vec![2], vec![3]]);
    assert!(plugin.block_fits(&v));
    plugin.register(&v);
    assert_eq!(plugin.count(c), 3);
    // the same block again adds nothing, and still fits
    assert!(plugin.block_fits(&v));
    plugin.register(&v);
    assert_eq!(plugin.count(c), 3);
    // a longer block at the same height adds only the operations after the last one
    let w = value(c, 3, vec![vec![1], vec![2], vec![3], vec![4], vec![5]]);
    assert!(plugin.block_fits(&w));
    plugin.register(&w);
    assert_eq!(plugin.count(c), 5);
    // a lower block adds nothing
    let u = value(c, 2, vec![vec![9]]);
    plugin.register(&u);
    assert_eq!(plugin.count(c), 5);
}
