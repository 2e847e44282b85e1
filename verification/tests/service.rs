use linera_lite::chain::{CertificateValue, Epoch};
use linera_lite::crypto::{BlockHeight, ChainId, CryptoHash, Owner};
use linera_lite::indexer_queries;
use linera_lite::service::{
    BlockBlock, BlockBlockValue, BlockBlockValueExecutedBlock, BlockBlockValueExecutedBlockBlock,
    BlockBlockValueExecutedBlockBlockIncomingMessages, BlockBlockValueExecutedBlockMessages, Notification, Reason,
};
use linera_lite::single::RoundNumber;
use sha3::Digest;

fn hash(seed: u8) -> CryptoHash {
    CryptoHash::from_bytes(&[seed; 32])
}

fn executed() -> BlockBlockValueExecutedBlock {
    BlockBlockValueExecutedBlock {
        block: BlockBlockValueExecutedBlockBlock {
            chain_id: ChainId(hash(1)),
            epoch: Epoch(2),
            incoming_messages: vec![BlockBlockValueExecutedBlockBlockIncomingMessages {
                origin: vec![7, 7],
                event: vec![8],
            }],
            operations: vec![vec![5, 5, 5]],
            height: BlockHeight(3),
            timestamp: 4,
            authenticated_signer: Some(Owner(hash(9))),
            previous_block_hash: None,
        },
        messages: vec![BlockBlockValueExecutedBlockMessages {
            destination: vec![1],
            authenticated_signer: None,
            message: vec![2, 2],
        }],
        state_hash: hash(6),
    }
}

fn answer(status: &str, with_block: bool) -> BlockBlock {
    BlockBlock {
        hash: hash(0),
        value: BlockBlockValue {
            status: status.to_string(),
            executed_block: if with_block { Some(executed()) } else { None },
        },
    }
}

/// The BCS bytes of the executed block above, written out by hand.
fn executed_bcs() -> Vec<u8> {
    let mut b = vec![1u8; 32];
    b.extend_from_slice(&2u32.to_le_bytes());
    b.extend_from_slice(&[1, 7, 7, 8]);
    b.extend_from_slice(&[1, 5, 5, 5]);
    b.extend_from_slice(&3u64.to_le_bytes());
    b.extend_from_slice(&4u64.to_le_bytes());
    b.push(1);
    b.extend_from_slice(&[9u8; 32]);
    b.push(0);
    b.extend_from_slice(&[1, 1, 0, 2, 2]);
    b.extend_from_slice(&[6u8; 32]);
    b
}

#[test]
fn messages_in_bcs_form() {
    let e = executed();
    assert_eq!(e.block.incoming_messages[0].to_message(), vec![7, 7, 8]);
    assert_eq!(e.messages[0].to_message(), vec![1, 0, 2, 2]);
    let signed = BlockBlockValueExecutedBlockMessages {
        destination: vec![],
        authenticated_signer: Some(Owner(hash(3))),
        message: vec![],
    };
    let mut expected = vec![1u8];
    expected.extend_from_slice(&[3u8; 32]);
    assert_eq!(signed.to_message(), expected);
}

#[test]
fn executed_block_conversion_and_bcs() {
    let e = executed().to_executed_block();
    assert_eq!(e.block.incoming_messages, vec![vec![7, 7, 8]]);
    assert_eq!(e.block.operations, vec![vec![5, 5, 5]]);
    assert_eq!(e.block.height, BlockHeight(3));
    assert_eq!(e.messages, vec![vec![1, 0, 2, 2]]);
    assert_eq!(e.bcs_bytes(), executed_bcs());
}

#[test]
fn validated_and_confirmed_values_are_hashed() {
    let validated = answer("validated", true).to_hashed_value().unwrap();
    assert!(matches!(validated.value, CertificateValue::ValidatedBlock { .. }));
    let mut data = b"CertificateValue::".to_vec();
    data.push(0);
    data.extend(executed_bcs());
    assert_eq!(validated.hash, CryptoHash::from_bytes(&sha3::Sha3_256::digest(&data)));
    let confirmed = answer("confirmed", true).to_hashed_value().unwrap();
    assert!(confirmed.is_confirmed());
    let mut data = b"CertificateValue::".to_vec();
    data.push(1);
    data.extend(executed_bcs());
    assert_eq!(confirmed.hash, CryptoHash::from_bytes(&sha3::Sha3_256::digest(&data)));
}

#[test]
fn other_statuses_are_errors() {
    assert!(matches!(answer("pending", true).to_hashed_value(), Err(s) if s == "pending"));
    assert!(matches!(answer("validated", false).to_hashed_value(), Err(s) if s == "validated"));
}

#[test]
fn the_indexer_query_gives_a_confirmed_value() {
    let a = indexer_queries::BlockBlock {
        hash: hash(0),
        value: indexer_queries::BlockBlockValue { executed_block: executed() },
    };
    let v = a.to_hashed_value();
    assert!(v.is_confirmed());
    assert_eq!(v.hash, answer("confirmed", true).to_hashed_value().unwrap().hash);
}

#[test]
fn notifications_refresh_on_new_blocks_of_the_chain() {
    let chain = ChainId(hash(1));
    let block = Notification { chain_id: chain, reason: Reason::NewBlock { height: BlockHeight(1), hash: hash(2) } };
    assert!(block.refreshes(chain));
    assert!(!block.refreshes(ChainId(hash(3))));
    let round = Notification {
        chain_id: chain,
        reason: Reason::NewRound { height: BlockHeight(1), round: RoundNumber(2) },
    };
    assert!(!round.refreshes(chain));
    let message = Notification {
        chain_id: chain,
        reason: Reason::NewIncomingMessage { origin: vec![], height: BlockHeight(1) },
    };
    assert!(!message.refreshes(chain));
}

#[test]
fn subscription_request_text() {
    let chain = ChainId(hash(4));
    let text = linera_lite::service::subscription_request("abc", chain);
    let expected = format!(
        r#"{{ "id": "abc", "type": "subscribe", "payload": {{"query": "subscription {{ notifications(chainId: \"{}\") }}"}} }}"#,
        chain.0.to_hex()
    );
    assert_eq!(text, expected);
}

#[test]
fn subscription_steps() {
    let chain = ChainId(hash(1));
    let block = Notification { chain_id: chain, reason: Reason::NewBlock { height: BlockHeight(1), hash: hash(2) } };
    let step = linera_lite::service::subscription_step(chain, Some(&block), false);
    assert!(step.refresh && !step.stop);
    let step = linera_lite::service::subscription_step(chain, None, true);
    assert!(!step.refresh && step.stop);
}
