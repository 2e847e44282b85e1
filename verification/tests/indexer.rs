use linera_lite::chain::{Block, CertificateValue, Epoch, ExecutedBlock, HashedValue};
use linera_lite::crypto::{BlockHeight, ChainId, CryptoHash};
use linera_lite::indexer::{processing_order, CatchUp, Indexer, IndexerCommand, IndexerError};

fn hash(seed: u8) -> CryptoHash {
    CryptoHash::from_bytes(&[seed; 32])
}

fn value(chain: ChainId, height: u64, hash_seed: u8, previous: Option<CryptoHash>) -> HashedValue {
    let block = Block {
        chain_id: chain,
        epoch: Epoch(0),
        incoming_messages: vec![],
        operations: vec![vec![1], vec![2]],
        height: BlockHeight(height),
        timestamp: 0,
        authenticated_signer: None,
        previous_block_hash: previous,
    };
    HashedValue {
        value: CertificateValue::ConfirmedBlock {
            executed_block: ExecutedBlock { block, messages: vec![], state_hash: hash(0) },
        },
        hash: hash(hash_seed),
    }
}

#[test]
fn first_block_of_a_chain_is_processed() {
    let indexer = Indexer::load();
    let chain = ChainId(hash(1));
    assert_eq!(indexer.process(BlockHeight(0), &value(chain, 0, 10, None)), Some(None));
    assert_eq!(indexer.process(BlockHeight(5), &value(chain, 4, 10, None)), None);
}

#[test]
fn recorded_blocks_are_skipped() {
    let mut indexer = Indexer::load();
    let chain = ChainId(hash(1));
    let v = value(chain, 3, 10, None);
    indexer.process_value(&v);
    assert_eq!(indexer.process(BlockHeight(0), &v), None);
    assert_eq!(indexer.process(BlockHeight(0), &value(chain, 2, 11, None)), None);
    assert_eq!(indexer.process(BlockHeight(0), &value(chain, 5, 12, None)), Some(Some(hash(10))));
    let other = ChainId(hash(2));
    assert_eq!(indexer.process(BlockHeight(0), &value(other, 1, 13, None)), Some(None));
}

#[test]
fn catching_up_fetches_missing_blocks() {
    let v = value(ChainId(hash(1)), 5, 12, Some(hash(11)));
    assert!(matches!(Indexer::process_rec_step(&v, Some(hash(10))), CatchUp::FetchPrevious(h) if h == hash(11)));
    assert!(matches!(Indexer::process_rec_step(&v, Some(hash(11))), CatchUp::Process));
    assert!(matches!(Indexer::process_rec_step(&v, None), CatchUp::FetchPrevious(_)));
    let first = value(ChainId(hash(1)), 0, 12, None);
    assert!(matches!(Indexer::process_rec_step(&first, None), CatchUp::Process));
}

#[test]
fn state_lists_the_last_block_of_each_chain() {
    let mut indexer = Indexer::load();
    let a = ChainId(hash(1));
    let b = ChainId(hash(2));
    indexer.process_value(&value(b, 1, 20, None));
    indexer.process_value(&value(a, 1, 21, None));
    indexer.process_value(&value(a, 2, 22, None));
    let state = indexer.state();
    assert_eq!(state.len(), 2);
    assert_eq!(state[0].chain, a);
    assert_eq!(state[0].block, Some(hash(22)));
    assert_eq!(state[0].height, Some(BlockHeight(2)));
    assert_eq!(state[1].chain, b);
}

#[test]
fn a_plugin_is_registered_once() {
    let mut indexer = Indexer::load();
    assert!(indexer.add_plugin("operations".to_string()).is_ok());
    assert!(matches!(indexer.add_plugin("operations".to_string()), Err(IndexerError::PluginAlreadyRegistered)));
    assert!(indexer.add_plugin("accounts".to_string()).is_ok());
    assert_eq!(indexer.plugins(), vec!["accounts".to_string(), "operations".to_string()]);
}

#[test]
fn schema_of_a_plugin() {
    let mut indexer = Indexer::load();
    indexer.add_plugin("operations".to_string()).unwrap();
    assert!(matches!(indexer.sdl(None), Ok(None)));
    assert!(matches!(indexer.sdl(Some("operations".to_string())), Ok(Some(n)) if n == "operations"));
    assert!(matches!(indexer.sdl(Some("other".to_string())), Err(IndexerError::UnknownPlugin(n)) if n == "other"));
    let _ = IndexerCommand::Schema;
}

#[test]
fn values_go_to_every_plugin_in_name_order() {
    let mut indexer = Indexer::load();
    indexer.add_plugin("zeta".to_string()).unwrap();
    indexer.add_plugin("alpha".to_string()).unwrap();
    let chain = ChainId(hash(1));
    let seen = std::cell::RefCell::new(Vec::new());
    let r: Result<(), String> = indexer.process_value_with(&value(chain, 1, 30, None), |name| {
        seen.borrow_mut().push(name);
        Ok(())
    });
    assert!(r.is_ok());
    assert_eq!(seen.borrow().clone(), vec!["alpha".to_string(), "zeta".to_string()]);
    assert_eq!(indexer.process(BlockHeight(0), &value(chain, 1, 30, None)), None);
    let r = indexer.process_value_with(&value(chain, 2, 31, None), |name| {
        if name == "alpha" { Err(name) } else { Ok(()) }
    });
    assert_eq!(r, Err("alpha".to_string()));
    assert_eq!(indexer.state()[0].block, Some(hash(30)));
}

#[test]
fn catch_up_processes_oldest_first() {
    let c = ChainId(hash(1));
    let newest = value(c, 3, 30, Some(hash(20)));
    let middle = value(c, 2, 20, Some(hash(10)));
    let oldest = value(c, 1, 10, None);
    let order = processing_order(vec![newest, middle, oldest]);
    let heights: Vec<u64> = order.iter().map(|v| v.inner().height().0).collect();
    assert_eq!(heights, vec![1, 2, 3]);
    assert!(processing_order(vec![]).is_empty());
}
