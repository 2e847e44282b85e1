use linera_lite::chain::{Block, CertificateValue, Epoch, ExecutedBlock, HashedValue};
use linera_lite::crypto::{BlockHeight, ChainId, CryptoHash, Owner};
use linera_lite::single::{
    ChainError, Outcome, PublicKey, RoundNumber, Signature, SingleOwnerManager, SingleOwnerManagerInfo, Vote,
};

fn hash(seed: u8) -> CryptoHash {
    CryptoHash::from_bytes(&[seed; 32])
}

fn block(height: u64) -> Block {
    Block {
        chain_id: ChainId(hash(1)),
        epoch: Epoch(0),
        incoming_messages: vec![],
        operations: vec![vec![height as u8]],
        height: BlockHeight(height),
        timestamp: 0,
        authenticated_signer: None,
        previous_block_hash: None,
    }
}

fn vote(confirmed: bool, b: Block) -> Vote {
    let executed_block = ExecutedBlock { block: b, messages: vec![], state_hash: hash(0) };
    let value = if confirmed {
        CertificateValue::ConfirmedBlock { executed_block }
    } else {
        CertificateValue::ValidatedBlock { executed_block }
    };
    Vote {
        value: HashedValue { value, hash: hash(7) },
        validator: PublicKey(hash(2)),
        signature: Signature { r: hash(3), s: hash(4) },
    }
}

#[test]
fn a_fresh_manager_accepts_first_round_proposals() {
    let m = SingleOwnerManager::new(Owner(hash(5)), PublicKey(hash(6)));
    assert!(m.pending().is_none());
    assert_eq!(m.check_proposed_block(&block(1), RoundNumber(0)), Ok(Outcome::Accept));
    assert_eq!(m.check_proposed_block(&block(1), RoundNumber(1)), Err(ChainError::InvalidBlockProposal));
}

#[test]
fn a_pending_vote_decides() {
    let mut m = SingleOwnerManager::new(Owner(hash(5)), PublicKey(hash(6)));
    m.pending = Some(vote(true, block(1)));
    assert_eq!(m.check_proposed_block(&block(1), RoundNumber(0)), Ok(Outcome::Skip));
    assert_eq!(
        m.check_proposed_block(&block(2), RoundNumber(0)),
        Err(ChainError::PreviousBlockMustBeConfirmedFirst)
    );
    m.pending = Some(vote(false, block(1)));
    assert_eq!(m.check_proposed_block(&block(1), RoundNumber(0)), Err(ChainError::InvalidBlockProposal));
}

#[test]
fn manager_info() {
    let mut m = SingleOwnerManager::new(Owner(hash(5)), PublicKey(hash(6)));
    m.pending = Some(vote(true, block(1)));
    let mut info = SingleOwnerManagerInfo::from_manager(&m);
    assert_eq!(info.owner, Owner(hash(5)));
    let lite = info.pending.unwrap();
    assert_eq!(lite.value.value_hash, hash(7));
    assert_eq!(lite.value.chain_id, ChainId(hash(1)));
    assert!(info.requested_pending_value.is_none());
    info.add_values(&m);
    assert_eq!(info.requested_pending_value.as_ref().unwrap().hash, hash(7));
}

#[test]
fn a_vote_confirms_the_executed_block() {
    let mut m = SingleOwnerManager::new(Owner(hash(5)), PublicKey(hash(6)));
    let executed = ExecutedBlock { block: block(1), messages: vec![], state_hash: hash(0) };
    m.create_vote(executed, None::<(PublicKey, fn(&linera_lite::single::LiteValue) -> Signature)>);
    assert!(m.pending().is_none());
    let executed = ExecutedBlock { block: block(1), messages: vec![], state_hash: hash(0) };
    let expected = HashedValue::new_confirmed(ExecutedBlock { block: block(1), messages: vec![], state_hash: hash(0) });
    m.create_vote(executed, Some((PublicKey(hash(8)), |v: &linera_lite::single::LiteValue| Signature { r: v.value_hash, s: v.chain_id.0 })));
    let vote = m.pending().unwrap();
    assert!(vote.value.is_confirmed());
    assert_eq!(vote.value.hash, expected.hash);
    assert_eq!(vote.validator, PublicKey(hash(8)));
    assert_eq!(vote.signature, Signature { r: expected.hash, s: hash(1) });
    assert_eq!(m.check_proposed_block(&block(1), RoundNumber(0)), Ok(Outcome::Skip));
}

#[test]
fn without_a_key_the_manager_is_unchanged() {
    let mut m = SingleOwnerManager::new(Owner(hash(5)), PublicKey(hash(6)));
    m.pending = Some(vote(true, block(1)));
    let executed = ExecutedBlock { block: block(2), messages: vec![], state_hash: hash(0) };
    m.create_vote(executed, None::<(PublicKey, fn(&linera_lite::single::LiteValue) -> Signature)>);
    let v = m.pending().unwrap();
    assert_eq!(v.validator, PublicKey(hash(2)));
    assert_eq!(v.value.hash, hash(7));
    assert_eq!(m.owner, Owner(hash(5)));
}
