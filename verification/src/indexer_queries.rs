//! The queries that the indexer makes to the node service, and the answer
//! to its block query turned into a confirmed value.
use crate::chain::{CertificateValueView, HashedValue};
use crate::crypto::CryptoHash;
use crate::service::{executed_block_of, BlockBlockValueExecutedBlock};
use vstd::prelude::*;

verus! {

/// The subscription to the notifications of a chain.
pub struct Notifications;

/// The query of a block by its hash.
pub struct Block;

/// The query of the chains that the node tracks.
pub struct Chains;

/// A certified value as the indexer's block query answers it.
pub struct BlockBlockValue {
    pub executed_block: BlockBlockValueExecutedBlock,
}

/// The answer to the indexer's block query.
pub struct BlockBlock {
    pub hash: CryptoHash,
    pub value: BlockBlockValue,
}

impl BlockBlock {
    /// The value that the answer stands for: the block, confirmed, with its
    /// hash.
    pub fn to_hashed_value(&self) -> (r: HashedValue)
        requires
            executed_block_of(self.value.executed_block).fits(),
        ensures
            r@.value == CertificateValueView::ConfirmedBlock(executed_block_of(self.value.executed_block)),
            r.hash == CertificateValueView::ConfirmedBlock(executed_block_of(self.value.executed_block)).hash(),
    {
        HashedValue::new_confirmed(self.value.executed_block.to_executed_block())
    }
}

} // verus!
