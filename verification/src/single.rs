//! The manager of a chain with a single owner: the voting rules for blocks.
use crate::chain::{Block, CertificateValueView, ExecutedBlock, ExecutedBlockView, HashedValue, HashedValueView};
use crate::crypto::{ChainId, CryptoHash, Owner};
use vstd::prelude::*;

verus! {

/// A public key (32 bytes, held as the library holds hashes).
#[derive(PartialEq, Eq, Structural, Clone, Copy, Debug)]
pub struct PublicKey(pub CryptoHash);

/// A signature: its two 32-byte halves.
#[derive(PartialEq, Eq, Structural, Clone, Copy, Debug)]
pub struct Signature {
    pub r: CryptoHash,
    pub s: CryptoHash,
}

/// The number of a round; rounds start at the default, zero.
#[derive(PartialEq, Eq, Structural, Clone, Copy, Debug)]
pub struct RoundNumber(pub u64);

/// A vote of a validator for a value.
pub struct Vote {
    pub value: HashedValue,
    pub validator: PublicKey,
    pub signature: Signature,
}

/// A value as a light vote names it: its hash and its chain.
#[derive(PartialEq, Eq, Structural, Clone, Copy, Debug)]
pub struct LiteValue {
    pub value_hash: CryptoHash,
    pub chain_id: ChainId,
}

/// A vote without the value itself.
#[derive(PartialEq, Eq, Structural, Clone, Copy, Debug)]
pub struct LiteVote {
    pub value: LiteValue,
    pub validator: PublicKey,
    pub signature: Signature,
}

/// What to do with a proposed block that passes the checks.
#[derive(PartialEq, Eq, Structural, Clone, Copy, Debug)]
pub enum Outcome {
    Accept,
    Skip,
}

/// Why a proposed block is refused.
#[derive(PartialEq, Eq, Structural, Clone, Copy, Debug)]
pub enum ChainError {
    InvalidBlockProposal,
    PreviousBlockMustBeConfirmedFirst,
}

impl Vote {
    /// The light form of a vote.
    pub open spec fn lite_spec(&self) -> LiteVote {
        LiteVote {
            value: LiteValue { value_hash: self.value.hash, chain_id: self.value.value.executed().block.chain_id },
            validator: self.validator,
            signature: self.signature,
        }
    }

    /// The light form of the vote: the hash and the chain of the value.
    pub fn lite(&self) -> (r: LiteVote)
        ensures
            r == self.lite_spec(),
    {
        LiteVote {
            value: LiteValue { value_hash: self.value.hash(), chain_id: self.value.inner().chain_id() },
            validator: self.validator,
            signature: self.signature,
        }
    }
}

/// The state of a chain managed by one owner.
pub struct SingleOwnerManager {
    /// The owner of the chain.
    pub owner: Owner,
    /// The corresponding public key.
    pub public_key: PublicKey,
    /// The latest vote cast for a block proposal.
    pub pending: Option<Vote>,
}

/// Whether a block proposed in `round` is accepted, skipped, or refused,
/// given the pending vote.
pub open spec fn check_spec(pending: Option<HashedValueView>, block: crate::chain::BlockView, round: RoundNumber) -> Result<Outcome, ChainError> {
    if round.0 != 0 {
        Err(ChainError::InvalidBlockProposal)
    } else {
        match pending {
            None => Ok(Outcome::Accept),
            Some(value) => match value.value {
                crate::chain::CertificateValueView::ValidatedBlock(_) => Err(ChainError::InvalidBlockProposal),
                crate::chain::CertificateValueView::ConfirmedBlock(executed) => if executed.block == block {
                    Ok(Outcome::Skip)
                } else {
                    Err(ChainError::PreviousBlockMustBeConfirmedFirst)
                },
            },
        }
    }
}

impl SingleOwnerManager {
    /// The pending value, if any.
    pub open spec fn pending_value(&self) -> Option<HashedValueView> {
        match self.pending {
            Some(vote) => Some(vote.value@),
            None => None,
        }
    }

    /// A manager with no vote yet.
    pub fn new(owner: Owner, public_key: PublicKey) -> (r: Self)
        ensures
            r.owner == owner,
            r.public_key == public_key,
            r.pending is None,
    {
        SingleOwnerManager { public_key, owner, pending: None }
    }

    /// The latest vote, if any.
    pub fn pending(&self) -> (r: Option<&Vote>)
        ensures
            r == match self.pending {
                Some(v) => Some(&v),
                None => None::<&Vote>,
            },
    {
        self.pending.as_ref()
    }

    /// Checks a proposed block against the voting rules: only the first round
    /// is allowed; with a pending vote, it must be for a confirmed block, and
    /// the proposal is skipped if it is that block and refused otherwise.
    pub fn check_proposed_block(&self, new_block: &Block, new_round: RoundNumber) -> (r: Result<Outcome, ChainError>)
        ensures
            r == check_spec(self.pending_value(), new_block@, new_round),
    {
        if new_round.0 != 0 {
            return Err(ChainError::InvalidBlockProposal);
        }
        if let Some(vote) = &self.pending {
            if !vote.value.is_confirmed() {
                return Err(ChainError::InvalidBlockProposal);
            }
            if vote.value.block().equals(new_block) {
                return Ok(Outcome::Skip);
            } else {
                return Err(ChainError::PreviousBlockMustBeConfirmedFirst);
            }
        }
        Ok(Outcome::Accept)
    }

    /// Votes to confirm an executed block, if a key is given: `signer` holds
    /// the public key and signs the light value (its hash and its chain).
    /// Without a key, nothing changes.
    pub fn create_vote<F: Fn(&LiteValue) -> Signature>(
        &mut self,
        executed_block: ExecutedBlock,
        signer: Option<(PublicKey, F)>,
    )
        requires
            executed_block@.fits(),
            signer matches Some((k, f)) ==> forall|v: &LiteValue| #[trigger] f.requires((v,)),
        ensures
            final(self).owner == old(self).owner,
            final(self).public_key == old(self).public_key,
            match signer {
                None => *final(self) == *old(self),
                Some((key, f)) => final(self).pending matches Some(vote) && vote.value@.value
                    == CertificateValueView::ConfirmedBlock(executed_block@) && vote.value.hash
                    == CertificateValueView::ConfirmedBlock(executed_block@).hash() && vote.validator == key
                    && f.ensures(
                    (&LiteValue { value_hash: vote.value.hash, chain_id: executed_block.block.chain_id },),
                    vote.signature,
                ),
            },
    {
        if let Some((key, sign)) = signer {
            let chain_id = executed_block.block.chain_id;
            let value = HashedValue::new_confirmed(executed_block);
            let lite = LiteValue { value_hash: value.hash, chain_id };
            let signature = sign(&lite);
            self.pending = Some(Vote { value, validator: key, signature });
        }
    }
}

/// The voting rule of a single-owner chain, whatever the pending value: a
/// proposal outside the first round is refused as invalid, and with no
/// pending vote a proposal in the first round is accepted.
pub proof fn law_voting_rule(pending: Option<HashedValueView>, block: crate::chain::BlockView, round: RoundNumber)
    ensures
        round.0 != 0 ==> check_spec(pending, block, round) == Err::<Outcome, ChainError>(
            ChainError::InvalidBlockProposal,
        ),
        round.0 == 0 && pending is None ==> check_spec(pending, block, round) == Ok::<Outcome, ChainError>(
            Outcome::Accept,
        ),
{
}

/// With a pending vote for a validated block, a proposal in the first round
/// is refused as invalid.
pub proof fn law_voting_after_validated(value: HashedValueView, e: ExecutedBlockView, block: crate::chain::BlockView)
    requires
        value.value == CertificateValueView::ValidatedBlock(e),
    ensures
        check_spec(Some(value), block, RoundNumber(0)) == Err::<Outcome, ChainError>(ChainError::InvalidBlockProposal),
{
}

/// With a pending vote for a confirmed block, a proposal in the first round
/// is skipped exactly when it is that very block (equal in every field:
/// operations, messages, timestamp and all), and any other block, even one
/// at the same height, is refused until that block is confirmed.
pub proof fn law_voting_after_confirmed(value: HashedValueView, e: ExecutedBlockView, block: crate::chain::BlockView)
    requires
        value.value == CertificateValueView::ConfirmedBlock(e),
    ensures
        check_spec(Some(value), block, RoundNumber(0)) == Ok::<Outcome, ChainError>(Outcome::Skip) <==> block
            == e.block,
        block != e.block ==> check_spec(Some(value), block, RoundNumber(0)) == Err::<Outcome, ChainError>(
            ChainError::PreviousBlockMustBeConfirmedFirst,
        ),
{
}

/// What a client is told of a single-owner chain manager.
pub struct SingleOwnerManagerInfo {
    /// The owner of the chain.
    pub owner: Owner,
    /// The latest vote, in light form.
    pub pending: Option<LiteVote>,
    /// The value voted for, if it was asked for.
    pub requested_pending_value: Option<HashedValue>,
}

impl SingleOwnerManagerInfo {
    /// What a client is told of `manager`: the owner and the light form of
    /// the latest vote, without the value.
    pub fn from_manager(manager: &SingleOwnerManager) -> (r: Self)
        ensures
            r.owner == manager.owner,
            r.pending == match manager.pending {
                Some(v) => Some(v.lite_spec()),
                None => None::<LiteVote>,
            },
            r.requested_pending_value is None,
    {
        let pending = match &manager.pending {
            Some(vote) => Some(vote.lite()),
            None => None,
        };
        SingleOwnerManagerInfo { owner: manager.owner, pending, requested_pending_value: None }
    }

    /// Adds the value of the latest vote of `manager`.
    pub fn add_values(&mut self, manager: &SingleOwnerManager)
        ensures
            final(self).owner == old(self).owner,
            final(self).pending == old(self).pending,
            match final(self).requested_pending_value {
                Some(v) => manager.pending_value() == Some(v@),
                None => manager.pending is None,
            },
    {
        self.requested_pending_value = match &manager.pending {
            Some(vote) => Some(vote.value.duplicate()),
            None => None,
        };
    }
}

} // verus!
