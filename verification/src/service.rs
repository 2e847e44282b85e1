//! The queries of the node service's GraphQL client, and the answer to the
//! block query turned into the chain's own types.
use crate::chain::{
    bcs_option_hash, owner_hash, Block as ChainBlock, BlockView, CertificateValueView, Epoch, ExecutedBlock,
    ExecutedBlockView, HashedValue,
};
use crate::crypto::{BlockHeight, ChainId, CryptoHash, Owner};
use crate::bytes::{concat_bytes, copy_bytes};
use crate::chain::copy_byte_lists;
use crate::framing::push_bytes;
use crate::single::RoundNumber;
use vstd::prelude::*;
use vstd::string::StringExecFns;
use crate::external::hex_encode_spec;

verus! {

/// The query of the chains that the node tracks.
pub struct Chains;

/// The query of the applications of a chain.
pub struct Applications;

/// The query of the latest blocks of a chain.
pub struct Blocks;

/// The query of a block by its hash.
pub struct Block;

/// The subscription to the notifications of a chain.
pub struct Notifications;

/// The mutation that transfers tokens.
pub struct Transfer;

/// Why a chain notifies its subscribers.
pub enum Reason {
    /// A block was added.
    NewBlock { height: BlockHeight, hash: CryptoHash },
    /// A message arrived (its origin in BCS form).
    NewIncomingMessage { origin: Vec<u8>, height: BlockHeight },
    /// A new round started.
    NewRound { height: BlockHeight, round: RoundNumber },
}

/// A notification from a chain.
pub struct Notification {
    pub chain_id: ChainId,
    pub reason: Reason,
}

impl Notification {
    /// Whether the explorer showing `chain` reloads its page on this
    /// notification: on a new block of that chain.
    pub fn refreshes(&self, chain: ChainId) -> (r: bool)
        ensures
            r == (self.reason is NewBlock && self.chain_id == chain),
    {
        match self.reason {
            Reason::NewBlock { .. } => self.chain_id == chain,
            _ => false,
        }
    }
}

/// An incoming message as the block query answers it: its origin and its
/// event, each in BCS form.
pub struct BlockBlockValueExecutedBlockBlockIncomingMessages {
    pub origin: Vec<u8>,
    pub event: Vec<u8>,
}

/// A block as the block query answers it; incoming messages and operations
/// in BCS form.
pub struct BlockBlockValueExecutedBlockBlock {
    pub chain_id: ChainId,
    pub epoch: Epoch,
    pub incoming_messages: Vec<BlockBlockValueExecutedBlockBlockIncomingMessages>,
    pub operations: Vec<Vec<u8>>,
    pub height: BlockHeight,
    pub timestamp: u64,
    pub authenticated_signer: Option<Owner>,
    pub previous_block_hash: Option<CryptoHash>,
}

/// An outgoing message as the block query answers it: its destination and
/// message in BCS form, and who signed it.
pub struct BlockBlockValueExecutedBlockMessages {
    pub destination: Vec<u8>,
    pub authenticated_signer: Option<Owner>,
    pub message: Vec<u8>,
}

/// An executed block as the block query answers it.
pub struct BlockBlockValueExecutedBlock {
    pub block: BlockBlockValueExecutedBlockBlock,
    pub messages: Vec<BlockBlockValueExecutedBlockMessages>,
    pub state_hash: CryptoHash,
}

/// A certified value as the block query answers it: its status
/// (`validated` or `confirmed`) and its executed block, if any.
pub struct BlockBlockValue {
    pub status: String,
    pub executed_block: Option<BlockBlockValueExecutedBlock>,
}

/// The answer to the block query.
pub struct BlockBlock {
    pub hash: CryptoHash,
    pub value: BlockBlockValue,
}

/// What BCS writes for an incoming message: its origin, then its event.
pub open spec fn incoming_bcs(m: BlockBlockValueExecutedBlockBlockIncomingMessages) -> Seq<u8> {
    m.origin@ + m.event@
}

/// What BCS writes for an outgoing message: its destination, its signer,
/// then the message.
pub open spec fn outgoing_bcs(m: BlockBlockValueExecutedBlockMessages) -> Seq<u8> {
    m.destination@ + bcs_option_hash(owner_hash(m.authenticated_signer)) + m.message@
}

/// The block that an answer stands for.
pub open spec fn block_of(b: BlockBlockValueExecutedBlockBlock) -> BlockView {
    BlockView {
        chain_id: b.chain_id,
        epoch: b.epoch,
        incoming_messages: Seq::new(b.incoming_messages@.len(), |i: int| incoming_bcs(b.incoming_messages@[i])),
        operations: Seq::new(b.operations@.len(), |i: int| b.operations@[i]@),
        height: b.height,
        timestamp: b.timestamp,
        authenticated_signer: b.authenticated_signer,
        previous_block_hash: b.previous_block_hash,
    }
}

/// The block of an answer keeps the answer's order and fields: its `i`-th
/// incoming message is the BCS form of the answer's `i`-th incoming message,
/// its `i`-th operation the answer's `i`-th operation, and the other fields
/// are the answer's.
pub proof fn law_block_keeps_order(b: BlockBlockValueExecutedBlockBlock)
    ensures
        block_of(b).incoming_messages.len() == b.incoming_messages@.len(),
        forall|i: int|
            0 <= i < b.incoming_messages@.len() ==> #[trigger] block_of(b).incoming_messages[i] == incoming_bcs(
                b.incoming_messages@[i],
            ),
        block_of(b).operations.len() == b.operations@.len(),
        forall|i: int| 0 <= i < b.operations@.len() ==> #[trigger] block_of(b).operations[i] == b.operations@[i]@,
        block_of(b).chain_id == b.chain_id,
        block_of(b).epoch == b.epoch,
        block_of(b).height == b.height,
        block_of(b).timestamp == b.timestamp,
        block_of(b).authenticated_signer == b.authenticated_signer,
        block_of(b).previous_block_hash == b.previous_block_hash,
{
}

/// The executed block of an answer keeps the answer's order: its `i`-th
/// outgoing message is the BCS form of the answer's `i`-th message, and its
/// block and state hash are the answer's.
pub proof fn law_executed_block_keeps_order(e: BlockBlockValueExecutedBlock)
    ensures
        executed_block_of(e).block == block_of(e.block),
        executed_block_of(e).messages.len() == e.messages@.len(),
        forall|i: int|
            0 <= i < e.messages@.len() ==> #[trigger] executed_block_of(e).messages[i] == outgoing_bcs(e.messages@[i]),
        executed_block_of(e).state_hash == e.state_hash,
{
}

/// The executed block that an answer stands for.
pub open spec fn executed_block_of(e: BlockBlockValueExecutedBlock) -> ExecutedBlockView {
    ExecutedBlockView {
        block: block_of(e.block),
        messages: Seq::new(e.messages@.len(), |i: int| outgoing_bcs(e.messages@[i])),
        state_hash: e.state_hash,
    }
}

/// What converting the answer to the block query gives: a validated or a
/// confirmed value with its executed block, else the status as the error.
pub open spec fn hashed_value_spec(status: Seq<char>, executed: Option<ExecutedBlockView>) -> Result<
    CertificateValueView,
    Seq<char>,
> {
    match executed {
        Some(e) => if status == "validated"@ {
            Ok(CertificateValueView::ValidatedBlock(e))
        } else if status == "confirmed"@ {
            Ok(CertificateValueView::ConfirmedBlock(e))
        } else {
            Err(status)
        },
        None => Err(status),
    }
}

/// A block answer becomes a value by its status: `validated` gives the
/// validated block, `confirmed` the confirmed block, and any other status,
/// or an answer without an executed block, is refused with the status.
pub proof fn law_block_answer_status(status: Seq<char>, e: ExecutedBlockView)
    ensures
        status == "validated"@ ==> hashed_value_spec(status, Some(e)) == Ok::<CertificateValueView, Seq<char>>(
            CertificateValueView::ValidatedBlock(e),
        ),
        status == "confirmed"@ ==> hashed_value_spec(status, Some(e)) == Ok::<CertificateValueView, Seq<char>>(
            CertificateValueView::ConfirmedBlock(e),
        ),
        status != "validated"@ && status != "confirmed"@ ==> hashed_value_spec(status, Some(e)) == Err::<
            CertificateValueView,
            Seq<char>,
        >(status),
        hashed_value_spec(status, None) == Err::<CertificateValueView, Seq<char>>(status),
{
    reveal_strlit("validated");
    reveal_strlit("confirmed");
    assert("validated"@[0] != "confirmed"@[0]);
}

/// The executed block of an answer, if any.
pub open spec fn executed_of(v: BlockBlockValue) -> Option<ExecutedBlockView> {
    match v.executed_block {
        Some(e) => Some(executed_block_of(e)),
        None => None,
    }
}

impl BlockBlockValueExecutedBlockBlockIncomingMessages {
    /// The message in BCS form.
    pub fn to_message(&self) -> (r: Vec<u8>)
        ensures
            r@ == incoming_bcs(*self),
    {
        concat_bytes(self.origin.as_slice(), self.event.as_slice())
    }
}

impl BlockBlockValueExecutedBlockMessages {
    /// The message in BCS form.
    pub fn to_message(&self) -> (r: Vec<u8>)
        ensures
            r@ == outgoing_bcs(*self),
    {
        let mut out = copy_bytes(self.destination.as_slice());
        match self.authenticated_signer {
            None => out.push(0u8),
            Some(owner) => {
                out.push(1u8);
                push_bytes(&mut out, owner.0.as_bytes().as_slice());
            },
        }
        push_bytes(&mut out, self.message.as_slice());
        assert(out@ =~= outgoing_bcs(*self));
        out
    }
}

impl BlockBlockValueExecutedBlockBlock {
    /// The block that the answer stands for.
    pub fn to_block(&self) -> (r: ChainBlock)
        ensures
            r@ == block_of(*self),
    {
        let mut incoming: Vec<Vec<u8>> = Vec::new();
        let mut i: usize = 0;
        while i < self.incoming_messages.len()
            invariant
                i <= self.incoming_messages@.len(),
                incoming@.len() == i,
                forall|j: int|
                    0 <= j < i ==> #[trigger] incoming@[j]@ == incoming_bcs(self.incoming_messages@[j]),
            decreases self.incoming_messages@.len() - i,
        {
            incoming.push(self.incoming_messages[i].to_message());
            i += 1;
        }
        let r = ChainBlock {
            chain_id: self.chain_id,
            epoch: self.epoch,
            incoming_messages: incoming,
            operations: copy_byte_lists(&self.operations),
            height: self.height,
            timestamp: self.timestamp,
            authenticated_signer: self.authenticated_signer,
            previous_block_hash: self.previous_block_hash,
        };
        proof {
            assert(r@.incoming_messages =~= block_of(*self).incoming_messages);
            assert(r@.operations =~= block_of(*self).operations);
        }
        r
    }
}

impl BlockBlockValueExecutedBlock {
    /// The executed block that the answer stands for.
    pub fn to_executed_block(&self) -> (r: ExecutedBlock)
        ensures
            r@ == executed_block_of(*self),
    {
        let mut messages: Vec<Vec<u8>> = Vec::new();
        let mut i: usize = 0;
        while i < self.messages.len()
            invariant
                i <= self.messages@.len(),
                messages@.len() == i,
                forall|j: int| 0 <= j < i ==> #[trigger] messages@[j]@ == outgoing_bcs(self.messages@[j]),
            decreases self.messages@.len() - i,
        {
            messages.push(self.messages[i].to_message());
            i += 1;
        }
        let r = ExecutedBlock { block: self.block.to_block(), messages, state_hash: self.state_hash };
        proof {
            assert(r@.messages =~= executed_block_of(*self).messages);
        }
        r
    }
}

impl BlockBlock {
    /// The certified value that the answer stands for, with its hash: a
    /// validated or a confirmed block by the status, else the status as the
    /// error.
    pub fn to_hashed_value(&self) -> (r: Result<HashedValue, String>)
        requires
            self.value.executed_block matches Some(e) ==> executed_block_of(e).fits(),
        ensures
            match hashed_value_spec(self.value.status@, executed_of(self.value)) {
                Ok(v) => r matches Ok(h) && h@.value == v && h.hash == v.hash(),
                Err(s) => r matches Err(t) && t@ == s,
            },
    {
        let status = &self.value.status;
        match &self.value.executed_block {
            Some(e) => {
                if *status == String::from_str("validated") {
                    Ok(HashedValue::new_validated(e.to_executed_block()))
                } else if *status == String::from_str("confirmed") {
                    Ok(HashedValue::new_confirmed(e.to_executed_block()))
                } else {
                    Err(status.clone())
                }
            },
            None => Err(status.clone()),
        }
    }
}

/// The request, in the GraphQL-over-websocket protocol, that subscribes
/// under `id` to the notifications of `chain` (named in hexadecimal).
pub open spec fn subscription_request_spec(id: Seq<char>, chain: ChainId) -> Seq<char> {
    "{ \"id\": \""@ + id + "\", \"type\": \"subscribe\", \"payload\": {\"query\": \"subscription { notifications(chainId: \\\""@
        + hex_encode_spec(chain.0.bytes()) + "\\\") }\"} }"@
}

/// The subscription request for the notifications of `chain`.
pub fn subscription_request(id: &str, chain: ChainId) -> (r: String)
    ensures
        r@ == subscription_request_spec(id@, chain),
{
    let mut r = String::from_str("{ \"id\": \"");
    r.append(id);
    r.append("\", \"type\": \"subscribe\", \"payload\": {\"query\": \"subscription { notifications(chainId: \\\"");
    r.append(chain.0.to_hex().as_str());
    r.append("\\\") }\"} }");
    r
}

/// What the explorer does on a message of its subscription: reload its
/// page, and whether it then stops listening.
pub struct SubscriptionStep {
    pub refresh: bool,
    pub stop: bool,
}

/// The explorer showing `chain` receives a message with the notification
/// `data` (if any) and with errors (if `has_errors`): it reloads its page on
/// a new block of its chain, and stops listening once errors come.
pub fn subscription_step(chain: ChainId, data: Option<&Notification>, has_errors: bool) -> (r: SubscriptionStep)
    ensures
        r.refresh == (data matches Some(n) && n.reason is NewBlock && n.chain_id == chain),
        r.stop == has_errors,
{
    let refresh = match data {
        Some(n) => n.refreshes(chain),
        None => false,
    };
    SubscriptionStep { refresh, stop: has_errors }
}

} // verus!
