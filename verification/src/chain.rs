//! Blocks, certified values and votes, as the chain logic reads them.
use crate::bytes::{bytes_equal, copy_bytes};
use crate::crypto::{bcs_hash_spec, BlockHeight, ChainId, CryptoHash, Owner};
use crate::external::{bcs_u32, bcs_u64, le_bytes};
use crate::framing::{bcs_seq, max_sequence_length, push_bytes, write_seq};
use vstd::prelude::*;
use vstd::string::StringSliceAdditionalSpecFns;

verus! {

/// An epoch of the committee.
#[derive(PartialEq, Eq, Structural, Clone, Copy, Debug)]
pub struct Epoch(pub u32);

/// A block: incoming messages and operations are kept as their serialized
/// bytes, which the logic here only compares and carries.
pub struct Block {
    pub chain_id: ChainId,
    pub epoch: Epoch,
    pub incoming_messages: Vec<Vec<u8>>,
    pub operations: Vec<Vec<u8>>,
    pub height: BlockHeight,
    pub timestamp: u64,
    pub authenticated_signer: Option<Owner>,
    pub previous_block_hash: Option<CryptoHash>,
}

/// The contents of a block.
pub struct BlockView {
    pub chain_id: ChainId,
    pub epoch: Epoch,
    pub incoming_messages: Seq<Seq<u8>>,
    pub operations: Seq<Seq<u8>>,
    pub height: BlockHeight,
    pub timestamp: u64,
    pub authenticated_signer: Option<Owner>,
    pub previous_block_hash: Option<CryptoHash>,
}

/// A sequence of byte vectors, as byte sequences.
pub open spec fn seqs_of(s: Seq<Vec<u8>>) -> Seq<Seq<u8>> {
    Seq::new(s.len(), |i: int| s[i]@)
}

impl View for Block {
    type V = BlockView;

    open spec fn view(&self) -> BlockView {
        BlockView {
            chain_id: self.chain_id,
            epoch: self.epoch,
            incoming_messages: seqs_of(self.incoming_messages@),
            operations: seqs_of(self.operations@),
            height: self.height,
            timestamp: self.timestamp,
            authenticated_signer: self.authenticated_signer,
            previous_block_hash: self.previous_block_hash,
        }
    }
}

/// Whether two lists of byte vectors hold the same bytes.
pub fn byte_lists_equal(a: &Vec<Vec<u8>>, b: &Vec<Vec<u8>>) -> (r: bool)
    ensures
        r == (seqs_of(a@) == seqs_of(b@)),
{
    if a.len() != b.len() {
        assert(seqs_of(a@).len() != seqs_of(b@).len());
        return false;
    }
    let mut i: usize = 0;
    while i < a.len()
        invariant
            a@.len() == b@.len(),
            i <= a@.len(),
            forall|j: int| 0 <= j < i ==> #[trigger] a@[j]@ == b@[j]@,
        decreases a@.len() - i,
    {
        if !bytes_equal(a[i].as_slice(), b[i].as_slice()) {
            assert(seqs_of(a@)[i as int] != seqs_of(b@)[i as int]);
            return false;
        }
        i += 1;
    }
    assert(seqs_of(a@) =~= seqs_of(b@));
    true
}

/// A copy of a list of byte vectors.
pub fn copy_byte_lists(a: &Vec<Vec<u8>>) -> (r: Vec<Vec<u8>>)
    ensures
        seqs_of(r@) == seqs_of(a@),
{
    let mut r: Vec<Vec<u8>> = Vec::new();
    let mut i: usize = 0;
    while i < a.len()
        invariant
            i <= a@.len(),
            r@.len() == i,
            forall|j: int| 0 <= j < i ==> #[trigger] r@[j]@ == a@[j]@,
        decreases a@.len() - i,
    {
        r.push(copy_bytes(a[i].as_slice()));
        i += 1;
    }
    assert(seqs_of(r@) =~= seqs_of(a@));
    r
}

impl Block {
    /// Whether two blocks are the same.
    pub fn equals(&self, other: &Block) -> (r: bool)
        ensures
            r == (self@ == other@),
    {
        if self.chain_id != other.chain_id || self.epoch != other.epoch || self.height != other.height
            || self.timestamp != other.timestamp || self.authenticated_signer != other.authenticated_signer
            || self.previous_block_hash != other.previous_block_hash {
            return false;
        }
        let same_messages = byte_lists_equal(&self.incoming_messages, &other.incoming_messages);
        let same_operations = byte_lists_equal(&self.operations, &other.operations);
        same_messages && same_operations
    }

    /// A copy of the block.
    pub fn duplicate(&self) -> (r: Block)
        ensures
            r@ == self@,
    {
        Block {
            chain_id: self.chain_id,
            epoch: self.epoch,
            incoming_messages: copy_byte_lists(&self.incoming_messages),
            operations: copy_byte_lists(&self.operations),
            height: self.height,
            timestamp: self.timestamp,
            authenticated_signer: self.authenticated_signer,
            previous_block_hash: self.previous_block_hash,
        }
    }
}

/// A block together with what executing it produced: the outgoing messages
/// (as serialized bytes) and the hash of the resulting state.
pub struct ExecutedBlock {
    pub block: Block,
    pub messages: Vec<Vec<u8>>,
    pub state_hash: CryptoHash,
}

/// A value that validators certify.
pub enum CertificateValue {
    ValidatedBlock { executed_block: ExecutedBlock },
    ConfirmedBlock { executed_block: ExecutedBlock },
}

/// A certified value together with its hash.
pub struct HashedValue {
    pub value: CertificateValue,
    pub hash: CryptoHash,
}

/// The contents of an executed block.
pub struct ExecutedBlockView {
    pub block: BlockView,
    pub messages: Seq<Seq<u8>>,
    pub state_hash: CryptoHash,
}

/// The contents of a certified value.
pub enum CertificateValueView {
    ValidatedBlock(ExecutedBlockView),
    ConfirmedBlock(ExecutedBlockView),
}

/// The contents of a hashed value.
pub struct HashedValueView {
    pub value: CertificateValueView,
    pub hash: CryptoHash,
}

impl View for ExecutedBlock {
    type V = ExecutedBlockView;

    open spec fn view(&self) -> ExecutedBlockView {
        ExecutedBlockView { block: self.block@, messages: seqs_of(self.messages@), state_hash: self.state_hash }
    }
}

impl View for CertificateValue {
    type V = CertificateValueView;

    open spec fn view(&self) -> CertificateValueView {
        match self {
            CertificateValue::ValidatedBlock { executed_block } => CertificateValueView::ValidatedBlock(
                executed_block@,
            ),
            CertificateValue::ConfirmedBlock { executed_block } => CertificateValueView::ConfirmedBlock(
                executed_block@,
            ),
        }
    }
}

impl View for HashedValue {
    type V = HashedValueView;

    open spec fn view(&self) -> HashedValueView {
        HashedValueView { value: self.value@, hash: self.hash }
    }
}

impl ExecutedBlock {
    /// A copy of the executed block.
    pub fn duplicate(&self) -> (r: ExecutedBlock)
        ensures
            r@ == self@,
    {
        ExecutedBlock {
            block: self.block.duplicate(),
            messages: copy_byte_lists(&self.messages),
            state_hash: self.state_hash,
        }
    }
}

impl CertificateValue {
    pub open spec fn executed(&self) -> &ExecutedBlock {
        match self {
            CertificateValue::ValidatedBlock { executed_block } => executed_block,
            CertificateValue::ConfirmedBlock { executed_block } => executed_block,
        }
    }

    /// The executed block of the value.
    pub fn executed_block(&self) -> (r: Option<&ExecutedBlock>)
        ensures
            r == Some(self.executed()),
    {
        match self {
            CertificateValue::ValidatedBlock { executed_block } => Some(executed_block),
            CertificateValue::ConfirmedBlock { executed_block } => Some(executed_block),
        }
    }

    /// The chain of the block.
    pub fn chain_id(&self) -> (r: ChainId)
        ensures
            r == self.executed().block.chain_id,
    {
        match self {
            CertificateValue::ValidatedBlock { executed_block } => executed_block.block.chain_id,
            CertificateValue::ConfirmedBlock { executed_block } => executed_block.block.chain_id,
        }
    }

    /// The height of the block.
    pub fn height(&self) -> (r: BlockHeight)
        ensures
            r == self.executed().block.height,
    {
        match self {
            CertificateValue::ValidatedBlock { executed_block } => executed_block.block.height,
            CertificateValue::ConfirmedBlock { executed_block } => executed_block.block.height,
        }
    }

    /// The block.
    pub fn block(&self) -> (r: &Block)
        ensures
            r == &self.executed().block,
    {
        match self {
            CertificateValue::ValidatedBlock { executed_block } => &executed_block.block,
            CertificateValue::ConfirmedBlock { executed_block } => &executed_block.block,
        }
    }

    /// Whether the block is confirmed.
    pub fn is_confirmed(&self) -> (r: bool)
        ensures
            r == (self is ConfirmedBlock),
    {
        match self {
            CertificateValue::ValidatedBlock { .. } => false,
            CertificateValue::ConfirmedBlock { .. } => true,
        }
    }
}

impl HashedValue {
    /// A copy of the value.
    pub fn duplicate(&self) -> (r: HashedValue)
        ensures
            r@ == self@,
    {
        let value = match &self.value {
            CertificateValue::ValidatedBlock { executed_block } => CertificateValue::ValidatedBlock {
                executed_block: executed_block.duplicate(),
            },
            CertificateValue::ConfirmedBlock { executed_block } => CertificateValue::ConfirmedBlock {
                executed_block: executed_block.duplicate(),
            },
        };
        HashedValue { value, hash: self.hash }
    }

    /// The certified value.
    pub fn inner(&self) -> (r: &CertificateValue)
        ensures
            r == &self.value,
    {
        &self.value
    }

    /// The hash of the value.
    pub fn hash(&self) -> (r: CryptoHash)
        ensures
            r == self.hash,
    {
        self.hash
    }

    /// Whether the block is confirmed.
    pub fn is_confirmed(&self) -> (r: bool)
        ensures
            r == (self.value is ConfirmedBlock),
    {
        self.value.is_confirmed()
    }

    /// The block.
    pub fn block(&self) -> (r: &Block)
        ensures
            r == &self.value.executed().block,
    {
        self.value.block()
    }
}

/// What BCS writes for an optional hash: a zero byte, or a one byte and the
/// 32 bytes of the hash.
pub open spec fn bcs_option_hash(o: Option<CryptoHash>) -> Seq<u8> {
    match o {
        None => seq![0u8],
        Some(h) => seq![1u8] + h.bytes(),
    }
}

/// The owner's hash, if any.
pub open spec fn owner_hash(o: Option<Owner>) -> Option<CryptoHash> {
    match o {
        None => None,
        Some(owner) => Some(owner.0),
    }
}

impl BlockView {
    /// What BCS writes for the block, its fields in order; the incoming
    /// messages and operations are already in BCS form.
    pub open spec fn bcs(self) -> Seq<u8> {
        self.chain_id.0.bytes() + le_bytes(self.epoch.0 as nat, 4) + bcs_seq(self.incoming_messages) + bcs_seq(
            self.operations,
        ) + le_bytes(self.height.0 as nat, 8) + le_bytes(self.timestamp as nat, 8) + bcs_option_hash(
            owner_hash(self.authenticated_signer),
        ) + bcs_option_hash(self.previous_block_hash)
    }

    /// No list of the block is longer than BCS writes.
    pub open spec fn fits(self) -> bool {
        &&& self.incoming_messages.len() <= max_sequence_length()
        &&& self.operations.len() <= max_sequence_length()
    }
}

impl ExecutedBlockView {
    /// What BCS writes for the executed block: the block, the outgoing
    /// messages (already in BCS form) and the state hash.
    pub open spec fn bcs(self) -> Seq<u8> {
        self.block.bcs() + bcs_seq(self.messages) + self.state_hash.bytes()
    }

    /// No list of the executed block is longer than BCS writes.
    pub open spec fn fits(self) -> bool {
        self.block.fits() && self.messages.len() <= max_sequence_length()
    }
}

impl CertificateValueView {
    /// What BCS writes for the value: the index of its variant, then the
    /// executed block.
    pub open spec fn bcs(self) -> Seq<u8> {
        match self {
            CertificateValueView::ValidatedBlock(e) => seq![0u8] + e.bcs(),
            CertificateValueView::ConfirmedBlock(e) => seq![1u8] + e.bcs(),
        }
    }

    /// The hash of the value: SHA3-256 over `CertificateValue::` and its BCS
    /// bytes.
    pub open spec fn hash(self) -> CryptoHash {
        bcs_hash_spec("CertificateValue::".spec_bytes(), self.bcs())
    }
}

/// Writes an optional hash as BCS does.
fn write_option_hash(out: &mut Vec<u8>, o: Option<CryptoHash>)
    ensures
        final(out)@ == old(out)@ + bcs_option_hash(o),
{
    match o {
        None => {
            out.push(0u8);
        },
        Some(h) => {
            let ghost before = out@;
            out.push(1u8);
            push_bytes(out, h.as_bytes().as_slice());
            assert(out@ =~= before + (seq![1u8] + h.bytes()));
        },
    }
}

impl Block {
    /// The BCS bytes of the block.
    pub fn bcs_bytes(&self) -> (r: Vec<u8>)
        ensures
            r@ == self@.bcs(),
    {
        let mut out = self.chain_id.0.as_bytes();
        push_bytes(&mut out, bcs_u32(self.epoch.0).as_slice());
        write_seq(&mut out, &self.incoming_messages);
        proof {
            assert(Seq::new(self.incoming_messages@.len(), |i: int| self.incoming_messages@[i]@)
                =~= seqs_of(self.incoming_messages@));
        }
        write_seq(&mut out, &self.operations);
        proof {
            assert(Seq::new(self.operations@.len(), |i: int| self.operations@[i]@) =~= seqs_of(
                self.operations@,
            ));
        }
        push_bytes(&mut out, bcs_u64(self.height.0).as_slice());
        push_bytes(&mut out, bcs_u64(self.timestamp).as_slice());
        let signer = match self.authenticated_signer {
            None => None,
            Some(owner) => Some(owner.0),
        };
        write_option_hash(&mut out, signer);
        write_option_hash(&mut out, self.previous_block_hash);
        assert(out@ =~= self@.bcs());
        out
    }
}

impl ExecutedBlock {
    /// The BCS bytes of the executed block.
    pub fn bcs_bytes(&self) -> (r: Vec<u8>)
        ensures
            r@ == self@.bcs(),
    {
        let mut out = self.block.bcs_bytes();
        write_seq(&mut out, &self.messages);
        proof {
            assert(Seq::new(self.messages@.len(), |i: int| self.messages@[i]@) =~= seqs_of(self.messages@));
        }
        push_bytes(&mut out, self.state_hash.as_bytes().as_slice());
        assert(out@ =~= self@.bcs());
        out
    }
}

impl CertificateValue {
    /// The BCS bytes of the value.
    pub fn bcs_bytes(&self) -> (r: Vec<u8>)
        ensures
            r@ == self@.bcs(),
    {
        let mut out: Vec<u8> = Vec::new();
        match self {
            CertificateValue::ValidatedBlock { executed_block } => {
                out.push(0u8);
                push_bytes(&mut out, executed_block.bcs_bytes().as_slice());
            },
            CertificateValue::ConfirmedBlock { executed_block } => {
                out.push(1u8);
                push_bytes(&mut out, executed_block.bcs_bytes().as_slice());
            },
        }
        assert(out@ =~= self@.bcs());
        out
    }
}

impl HashedValue {
    /// The value together with its hash.
    pub fn new(value: CertificateValue) -> (r: HashedValue)
        requires
            value.executed()@.fits(),
        ensures
            r@.value == value@,
            r.hash == value@.hash(),
    {
        let bytes = value.bcs_bytes();
        let hash = CryptoHash::bcs_hash("CertificateValue::", bytes.as_slice());
        HashedValue { value, hash }
    }

    /// A validated block, with its hash.
    pub fn new_validated(executed_block: ExecutedBlock) -> (r: HashedValue)
        requires
            executed_block@.fits(),
        ensures
            r@.value == CertificateValueView::ValidatedBlock(executed_block@),
            r.hash == CertificateValueView::ValidatedBlock(executed_block@).hash(),
    {
        Self::new(CertificateValue::ValidatedBlock { executed_block })
    }

    /// A confirmed block, with its hash.
    pub fn new_confirmed(executed_block: ExecutedBlock) -> (r: HashedValue)
        requires
            executed_block@.fits(),
        ensures
            r@.value == CertificateValueView::ConfirmedBlock(executed_block@),
            r.hash == CertificateValueView::ConfirmedBlock(executed_block@).hash(),
    {
        Self::new(CertificateValue::ConfirmedBlock { executed_block })
    }
}

} // verus!
