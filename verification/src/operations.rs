//! The operations plugin of the indexer: every operation of the indexed
//! blocks, chained per chain from the newest to the oldest.
use crate::byte_map::ByteMap;
use crate::bytes::{concat_bytes, copy_bytes};
use crate::chain::HashedValue;
use crate::crypto::{bcs_hash_spec, BlockHeight, ChainId, CryptoHash};
use crate::external::{bcs_u64, le_bytes};
use crate::operation_key::{key_at_or_after, key_ge, OperationKey};
use vstd::prelude::*;
use vstd::string::StringSliceAdditionalSpecFns;

verus! {

/// An operation as the plugin records it: its key, the hash of the key of
/// the operation before it on the same chain, its number among the operations
/// of its chain, the hash of its block, and its content (serialized).
pub struct ChainOperation {
    pub key: OperationKey,
    pub previous_operation: Option<CryptoHash>,
    pub index: u64,
    pub block: CryptoHash,
    pub content: Vec<u8>,
}

/// The contents of a recorded operation.
pub struct ChainOperationView {
    pub key: OperationKey,
    pub previous_operation: Option<CryptoHash>,
    pub index: u64,
    pub block: CryptoHash,
    pub content: Seq<u8>,
}

impl DeepView for ChainOperation {
    type V = ChainOperationView;

    open spec fn deep_view(&self) -> ChainOperationView {
        ChainOperationView {
            key: self.key,
            previous_operation: self.previous_operation,
            index: self.index,
            block: self.block,
            content: self.content@,
        }
    }
}

impl ChainOperation {
    /// A copy of the operation.
    pub fn duplicate(&self) -> (r: ChainOperation)
        ensures
            r.deep_view() == self.deep_view(),
    {
        ChainOperation {
            key: self.key,
            previous_operation: self.previous_operation,
            index: self.index,
            block: self.block,
            content: copy_bytes(self.content.as_slice()),
        }
    }
}

/// A recorded operation with the hash of its key.
pub struct HashedChainOperation {
    pub operation: ChainOperation,
    pub hash: CryptoHash,
}

/// What BCS writes for an operation key: the chain, the height and the
/// position (as a 64-bit integer).
pub open spec fn key_bcs(key: OperationKey) -> Seq<u8> {
    key.chain_id.0.bytes() + le_bytes(key.height.0 as nat, 8) + le_bytes(key.index as nat, 8)
}

/// The hash of an operation key.
pub open spec fn key_hash(key: OperationKey) -> CryptoHash {
    bcs_hash_spec("OperationKey::".spec_bytes(), key_bcs(key))
}

/// The hash of an operation key given as input to a query (hashed under
/// its own type name).
pub open spec fn input_key_hash(key: OperationKeyInput) -> CryptoHash {
    bcs_hash_spec(
        "OperationKeyInput::".spec_bytes(),
        key.chain_id.0.bytes() + le_bytes(key.height.0 as nat, 8) + le_bytes(key.index as nat, 8),
    )
}

/// The hash of an operation key.
pub fn hash_operation_key(key: &OperationKey) -> (r: CryptoHash)
    ensures
        r == key_hash(*key),
{
    let chain = key.chain_id.bcs_bytes();
    let height = bcs_u64(key.height.0);
    let index = bcs_u64(key.index as u64);
    let a = concat_bytes(chain.as_slice(), height.as_slice());
    let bcs = concat_bytes(a.as_slice(), index.as_slice());
    CryptoHash::bcs_hash("OperationKey::", bcs.as_slice())
}

impl HashedChainOperation {
    /// The operation with the hash of its key.
    pub fn new(operation: ChainOperation) -> (r: Self)
        ensures
            r.operation.deep_view() == operation.deep_view(),
            r.hash == key_hash(operation.key),
    {
        let hash = hash_operation_key(&operation.key);
        HashedChainOperation { operation, hash }
    }
}

/// An operation key as a query gives it.
#[derive(PartialEq, Eq, Structural, Clone, Copy, Debug)]
pub struct OperationKeyInput {
    pub chain_id: ChainId,
    pub height: BlockHeight,
    pub index: usize,
}

/// Where a query starts: an operation hash, an operation key, or the last
/// operation of a chain.
#[derive(Debug)]
pub enum OperationKeyKind {
    Hash(CryptoHash),
    Key(OperationKeyInput),
    Last(ChainId),
}

/// The hash of an operation key given as input to a query.
pub fn hash_operation_key_input(key: &OperationKeyInput) -> (r: CryptoHash)
    ensures
        r == input_key_hash(*key),
{
    let chain = key.chain_id.bcs_bytes();
    let height = bcs_u64(key.height.0);
    let index = bcs_u64(key.index as u64);
    let a = concat_bytes(chain.as_slice(), height.as_slice());
    let bcs = concat_bytes(a.as_slice(), index.as_slice());
    CryptoHash::bcs_hash("OperationKeyInput::", bcs.as_slice())
}

/// The state of the plugin: per chain (by the bytes of its identifier) the
/// key of the last operation and the number of operations, and every
/// operation by the bytes of the hash of its key.
pub struct PluginView {
    pub last: Map<Seq<u8>, OperationKey>,
    pub count: Map<Seq<u8>, u64>,
    pub operations: Map<Seq<u8>, ChainOperationView>,
}

impl PluginView {
    /// The key of the last operation of `chain`.
    pub open spec fn last_of(self, chain: ChainId) -> Option<OperationKey> {
        if self.last.contains_key(chain.0.bytes()) {
            Some(self.last[chain.0.bytes()])
        } else {
            None
        }
    }

    /// The number of operations of `chain`.
    pub open spec fn count_of(self, chain: ChainId) -> u64 {
        if self.count.contains_key(chain.0.bytes()) {
            self.count[chain.0.bytes()]
        } else {
            0
        }
    }

    /// The operation whose key hashes to `hash`.
    pub open spec fn operation_of(self, hash: CryptoHash) -> Option<ChainOperationView> {
        if self.operations.contains_key(hash.bytes()) {
            Some(self.operations[hash.bytes()])
        } else {
            None
        }
    }
}

/// Registering one operation: nothing changes if the chain already has an
/// operation at or after `key`; otherwise the operation is recorded under the
/// hash of its key, linked to the previous last one, numbered by the count,
/// and becomes the last one of its chain.
pub open spec fn register_operation_spec(
    s: PluginView,
    key: OperationKey,
    block: CryptoHash,
    content: Seq<u8>,
) -> PluginView {
    let c = key.chain_id.0.bytes();
    match s.last_of(key.chain_id) {
        Some(last) if key_at_or_after(last, key) => s,
        last => {
            let op = ChainOperationView {
                key,
                previous_operation: match last {
                    Some(l) => Some(key_hash(l)),
                    None => None,
                },
                index: s.count_of(key.chain_id),
                block,
                content,
            };
            PluginView {
                last: s.last.insert(c, key),
                count: s.count.insert(c, (s.count_of(key.chain_id) + 1) as u64),
                operations: s.operations.insert(key_hash(key).bytes(), op),
            }
        },
    }
}

/// Registering the operations `ops[from..]` of a block of `chain` at
/// `height` with hash `block`, in order.
pub open spec fn register_block_spec(
    s: PluginView,
    chain: ChainId,
    height: BlockHeight,
    block: CryptoHash,
    ops: Seq<Seq<u8>>,
) -> PluginView
    decreases ops.len(),
{
    if ops.len() == 0 {
        s
    } else {
        let before = register_block_spec(s, chain, height, block, ops.drop_last());
        register_operation_spec(
            before,
            OperationKey { chain_id: chain, height, index: (ops.len() - 1) as usize },
            block,
            ops.last(),
        )
    }
}

/// How many of the first `n` operations of a block at `height` are new to a
/// chain whose last recorded operation is `last`: all of them when nothing is
/// recorded or the last one is at a lower height, none when it is higher, and
/// those after it in the block when it is at that height.
pub open spec fn new_in_block(last: Option<OperationKey>, height: BlockHeight, n: nat) -> nat {
    match last {
        None => n,
        Some(l) => if l.height.0 > height.0 {
            0
        } else if l.height.0 < height.0 {
            n
        } else if l.index + 1 >= n {
            0
        } else {
            (n - (l.index + 1)) as nat
        },
    }
}

/// Whether the count of `value`'s chain stays within `u64` while its block
/// is registered: each new operation adds one to it.
pub open spec fn block_fits(s: PluginView, value: HashedValue) -> bool {
    let b = value.value.executed().block;
    s.count_of(b.chain_id) + new_in_block(s.last_of(b.chain_id), b.height, b.operations@.len()) <= u64::MAX
}

/// The operations met when following the links back from `hash`, at most
/// `limit` of them.
pub open spec fn walk_spec(s: PluginView, hash: Option<CryptoHash>, limit: nat) -> Seq<ChainOperationView>
    decreases limit,
{
    if limit == 0 {
        Seq::empty()
    } else {
        match hash {
            None => Seq::empty(),
            Some(h) => match s.operation_of(h) {
                None => Seq::empty(),
                Some(op) => seq![op] + walk_spec(s, op.previous_operation, (limit - 1) as nat),
            },
        }
    }
}

/// The state of the operations plugin.
pub struct OperationsPlugin {
    last: ByteMap<OperationKey>,
    count: ByteMap<u64>,
    operations: ByteMap<ChainOperation>,
}

impl View for OperationsPlugin {
    type V = PluginView;

    closed spec fn view(&self) -> PluginView {
        PluginView { last: self.last.map(), count: self.count.map(), operations: self.operations.map() }
    }
}

impl OperationsPlugin {
    pub closed spec fn wf(&self) -> bool {
        self.last.wf() && self.count.wf() && self.operations.wf()
    }

    /// An empty plugin state.
    pub fn load() -> (r: Self)
        ensures
            r.wf(),
            r@.last == Map::<Seq<u8>, OperationKey>::empty(),
            r@.count == Map::<Seq<u8>, u64>::empty(),
            r@.operations == Map::<Seq<u8>, ChainOperationView>::empty(),
            r@ == empty_plugin(),
    {
        let r = OperationsPlugin { last: ByteMap::new(), count: ByteMap::new(), operations: ByteMap::new() };
        assert(r@.last =~= empty_plugin().last);
        assert(r@.count =~= empty_plugin().count);
        assert(r@.operations =~= empty_plugin().operations);
        r
    }

    /// The key of the last operation of `chain_id`.
    fn last_key(&self, chain_id: &ChainId) -> (r: Option<OperationKey>)
        requires
            self.wf(),
        ensures
            r == self@.last_of(*chain_id),
    {
        let c = chain_id.bcs_bytes();
        match self.last.get(c.as_slice()) {
            Some(k) => Some(*k),
            None => None,
        }
    }

    /// The number of operations of `chain_id` (zero if none).
    fn count_for(&self, chain_id: &ChainId) -> (r: u64)
        requires
            self.wf(),
        ensures
            r == self@.count_of(*chain_id),
    {
        let c = chain_id.bcs_bytes();
        match self.count.get(c.as_slice()) {
            Some(n) => *n,
            None => 0,
        }
    }

    /// The recorded operation whose key hashes to `hash`.
    fn operation_by_hash(&self, hash: &CryptoHash) -> (r: Option<ChainOperation>)
        requires
            self.wf(),
        ensures
            match r {
                Some(op) => self@.operation_of(*hash) == Some(op.deep_view()),
                None => self@.operation_of(*hash) is None,
            },
    {
        let h = hash.as_bytes();
        match self.operations.get(h.as_slice()) {
            Some(op) => Some(op.duplicate()),
            None => None,
        }
    }

    /// Registers an operation, and updates the count and the last key of its
    /// chain.
    pub fn register_operation(&mut self, key: OperationKey, block: CryptoHash, content: Vec<u8>)
        requires
            old(self).wf(),
            (old(self)@.last_of(key.chain_id) matches Some(l) && key_at_or_after(l, key)) || old(self)@.count_of(
                key.chain_id,
            ) < u64::MAX,
        ensures
            final(self).wf(),
            final(self)@ == register_operation_spec(old(self)@, key, block, content@),
    {
        let last_operation = self.last_key(&key.chain_id);
        if let Some(last_key) = last_operation {
            if key_ge(&last_key, &key) {
                return;
            }
        }
        let previous_operation = match last_operation {
            Some(last_key) => Some(hash_operation_key(&last_key)),
            None => None,
        };
        let hash = hash_operation_key(&key);
        let index = self.count_for(&key.chain_id);
        let ghost c = content@;
        let operation = ChainOperation { key, previous_operation, index, block, content };
        self.operations.insert(hash.as_bytes(), operation);
        self.count.insert(key.chain_id.bcs_bytes(), index + 1);
        self.last.insert(key.chain_id.bcs_bytes(), key);
        assert(self@.last =~= register_operation_spec(old(self)@, key, block, c).last);
        assert(self@.count =~= register_operation_spec(old(self)@, key, block, c).count);
        assert(self@.operations =~= register_operation_spec(old(self)@, key, block, c).operations);
    }

    /// Registers every operation of the block of `value`, in order.
    pub fn register(&mut self, value: &HashedValue)
        requires
            old(self).wf(),
            block_fits(old(self)@, *value),
        ensures
            final(self).wf(),
            final(self)@ == register_block_spec(
                old(self)@,
                value.value.executed().block.chain_id,
                value.value.executed().block.height,
                value.hash,
                crate::chain::seqs_of(value.value.executed().block.operations@),
            ),
    {
        let executed_block = match value.inner().executed_block() {
            Some(b) => b,
            None => {
                return;
            },
        };
        let chain_id = value.inner().chain_id();
        let height = executed_block.block.height;
        let ops = &executed_block.block.operations;
        let ghost all = crate::chain::seqs_of(ops@);
        let ghost last0 = old(self)@.last_of(chain_id);
        let ghost count0 = old(self)@.count_of(chain_id);
        let ghost skip: int = ops@.len() - new_in_block(last0, height, ops@.len() as nat);
        let mut index: usize = 0;
        proof {
            assert(all.subrange(0, 0) =~= Seq::<Seq<u8>>::empty());
        }
        while index < ops.len()
            invariant
                self.wf(),
                all == crate::chain::seqs_of(ops@),
                index <= ops@.len(),
                last0 == old(self)@.last_of(chain_id),
                count0 == old(self)@.count_of(chain_id),
                skip == ops@.len() - new_in_block(last0, height, ops@.len() as nat),
                0 <= skip <= ops@.len(),
                count0 + (ops@.len() - skip) <= u64::MAX,
                index <= skip ==> self@.last_of(chain_id) == last0 && self@.count_of(chain_id) == count0,
                index > skip ==> self@.last_of(chain_id) == Some(
                    OperationKey { chain_id, height, index: (index - 1) as usize },
                ) && self@.count_of(chain_id) == count0 + (index - skip),
                self@ == register_block_spec(old(self)@, chain_id, height, value.hash, all.subrange(0, index as int)),
            decreases ops@.len() - index,
        {
            let key = OperationKey { chain_id, height, index };
            let ghost before = self@;
            proof {
                // a key is new exactly from position `skip` on
                if index < skip {
                    assert(last0 is Some);
                    assert(key_at_or_after(last0->Some_0, key));
                } else if index == skip {
                    assert(!(last0 matches Some(l) && key_at_or_after(l, key)));
                }
            }
            self.register_operation(key, value.hash(), copy_bytes(ops[index].as_slice()));
            proof {
                let sub = all.subrange(0, index + 1);
                assert(sub.drop_last() =~= all.subrange(0, index as int));
                assert(sub.last() == all[index as int]);
                assert(sub.len() - 1 == index);
            }
            index += 1;
        }
        assert(all.subrange(0, ops@.len() as int) =~= all);
    }

    /// The operation that `key` designates, with the hash of its key.
    pub fn operation(&self, key: OperationKeyKind) -> (r: Option<HashedChainOperation>)
        requires
            self.wf(),
        ensures
            match r {
                Some(op) => op.hash == key_hash(op.operation.key) && self@.operation_of(
                    start_hash(self@, key),
                ) == Some(op.operation.deep_view()) && !(key is Last && self@.last_of(key->Last_0) is None),
                None => (key is Last && self@.last_of(key->Last_0) is None) || self@.operation_of(
                    start_hash(self@, key),
                ) is None,
            },
    {
        let hash = match key {
            OperationKeyKind::Hash(hash) => hash,
            OperationKeyKind::Last(chain_id) => {
                match self.last_key(&chain_id) {
                    None => {
                        return None;
                    },
                    Some(k) => hash_operation_key(&k),
                }
            },
            OperationKeyKind::Key(k) => hash_operation_key_input(&k),
        };
        match self.operation_by_hash(&hash) {
            Some(op) => Some(HashedChainOperation::new(op)),
            None => None,
        }
    }

    /// The operations met following the links back from the one that `from`
    /// designates: at most `limit` of them, 20 if no limit is given.
    pub fn operations(&self, from: OperationKeyKind, limit: Option<u32>) -> (r: Vec<HashedChainOperation>)
        requires
            self.wf(),
        ensures
            hashed_views(r@) == (if from is Last && self@.last_of(from->Last_0) is None {
                Seq::empty()
            } else {
                walk_spec(
                    self@,
                    Some(start_hash(self@, from)),
                    match limit {
                        Some(l) => l as nat,
                        None => 20,
                    },
                )
            }),
            forall|i: int| 0 <= i < r@.len() ==> #[trigger] r@[i].hash == key_hash(r@[i].operation.key),
    {
        let mut hash = match from {
            OperationKeyKind::Hash(hash) => Some(hash),
            OperationKeyKind::Last(chain_id) => {
                match self.last_key(&chain_id) {
                    None => {
                        return Vec::new();
                    },
                    Some(k) => Some(hash_operation_key(&k)),
                }
            },
            OperationKeyKind::Key(k) => Some(hash_operation_key_input(&k)),
        };
        let ghost start = hash;
        assert(start == Some(start_hash(self@, from)));
        let mut result: Vec<HashedChainOperation> = Vec::new();
        let ghost limit_param = limit;
        let limit = match limit {
            Some(l) => l,
            None => 20,
        };
        let mut i: u32 = 0;
        assert(Seq::<ChainOperationView>::empty() + walk_spec(self@, hash, limit as nat) =~= walk_spec(self@, start, limit as nat));
        while i < limit
            invariant_except_break
                i <= limit,
            invariant
                self.wf(),
                hashed_views(result@) + walk_spec(self@, hash, (limit - i) as nat) == walk_spec(
                    self@,
                    start,
                    limit as nat,
                ),
                forall|t: int| 0 <= t < result@.len() ==> #[trigger] result@[t].hash == key_hash(result@[t].operation.key),
            ensures
                hashed_views(result@) == walk_spec(self@, start, limit as nat),
                forall|t: int| 0 <= t < result@.len() ==> #[trigger] result@[t].hash == key_hash(result@[t].operation.key),
            decreases limit - i,
        {
            assert(hashed_views(result@) + Seq::<ChainOperationView>::empty() =~= hashed_views(result@));
            let next_hash = match hash {
                None => {
                    assert(walk_spec(self@, hash, (limit - i) as nat) =~= Seq::<ChainOperationView>::empty());
                    break;
                },
                Some(h) => h,
            };
            let operation = self.operation_by_hash(&next_hash);
            match operation {
                None => {
                    assert(walk_spec(self@, hash, (limit - i) as nat) =~= Seq::<ChainOperationView>::empty());
                    break;
                },
                Some(op) => {
                    let ghost before = hashed_views(result@);
                    hash = op.previous_operation;
                    let ghost v = op.deep_view();
                    result.push(HashedChainOperation::new(op));
                    assert(hashed_views(result@) =~= before.push(v));
                    assert(walk_spec(self@, Some(next_hash), (limit - i) as nat) == seq![v] + walk_spec(
                        self@,
                        v.previous_operation,
                        (limit - i - 1) as nat,
                    ));
                    assert(before.push(v) + walk_spec(self@, hash, (limit - (i + 1)) as nat) =~= before
                        + walk_spec(self@, Some(next_hash), (limit - i) as nat));
                },
            }
            i += 1;
        }
        proof {
            assert(limit as nat == match limit_param {
                Some(l) => l as nat,
                None => 20,
            });

        }
        result
    }

    /// Whether registering the block of `value` keeps the count of its chain
    /// within `u64`.
    pub fn block_fits(&self, value: &HashedValue) -> (r: bool)
        requires
            self.wf(),
        ensures
            r == block_fits(self@, *value),
    {
        let block = value.block();
        let chain_id = block.chain_id;
        let n = block.operations.len();
        let new_ops: usize = match self.last_key(&chain_id) {
            None => n,
            Some(l) => if l.height.0 > block.height.0 {
                0
            } else if l.height.0 < block.height.0 {
                n
            } else if l.index >= n || l.index + 1 >= n {
                0
            } else {
                n - (l.index + 1)
            },
        };
        (self.count_for(&chain_id) as u128) + (new_ops as u128) <= (u64::MAX as u128)
    }

    /// The number of operations of `chain_id`.
    pub fn count(&self, chain_id: ChainId) -> (r: u64)
        requires
            self.wf(),
        ensures
            r == self@.count_of(chain_id),
    {
        self.count_for(&chain_id)
    }

    /// The hash of the key of the last operation of `chain_id`.
    pub fn last(&self, chain_id: ChainId) -> (r: Option<CryptoHash>)
        requires
            self.wf(),
        ensures
            r == match self@.last_of(chain_id) {
                Some(k) => Some(key_hash(k)),
                None => None,
            },
    {
        match self.last_key(&chain_id) {
            Some(k) => Some(hash_operation_key(&k)),
            None => None,
        }
    }
}

/// The hash at which a query starts (for `Last`, that of the last key of the
/// chain, when there is one).
pub open spec fn start_hash(s: PluginView, key: OperationKeyKind) -> CryptoHash {
    match key {
        OperationKeyKind::Hash(h) => h,
        OperationKeyKind::Key(k) => input_key_hash(k),
        OperationKeyKind::Last(c) => key_hash(s.last_of(c)->0),
    }
}

/// The recorded operations of a list of hashed operations.
pub open spec fn hashed_views(s: Seq<HashedChainOperation>) -> Seq<ChainOperationView> {
    Seq::new(s.len(), |i: int| s[i].operation.deep_view())
}

/// Registering an operation at a key that comes after the last one of its
/// chain makes it the last one, counts it, and files it under the hash of
/// its key, linked to the operation that was last before it.
pub proof fn law_register_operation_new(s: PluginView, key: OperationKey, block: CryptoHash, content: Seq<u8>)
    requires
        !(s.last_of(key.chain_id) matches Some(l) && key_at_or_after(l, key)),
        s.count_of(key.chain_id) < u64::MAX,
    ensures
        register_operation_spec(s, key, block, content).last_of(key.chain_id) == Some(key),
        register_operation_spec(s, key, block, content).count_of(key.chain_id) == s.count_of(key.chain_id) + 1,
        register_operation_spec(s, key, block, content).operation_of(key_hash(key)) == Some(
            ChainOperationView {
                key,
                previous_operation: match s.last_of(key.chain_id) {
                    Some(l) => Some(key_hash(l)),
                    None => None,
                },
                index: s.count_of(key.chain_id),
                block,
                content,
            },
        ),
{
}

/// Registering an operation a second time changes nothing.
pub proof fn law_register_operation_twice(
    s: PluginView,
    key: OperationKey,
    block: CryptoHash,
    content: Seq<u8>,
    block2: CryptoHash,
    content2: Seq<u8>,
)
    ensures
        register_operation_spec(register_operation_spec(s, key, block, content), key, block2, content2)
            == register_operation_spec(s, key, block, content),
{
}

/// The key of the operation at `index` in the block of `chain` at `height`.
pub open spec fn block_key(chain: ChainId, height: BlockHeight, index: int) -> OperationKey {
    OperationKey { chain_id: chain, height, index: index as usize }
}

/// After the operations of a block are registered, the last operation of its
/// chain comes at or after the last one of the block.
proof fn lemma_register_block_last(
    s: PluginView,
    chain: ChainId,
    height: BlockHeight,
    block: CryptoHash,
    ops: Seq<Seq<u8>>,
)
    requires
        ops.len() > 0,
    ensures
        register_block_spec(s, chain, height, block, ops).last_of(chain) matches Some(k) && key_at_or_after(
            k,
            block_key(chain, height, ops.len() - 1),
        ),
{
}

/// Registering the first `m` operations of a block changes nothing when the
/// last operation of the chain comes at or after the `m`-th of them.
proof fn lemma_register_block_covered(
    t: PluginView,
    chain: ChainId,
    height: BlockHeight,
    block: CryptoHash,
    ops: Seq<Seq<u8>>,
    m: int,
)
    requires
        1 <= m <= ops.len() <= usize::MAX,
        t.last_of(chain) matches Some(k) && key_at_or_after(k, block_key(chain, height, m - 1)),
    ensures
        register_block_spec(t, chain, height, block, ops.take(m)) == t,
    decreases m,
{
    let p = ops.take(m);
    assert(p.len() == m);
    assert(p.drop_last() =~= ops.take(m - 1));
    if m > 1 {
        lemma_register_block_covered(t, chain, height, block, ops, m - 1);
    } else {
        assert(ops.take(0) =~= Seq::<Seq<u8>>::empty());
    }
    assert(register_block_spec(t, chain, height, block, p.drop_last()) == t);
    let key = OperationKey { chain_id: chain, height, index: (p.len() - 1) as usize };
    assert(key == block_key(chain, height, m - 1));
    assert(register_operation_spec(t, key, block, p.last()) == t);
}

/// Registering the operations of a block a second time changes nothing.
pub proof fn law_register_block_twice(
    s: PluginView,
    chain: ChainId,
    height: BlockHeight,
    block: CryptoHash,
    ops: Seq<Seq<u8>>,
)
    requires
        ops.len() <= usize::MAX,
    ensures
        register_block_spec(register_block_spec(s, chain, height, block, ops), chain, height, block, ops)
            == register_block_spec(s, chain, height, block, ops),
{
    if ops.len() > 0 {
        let t = register_block_spec(s, chain, height, block, ops);
        lemma_register_block_last(s, chain, height, block, ops);
        lemma_register_block_covered(t, chain, height, block, ops, ops.len() as int);
        assert(ops.take(ops.len() as int) =~= ops);
    }
}

/// `a` comes strictly before `b`: by height, then by position in the block.
pub open spec fn key_before(a: OperationKey, b: OperationKey) -> bool {
    a.height.0 < b.height.0 || (a.height.0 == b.height.0 && a.index < b.index)
}

/// The operations of `chain`, newest first, as the links from its last one
/// give them (as many as it counts).
pub open spec fn chain_operations(s: PluginView, chain: ChainId) -> Seq<ChainOperationView> {
    match s.last_of(chain) {
        None => Seq::empty(),
        Some(k) => walk_spec(s, Some(key_hash(k)), s.count_of(chain) as nat),
    }
}

/// The operations of a chain are the whole of its count, newest first:
/// numbered down from `count - 1`, each of the chain, each linked to the one
/// below it whose key comes strictly before, the oldest linked to none.
pub open spec fn chain_well_linked(s: PluginView, chain: ChainId) -> bool {
    let n = s.count_of(chain);
    let w = chain_operations(s, chain);
    match s.last_of(chain) {
        None => n == 0,
        Some(k) => {
            &&& n >= 1
            &&& w.len() == n
            &&& w[0].key == k
            &&& forall|j: int|
                0 <= j < n ==> (#[trigger] w[j]).key.chain_id == chain && w[j].index == n - 1 - j && (if j + 1 < n {
                    w[j].previous_operation == Some(key_hash(w[j + 1].key)) && key_before(w[j + 1].key, w[j].key)
                } else {
                    w[j].previous_operation is None
                })
        },
    }
}

/// What registering keeps true of the plugin's state: every operation is
/// filed under the hash of its key and is one of the operations of its
/// chain, a chain is counted exactly when it has a last operation, and the
/// operations of every chain are well linked.
pub open spec fn plugin_inv(s: PluginView) -> bool {
    &&& forall|hb: Seq<u8>| #[trigger] s.operations.contains_key(hb) ==> hb == key_hash(s.operations[hb].key).bytes()
    &&& forall|hb: Seq<u8>| #[trigger] s.operations.contains_key(hb) ==> chain_operations(
        s,
        s.operations[hb].key.chain_id,
    ).contains(s.operations[hb])
    &&& forall|cb: Seq<u8>| #[trigger] s.last.contains_key(cb) <==> s.count.contains_key(cb)
    &&& forall|c: ChainId| #[trigger] chain_well_linked(s, c)
}

/// The state of a plugin that has registered nothing.
pub open spec fn empty_plugin() -> PluginView {
    PluginView {
        last: Map::empty(),
        count: Map::empty(),
        operations: Map::empty(),
    }
}

/// The key of a new registration does not hash like a registered one.
pub open spec fn fresh_key(s: PluginView, key: OperationKey) -> bool {
    !s.operations.contains_key(key_hash(key).bytes())
}

/// The state of a plugin that has registered nothing keeps the invariant.
pub proof fn lemma_plugin_inv_empty()
    ensures
        plugin_inv(empty_plugin()),
{
    let s = empty_plugin();
    assert forall|c: ChainId| #[trigger] chain_well_linked(s, c) by {}
}

/// Following the links for `m` steps is not changed by filing an operation
/// under a hash that was free, when the walk found `m` operations.
proof fn lemma_walk_frame(s: PluginView, t: PluginView, hb: Seq<u8>, op: ChainOperationView, h: Option<CryptoHash>, m: nat)
    requires
        t.operations == s.operations.insert(hb, op),
        !s.operations.contains_key(hb),
        walk_spec(s, h, m).len() == m,
    ensures
        walk_spec(t, h, m) == walk_spec(s, h, m),
    decreases m,
{
    if m > 0 {
        let x = h->0;
        assert(s.operations.contains_key(x.bytes()));
        assert(x.bytes() != hb);
        let o = s.operations[x.bytes()];
        lemma_walk_frame(s, t, hb, op, o.previous_operation, (m - 1) as nat);
    }
}

/// The bytes of distinct hashes differ.
proof fn lemma_hash_bytes_injective(a: CryptoHash, b: CryptoHash)
    requires
        a.bytes() == b.bytes(),
    ensures
        a == b,
{
    crate::crypto::lemma_hash_bytes(a);
    crate::crypto::lemma_hash_bytes(b);
}

/// Registering an operation keeps the invariant, when its key does not hash
/// like a registered one.
pub proof fn law_register_keeps_inv(s: PluginView, key: OperationKey, block: CryptoHash, content: Seq<u8>)
    requires
        plugin_inv(s),
        fresh_key(s, key),
        (s.last_of(key.chain_id) matches Some(l) && key_at_or_after(l, key)) || s.count_of(key.chain_id)
            < u64::MAX,
    ensures
        plugin_inv(register_operation_spec(s, key, block, content)),
{
    let t = register_operation_spec(s, key, block, content);
    let c0 = key.chain_id;
    if let Some(l) = s.last_of(c0) {
        if key_at_or_after(l, key) {
            return;
        }
    }
    let hb = key_hash(key).bytes();
    let n0 = s.count_of(c0);
    let op = ChainOperationView {
        key,
        previous_operation: match s.last_of(c0) {
            Some(l) => Some(key_hash(l)),
            None => None,
        },
        index: n0,
        block,
        content,
    };
    assert(t.operations == s.operations.insert(hb, op));
    assert forall|c: ChainId| #[trigger] chain_well_linked(t, c) by {
        assert(chain_well_linked(s, c));
        if c.0.bytes() != c0.0.bytes() {
            assert(t.last_of(c) == s.last_of(c));
            assert(t.count_of(c) == s.count_of(c));
            if let Some(k) = s.last_of(c) {
                lemma_walk_frame(s, t, hb, op, Some(key_hash(k)), s.count_of(c) as nat);
            }
        } else {
            lemma_hash_bytes_injective(c.0, c0.0);
            assert(c == c0);
            assert(t.last_of(c) == Some(key));
            assert(t.count_of(c) == n0 + 1);
            let w = chain_operations(t, c);
            assert(t.operation_of(key_hash(key)) == Some(op));
            match s.last_of(c0) {
                None => {
                    assert(n0 == 0);
                    assert(op.previous_operation is None);
                    assert(walk_spec(t, None, 0) =~= Seq::<ChainOperationView>::empty());
                    assert(w == walk_spec(t, Some(key_hash(key)), 1));
                    assert(walk_spec(t, Some(key_hash(key)), 1) == seq![op] + walk_spec(t, None, 0));
                    assert(w =~= seq![op]);
                },
                Some(l) => {
                    let old_w = chain_operations(s, c0);
                    lemma_walk_frame(s, t, hb, op, Some(key_hash(l)), n0 as nat);
                    assert(walk_spec(t, Some(key_hash(l)), n0 as nat) == old_w);
                    assert(w == seq![op] + old_w);
                    assert forall|j: int| 0 <= j < n0 + 1 implies (#[trigger] w[j]).key.chain_id == c && w[j].index
                        == (n0 + 1) - 1 - j && (if j + 1 < n0 + 1 {
                        w[j].previous_operation == Some(key_hash(w[j + 1].key)) && key_before(w[j + 1].key, w[j].key)
                    } else {
                        w[j].previous_operation is None
                    }) by {
                        if j > 0 {
                            assert(w[j] == old_w[j - 1]);
                            if j + 1 < n0 + 1 {
                                assert(w[j + 1] == old_w[j]);
                            }
                        } else {
                            assert(w[1] == old_w[0]);
                        }
                    }
                },
            }
        }
    }
    assert forall|hb2: Seq<u8>| #[trigger] t.operations.contains_key(hb2) implies hb2 == key_hash(
        t.operations[hb2].key,
    ).bytes() by {
        if hb2 != hb {
            assert(s.operations.contains_key(hb2));
        }
    }
    assert forall|hb2: Seq<u8>| #[trigger] t.operations.contains_key(hb2) implies chain_operations(
        t,
        t.operations[hb2].key.chain_id,
    ).contains(t.operations[hb2]) by {
        let o = t.operations[hb2];
        let d = o.key.chain_id;
        assert(chain_well_linked(t, d));
        if hb2 == hb {
            assert(o == op);
            assert(chain_operations(t, c0)[0] == op);
        } else {
            assert(s.operations.contains_key(hb2));
            assert(s.operations[hb2] == o);
            let old_w = chain_operations(s, d);
            assert(old_w.contains(o));
            let j = choose|j: int| 0 <= j < old_w.len() && old_w[j] == o;
            if d.0.bytes() != c0.0.bytes() {
                assert(t.last_of(d) == s.last_of(d));
                assert(t.count_of(d) == s.count_of(d));
                assert(chain_well_linked(s, d));
                if let Some(k) = s.last_of(d) {
                    lemma_walk_frame(s, t, hb, op, Some(key_hash(k)), s.count_of(d) as nat);
                }
                assert(chain_operations(t, d) == old_w);
            } else {
                lemma_hash_bytes_injective(d.0, c0.0);
                assert(d == c0);
                assert(chain_well_linked(s, c0));
                let l = s.last_of(c0)->0;
                lemma_walk_frame(s, t, hb, op, Some(key_hash(l)), n0 as nat);
                assert(chain_operations(t, c0) == seq![op] + old_w);
                assert(chain_operations(t, c0)[j + 1] == o);
            }
        }
    }
}

/// Once the links end, following them further finds nothing more.
proof fn lemma_walk_ends(s: PluginView, h: Option<CryptoHash>, n: nat, m: nat)
    requires
        n <= m,
        n >= 1,
        walk_spec(s, h, n).len() == n,
        walk_spec(s, h, n)[n - 1].previous_operation is None,
    ensures
        walk_spec(s, h, m) == walk_spec(s, h, n),
    decreases n,
{
    let x = h->0;
    let o = s.operation_of(x)->0;
    if n == 1 {
        assert(walk_spec(s, o.previous_operation, (m - 1) as nat) =~= Seq::<ChainOperationView>::empty());
        assert(walk_spec(s, o.previous_operation, 0) =~= Seq::<ChainOperationView>::empty());
    } else {
        let w = walk_spec(s, h, n);
        let r = walk_spec(s, o.previous_operation, (n - 1) as nat);
        assert(w == seq![o] + r);
        assert(r[n - 2] == w[n - 1]);
        lemma_walk_ends(s, o.previous_operation, (n - 1) as nat, (m - 1) as nat);
    }
}

/// Fewer steps along the links find the first operations of a longer walk.
proof fn lemma_walk_prefix(s: PluginView, h: Option<CryptoHash>, m: nat, n: nat)
    requires
        m <= n,
        walk_spec(s, h, n).len() == n,
    ensures
        walk_spec(s, h, m) == walk_spec(s, h, n).take(m as int),
    decreases m,
{
    if m == 0 {
        assert(walk_spec(s, h, n).take(0) =~= Seq::<ChainOperationView>::empty());
    } else {
        let x = h->0;
        let o = s.operation_of(x)->0;
        let r = walk_spec(s, o.previous_operation, (n - 1) as nat);
        lemma_walk_prefix(s, o.previous_operation, (m - 1) as nat, (n - 1) as nat);
        assert(walk_spec(s, h, n) == seq![o] + r);
        assert(walk_spec(s, h, m) =~= walk_spec(s, h, n).take(m as int));
    }
}

/// What `operations` gives from the last operation of a chain, in a state
/// that keeps the invariant: the newest operations of the chain, at most
/// `limit` of them, in downward order: numbered down from the count, keys
/// strictly decreasing, each linked to the next.
pub proof fn law_operations_downward(s: PluginView, chain: ChainId, limit: nat)
    requires
        plugin_inv(s),
        s.last_of(chain) is Some,
    ensures
        ({
            let w = walk_spec(s, Some(key_hash(s.last_of(chain)->0)), limit);
            let n = s.count_of(chain);
            &&& w.len() == if limit < n { limit } else { n as nat }
            &&& w.len() > 0 ==> w[0].key == s.last_of(chain)->0
            &&& forall|j: int|
                0 <= j < w.len() ==> (#[trigger] w[j]).key.chain_id == chain && w[j].index == n - 1 - j && (j + 1
                    < w.len() ==> w[j].previous_operation == Some(key_hash(w[j + 1].key)) && key_before(
                    w[j + 1].key,
                    w[j].key,
                ))
        }),
{
    assert(chain_well_linked(s, chain));
    let k = s.last_of(chain)->0;
    let n = s.count_of(chain) as nat;
    let h = Some(key_hash(k));
    let full = walk_spec(s, h, n);
    let w = walk_spec(s, h, limit);
    if limit < n {
        lemma_walk_prefix(s, h, limit, n);
        assert forall|j: int| 0 <= j < w.len() implies (#[trigger] w[j]).key.chain_id == chain && w[j].index == n
            - 1 - j && (j + 1 < w.len() ==> w[j].previous_operation == Some(key_hash(w[j + 1].key)) && key_before(
            w[j + 1].key,
            w[j].key,
        )) by {
            assert(w[j] == full[j]);
            assert(full[j].key.chain_id == chain);
            if j + 1 < w.len() {
                assert(w[j + 1] == full[j + 1]);
            }
        }
    } else {
        assert(full[n - 1].previous_operation is None);
        lemma_walk_ends(s, h, n, limit);
        assert forall|j: int| 0 <= j < w.len() implies (#[trigger] w[j]).key.chain_id == chain && w[j].index == n
            - 1 - j && (j + 1 < w.len() ==> w[j].previous_operation == Some(key_hash(w[j + 1].key)) && key_before(
            w[j + 1].key,
            w[j].key,
        )) by {
            assert(full[j].key.chain_id == chain);
        }
    }
}

/// The newest operation of a chain comes at or after each of its
/// operations.
proof fn lemma_last_is_newest(s: PluginView, chain: ChainId, j: int)
    requires
        plugin_inv(s),
        s.last_of(chain) is Some,
        0 <= j < chain_operations(s, chain).len(),
    ensures
        key_at_or_after(chain_operations(s, chain)[0].key, chain_operations(s, chain)[j].key),
    decreases j,
{
    assert(chain_well_linked(s, chain));
    if j > 0 {
        lemma_last_is_newest(s, chain, j - 1);
        let w = chain_operations(s, chain);
        assert(key_before(w[j].key, w[j - 1].key));
    }
}

/// Registering a key at or before one already registered for its chain
/// changes nothing, in a state that keeps the invariant.
pub proof fn law_register_older_key(
    s: PluginView,
    key: OperationKey,
    block: CryptoHash,
    content: Seq<u8>,
    hb: Seq<u8>,
)
    requires
        plugin_inv(s),
        s.operations.contains_key(hb),
        s.operations[hb].key.chain_id == key.chain_id,
        key_at_or_after(s.operations[hb].key, key),
    ensures
        register_operation_spec(s, key, block, content) == s,
{
    let o = s.operations[hb];
    let c = key.chain_id;
    let w = chain_operations(s, c);
    assert(w.contains(o));
    let j = choose|j: int| 0 <= j < w.len() && w[j] == o;
    assert(chain_well_linked(s, c));
    assert(s.last_of(c) is Some);
    lemma_last_is_newest(s, c, j);
}

/// Following the links from the `j`-th operation of a walk, where each
/// operation links to the next, gives the rest of the walk.
proof fn lemma_walk_from(s: PluginView, w: Seq<ChainOperationView>, j: int)
    requires
        0 <= j < w.len(),
        walk_spec(s, Some(key_hash(w[0].key)), w.len()) == w,
        forall|i: int| 0 <= i < w.len() - 1 ==> #[trigger] w[i].previous_operation == Some(key_hash(w[i + 1].key)),
    ensures
        walk_spec(s, Some(key_hash(w[j].key)), (w.len() - j) as nat) == w.subrange(j, w.len() as int),
    decreases j,
{
    let n = w.len() as int;
    if j == 0 {
        assert(w.subrange(0, n) =~= w);
    } else {
        lemma_walk_from(s, w, j - 1);
        let prev = walk_spec(s, Some(key_hash(w[j - 1].key)), (n - j + 1) as nat);
        assert(prev == w.subrange(j - 1, n));
        assert(prev[0] == w[j - 1]);
        assert(w[j - 1].previous_operation == Some(key_hash(w[j].key)));
        let x = walk_spec(s, Some(key_hash(w[j].key)), (n - j) as nat);
        assert(prev == seq![w[j - 1]] + x);
        assert((seq![w[j - 1]] + x).drop_first() =~= x);
        assert(w.subrange(j - 1, n).drop_first() =~= w.subrange(j, n));
    }
}

/// The operations of a well linked chain, as plain facts: each links to
/// the next with a strictly earlier key, the oldest links to none, and they
/// are numbered down to zero.
proof fn lemma_chain_facts(s: PluginView, chain: ChainId)
    requires
        chain_well_linked(s, chain),
        s.last_of(chain) is Some,
    ensures
        ({
            let w = chain_operations(s, chain);
            &&& w.len() > 0
            &&& walk_spec(s, Some(key_hash(w[0].key)), w.len()) == w
            &&& w[w.len() - 1].previous_operation is None
            &&& forall|i: int|
                0 <= i < w.len() - 1 ==> #[trigger] w[i].previous_operation == Some(key_hash(w[i + 1].key))
                    && key_before(w[i + 1].key, w[i].key)
            &&& forall|i: int| 0 <= i < w.len() ==> #[trigger] w[i].index == w.len() - 1 - i && w[i].key.chain_id == chain
        }),
{
    let w = chain_operations(s, chain);
    assert(w[0].key == s.last_of(chain)->0);
}

/// Following the links from the `j`-th operation of such a chain for
/// `limit` steps gives the next operations of the chain, in downward order.
proof fn lemma_walk_tail(s: PluginView, w: Seq<ChainOperationView>, chain: ChainId, j: int, limit: nat)
    requires
        0 <= j < w.len(),
        walk_spec(s, Some(key_hash(w[0].key)), w.len()) == w,
        w[w.len() - 1].previous_operation is None,
        forall|i: int|
            0 <= i < w.len() - 1 ==> #[trigger] w[i].previous_operation == Some(key_hash(w[i + 1].key)) && key_before(
                w[i + 1].key,
                w[i].key,
            ),
        forall|i: int| 0 <= i < w.len() ==> #[trigger] w[i].index == w.len() - 1 - i && w[i].key.chain_id == chain,
    ensures
        ({
            let r = walk_spec(s, Some(key_hash(w[j].key)), limit);
            let o = w[j];
            &&& r.len() == if limit < o.index + 1 { limit } else { (o.index + 1) as nat }
            &&& r.len() > 0 ==> r[0] == o
            &&& forall|k: int|
                0 <= k < r.len() ==> (#[trigger] r[k]).key.chain_id == o.key.chain_id && r[k].index == o.index - k
                    && (k + 1 < r.len() ==> r[k].previous_operation == Some(key_hash(r[k + 1].key)) && key_before(
                    r[k + 1].key,
                    r[k].key,
                ))
        }),
{
    let n = w.len() as int;
    let h = Some(key_hash(w[j].key));
    lemma_walk_from(s, w, j);
    let rest = w.subrange(j, n);
    let m = (n - j) as nat;
    assert(w[j].index == n - 1 - j);
    let r = walk_spec(s, h, limit);
    if limit < m {
        lemma_walk_prefix(s, h, limit, m);
    } else {
        assert(rest[m - 1] == w[n - 1]);
        lemma_walk_ends(s, h, m, limit);
    }
    assert forall|k: int| 0 <= k < r.len() implies (#[trigger] r[k]).key.chain_id == w[j].key.chain_id && r[k].index
        == w[j].index - k && (k + 1 < r.len() ==> r[k].previous_operation == Some(key_hash(r[k + 1].key)) && key_before(
        r[k + 1].key,
        r[k].key,
    )) by {
        assert(r[k] == w[j + k]);
        assert(w[j + k].index == n - 1 - (j + k));
        if k + 1 < r.len() {
            assert(r[k + 1] == w[j + k + 1]);
            assert(w[j + k].previous_operation == Some(key_hash(w[j + k + 1].key)));
        }
    }
}

/// What `operations` gives from any recorded operation, in a state that
/// keeps the invariant: that operation and the older ones of its chain, at
/// most `limit` of them, in downward order: numbered down by one, keys
/// strictly decreasing, each linked to the next.
pub proof fn law_operations_from_hash(s: PluginView, hash: CryptoHash, limit: nat)
    requires
        plugin_inv(s),
        s.operation_of(hash) is Some,
    ensures
        ({
            let o = s.operation_of(hash)->0;
            let w = walk_spec(s, Some(hash), limit);
            &&& w.len() == if limit < o.index + 1 { limit } else { (o.index + 1) as nat }
            &&& w.len() > 0 ==> w[0] == o
            &&& forall|j: int|
                0 <= j < w.len() ==> (#[trigger] w[j]).key.chain_id == o.key.chain_id && w[j].index == o.index - j
                    && (j + 1 < w.len() ==> w[j].previous_operation == Some(key_hash(w[j + 1].key)) && key_before(
                    w[j + 1].key,
                    w[j].key,
                ))
        }),
{
    let hb = hash.bytes();
    let o = s.operations[hb];
    let c = o.key.chain_id;
    assert(s.operations.contains_key(hb));
    assert(hb == key_hash(o.key).bytes());
    lemma_hash_bytes_injective(hash, key_hash(o.key));
    let full = chain_operations(s, c);
    assert(full.contains(o));
    let j0 = choose|j: int| 0 <= j < full.len() && full[j] == o;
    assert(chain_well_linked(s, c));
    assert(s.last_of(c) is Some);
    lemma_chain_facts(s, c);
    lemma_walk_tail(s, full, c, j0, limit);
}

/// The keys of the first `n` operations of a block hash unlike the
/// registered keys and unlike each other.
pub open spec fn fresh_block(s: PluginView, chain: ChainId, height: BlockHeight, n: nat) -> bool {
    &&& forall|i: int| 0 <= i < n ==> fresh_key(s, #[trigger] block_key(chain, height, i))
    &&& forall|i: int, j: int|
        0 <= i < j < n ==> key_hash(#[trigger] block_key(chain, height, i)) != key_hash(
            #[trigger] block_key(chain, height, j),
        )
}

/// Registering a block files operations only under the hashes of its keys,
/// and counts at most one more per operation.
proof fn lemma_register_block_support(
    s: PluginView,
    chain: ChainId,
    height: BlockHeight,
    block: CryptoHash,
    ops: Seq<Seq<u8>>,
)
    ensures
        forall|hb: Seq<u8>|
            #[trigger] register_block_spec(s, chain, height, block, ops).operations.contains_key(hb) ==> s.operations.contains_key(
                hb,
            ) || exists|i: int| 0 <= i < ops.len() && hb == key_hash(#[trigger] block_key(chain, height, i)).bytes(),
        register_block_spec(s, chain, height, block, ops).count_of(chain) <= s.count_of(chain) + ops.len(),
    decreases ops.len(),
{
    if ops.len() > 0 {
        let d = ops.drop_last();
        lemma_register_block_support(s, chain, height, block, d);
        let u = register_block_spec(s, chain, height, block, d);
        let t = register_block_spec(s, chain, height, block, ops);
        let k = block_key(chain, height, ops.len() - 1);
        assert(t == register_operation_spec(u, k, block, ops.last()));
        assert forall|hb: Seq<u8>| #[trigger] t.operations.contains_key(hb) implies s.operations.contains_key(hb)
            || exists|i: int| 0 <= i < ops.len() && hb == key_hash(#[trigger] block_key(chain, height, i)).bytes() by {
            if hb != key_hash(k).bytes() {
                assert(u.operations.contains_key(hb));
                if !s.operations.contains_key(hb) {
                    let i = choose|i: int| 0 <= i < d.len() && hb == key_hash(#[trigger] block_key(chain, height, i)).bytes();
                    assert(0 <= i < ops.len() && hb == key_hash(block_key(chain, height, i)).bytes());
                }
            } else {
                assert(0 <= ops.len() - 1 < ops.len() && hb == key_hash(block_key(chain, height, ops.len() - 1)).bytes());
            }
        }
    }
}

/// How registering the first operations of a block moves the last key and
/// the count of its chain: nothing changes until the first new key, and from
/// there on each operation becomes the last one and adds one to the count.
proof fn lemma_register_block_count(
    s: PluginView,
    chain: ChainId,
    height: BlockHeight,
    block: CryptoHash,
    ops: Seq<Seq<u8>>,
)
    requires
        s.count_of(chain) + new_in_block(s.last_of(chain), height, ops.len()) <= u64::MAX,
        ops.len() <= usize::MAX,
    ensures
        ({
            let t = register_block_spec(s, chain, height, block, ops);
            let skip = ops.len() - new_in_block(s.last_of(chain), height, ops.len());
            &&& 0 <= skip <= ops.len()
            &&& ops.len() <= skip ==> t.last_of(chain) == s.last_of(chain) && t.count_of(chain) == s.count_of(chain)
            &&& ops.len() > skip ==> t.last_of(chain) == Some(block_key(chain, height, ops.len() - 1))
                && t.count_of(chain) == s.count_of(chain) + (ops.len() - skip)
        }),
    decreases ops.len(),
{
    if ops.len() > 0 {
        let d = ops.drop_last();
        lemma_register_block_count(s, chain, height, block, d);
        let u = register_block_spec(s, chain, height, block, d);
        let k = block_key(chain, height, ops.len() - 1);
        assert(k.index == ops.len() - 1);
        assert(register_block_spec(s, chain, height, block, ops) == register_operation_spec(u, k, block, ops.last()));
    }
}

/// Registering the operations of a block keeps the invariant, when their
/// keys hash unlike the registered keys and unlike each other.
pub proof fn law_register_block_keeps_inv(
    s: PluginView,
    chain: ChainId,
    height: BlockHeight,
    block: CryptoHash,
    ops: Seq<Seq<u8>>,
)
    requires
        plugin_inv(s),
        fresh_block(s, chain, height, ops.len()),
        s.count_of(chain) + new_in_block(s.last_of(chain), height, ops.len()) <= u64::MAX,
        ops.len() <= usize::MAX,
    ensures
        plugin_inv(register_block_spec(s, chain, height, block, ops)),
    decreases ops.len(),
{
    if ops.len() > 0 {
        let d = ops.drop_last();
        let n = ops.len() - 1;
        lemma_register_block_count(s, chain, height, block, d);
        assert(fresh_block(s, chain, height, d.len())) by {
            assert forall|i: int, j: int| 0 <= i < j < d.len() implies key_hash(#[trigger] block_key(chain, height, i))
                != key_hash(#[trigger] block_key(chain, height, j)) by {}
        }
        law_register_block_keeps_inv(s, chain, height, block, d);
        lemma_register_block_support(s, chain, height, block, d);
        let u = register_block_spec(s, chain, height, block, d);
        let k = block_key(chain, height, n);
        assert(fresh_key(u, k)) by {
            if u.operations.contains_key(key_hash(k).bytes()) {
                assert(fresh_key(s, block_key(chain, height, n)));
                let i = choose|i: int| 0 <= i < d.len() && key_hash(k).bytes() == key_hash(#[trigger] block_key(chain, height, i)).bytes();
                lemma_hash_bytes_injective(key_hash(k), key_hash(block_key(chain, height, i)));
                assert(key_hash(block_key(chain, height, i)) != key_hash(block_key(chain, height, n)));
            }
        }
        assert(register_block_spec(s, chain, height, block, ops) == register_operation_spec(u, k, block, ops.last()));
        law_register_keeps_inv(u, k, block, ops.last());
    }
}


/// The last operation of a chain, in a state that keeps the invariant: a
/// chain has one exactly when it counts operations, and it is recorded under
/// the hash of the chain's last key, numbered one below the count.
pub proof fn law_last_operation(s: PluginView, chain: ChainId)
    requires
        plugin_inv(s),
    ensures
        s.last_of(chain) is None <==> s.count_of(chain) == 0,
        s.last_of(chain) matches Some(k) ==> s.operation_of(key_hash(k)) matches Some(op) && op.key == k && op.index
            == s.count_of(chain) - 1,
{
    assert(chain_well_linked(s, chain));
    if let Some(k) = s.last_of(chain) {
        lemma_chain_facts(s, chain);
        let w = chain_operations(s, chain);
        assert(walk_spec(s, Some(key_hash(k)), w.len())[0] == w[0]);
    }
}

} // verus!
