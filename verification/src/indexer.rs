//! The indexer: which values to process, and the last block recorded per
//! chain.
use crate::byte_map::ByteMap;
use crate::bytes::{lex_lt, strictly_sorted};
use crate::chain::HashedValue;
use crate::crypto::{BlockHeight, ChainId, CryptoHash};
use vstd::prelude::*;
use vstd::string::StringSliceAdditionalSpecFns;
use vstd::utf8::encode_utf8;

verus! {

/// The errors of the indexer logic.
#[derive(Debug)]
pub enum IndexerError {
    /// No plugin of that name is registered.
    UnknownPlugin(String),
    /// A plugin of that name was registered already.
    PluginAlreadyRegistered,
    /// A block could not be found.
    NotFound(CryptoHash),
    /// A block came with a status other than `validated` or `confirmed`.
    UnexpectedBlockStatus(String),
}

/// What the indexer is asked to do.
#[derive(Debug)]
pub enum IndexerCommand {
    Run,
    Schema,
}

/// `register` took the plugin named `name`.
pub open spec fn plugin_call_ok<E, F: Fn(String) -> Result<(), E>>(register: F, name: Seq<char>) -> bool {
    exists|n: String| n@ == name && #[trigger] register.ensures((n,), Ok::<(), E>(()))
}

/// `register` refused the plugin named `name` with `e`.
pub open spec fn plugin_call_err<E, F: Fn(String) -> Result<(), E>>(register: F, name: Seq<char>, e: E) -> bool {
    exists|n: String| n@ == name && #[trigger] register.ensures((n,), Err::<(), E>(e))
}

/// The last block recorded for a chain.
#[derive(Debug)]
pub struct LastBlock {
    pub chain: ChainId,
    pub block: Option<CryptoHash>,
    pub height: Option<BlockHeight>,
}

/// How to go on with a value whose chain is behind: process it now, or first
/// fetch (and process) the block before it.
#[derive(Debug)]
pub enum CatchUp {
    Process,
    FetchPrevious(CryptoHash),
}

/// The state of the indexer: per chain (by the bytes of its identifier) the
/// chain, the hash and the height of the last block recorded; the plugins
/// recorded in the state, and those of the indexer (by the UTF-8 bytes of
/// their names).
pub struct IndexerView {
    pub chains: Map<Seq<u8>, (ChainId, CryptoHash, BlockHeight)>,
    pub state_plugins: Map<Seq<u8>, Seq<char>>,
    pub plugins: Map<Seq<u8>, Seq<char>>,
}

impl IndexerView {
    /// The hash and height of the last block recorded for `chain`.
    pub open spec fn last_of(self, chain: ChainId) -> Option<(CryptoHash, BlockHeight)> {
        if self.chains.contains_key(chain.0.bytes()) {
            Some((self.chains[chain.0.bytes()].1, self.chains[chain.0.bytes()].2))
        } else {
            None
        }
    }
}

/// Where processing `value` starts: `None` to skip it (below the starting
/// height, or not newer than the block recorded for its chain), else the
/// hash of the block recorded for its chain, back to which earlier blocks
/// are processed first.
pub open spec fn process_spec(
    s: IndexerView,
    start: BlockHeight,
    chain: ChainId,
    hash: CryptoHash,
    height: BlockHeight,
) -> Option<Option<CryptoHash>> {
    if height.0 < start.0 {
        None
    } else {
        match s.last_of(chain) {
            None => Some(None),
            Some((last_hash, last_height)) => if last_hash == hash || last_height.0 >= height.0 {
                None
            } else {
                Some(Some(last_hash))
            },
        }
    }
}

/// Which values `process` takes on: none below the starting height, whether
/// or not its chain is recorded; at or above it, every value of a chain not
/// yet recorded (with nothing to catch up to), and a value of a recorded
/// chain exactly when it is higher than the last block recorded and not that
/// block, catching up from it.
pub proof fn law_process_decision(
    s: IndexerView,
    start: BlockHeight,
    chain: ChainId,
    hash: CryptoHash,
    height: BlockHeight,
)
    ensures
        height.0 < start.0 ==> process_spec(s, start, chain, hash, height) is None,
        height.0 >= start.0 && s.last_of(chain) is None ==> process_spec(s, start, chain, hash, height) == Some(
            None::<CryptoHash>,
        ),
        s.last_of(chain) matches Some((h, lh)) ==> (process_spec(s, start, chain, hash, height) is Some <==> (
        height.0 >= start.0 && h != hash && lh.0 < height.0)),
        s.last_of(chain) matches Some((h, lh)) ==> (process_spec(s, start, chain, hash, height) is Some
            ==> process_spec(s, start, chain, hash, height) == Some(Some(h))),
{
}

/// The indexer.
pub struct Indexer {
    chains: ByteMap<(ChainId, CryptoHash, BlockHeight)>,
    state_plugins: ByteMap<String>,
    plugins: ByteMap<String>,
}

impl View for Indexer {
    type V = IndexerView;

    closed spec fn view(&self) -> IndexerView {
        IndexerView {
            chains: self.chains.map(),
            state_plugins: self.state_plugins.map(),
            plugins: self.plugins.map(),
        }
    }
}

impl Indexer {
    pub closed spec fn wf(&self) -> bool {
        &&& self.chains.wf()
        &&& self.state_plugins.wf()
        &&& self.plugins.wf()
        &&& forall|i: int|
            0 <= i < self.chains.keys().len() ==> #[trigger] self.chains.keys()[i] == self.chains.vals()[i].0.0.bytes()
    }

    /// The recorded chains in increasing order of the bytes of their
    /// identifiers, with their last block.
    pub closed spec fn chains_in_order(&self) -> Seq<(ChainId, CryptoHash, BlockHeight)> {
        self.chains.vals()
    }

    /// The plugins recorded in the state, in increasing order of name.
    pub closed spec fn plugins_in_order(&self) -> Seq<Seq<char>> {
        self.state_plugins.vals()
    }

    /// The ordered listings hold exactly what the maps hold; the chains are
    /// listed in strictly increasing order of the bytes of their identifiers
    /// (so each at most once).
    pub proof fn lemma_listings(&self)
        requires
            self.wf(),
        ensures
            forall|i: int|
                0 <= i < self.chains_in_order().len() ==> #[trigger] self@.chains.contains_key(
                    self.chains_in_order()[i].0.0.bytes(),
                ) && self@.chains[self.chains_in_order()[i].0.0.bytes()] == self.chains_in_order()[i],
            self.chains_in_order().len() == self@.chains.dom().len(),
            self.plugins_in_order().len() == self@.state_plugins.dom().len(),
            forall|i: int, j: int|
                0 <= i < j < self.chains_in_order().len() ==> lex_lt(
                    (#[trigger] self.chains_in_order()[i]).0.0.bytes(),
                    (#[trigger] self.chains_in_order()[j]).0.0.bytes(),
                ),
    {
        assert forall|i: int, j: int|
            0 <= i < j < self.chains_in_order().len() implies lex_lt(
            (#[trigger] self.chains_in_order()[i]).0.0.bytes(),
            (#[trigger] self.chains_in_order()[j]).0.0.bytes(),
        ) by {
            assert(self.chains.keys()[i] == self.chains.vals()[i].0.0.bytes());
            assert(self.chains.keys()[j] == self.chains.vals()[j].0.0.bytes());
        }
        self.chains.lemma_map_facts();
        self.state_plugins.lemma_map_facts();
        assert forall|i: int| 0 <= i < self.chains_in_order().len() implies #[trigger] self@.chains.contains_key(
            self.chains_in_order()[i].0.0.bytes(),
        ) && self@.chains[self.chains_in_order()[i].0.0.bytes()] == self.chains_in_order()[i] by {
            assert(self.chains.keys()[i] == self.chains.vals()[i].0.0.bytes());
            assert(self.chains.map().contains_key(self.chains.keys()[i]));
        }
    }

    /// An indexer with nothing recorded and no plugin.
    pub fn load() -> (r: Self)
        ensures
            r.wf(),
            r@.chains == Map::<Seq<u8>, (ChainId, CryptoHash, BlockHeight)>::empty(),
            r@.state_plugins == Map::<Seq<u8>, Seq<char>>::empty(),
            r@.plugins == Map::<Seq<u8>, Seq<char>>::empty(),
    {
        Indexer { chains: ByteMap::new(), state_plugins: ByteMap::new(), plugins: ByteMap::new() }
    }

    /// Decides whether `value` is processed: `None` to skip it, else the hash
    /// of the last recorded block of its chain (if any), back to which the
    /// earlier blocks are processed first.
    pub fn process(&self, start: BlockHeight, value: &HashedValue) -> (r: Option<Option<CryptoHash>>)
        requires
            self.wf(),
        ensures
            r == process_spec(
                self@,
                start,
                value.value.executed().block.chain_id,
                value.hash,
                value.value.executed().block.height,
            ),
    {
        let chain_id = value.inner().chain_id();
        let hash = value.hash();
        let height = value.inner().height();
        if height.0 < start.0 {
            return None;
        }
        let key = chain_id.bcs_bytes();
        match self.chains.get(key.as_slice()) {
            None => Some(None),
            Some(entry) => {
                let last_hash = entry.1;
                let last_height = entry.2;
                if last_hash == hash || last_height.0 >= height.0 {
                    None
                } else {
                    Some(Some(last_hash))
                }
            },
        }
    }

    /// Whether the block before `value` must be fetched and processed first:
    /// it must unless `value` starts its chain or the block before it is the
    /// last one recorded (`last_hash`).
    pub fn process_rec_step(value: &HashedValue, last_hash: Option<CryptoHash>) -> (r: CatchUp)
        ensures
            match value.value.executed().block.previous_block_hash {
                None => r is Process,
                Some(h) => if Some(h) != last_hash {
                    r == CatchUp::FetchPrevious(h)
                } else {
                    r is Process
                },
            },
    {
        match value.inner().block().previous_block_hash {
            None => CatchUp::Process,
            Some(h) => {
                if Some(h) != last_hash {
                    CatchUp::FetchPrevious(h)
                } else {
                    CatchUp::Process
                }
            },
        }
    }

    /// Records the block of `value` as the last one of its chain.
    pub fn process_value(&mut self, value: &HashedValue)
        requires
            old(self).wf(),
        ensures
            final(self).wf(),
            final(self)@.chains == old(self)@.chains.insert(
                value.value.executed().block.chain_id.0.bytes(),
                (value.value.executed().block.chain_id, value.hash, value.value.executed().block.height),
            ),
            final(self)@.state_plugins == old(self)@.state_plugins,
            final(self)@.plugins == old(self)@.plugins,
    {
        let chain_id = value.inner().chain_id();
        let hash = value.hash();
        let height = value.inner().height();
        let ghost old_keys = self.chains.keys();
        let ghost old_vals = self.chains.vals();
        proof {
            self.chains.lemma_map_facts();
        }
        self.chains.insert(chain_id.bcs_bytes(), (chain_id, hash, height));
        proof {
            self.chains.lemma_map_facts();
            assert forall|i: int| 0 <= i < self.chains.keys().len() implies #[trigger] self.chains.keys()[i]
                == self.chains.vals()[i].0.0.bytes() by {
                let k = self.chains.keys()[i];
                assert(self.chains.map().contains_key(k));
                if k != chain_id.0.bytes() {
                    assert(old(self).chains.map().contains_key(k));
                    let j = choose|j: int| 0 <= j < old_keys.len() && old_keys[j] == k;
                    assert(old(self).chains.map()[old_keys[j]] == old_vals[j]);
                }
            }
        }
    }

    /// The names of the registered plugins, in increasing order of their
    /// UTF-8 bytes.
    pub closed spec fn registered_plugins(&self) -> Seq<Seq<char>> {
        self.plugins.vals()
    }

    /// The byte keys of the registered plugins, in the order of
    /// `registered_plugins`.
    pub closed spec fn registered_plugin_keys(&self) -> Seq<Seq<u8>> {
        self.plugins.keys()
    }

    /// The registered plugins are the entries of `@.plugins`, listed in
    /// strictly increasing order of their keys.
    pub proof fn lemma_registered_plugins(&self)
        requires
            self.wf(),
        ensures
            self.registered_plugins().len() == self.registered_plugin_keys().len(),
            strictly_sorted(self.registered_plugin_keys()),
            forall|i: int|
                0 <= i < self.registered_plugins().len() ==> #[trigger] self@.plugins.contains_key(
                    self.registered_plugin_keys()[i],
                ) && self@.plugins[self.registered_plugin_keys()[i]] == self.registered_plugins()[i],
            forall|k: Seq<u8>| #[trigger] self@.plugins.contains_key(k) <==> self.registered_plugin_keys().contains(k),
    {
        self.plugins.lemma_map_facts();
    }

    /// Hands `value` to every registered plugin through `register`, in
    /// increasing order of name, and stops at the first error, leaving the
    /// indexer as it was; when every plugin took it, records its block as
    /// the last one of its chain.
    pub fn process_value_with<E, F: Fn(String) -> Result<(), E>>(&mut self, value: &HashedValue, register: F) -> (r:
        Result<(), E>)
        requires
            old(self).wf(),
            forall|n: String| #[trigger] register.requires((n,)),
        ensures
            final(self).wf(),
            match r {
                Ok(()) => {
                    &&& forall|i: int|
                        0 <= i < old(self).registered_plugins().len() ==> #[trigger] plugin_call_ok(
                            register,
                            old(self).registered_plugins()[i],
                        )
                    &&& final(self)@.chains == old(self)@.chains.insert(
                        value.value.executed().block.chain_id.0.bytes(),
                        (value.value.executed().block.chain_id, value.hash, value.value.executed().block.height),
                    )
                    &&& final(self)@.state_plugins == old(self)@.state_plugins
                    &&& final(self)@.plugins == old(self)@.plugins
                },
                Err(e) => {
                    &&& exists|i: int|
                        0 <= i < old(self).registered_plugins().len() && #[trigger] plugin_call_err(
                            register,
                            old(self).registered_plugins()[i],
                            e,
                        ) && forall|j: int|
                            0 <= j < i ==> #[trigger] plugin_call_ok(register, old(self).registered_plugins()[j])
                    &&& final(self)@ == old(self)@
                },
            },
    {
        let ghost names = self.registered_plugins();
        let mut i: usize = 0;
        while i < self.plugins.len()
            invariant
                self.wf(),
                names == self.registered_plugins(),
                *self == *old(self),
                i <= names.len(),
                forall|n: String| #[trigger] register.requires((n,)),
                forall|j: int| 0 <= j < i ==> #[trigger] plugin_call_ok(register, names[j]),
            decreases names.len() - i,
        {
            let name = self.plugins.value_at(i).clone();
            let ghost arg = name;
            assert(arg@ == names[i as int]);
            let res = register(name);
            match res {
                Ok(u) => {
                    assert(res == Ok::<(), E>(()));
                    assert(register.ensures((arg,), Ok::<(), E>(())));
                    assert(plugin_call_ok(register, names[i as int]));
                },
                Err(e) => {
                    assert(plugin_call_err(register, names[i as int], e));
                    return Err(e);
                },
            }
            i += 1;
        }
        self.process_value(value);
        Ok(())
    }

    /// Registers a plugin under `name`; an error if one of that name is
    /// registered already.
    pub fn add_plugin(&mut self, name: String) -> (r: Result<(), IndexerError>)
        requires
            old(self).wf(),
        ensures
            final(self).wf(),
            final(self)@.chains == old(self)@.chains,
            old(self)@.plugins.contains_key(encode_utf8(name@)) ==> r is Err && r->Err_0 is PluginAlreadyRegistered
                && final(self)@ == old(self)@,
            !old(self)@.plugins.contains_key(encode_utf8(name@)) ==> r is Ok && final(self)@.plugins
                == old(self)@.plugins.insert(encode_utf8(name@), name@) && final(self)@.state_plugins
                == old(self)@.state_plugins.insert(encode_utf8(name@), name@),
    {
        let key = name.as_str().as_bytes();
        if self.plugins.contains_key(key) {
            return Err(IndexerError::PluginAlreadyRegistered);
        }
        let k1 = crate::bytes::copy_bytes(key);
        let k2 = crate::bytes::copy_bytes(key);
        let copy = name.clone();
        assert(copy.deep_view() == name@);
        assert(name.deep_view() == name@);
        self.plugins.insert(k1, name);
        self.state_plugins.insert(k2, copy);
        Ok(())
    }

    /// Which schema to print: `None` for the indexer's own, the name of a
    /// registered plugin for that plugin's; an error for an unknown plugin.
    pub fn sdl(&self, plugin: Option<String>) -> (r: Result<Option<String>, IndexerError>)
        requires
            self.wf(),
        ensures
            match plugin {
                None => r == Ok::<Option<String>, IndexerError>(None),
                Some(name) => if self@.plugins.contains_key(encode_utf8(name@)) {
                    r is Ok && r->Ok_0 is Some && r->Ok_0->0@ == name@
                } else {
                    r is Err && r->Err_0 is UnknownPlugin && r->Err_0->UnknownPlugin_0@ == name@
                },
            },
    {
        match plugin {
            None => Ok(None),
            Some(name) => {
                if self.plugins.contains_key(name.as_str().as_bytes()) {
                    Ok(Some(name))
                } else {
                    Err(IndexerError::UnknownPlugin(name))
                }
            },
        }
    }

    /// The names of the plugins recorded in the state, in increasing order.
    pub fn plugins(&self) -> (r: Vec<String>)
        requires
            self.wf(),
        ensures
            r@.len() == self.plugins_in_order().len(),
            forall|i: int| 0 <= i < r@.len() ==> #[trigger] r@[i]@ == self.plugins_in_order()[i],
    {
        let mut r: Vec<String> = Vec::new();
        let mut i: usize = 0;
        while i < self.state_plugins.len()
            invariant
                self.wf(),
                i <= self.plugins_in_order().len(),
                r@.len() == i,
                forall|t: int| 0 <= t < i ==> #[trigger] r@[t]@ == self.plugins_in_order()[t],
            decreases self.plugins_in_order().len() - i,
        {
            let name = self.state_plugins.value_at(i).clone();
            r.push(name);
            i += 1;
        }
        r
    }

    /// The last block recorded for each chain, in increasing order of the
    /// bytes of the chain identifiers.
    pub fn state(&self) -> (r: Vec<LastBlock>)
        requires
            self.wf(),
        ensures
            r@.len() == self.chains_in_order().len(),
            forall|i: int|
                0 <= i < r@.len() ==> (#[trigger] r@[i]).chain == self.chains_in_order()[i].0 && r@[i].block
                    == Some(self.chains_in_order()[i].1) && r@[i].height == Some(self.chains_in_order()[i].2),
    {
        let mut r: Vec<LastBlock> = Vec::new();
        let mut i: usize = 0;
        while i < self.chains.len()
            invariant
                self.wf(),
                i <= self.chains_in_order().len(),
                r@.len() == i,
                forall|t: int|
                    0 <= t < i ==> (#[trigger] r@[t]).chain == self.chains_in_order()[t].0 && r@[t].block
                        == Some(self.chains_in_order()[t].1) && r@[t].height == Some(self.chains_in_order()[t].2),
            decreases self.chains_in_order().len() - i,
        {
            let entry = self.chains.value_at(i);
            r.push(LastBlock { chain: entry.0, block: Some(entry.1), height: Some(entry.2) });
            i += 1;
        }
        r
    }
}

/// Once a block is recorded for its chain (as `process_value` records it),
/// that block, and any block of the chain that is not higher, is skipped.
pub proof fn law_recorded_block_skipped(
    before: IndexerView,
    after: IndexerView,
    start: BlockHeight,
    chain: ChainId,
    hash: CryptoHash,
    height: BlockHeight,
    other_hash: CryptoHash,
    other_height: BlockHeight,
)
    requires
        after.chains == before.chains.insert(chain.0.bytes(), (chain, hash, height)),
        other_hash == hash || other_height.0 <= height.0,
    ensures
        after.last_of(chain) == Some((hash, height)),
        process_spec(after, start, chain, other_hash, other_height) is None,
{
}

/// A block higher than the last recorded one of its chain, and not below
/// the starting height, is processed after the blocks back to the recorded
/// one.
pub proof fn law_higher_block_processed(
    s: IndexerView,
    start: BlockHeight,
    chain: ChainId,
    hash: CryptoHash,
    height: BlockHeight,
    last_hash: CryptoHash,
    last_height: BlockHeight,
)
    requires
        height.0 >= start.0,
        s.last_of(chain) == Some((last_hash, last_height)),
        last_hash != hash,
        last_height.0 < height.0,
    ensures
        process_spec(s, start, chain, hash, height) == Some(Some(last_hash)),
{
}

/// A plugin name can be registered once: after it is registered, it is
/// refused.
pub proof fn law_plugin_registered_once(before: IndexerView, after: IndexerView, name: String)
    requires
        after.plugins == before.plugins.insert(encode_utf8(name@), name@),
    ensures
        after.plugins.contains_key(encode_utf8(name@)),
{
}

/// A block that `process` does not skip is higher than the last one
/// recorded for its chain, so recording it (as `process_value` does) never
/// lowers the recorded height of the chain.
pub proof fn law_process_raises_height(
    before: IndexerView,
    after: IndexerView,
    start: BlockHeight,
    chain: ChainId,
    hash: CryptoHash,
    height: BlockHeight,
)
    requires
        process_spec(before, start, chain, hash, height) is Some,
        after.chains == before.chains.insert(chain.0.bytes(), (chain, hash, height)),
    ensures
        before.last_of(chain) matches Some(last) ==> last.1.0 < height.0,
        after.last_of(chain) == Some((hash, height)),
{
}

/// The chains recorded after recording each of `vs` in turn, oldest first,
/// as `process_value` does for the blocks of a catch-up.
pub open spec fn record_all(
    chains: Map<Seq<u8>, (ChainId, CryptoHash, BlockHeight)>,
    vs: Seq<(ChainId, CryptoHash, BlockHeight)>,
) -> Map<Seq<u8>, (ChainId, CryptoHash, BlockHeight)>
    decreases vs.len(),
{
    if vs.len() == 0 {
        chains
    } else {
        record_all(chains, vs.drop_last()).insert(vs.last().0.0.bytes(), vs.last())
    }
}

/// Recording blocks of one chain leaves every other chain as it was.
proof fn lemma_record_all_others(
    chains: Map<Seq<u8>, (ChainId, CryptoHash, BlockHeight)>,
    vs: Seq<(ChainId, CryptoHash, BlockHeight)>,
    c: Seq<u8>,
    d: Seq<u8>,
)
    requires
        forall|i: int| 0 <= i < vs.len() ==> (#[trigger] vs[i]).0.0.bytes() == c,
        d != c,
    ensures
        record_all(chains, vs).contains_key(d) == chains.contains_key(d),
        record_all(chains, vs)[d] == chains[d],
    decreases vs.len(),
{
    if vs.len() > 0 {
        let w = vs.drop_last();
        assert forall|i: int| 0 <= i < w.len() implies (#[trigger] w[i]).0.0.bytes() == c by {
            assert(w[i] == vs[i]);
        }
        lemma_record_all_others(chains, w, c, d);
        assert(vs[vs.len() - 1].0.0.bytes() == c);
    }
}

/// A whole catch-up run: when `process` does not skip the newest value of a
/// chain, and the blocks fetched back to the one recorded are recorded
/// oldest first with that value last, all of that chain, the chain ends
/// recorded at the value, higher than it was, and every other chain is left
/// as it was.
pub proof fn law_catch_up_run(before: IndexerView, start: BlockHeight, vs: Seq<(ChainId, CryptoHash, BlockHeight)>)
    requires
        vs.len() > 0,
        process_spec(before, start, vs.last().0, vs.last().1, vs.last().2) is Some,
        forall|i: int| 0 <= i < vs.len() ==> (#[trigger] vs[i]).0 == vs.last().0,
    ensures
        ({
            let after = IndexerView {
                chains: record_all(before.chains, vs),
                state_plugins: before.state_plugins,
                plugins: before.plugins,
            };
            &&& after.last_of(vs.last().0) == Some((vs.last().1, vs.last().2))
            &&& (before.last_of(vs.last().0) matches Some(l) ==> l.1.0 < vs.last().2.0)
            &&& forall|d: ChainId| d.0.bytes() != vs.last().0.0.bytes() ==> after.last_of(d) == before.last_of(d)
        }),
{
    let c = vs.last().0;
    let after = IndexerView { chains: record_all(before.chains, vs), state_plugins: before.state_plugins, plugins: before.plugins };
    assert forall|d: ChainId| d.0.bytes() != c.0.bytes() implies after.last_of(d) == before.last_of(d) by {
        let w = vs.drop_last();
        assert forall|i: int| 0 <= i < w.len() implies (#[trigger] w[i]).0.0.bytes() == c.0.bytes() by {
            assert(w[i] == vs[i]);
        }
        lemma_record_all_others(before.chains, w, c.0.bytes(), d.0.bytes());
    }
}

/// The hash of the block before the block of `v`, if any.
pub open spec fn previous_of(v: HashedValue) -> Option<CryptoHash> {
    v.value.executed().block.previous_block_hash
}

/// The values of a catch-up in the order they are processed. `pending`
/// holds the value to index first, then each block fetched before the one
/// ahead of it, so they are processed from the last fetched to the value.
pub fn processing_order(pending: Vec<HashedValue>) -> (r: Vec<HashedValue>)
    ensures
        r@ == pending@.reverse(),
{
    let mut pending = pending;
    let ghost all = pending@;
    let mut r: Vec<HashedValue> = Vec::new();
    while pending.len() > 0
        invariant
            pending@ == all.subrange(0, pending@.len() as int),
            pending@.len() <= all.len(),
            r@ == all.subrange(pending@.len() as int, all.len() as int).reverse(),
        decreases pending@.len(),
    {
        let ghost n = pending@.len();
        let v = pending.pop().unwrap();
        r.push(v);
        assert(r@ =~= all.subrange(n - 1, all.len() as int).reverse());
        assert(pending@ =~= all.subrange(0, n - 1));
    }
    assert(all.subrange(0, all.len() as int) =~= all);
    r
}

/// A catch-up processes each block right after the block it follows: when
/// each block after the first of `pending` was fetched because the one
/// ahead of it named it as its previous block (and that was not the last
/// block recorded), and the catch-up stopped where the step says to process,
/// then in processing order the first block follows the last one recorded
/// (or starts its chain), and each other block follows the one processed
/// just before it.
pub proof fn law_catch_up_order(pending: Seq<HashedValue>, last_hash: Option<CryptoHash>)
    requires
        pending.len() > 0,
        forall|i: int|
            0 <= i < pending.len() - 1 ==> previous_of(#[trigger] pending[i]) == Some(pending[i + 1].hash)
                && previous_of(pending[i]) != last_hash,
        previous_of(pending.last()) is None || previous_of(pending.last()) == last_hash,
    ensures
        ({
            let order = pending.reverse();
            &&& order.len() == pending.len()
            &&& order.last() == pending[0]
            &&& previous_of(order[0]) is None || previous_of(order[0]) == last_hash
            &&& forall|j: int| 1 <= j < order.len() ==> previous_of(#[trigger] order[j]) == Some(order[j - 1].hash)
        }),
{
    let order = pending.reverse();
    let n = pending.len() as int;
    assert forall|j: int| 1 <= j < order.len() implies previous_of(#[trigger] order[j]) == Some(order[j - 1].hash) by {
        assert(order[j] == pending[n - 1 - j]);
        assert(order[j - 1] == pending[n - 1 - j + 1]);
    }
}

/// What one call of `process` leaves recorded, for a catch-up `vs` (the
/// blocks fetched back, oldest first, then the value): nothing changes when
/// the value is skipped; otherwise each block of `vs` is recorded in turn.
pub open spec fn process_run_step(
    s: IndexerView,
    start: BlockHeight,
    vs: Seq<(ChainId, CryptoHash, BlockHeight)>,
) -> IndexerView {
    if vs.len() > 0 && process_spec(s, start, vs.last().0, vs.last().1, vs.last().2) is Some {
        IndexerView { chains: record_all(s.chains, vs), state_plugins: s.state_plugins, plugins: s.plugins }
    } else {
        s
    }
}

/// What a run of `process` calls leaves recorded, one catch-up per call.
pub open spec fn process_run(
    s: IndexerView,
    start: BlockHeight,
    calls: Seq<Seq<(ChainId, CryptoHash, BlockHeight)>>,
) -> IndexerView
    decreases calls.len(),
{
    if calls.len() == 0 {
        s
    } else {
        process_run_step(process_run(s, start, calls.drop_last()), start, calls.last())
    }
}

/// Over a run of `process` calls, each of whose catch-ups holds blocks of
/// one chain, the recorded height of no chain ever decreases, and a chain
/// once recorded stays recorded.
pub proof fn law_process_run_never_lowers(
    s: IndexerView,
    start: BlockHeight,
    calls: Seq<Seq<(ChainId, CryptoHash, BlockHeight)>>,
    c: ChainId,
)
    requires
        forall|i: int, j: int|
            0 <= i < calls.len() && 0 <= j < calls[i].len() ==> (#[trigger] calls[i][j]).0 == calls[i].last().0,
    ensures
        s.last_of(c) matches Some(l) ==> process_run(s, start, calls).last_of(c) matches Some(m) && l.1.0
            <= m.1.0,
    decreases calls.len(),
{
    if calls.len() > 0 {
        let earlier = calls.drop_last();
        assert forall|i: int, j: int| 0 <= i < earlier.len() && 0 <= j < earlier[i].len() implies (
        #[trigger] earlier[i][j]).0 == earlier[i].last().0 by {
            assert(earlier[i] == calls[i]);
            assert(calls[i][j].0 == calls[i].last().0);
        }
        law_process_run_never_lowers(s, start, earlier, c);
        let u = process_run(s, start, earlier);
        let vs = calls.last();
        if vs.len() > 0 && process_spec(u, start, vs.last().0, vs.last().1, vs.last().2) is Some {
            assert forall|j: int| 0 <= j < vs.len() implies (#[trigger] vs[j]).0 == vs.last().0 by {
                assert(calls[calls.len() - 1][j].0 == calls[calls.len() - 1].last().0);
            }
            law_catch_up_run(u, start, vs);
            if c.0.bytes() == vs.last().0.0.bytes() {
                assert(u.last_of(c) == u.last_of(vs.last().0));
                assert(process_run(s, start, calls).last_of(c) == process_run(s, start, calls).last_of(vs.last().0));
            }
        }
    }
}

} // verus!
