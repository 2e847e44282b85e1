//! What a contract hands back to the execution runtime, and its conversion
//! into the types of the runtime's interface. Effects, values and session
//! states are carried in BCS form, as the contract serialized them.
use crate::bytes::copy_bytes;
use crate::chain::copy_byte_lists;
use crate::crypto::{BlockHeight, ChainId, CryptoHash};
use vstd::prelude::*;

verus! {

/// The identifier of an effect: where and in which block it was created.
#[derive(PartialEq, Eq, Structural, Clone, Copy, Debug)]
pub struct EffectId {
    pub chain_id: ChainId,
    pub height: BlockHeight,
    pub index: u64,
}

/// The identifier of published bytecode: the effect that published it.
#[derive(PartialEq, Eq, Structural, Clone, Copy, Debug)]
pub struct BytecodeId {
    pub effect_id: EffectId,
}

/// The identifier of an application: its bytecode and the effect that
/// created it.
#[derive(PartialEq, Eq, Structural, Clone, Copy, Debug)]
pub struct ApplicationId {
    pub bytecode_id: BytecodeId,
    pub creation: EffectId,
}

/// The identifier of a session: the application that owns it and its index.
#[derive(PartialEq, Eq, Structural, Clone, Copy, Debug)]
pub struct SessionId {
    pub application_id: ApplicationId,
    pub index: u64,
}

/// The name of a channel.
pub struct ChannelName(pub Vec<u8>);

/// Where an effect goes: one chain, or the subscribers of a channel.
pub enum Destination {
    Recipient(ChainId),
    Subscribers(ChannelName),
}

/// The level of a log message.
#[derive(PartialEq, Eq, Structural, Clone, Copy, Debug)]
pub enum Level {
    Error,
    Warn,
    Info,
    Debug,
    Trace,
}

/// What an operation or an effect produced: effects to send (each with its
/// destination, whether it is authenticated, and its BCS bytes), and the
/// channels to subscribe to and to leave.
pub struct ExecutionResult {
    pub effects: Vec<(Destination, bool, Vec<u8>)>,
    pub subscribe: Vec<(ChannelName, ChainId)>,
    pub unsubscribe: Vec<(ChannelName, ChainId)>,
}

/// What a call of an application gives back: the value (BCS bytes), the
/// execution result and the states of the sessions it creates (BCS bytes).
pub struct ApplicationCallResult {
    pub value: Vec<u8>,
    pub execution_result: ExecutionResult,
    pub create_sessions: Vec<Vec<u8>>,
}

/// What a call of a session gives back: the result of the call and the new
/// state of the session (BCS bytes), if it goes on.
pub struct SessionCallResult {
    pub inner: ApplicationCallResult,
    pub new_state: Option<Vec<u8>>,
}

/// A hash as the runtime's interface holds it: four 64-bit words.
#[derive(PartialEq, Eq, Structural, Clone, Copy, Debug)]
pub struct WitCryptoHash {
    pub part1: u64,
    pub part2: u64,
    pub part3: u64,
    pub part4: u64,
}

/// An effect identifier in the runtime's interface.
#[derive(PartialEq, Eq, Structural, Clone, Copy, Debug)]
pub struct WitEffectId {
    pub chain_id: WitCryptoHash,
    pub height: u64,
    pub index: u64,
}

/// An application identifier in the runtime's interface.
#[derive(PartialEq, Eq, Structural, Clone, Copy, Debug)]
pub struct WitApplicationId {
    pub bytecode_id: WitEffectId,
    pub creation: WitEffectId,
}

/// A session identifier in the runtime's interface.
#[derive(PartialEq, Eq, Structural, Clone, Copy, Debug)]
pub struct WitSessionId {
    pub application_id: WitApplicationId,
    pub index: u64,
}

/// A log level in the runtime's interface.
#[derive(PartialEq, Eq, Structural, Clone, Copy, Debug)]
pub enum WitLogLevel {
    Trace,
    Debug,
    Info,
    Warn,
    Error,
}

/// A channel name in the runtime's interface.
pub struct WitChannelName {
    pub name: Vec<u8>,
}

/// A destination in the runtime's interface.
pub enum WitDestination {
    Recipient(WitCryptoHash),
    Subscribers(WitChannelName),
}

/// An execution result in the runtime's interface.
pub struct WitExecutionResult {
    pub effects: Vec<(WitDestination, bool, Vec<u8>)>,
    pub subscribe: Vec<(WitChannelName, WitCryptoHash)>,
    pub unsubscribe: Vec<(WitChannelName, WitCryptoHash)>,
}

/// The result of an application call in the runtime's interface.
pub struct WitApplicationCallResult {
    pub value: Vec<u8>,
    pub execution_result: WitExecutionResult,
    pub create_sessions: Vec<Vec<u8>>,
}

/// The result of a session call in the runtime's interface.
pub struct WitSessionCallResult {
    pub inner: WitApplicationCallResult,
    pub new_state: Option<Vec<u8>>,
}

/// A polled execution result in the runtime's interface.
pub enum PollExecutionResult {
    Pending,
    Ready(Result<WitExecutionResult, String>),
}

/// A polled application call in the runtime's interface.
pub enum PollCallApplication {
    Pending,
    Ready(Result<WitApplicationCallResult, String>),
}

/// A polled session call in the runtime's interface.
pub enum PollCallSession {
    Pending,
    Ready(Result<WitSessionCallResult, String>),
}

/// A destination, by its contents.
pub enum DestinationView {
    Recipient(ChainId),
    Subscribers(Seq<u8>),
}

/// An execution result, by its contents.
pub struct ExecutionResultView {
    pub effects: Seq<(DestinationView, bool, Seq<u8>)>,
    pub subscribe: Seq<(Seq<u8>, ChainId)>,
    pub unsubscribe: Seq<(Seq<u8>, ChainId)>,
}

/// An application call result, by its contents.
pub struct ApplicationCallResultView {
    pub value: Seq<u8>,
    pub execution_result: ExecutionResultView,
    pub create_sessions: Seq<Seq<u8>>,
}

/// The words of a hash.
pub open spec fn wit_hash(h: CryptoHash) -> WitCryptoHash {
    WitCryptoHash { part1: h.part1, part2: h.part2, part3: h.part3, part4: h.part4 }
}

/// The hash that interface words stand for.
pub open spec fn hash_of_wit(h: WitCryptoHash) -> CryptoHash {
    CryptoHash { part1: h.part1, part2: h.part2, part3: h.part3, part4: h.part4 }
}

impl View for Destination {
    type V = DestinationView;

    open spec fn view(&self) -> DestinationView {
        match self {
            Destination::Recipient(c) => DestinationView::Recipient(*c),
            Destination::Subscribers(n) => DestinationView::Subscribers(n.0@),
        }
    }
}

impl View for WitDestination {
    type V = DestinationView;

    open spec fn view(&self) -> DestinationView {
        match self {
            WitDestination::Recipient(h) => DestinationView::Recipient(ChainId(hash_of_wit(*h))),
            WitDestination::Subscribers(n) => DestinationView::Subscribers(n.name@),
        }
    }
}

/// Subscriptions, by their contents.
pub open spec fn channels_view(s: Seq<(ChannelName, ChainId)>) -> Seq<(Seq<u8>, ChainId)> {
    Seq::new(s.len(), |i: int| (s[i].0.0@, s[i].1))
}

/// Subscriptions in the interface, by their contents.
pub open spec fn wit_channels_view(s: Seq<(WitChannelName, WitCryptoHash)>) -> Seq<(Seq<u8>, ChainId)> {
    Seq::new(s.len(), |i: int| (s[i].0.name@, ChainId(hash_of_wit(s[i].1))))
}

/// Effects, by their contents.
pub open spec fn effects_view(s: Seq<(Destination, bool, Vec<u8>)>) -> Seq<(DestinationView, bool, Seq<u8>)> {
    Seq::new(s.len(), |i: int| (s[i].0@, s[i].1, s[i].2@))
}

/// Effects in the interface, by their contents.
pub open spec fn wit_effects_view(s: Seq<(WitDestination, bool, Vec<u8>)>) -> Seq<(DestinationView, bool, Seq<u8>)> {
    Seq::new(s.len(), |i: int| (s[i].0@, s[i].1, s[i].2@))
}

/// Byte vectors, as sequences.
pub open spec fn byte_seqs(s: Seq<Vec<u8>>) -> Seq<Seq<u8>> {
    Seq::new(s.len(), |i: int| s[i]@)
}

impl View for ExecutionResult {
    type V = ExecutionResultView;

    open spec fn view(&self) -> ExecutionResultView {
        ExecutionResultView {
            effects: effects_view(self.effects@),
            subscribe: channels_view(self.subscribe@),
            unsubscribe: channels_view(self.unsubscribe@),
        }
    }
}

impl View for WitExecutionResult {
    type V = ExecutionResultView;

    open spec fn view(&self) -> ExecutionResultView {
        ExecutionResultView {
            effects: wit_effects_view(self.effects@),
            subscribe: wit_channels_view(self.subscribe@),
            unsubscribe: wit_channels_view(self.unsubscribe@),
        }
    }
}

impl View for ApplicationCallResult {
    type V = ApplicationCallResultView;

    open spec fn view(&self) -> ApplicationCallResultView {
        ApplicationCallResultView {
            value: self.value@,
            execution_result: self.execution_result@,
            create_sessions: byte_seqs(self.create_sessions@),
        }
    }
}

impl View for WitApplicationCallResult {
    type V = ApplicationCallResultView;

    open spec fn view(&self) -> ApplicationCallResultView {
        ApplicationCallResultView {
            value: self.value@,
            execution_result: self.execution_result@,
            create_sessions: byte_seqs(self.create_sessions@),
        }
    }
}

/// The words of a hash, for the runtime's interface.
pub fn crypto_hash_to_wit(h: CryptoHash) -> (r: WitCryptoHash)
    ensures
        r == wit_hash(h),
{
    WitCryptoHash { part1: h.part1, part2: h.part2, part3: h.part3, part4: h.part4 }
}

impl EffectId {
    /// The identifier in the runtime's interface.
    pub fn to_wit(&self) -> (r: WitEffectId)
        ensures
            r == (WitEffectId { chain_id: wit_hash(self.chain_id.0), height: self.height.0, index: self.index }),
    {
        WitEffectId { chain_id: crypto_hash_to_wit(self.chain_id.0), height: self.height.0, index: self.index }
    }
}

impl ApplicationId {
    /// The identifier in the runtime's interface: the effect that published
    /// the bytecode, and the one that created the application.
    pub fn to_wit(&self) -> (r: WitApplicationId)
        ensures
            r.bytecode_id == (WitEffectId {
                chain_id: wit_hash(self.bytecode_id.effect_id.chain_id.0),
                height: self.bytecode_id.effect_id.height.0,
                index: self.bytecode_id.effect_id.index,
            }),
            r.creation == (WitEffectId {
                chain_id: wit_hash(self.creation.chain_id.0),
                height: self.creation.height.0,
                index: self.creation.index,
            }),
    {
        WitApplicationId { bytecode_id: self.bytecode_id.effect_id.to_wit(), creation: self.creation.to_wit() }
    }
}

impl SessionId {
    /// The identifier in the runtime's interface.
    pub fn to_wit(&self) -> (r: WitSessionId)
        ensures
            r.application_id.bytecode_id.chain_id == wit_hash(self.application_id.bytecode_id.effect_id.chain_id.0),
            r.application_id.bytecode_id.height == self.application_id.bytecode_id.effect_id.height.0,
            r.application_id.bytecode_id.index == self.application_id.bytecode_id.effect_id.index,
            r.application_id.creation == (WitEffectId {
                chain_id: wit_hash(self.application_id.creation.chain_id.0),
                height: self.application_id.creation.height.0,
                index: self.application_id.creation.index,
            }),
            r.index == self.index,
    {
        WitSessionId { application_id: self.application_id.to_wit(), index: self.index }
    }
}

/// The interface's log level for a level.
pub open spec fn wit_level(level: Level) -> WitLogLevel {
    match level {
        Level::Trace => WitLogLevel::Trace,
        Level::Debug => WitLogLevel::Debug,
        Level::Info => WitLogLevel::Info,
        Level::Warn => WitLogLevel::Warn,
        Level::Error => WitLogLevel::Error,
    }
}

impl Level {
    /// The level in the runtime's interface.
    pub fn to_wit(&self) -> (r: WitLogLevel)
        ensures
            r == wit_level(*self),
    {
        match self {
            Level::Trace => WitLogLevel::Trace,
            Level::Debug => WitLogLevel::Debug,
            Level::Info => WitLogLevel::Info,
            Level::Warn => WitLogLevel::Warn,
            Level::Error => WitLogLevel::Error,
        }
    }
}

impl ChannelName {
    /// The name in the runtime's interface: its bytes.
    pub fn to_wit(&self) -> (r: WitChannelName)
        ensures
            r.name@ == self.0@,
    {
        WitChannelName { name: copy_bytes(self.0.as_slice()) }
    }
}

impl Destination {
    /// The destination in the runtime's interface.
    pub fn to_wit(&self) -> (r: WitDestination)
        ensures
            r@ == self@,
    {
        match self {
            Destination::Recipient(chain_id) => WitDestination::Recipient(crypto_hash_to_wit(chain_id.0)),
            Destination::Subscribers(name) => WitDestination::Subscribers(name.to_wit()),
        }
    }
}

/// Subscriptions in the runtime's interface.
fn channels_to_wit(s: &Vec<(ChannelName, ChainId)>) -> (r: Vec<(WitChannelName, WitCryptoHash)>)
    ensures
        wit_channels_view(r@) == channels_view(s@),
{
    let mut r: Vec<(WitChannelName, WitCryptoHash)> = Vec::new();
    let mut i: usize = 0;
    while i < s.len()
        invariant
            i <= s@.len(),
            r@.len() == i,
            forall|j: int| 0 <= j < i ==> #[trigger] wit_channels_view(r@)[j] == channels_view(s@)[j],
        decreases s@.len() - i,
    {
        let ghost before = r@;
        r.push((s[i].0.to_wit(), crypto_hash_to_wit(s[i].1.0)));
        proof {
            assert forall|j: int| 0 <= j < i + 1 implies #[trigger] wit_channels_view(r@)[j] == channels_view(
                s@,
            )[j] by {
                if j < i {
                    assert(r@[j] == before[j]);
                    assert(wit_channels_view(before)[j] == wit_channels_view(r@)[j]);
                }
            }
        }
        i += 1;
    }
    assert(wit_channels_view(r@) =~= channels_view(s@));
    r
}

impl ExecutionResult {
    /// The result in the runtime's interface: the same effects and
    /// subscriptions, in the same order.
    pub fn to_wit(&self) -> (r: WitExecutionResult)
        ensures
            r@ == self@,
    {
        let mut effects: Vec<(WitDestination, bool, Vec<u8>)> = Vec::new();
        let mut i: usize = 0;
        while i < self.effects.len()
            invariant
                i <= self.effects@.len(),
                effects@.len() == i,
                forall|j: int| 0 <= j < i ==> #[trigger] wit_effects_view(effects@)[j] == effects_view(self.effects@)[j],
            decreases self.effects@.len() - i,
        {
            let ghost before = effects@;
            let (destination, authenticated, effect) = &self.effects[i];
            effects.push((destination.to_wit(), *authenticated, copy_bytes(effect.as_slice())));
            proof {
                assert forall|j: int| 0 <= j < i + 1 implies #[trigger] wit_effects_view(effects@)[j] == effects_view(
                    self.effects@,
                )[j] by {
                    if j < i {
                        assert(effects@[j] == before[j]);
                        assert(wit_effects_view(before)[j] == wit_effects_view(effects@)[j]);
                    }
                }
            }
            i += 1;
        }
        assert(wit_effects_view(effects@) =~= effects_view(self.effects@));
        WitExecutionResult {
            effects,
            subscribe: channels_to_wit(&self.subscribe),
            unsubscribe: channels_to_wit(&self.unsubscribe),
        }
    }
}

impl ApplicationCallResult {
    /// The result in the runtime's interface.
    pub fn to_wit(&self) -> (r: WitApplicationCallResult)
        ensures
            r@ == self@,
    {
        let create_sessions = copy_byte_lists(&self.create_sessions);
        proof {
            assert(byte_seqs(create_sessions@) =~= byte_seqs(self.create_sessions@)) by {
                assert forall|j: int| 0 <= j < create_sessions@.len() implies #[trigger] byte_seqs(
                    create_sessions@,
                )[j] == byte_seqs(self.create_sessions@)[j] by {
                    assert(crate::chain::seqs_of(create_sessions@)[j] == crate::chain::seqs_of(
                        self.create_sessions@,
                    )[j]);
                }
            }
        }
        WitApplicationCallResult {
            value: copy_bytes(self.value.as_slice()),
            execution_result: self.execution_result.to_wit(),
            create_sessions,
        }
    }
}

impl SessionCallResult {
    /// The result in the runtime's interface.
    pub fn to_wit(&self) -> (r: WitSessionCallResult)
        ensures
            r.inner@ == self.inner@,
            match self.new_state {
                Some(s) => r.new_state matches Some(t) && t@ == s@,
                None => r.new_state is None,
            },
    {
        let new_state = match &self.new_state {
            Some(s) => Some(copy_bytes(s.as_slice())),
            None => None,
        };
        WitSessionCallResult { inner: self.inner.to_wit(), new_state }
    }
}

/// A polled execution result in the runtime's interface (`None` while
/// pending).
pub fn poll_execution_result(poll: &Option<Result<ExecutionResult, String>>) -> (r: PollExecutionResult)
    ensures
        match poll {
            None => r is Pending,
            Some(Ok(x)) => r matches PollExecutionResult::Ready(Ok(w)) && w@ == x@,
            Some(Err(m)) => r matches PollExecutionResult::Ready(Err(n)) && n@ == m@,
        },
{
    match poll {
        None => PollExecutionResult::Pending,
        Some(Ok(result)) => PollExecutionResult::Ready(Ok(result.to_wit())),
        Some(Err(message)) => PollExecutionResult::Ready(Err(message.clone())),
    }
}

/// A polled application call in the runtime's interface (`None` while
/// pending).
pub fn poll_call_application(poll: &Option<Result<ApplicationCallResult, String>>) -> (r: PollCallApplication)
    ensures
        match poll {
            None => r is Pending,
            Some(Ok(x)) => r matches PollCallApplication::Ready(Ok(w)) && w@ == x@,
            Some(Err(m)) => r matches PollCallApplication::Ready(Err(n)) && n@ == m@,
        },
{
    match poll {
        None => PollCallApplication::Pending,
        Some(Ok(result)) => PollCallApplication::Ready(Ok(result.to_wit())),
        Some(Err(message)) => PollCallApplication::Ready(Err(message.clone())),
    }
}

/// A polled session call in the runtime's interface (`None` while pending).
pub fn poll_call_session(poll: &Option<Result<SessionCallResult, String>>) -> (r: PollCallSession)
    ensures
        match poll {
            None => r is Pending,
            Some(Ok(x)) => r matches PollCallSession::Ready(Ok(w)) && w.inner@ == x.inner@ && match x.new_state {
                Some(s) => w.new_state matches Some(t) && t@ == s@,
                None => w.new_state is None,
            },
            Some(Err(m)) => r matches PollCallSession::Ready(Err(n)) && n@ == m@,
        },
{
    match poll {
        None => PollCallSession::Pending,
        Some(Ok(result)) => PollCallSession::Ready(Ok(result.to_wit())),
        Some(Err(message)) => PollCallSession::Ready(Err(message.clone())),
    }
}

} // verus!
