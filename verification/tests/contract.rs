use linera_lite::contract::{
    crypto_hash_to_wit, poll_call_application, poll_call_session, poll_execution_result, ApplicationCallResult,
    ApplicationId, BytecodeId, ChannelName, Destination, EffectId, ExecutionResult, Level, PollCallApplication,
    PollCallSession, PollExecutionResult, SessionCallResult, SessionId, WitDestination, WitLogLevel,
};
use linera_lite::crypto::{BlockHeight, ChainId, CryptoHash};

fn hash(seed: u8) -> CryptoHash {
    CryptoHash::from_bytes(&[seed; 32])
}

fn effect_id(seed: u8) -> EffectId {
    EffectId { chain_id: ChainId(hash(seed)), height: BlockHeight(seed as u64), index: 2 * seed as u64 }
}

fn result() -> ExecutionResult {
    ExecutionResult {
        effects: vec![
            (Destination::Recipient(ChainId(hash(1))), true, vec![1, 2]),
            (Destination::Subscribers(ChannelName(b"news".to_vec())), false, vec![3]),
        ],
        subscribe: vec![(ChannelName(b"a".to_vec()), ChainId(hash(2)))],
        unsubscribe: vec![],
    }
}

#[test]
fn hashes_become_their_words() {
    let h = hash(5);
    let w = crypto_hash_to_wit(h);
    assert_eq!((w.part1, w.part2, w.part3, w.part4), (h.part1, h.part2, h.part3, h.part4));
    assert_eq!(w.part1, u64::from_le_bytes([5; 8]));
}

#[test]
fn identifiers() {
    let app = ApplicationId { bytecode_id: BytecodeId { effect_id: effect_id(1) }, creation: effect_id(2) };
    let w = app.to_wit();
    assert_eq!(w.bytecode_id.height, 1);
    assert_eq!(w.bytecode_id.index, 2);
    assert_eq!(w.creation.chain_id, crypto_hash_to_wit(hash(2)));
    let session = SessionId { application_id: app, index: 9 };
    let ws = session.to_wit();
    assert_eq!(ws.index, 9);
    assert_eq!(ws.application_id, w);
}

#[test]
fn log_levels() {
    assert_eq!(Level::Trace.to_wit(), WitLogLevel::Trace);
    assert_eq!(Level::Debug.to_wit(), WitLogLevel::Debug);
    assert_eq!(Level::Info.to_wit(), WitLogLevel::Info);
    assert_eq!(Level::Warn.to_wit(), WitLogLevel::Warn);
    assert_eq!(Level::Error.to_wit(), WitLogLevel::Error);
}

#[test]
fn execution_results_keep_effects_in_order() {
    let w = result().to_wit();
    assert_eq!(w.effects.len(), 2);
    assert!(matches!(&w.effects[0].0, WitDestination::Recipient(h) if *h == crypto_hash_to_wit(hash(1))));
    assert!(w.effects[0].1);
    assert_eq!(w.effects[0].2, vec![1, 2]);
    assert!(matches!(&w.effects[1].0, WitDestination::Subscribers(n) if n.name == b"news".to_vec()));
    assert_eq!(w.subscribe.len(), 1);
    assert_eq!(w.subscribe[0].0.name, b"a".to_vec());
    assert_eq!(w.subscribe[0].1, crypto_hash_to_wit(hash(2)));
    assert!(w.unsubscribe.is_empty());
}

#[test]
fn call_results_and_polls() {
    let call = ApplicationCallResult { value: vec![4], execution_result: result(), create_sessions: vec![vec![5]] };
    let w = call.to_wit();
    assert_eq!(w.value, vec![4]);
    assert_eq!(w.create_sessions, vec![vec![5]]);
    let session = SessionCallResult { inner: call, new_state: Some(vec![6]) };
    assert_eq!(session.to_wit().new_state, Some(vec![6]));
    assert!(matches!(poll_execution_result(&None), PollExecutionResult::Pending));
    assert!(matches!(poll_execution_result(&Some(Ok(result()))), PollExecutionResult::Ready(Ok(r)) if r.effects.len() == 2));
    assert!(matches!(
        poll_execution_result(&Some(Err("no".to_string()))),
        PollExecutionResult::Ready(Err(m)) if m == "no"
    ));
    let call = ApplicationCallResult { value: vec![], execution_result: result(), create_sessions: vec![] };
    assert!(matches!(poll_call_application(&Some(Ok(call))), PollCallApplication::Ready(Ok(_))));
    assert!(matches!(poll_call_application(&None), PollCallApplication::Pending));
    assert!(matches!(poll_call_session(&Some(Err("e".to_string()))), PollCallSession::Ready(Err(m)) if m == "e"));
}
