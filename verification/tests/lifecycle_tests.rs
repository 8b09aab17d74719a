use ethclient::address::Address;
use ethclient::amount::Amount;
use ethclient::errors::ClientError;
use ethclient::lifecycle::{
    fill_request, signing_payload, ChainState, Lifecycle, LifecycleAction, LifecycleEvent,
    LifecycleStage, TransactionReceipt, TransactionRequest,
};

fn recipient() -> Address {
    Address::parse("0x3019826431baaacc91604a595791a2d84acf5a56").unwrap()
}

fn complete_request() -> TransactionRequest {
    TransactionRequest::new()
        .with_to(recipient())
        .with_value(Amount::from_u64(1000))
}

fn chain_state() -> ChainState {
    ChainState {
        gas_price: Amount::from_u64(100_000_000),
        transaction_count: 7,
        gas_estimate: None,
    }
}

#[test]
fn fill_populates_unset_fields_from_chain_state() {
    let req = complete_request();
    let f = fill_request(&req, &chain_state()).unwrap();
    assert_eq!(f.gas_price, Amount::from_u64(100_000_000));
    assert_eq!(f.gas_limit, 21000);
    assert_eq!(f.nonce, 7);
    assert_eq!(f.value, Amount::from_u64(1000));
    assert_eq!(f.to, recipient());
}

#[test]
fn fill_never_overwrites_caller_fields() {
    let req = complete_request()
        .with_gas_price(Amount::from_u64(55))
        .with_gas_limit(30_000)
        .with_nonce(3);
    let f = fill_request(&req, &chain_state()).unwrap();
    assert_eq!(f.gas_price, Amount::from_u64(55));
    assert_eq!(f.gas_limit, 30_000);
    assert_eq!(f.nonce, 3);
}

#[test]
fn fill_uses_node_estimate_when_present() {
    let mut cs = chain_state();
    cs.gas_estimate = Some(42_000);
    let f = fill_request(&complete_request(), &cs).unwrap();
    assert_eq!(f.gas_limit, 42_000);
}

#[test]
fn incomplete_request_fails_before_any_network_call() {
    // missing recipient: the lifecycle halts at once, so its first and
    // only action is Finished and no chain query is ever requested
    let req = TransactionRequest::new().with_value(Amount::from_u64(5));
    let lc = Lifecycle::start(req, 10);
    assert_eq!(lc.stage, LifecycleStage::Halted);
    assert_eq!(lc.error, Some(ClientError::IncompleteRequest));
    assert_eq!(lc.next_action(), LifecycleAction::Finished);
}

#[test]
fn fill_rejects_missing_recipient() {
    let req = TransactionRequest::new().with_value(Amount::from_u64(5));
    assert_eq!(
        fill_request(&req, &chain_state()).unwrap_err(),
        ClientError::IncompleteRequest
    );
}

fn drive_to_submitted(max_polls: u64) -> Lifecycle {
    let mut lc = Lifecycle::start(complete_request(), max_polls);
    assert_eq!(lc.next_action(), LifecycleAction::QueryChainState);
    lc.advance(LifecycleEvent::ChainState(chain_state()));
    assert_eq!(lc.stage, LifecycleStage::Filled);
    assert_eq!(lc.next_action(), LifecycleAction::RequestSignature);
    lc.advance(LifecycleEvent::SignatureReady(vec![7u8; 65]));
    assert_eq!(lc.stage, LifecycleStage::Signed);
    assert_eq!(lc.next_action(), LifecycleAction::SubmitTransaction);
    lc.advance(LifecycleEvent::Accepted(vec![0xaa; 32]));
    assert_eq!(lc.stage, LifecycleStage::Submitted);
    assert_eq!(lc.next_action(), LifecycleAction::PollReceipt);
    lc
}

#[test]
fn full_lifecycle_confirms_on_successful_receipt() {
    let mut lc = drive_to_submitted(5);
    lc.advance(LifecycleEvent::ReceiptReady(TransactionReceipt {
        transaction_id: vec![0xaa; 32],
        succeeded: true,
        block_number: 1234,
    }));
    assert_eq!(lc.stage, LifecycleStage::Confirmed);
    assert!(lc.receipt.is_some());
}

#[test]
fn reverted_receipt_ends_in_failed() {
    let mut lc = drive_to_submitted(5);
    lc.advance(LifecycleEvent::ReceiptReady(TransactionReceipt {
        transaction_id: vec![0xaa; 32],
        succeeded: false,
        block_number: 1234,
    }));
    assert_eq!(lc.stage, LifecycleStage::Failed);
}

#[test]
fn reused_nonce_surfaces_node_error() {
    // the node rejects a nonce already spent by a confirmed transaction
    let lc = drive_to_submitted(5);
    let mut lc2 = Lifecycle::start(complete_request(), 5);
    lc2.advance(LifecycleEvent::ChainState(chain_state()));
    lc2.advance(LifecycleEvent::SignatureReady(vec![7u8; 65]));
    lc2.advance(LifecycleEvent::SubmitFailed(ClientError::NodeError(
        "nonce too low".to_string(),
    )));
    assert_eq!(lc2.stage, LifecycleStage::Halted);
    assert_eq!(
        lc2.error,
        Some(ClientError::NodeError("nonce too low".to_string()))
    );
    // the first submission is unaffected
    assert_eq!(lc.stage, LifecycleStage::Submitted);
}

#[test]
fn network_error_on_submit_halts_without_retry() {
    let mut lc = Lifecycle::start(complete_request(), 5);
    lc.advance(LifecycleEvent::ChainState(chain_state()));
    lc.advance(LifecycleEvent::SignatureReady(vec![7u8; 65]));
    lc.advance(LifecycleEvent::SubmitFailed(ClientError::NetworkError(
        "connection reset".to_string(),
    )));
    assert_eq!(lc.stage, LifecycleStage::Halted);
    assert_eq!(lc.next_action(), LifecycleAction::Finished);
}

#[test]
fn exhausted_polls_time_out_distinctly() {
    let mut lc = drive_to_submitted(3);
    lc.advance(LifecycleEvent::StillPending);
    assert_eq!(lc.stage, LifecycleStage::Submitted);
    lc.advance(LifecycleEvent::StillPending);
    assert_eq!(lc.stage, LifecycleStage::Submitted);
    lc.advance(LifecycleEvent::StillPending);
    // timed out: an unknown outcome, not a failure and not a network error
    assert_eq!(lc.stage, LifecycleStage::TimedOut);
    assert_ne!(lc.stage, LifecycleStage::Failed);
    assert_eq!(lc.error, None);
    // terminal: further events change nothing
    lc.advance(LifecycleEvent::StillPending);
    assert_eq!(lc.stage, LifecycleStage::TimedOut);
}

#[test]
fn bad_signature_length_halts_with_signing_error() {
    let mut lc = Lifecycle::start(complete_request(), 5);
    lc.advance(LifecycleEvent::ChainState(chain_state()));
    lc.advance(LifecycleEvent::SignatureReady(vec![7u8; 10]));
    assert_eq!(lc.stage, LifecycleStage::Halted);
    assert_eq!(lc.error, Some(ClientError::SigningError));
}

#[test]
fn signing_payload_is_deterministic() {
    let f1 = fill_request(&complete_request(), &chain_state()).unwrap();
    let f2 = fill_request(&complete_request(), &chain_state()).unwrap();
    assert_eq!(signing_payload(&f1), signing_payload(&f2));
}

#[test]
fn signing_payload_distinguishes_nonces() {
    let f1 = fill_request(&complete_request().with_nonce(1), &chain_state()).unwrap();
    let f2 = fill_request(&complete_request().with_nonce(2), &chain_state()).unwrap();
    assert_ne!(signing_payload(&f1), signing_payload(&f2));
}
