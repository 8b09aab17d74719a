use vstd::prelude::*;

use crate::address::Address;
use crate::amount::Amount;
use crate::errors::ClientError;
use crate::fees::TRANSFER_GAS_LIMIT;
use crate::wire::{push_bytes, push_u64_be, spec_u64_be};

verus! {

/// A mutable draft of a transaction. Built incrementally; any field left
/// unset is filled from queried chain state before signing. Owned by a
/// single logical flow at a time.
pub struct TransactionRequest {
    pub to: Option<Address>,
    pub value: Option<Amount>,
    pub gas_limit: Option<u64>,
    pub gas_price: Option<Amount>,
    pub nonce: Option<u64>,
    pub payload: Vec<u8>,
}

impl TransactionRequest {
    pub open spec fn wf(&self) -> bool {
        &&& (self.to matches Some(a) ==> a.wf())
        &&& (self.value matches Some(v) ==> v.wf())
        &&& (self.gas_price matches Some(g) ==> g.wf())
    }

    /// The required fields: a draft without recipient or value cannot be
    /// completed from chain state.
    pub open spec fn is_complete(&self) -> bool {
        self.to is Some && self.value is Some
    }

    pub fn new() -> (r: Self)
        ensures
            r.wf(),
            r.to is None,
            r.value is None,
            r.gas_limit is None,
            r.gas_price is None,
            r.nonce is None,
            r.payload@ == Seq::<u8>::empty(),
    {
        TransactionRequest {
            to: None,
            value: None,
            gas_limit: None,
            gas_price: None,
            nonce: None,
            payload: Vec::new(),
        }
    }

    pub fn with_to(self, to: Address) -> (r: Self)
        requires
            self.wf(),
            to.wf(),
        ensures
            r.wf(),
            r.to == Some(to),
            r.value == self.value,
            r.gas_limit == self.gas_limit,
            r.gas_price == self.gas_price,
            r.nonce == self.nonce,
            r.payload == self.payload,
    {
        TransactionRequest { to: Some(to), ..self }
    }

    pub fn with_value(self, value: Amount) -> (r: Self)
        requires
            self.wf(),
            value.wf(),
        ensures
            r.wf(),
            r.value == Some(value),
            r.to == self.to,
            r.gas_limit == self.gas_limit,
            r.gas_price == self.gas_price,
            r.nonce == self.nonce,
            r.payload == self.payload,
    {
        TransactionRequest { value: Some(value), ..self }
    }

    pub fn with_gas_limit(self, gas_limit: u64) -> (r: Self)
        requires
            self.wf(),
        ensures
            r.wf(),
            r.gas_limit == Some(gas_limit),
            r.to == self.to,
            r.value == self.value,
            r.gas_price == self.gas_price,
            r.nonce == self.nonce,
            r.payload == self.payload,
    {
        TransactionRequest { gas_limit: Some(gas_limit), ..self }
    }

    pub fn with_gas_price(self, gas_price: Amount) -> (r: Self)
        requires
            self.wf(),
            gas_price.wf(),
        ensures
            r.wf(),
            r.gas_price == Some(gas_price),
            r.to == self.to,
            r.value == self.value,
            r.gas_limit == self.gas_limit,
            r.nonce == self.nonce,
            r.payload == self.payload,
    {
        TransactionRequest { gas_price: Some(gas_price), ..self }
    }

    pub fn with_nonce(self, nonce: u64) -> (r: Self)
        requires
            self.wf(),
        ensures
            r.wf(),
            r.nonce == Some(nonce),
            r.to == self.to,
            r.value == self.value,
            r.gas_limit == self.gas_limit,
            r.gas_price == self.gas_price,
            r.payload == self.payload,
    {
        TransactionRequest { nonce: Some(nonce), ..self }
    }
}

/// Chain state queried from the node to complete a draft: the current gas
/// price, the account's transaction count (the next nonce), and an
/// optional node-side gas estimate.
pub struct ChainState {
    pub gas_price: Amount,
    pub transaction_count: u64,
    pub gas_estimate: Option<u64>,
}

impl ChainState {
    pub open spec fn wf(&self) -> bool {
        self.gas_price.wf()
    }
}

/// A fully populated transaction, the immediate input of signing.
#[derive(Debug)]
pub struct FilledTransaction {
    pub to: Address,
    pub value: Amount,
    pub gas_limit: u64,
    pub gas_price: Amount,
    pub nonce: u64,
    pub payload: Vec<u8>,
}

impl FilledTransaction {
    pub open spec fn wf(&self) -> bool {
        &&& self.to.wf()
        &&& self.value.wf()
        &&& self.gas_price.wf()
    }
}

/// How a filled transaction relates to the draft and the queried chain
/// state: caller-supplied fields are kept exactly; only unset fields are
/// taken from the chain, the gas limit falling back to the node estimate
/// and then to the plain-transfer allowance.
pub open spec fn filled_from(
    f: FilledTransaction,
    req: TransactionRequest,
    chain: ChainState,
) -> bool {
    &&& (req.to matches Some(t) && f.to.bytes@ == t.bytes@)
    &&& (req.value matches Some(v) && f.value.digits@ == v.digits@)
    &&& f.gas_price.digits@ == (match req.gas_price {
        Some(g) => g.digits@,
        None => chain.gas_price.digits@,
    })
    &&& f.gas_limit == (match req.gas_limit {
        Some(l) => l,
        None => match chain.gas_estimate {
            Some(e) => e,
            None => TRANSFER_GAS_LIMIT,
        },
    })
    &&& f.nonce == (match req.nonce {
        Some(x) => x,
        None => chain.transaction_count,
    })
    &&& f.payload@ == req.payload@
}

fn copy_bytes(src: &Vec<u8>) -> (r: Vec<u8>)
    ensures
        r@ == src@,
{
    let mut d: Vec<u8> = Vec::new();
    push_bytes(&mut d, src);
    proof {
        assert(d@ =~= src@);
    }
    d
}

/// Completes a draft from queried chain state. Fails with
/// `IncompleteRequest` exactly when recipient or value is missing; never
/// overwrites a caller-supplied field.
pub fn fill_request(req: &TransactionRequest, chain: &ChainState) -> (r: Result<
    FilledTransaction,
    ClientError,
>)
    requires
        req.wf(),
        chain.wf(),
    ensures
        r is Ok <==> req.is_complete(),
        r matches Ok(f) ==> f.wf() && filled_from(f, *req, *chain),
        r is Err ==> r == Err::<FilledTransaction, ClientError>(ClientError::IncompleteRequest),
{
    let to = match &req.to {
        Some(a) => a.clone_address(),
        None => {
            return Err(ClientError::IncompleteRequest);
        },
    };
    let value = match &req.value {
        Some(v) => v.clone_amount(),
        None => {
            return Err(ClientError::IncompleteRequest);
        },
    };
    let gas_price = match &req.gas_price {
        Some(g) => g.clone_amount(),
        None => chain.gas_price.clone_amount(),
    };
    let gas_limit = match &req.gas_limit {
        Some(l) => *l,
        None => match &chain.gas_estimate {
            Some(e) => *e,
            None => TRANSFER_GAS_LIMIT,
        },
    };
    let nonce = match &req.nonce {
        Some(x) => *x,
        None => chain.transaction_count,
    };
    let payload = copy_bytes(&req.payload);
    Ok(FilledTransaction { to, value, gas_limit, gas_price, nonce, payload })
}

/// The canonical byte encoding over which a transaction is signed: the
/// recipient, then fixed-width gas limit and nonce, then length-prefixed
/// value digits, gas price digits, and payload. Deterministic and
/// injective on well-formed transactions.
pub open spec fn spec_signing_payload(f: FilledTransaction) -> Seq<u8> {
    f.to.bytes@ + spec_u64_be(f.gas_limit) + spec_u64_be(f.nonce) + spec_u64_be(
        f.value.digits@.len() as u64,
    ) + f.value.digits@ + spec_u64_be(f.gas_price.digits@.len() as u64) + f.gas_price.digits@
        + spec_u64_be(f.payload@.len() as u64) + f.payload@
}

pub fn signing_payload(f: &FilledTransaction) -> (r: Vec<u8>)
    ensures
        r@ == spec_signing_payload(*f),
{
    let mut out: Vec<u8> = Vec::new();
    push_bytes(&mut out, &f.to.bytes);
    push_u64_be(&mut out, f.gas_limit);
    push_u64_be(&mut out, f.nonce);
    push_u64_be(&mut out, f.value.digits.len() as u64);
    push_bytes(&mut out, &f.value.digits);
    push_u64_be(&mut out, f.gas_price.digits.len() as u64);
    push_bytes(&mut out, &f.gas_price.digits);
    push_u64_be(&mut out, f.payload.len() as u64);
    push_bytes(&mut out, &f.payload);
    proof {
        assert(out@ =~= spec_signing_payload(*f));
    }
    out
}

/// An immutable signed transaction: the only artifact eligible for
/// submission. The signature is the 65-byte recoverable form.
pub struct SignedTransaction {
    pub tx: FilledTransaction,
    pub signature: Vec<u8>,
}

impl SignedTransaction {
    pub open spec fn wf(&self) -> bool {
        self.tx.wf() && self.signature@.len() == 65
    }
}

/// A node-confirmed record of a transaction's outcome. Only ever built
/// from a receipt the node returned, never fabricated here.
pub struct TransactionReceipt {
    pub transaction_id: Vec<u8>,
    pub succeeded: bool,
    pub block_number: u64,
}

#[derive(Clone, Copy, Debug, PartialEq, Eq, Structural)]
pub enum LifecycleStage {
    Draft,
    Filled,
    Signed,
    Submitted,
    Confirmed,
    Failed,
    TimedOut,
    Halted,
}

/// What the unverified driver must do next on behalf of the lifecycle.
#[derive(Clone, Copy, Debug, PartialEq, Eq, Structural)]
pub enum LifecycleAction {
    QueryChainState,
    RequestSignature,
    SubmitTransaction,
    PollReceipt,
    Finished,
}

/// What the outside world reported back to the lifecycle.
pub enum LifecycleEvent {
    ChainState(ChainState),
    ChainStateFailed(ClientError),
    SignatureReady(Vec<u8>),
    SignatureFailed(ClientError),
    Accepted(Vec<u8>),
    SubmitFailed(ClientError),
    ReceiptReady(TransactionReceipt),
    StillPending,
    PollFailed(ClientError),
}

/// Whether an event is the answer to the action pending at a stage.
pub open spec fn event_answers(stage: LifecycleStage, event: LifecycleEvent) -> bool {
    match (stage, event) {
        (LifecycleStage::Draft, LifecycleEvent::ChainState(_)) => true,
        (LifecycleStage::Draft, LifecycleEvent::ChainStateFailed(_)) => true,
        (LifecycleStage::Filled, LifecycleEvent::SignatureReady(_)) => true,
        (LifecycleStage::Filled, LifecycleEvent::SignatureFailed(_)) => true,
        (LifecycleStage::Signed, LifecycleEvent::Accepted(_)) => true,
        (LifecycleStage::Signed, LifecycleEvent::SubmitFailed(_)) => true,
        (LifecycleStage::Submitted, LifecycleEvent::ReceiptReady(_)) => true,
        (LifecycleStage::Submitted, LifecycleEvent::StillPending) => true,
        (LifecycleStage::Submitted, LifecycleEvent::PollFailed(_)) => true,
        _ => false,
    }
}

pub open spec fn next_action_of(stage: LifecycleStage) -> LifecycleAction {
    match stage {
        LifecycleStage::Draft => LifecycleAction::QueryChainState,
        LifecycleStage::Filled => LifecycleAction::RequestSignature,
        LifecycleStage::Signed => LifecycleAction::SubmitTransaction,
        LifecycleStage::Submitted => LifecycleAction::PollReceipt,
        _ => LifecycleAction::Finished,
    }
}

/// The transaction lifecycle: `Draft` → `Filled` → `Signed` →
/// `Submitted` → `Confirmed` | `Failed` | `TimedOut`, with `Halted`
/// recording an error reported before a terminal network outcome. All
/// terminal stages are final, and the driver performs exactly the action
/// `next_action` names between two events.
pub struct Lifecycle {
    pub stage: LifecycleStage,
    pub request: TransactionRequest,
    pub filled: Option<FilledTransaction>,
    pub signed: Option<SignedTransaction>,
    pub transaction_id: Option<Vec<u8>>,
    pub receipt: Option<TransactionReceipt>,
    pub error: Option<ClientError>,
    pub polls_remaining: u64,
}

impl Lifecycle {
    pub open spec fn wf(&self) -> bool {
        &&& self.request.wf()
        &&& (self.stage is Draft ==> self.request.is_complete())
        &&& (self.filled matches Some(f) ==> f.wf())
        &&& (self.signed matches Some(st) ==> st.wf())
        &&& (self.stage is Filled ==> self.filled is Some)
        &&& (self.stage is Signed ==> self.signed is Some)
        &&& (self.stage is Submitted ==> self.signed is Some && self.transaction_id is Some)
        &&& (self.stage is Halted ==> self.error is Some)
    }

    pub open spec fn is_terminal(&self) -> bool {
        match self.stage {
            LifecycleStage::Confirmed
            | LifecycleStage::Failed
            | LifecycleStage::TimedOut
            | LifecycleStage::Halted => true,
            _ => false,
        }
    }

    /// Opens a lifecycle for a draft. A draft without recipient or value
    /// halts immediately with `IncompleteRequest`: its very first action
    /// is already `Finished`, so no network call is ever made for it.
    pub fn start(request: TransactionRequest, max_polls: u64) -> (r: Lifecycle)
        requires
            request.wf(),
            max_polls >= 1,
        ensures
            r.wf(),
            r.request == request,
            r.polls_remaining == max_polls,
            request.is_complete() ==> r.stage == LifecycleStage::Draft,
            !request.is_complete() ==> r.stage == LifecycleStage::Halted && r.error == Some(
                ClientError::IncompleteRequest,
            ) && next_action_of(r.stage) == LifecycleAction::Finished,
            r.filled is None && r.signed is None && r.transaction_id is None && r.receipt is None,
    {
        let complete = matches!(&request.to, Some(_)) && matches!(&request.value, Some(_));
        if complete {
            Lifecycle {
                stage: LifecycleStage::Draft,
                request,
                filled: None,
                signed: None,
                transaction_id: None,
                receipt: None,
                error: None,
                polls_remaining: max_polls,
            }
        } else {
            Lifecycle {
                stage: LifecycleStage::Halted,
                request,
                filled: None,
                signed: None,
                transaction_id: None,
                receipt: None,
                error: Some(ClientError::IncompleteRequest),
                polls_remaining: max_polls,
            }
        }
    }

    pub fn next_action(&self) -> (a: LifecycleAction)
        ensures
            a == next_action_of(self.stage),
    {
        match self.stage {
            LifecycleStage::Draft => LifecycleAction::QueryChainState,
            LifecycleStage::Filled => LifecycleAction::RequestSignature,
            LifecycleStage::Signed => LifecycleAction::SubmitTransaction,
            LifecycleStage::Submitted => LifecycleAction::PollReceipt,
            _ => LifecycleAction::Finished,
        }
    }

    /// Feeds the outcome of the last action back into the lifecycle.
    /// Every transition of the state machine is pinned down: filling
    /// keeps caller-supplied fields, a transport failure on submission
    /// halts without retry, a receipt decides `Confirmed` against
    /// `Failed` by its status, and running out of poll attempts ends in
    /// `TimedOut`, distinct from both. Terminal stages never change. An
    /// event that does not answer the pending action only records an
    /// error, at worst.
    pub fn advance(&mut self, event: LifecycleEvent)
        requires
            old(self).wf(),
            event matches LifecycleEvent::ChainState(cs) ==> cs.wf(),
        ensures
            final(self).wf(),
            final(self).request == old(self).request,
            old(self).is_terminal() ==> *final(self) == *old(self),
            !old(self).is_terminal() && !event_answers(old(self).stage, event) ==> *final(self)
                == *old(self),
            old(self).stage == LifecycleStage::Draft ==> {
                &&& (event matches LifecycleEvent::ChainState(cs) ==> final(self).stage
                    == LifecycleStage::Filled && (final(self).filled matches Some(f) && filled_from(
                    f,
                    old(self).request,
                    cs,
                )) && final(self).polls_remaining == old(self).polls_remaining)
                &&& (event matches LifecycleEvent::ChainStateFailed(e) ==> final(self).stage
                    == LifecycleStage::Halted && final(self).error == Some(e))
            },
            old(self).stage == LifecycleStage::Filled ==> {
                &&& (event matches LifecycleEvent::SignatureReady(sig) ==> {
                    if sig@.len() == 65 {
                        &&& final(self).stage == LifecycleStage::Signed
                        &&& (final(self).signed matches Some(st) && same_filled(
                            st.tx,
                            old(self).filled->Some_0,
                        ) && st.signature@ == sig@)
                    } else {
                        final(self).stage == LifecycleStage::Halted && final(self).error == Some(
                            ClientError::SigningError,
                        )
                    }
                })
                &&& (event matches LifecycleEvent::SignatureFailed(e) ==> final(self).stage
                    == LifecycleStage::Halted && final(self).error == Some(e))
            },
            old(self).stage == LifecycleStage::Signed ==> {
                &&& (event matches LifecycleEvent::Accepted(id) ==> final(self).stage
                    == LifecycleStage::Submitted && final(self).transaction_id == Some(id)
                    && final(self).polls_remaining == old(self).polls_remaining)
                &&& (event matches LifecycleEvent::SubmitFailed(e) ==> final(self).stage
                    == LifecycleStage::Halted && final(self).error == Some(e))
            },
            old(self).stage == LifecycleStage::Submitted ==> {
                &&& (event matches LifecycleEvent::ReceiptReady(rc) ==> final(self).stage == (if rc.succeeded {
                    LifecycleStage::Confirmed
                } else {
                    LifecycleStage::Failed
                }) && final(self).receipt == Some(rc))
                &&& (event is StillPending || event is PollFailed ==> {
                    if old(self).polls_remaining <= 1 {
                        final(self).stage == LifecycleStage::TimedOut
                    } else {
                        final(self).stage == LifecycleStage::Submitted && final(self).polls_remaining == old(
                            self,
                        ).polls_remaining - 1
                    }
                })
            },
    {
        if self.is_terminal_exec() {
            return ;
        }
        match self.stage {
            LifecycleStage::Draft => {
                match event {
                    LifecycleEvent::ChainState(cs) => {
                        let filled = match fill_request(&self.request, &cs) {
                            Ok(f) => f,
                            Err(_) => {
                                proof {
                                    assert(old(self).request.is_complete());
                                    assert(false);
                                }
                                return ;
                            },
                        };
                        self.filled = Some(filled);
                        self.stage = LifecycleStage::Filled;
                    },
                    LifecycleEvent::ChainStateFailed(e) => {
                        self.error = Some(e);
                        self.stage = LifecycleStage::Halted;
                    },
                    _ => {},
                }
            },
            LifecycleStage::Filled => {
                match event {
                    LifecycleEvent::SignatureReady(sig) => {
                        if sig.len() == 65 {
                            let tx = match &self.filled {
                                Some(f) => clone_filled(f),
                                None => {
                                    proof {
                                        assert(false);
                                    }
                                    return ;
                                },
                            };
                            self.signed = Some(SignedTransaction { tx, signature: sig });
                            self.stage = LifecycleStage::Signed;
                        } else {
                            self.error = Some(ClientError::SigningError);
                            self.stage = LifecycleStage::Halted;
                        }
                    },
                    LifecycleEvent::SignatureFailed(e) => {
                        self.error = Some(e);
                        self.stage = LifecycleStage::Halted;
                    },
                    _ => {},
                }
            },
            LifecycleStage::Signed => {
                match event {
                    LifecycleEvent::Accepted(id) => {
                        self.transaction_id = Some(id);
                        self.stage = LifecycleStage::Submitted;
                    },
                    LifecycleEvent::SubmitFailed(e) => {
                        self.error = Some(e);
                        self.stage = LifecycleStage::Halted;
                    },
                    _ => {},
                }
            },
            LifecycleStage::Submitted => {
                match event {
                    LifecycleEvent::ReceiptReady(rc) => {
                        let ok = rc.succeeded;
                        self.receipt = Some(rc);
                        self.stage = if ok {
                            LifecycleStage::Confirmed
                        } else {
                            LifecycleStage::Failed
                        };
                    },
                    LifecycleEvent::StillPending | LifecycleEvent::PollFailed(_) => {
                        if self.polls_remaining <= 1 {
                            self.stage = LifecycleStage::TimedOut;
                        } else {
                            self.polls_remaining = self.polls_remaining - 1;
                        }
                    },
                    _ => {},
                }
            },
            _ => {},
        }
    }

    fn is_terminal_exec(&self) -> (r: bool)
        ensures
            r == self.is_terminal(),
    {
        match self.stage {
            LifecycleStage::Confirmed
            | LifecycleStage::Failed
            | LifecycleStage::TimedOut
            | LifecycleStage::Halted => true,
            _ => false,
        }
    }
}

fn clone_filled(f: &FilledTransaction) -> (r: FilledTransaction)
    ensures
        r.to.bytes@ == f.to.bytes@,
        r.value.digits@ == f.value.digits@,
        r.gas_limit == f.gas_limit,
        r.gas_price.digits@ == f.gas_price.digits@,
        r.nonce == f.nonce,
        r.payload@ == f.payload@,
        r.wf() == f.wf(),
{
    FilledTransaction {
        to: f.to.clone_address(),
        value: f.value.clone_amount(),
        gas_limit: f.gas_limit,
        gas_price: f.gas_price.clone_amount(),
        nonce: f.nonce,
        payload: copy_bytes(&f.payload),
    }
}

/// Field-wise sameness of two filled transactions, up to container
/// identity.
pub open spec fn same_filled(a: FilledTransaction, b: FilledTransaction) -> bool {
    &&& a.to.bytes@ == b.to.bytes@
    &&& a.value.digits@ == b.value.digits@
    &&& a.gas_limit == b.gas_limit
    &&& a.gas_price.digits@ == b.gas_price.digits@
    &&& a.nonce == b.nonce
    &&& a.payload@ == b.payload@
}

} // verus!
