use vstd::prelude::*;

verus! {

/// The failure taxonomy of the client. Malformed user input is always
/// reported locally (`InvalidFormat`, `InvalidAddress`) and never reaches
/// the network; `IncompleteRequest` is a caller error caught before any
/// network call; `SigningError` covers a bad credential or an incomplete
/// draft; `NetworkError` is a transport failure, `NodeError` a rejection by
/// the node (carrying the node's message verbatim), and `DecodeError` a
/// contract-call response that does not match its declared return shape.
#[derive(Debug, PartialEq, Eq)]
pub enum ClientError {
    InvalidFormat,
    InvalidAddress,
    IncompleteRequest,
    SigningError,
    NetworkError(String),
    NodeError(String),
    DecodeError,
}

} // verus!
