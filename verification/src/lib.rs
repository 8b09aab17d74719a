//! A minimal, verified client layer for an Ethereum-compatible blockchain
//! node: exact conversion between human decimal amounts and integer base
//! units, address parsing and formatting with optional checksums, the
//! transaction lifecycle from draft to confirmation, and ABI encoding for
//! read-only contract calls. Network transport and signing are performed by
//! an unverified driver; every decision and every byte computed on the way
//! there is specified and proved here.

pub mod abi;
pub mod address;
pub mod amount;
pub mod errors;
pub mod fees;
pub mod keccak;
pub mod lifecycle;
pub mod units;
pub mod wire;
