//! Tamper-evident, signed JSON snapshots.
//!
//! A snapshot is a JSON-like document whose `signing` sub-object binds a
//! keccak-256 digest of the document's canonical bytes to an Ethereum-style
//! address via an EIP-191 recoverable signature. This crate provides the
//! deterministic canonical serialization, the digest rule, and the signing
//! and verification protocol over it. Key custody and cryptography come from
//! outside crates; every decision around them is specified and verified here.

pub mod canon;
pub mod digest;
pub mod errors;
pub mod hexs;
pub mod json;
pub mod sign;
pub mod verify;
