//! Signed tree heads for an append-only registration log.
//!
//! The crate accumulates leaf digests into a Merkle root, has each tree head
//! cosigned by a quorum of Ed25519 cosigners, and keeps the resulting tree
//! heads in a hash-linked, append-only chain.

pub mod chain;
pub mod cosign;
pub mod decoding;
pub mod digest;
pub mod encoding;
pub mod error;
pub mod framing;
pub mod merkle;
pub mod metrics;
pub mod routes;
pub mod service;
pub mod sth;
pub mod sth_decoding;
pub mod storage;
pub mod ws;
