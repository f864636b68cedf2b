//! Core of a MANY neighborhood execution node: addresses and signed envelopes,
//! verifier composition, delegation certificates, write-back storage references,
//! the module library, the per-call context of the WebAssembly host, and the
//! storage format migration.
pub mod address;
pub mod backend;
pub mod cbor;
pub mod delegation;
pub mod engine;
pub mod error;
pub mod envelope;
pub mod identity;
pub mod library;
pub mod migration;
pub mod storage;
