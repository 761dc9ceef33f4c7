//! Core of a cross-chain message system: a location model for addressing
//! consensus systems, a deriver of sovereign accounts, FIFO message
//! transport between chains, an instruction executor over a holding
//! register, a pluggable asset transactor, a reserve-backed transfer
//! protocol, and a round-stepped multi-chain network driver.

pub mod account;
pub mod asset;
pub mod bytes;
pub mod chain;
pub mod codec;
pub mod executor;
pub mod holding;
pub mod kv;
pub mod laws;
pub mod location;
pub mod message;
pub mod network;
pub mod transactor;
pub mod weight;
