//! Incremental synchronization of on-chain liquidity-pool records.
//!
//! The crate keeps a local registry of liquidity pools consistent with a
//! growing chain of blocks: it discovers new pools from factory creation
//! events, backfills their historical liquidity, applies liquidity events in
//! chronological order, and advances a persisted per-protocol watermark.
//!
//! - [`types`] holds the plain-value data model and the protocol-specific
//!   log interpretation;
//! - [`ranges`] partitions block ranges into bounded chunks and decides
//!   retries;
//! - [`logs`] orders and applies liquidity history;
//! - [`store`] is the address-keyed working set;
//! - [`syncer`] and [`database`] are the engine's two collaborators — the
//!   chain source and the pool store — each with a verified in-memory
//!   implementation;
//! - [`pool_sync`] is the engine that drives them;
//! - [`convert`] carries the conversion traits an embedder implements on
//!   its adapter types.

use vstd::prelude::*;

pub mod convert;
pub mod database;
pub mod logs;
pub mod pool_sync;
pub mod ranges;
pub mod store;
pub mod syncer;
pub mod types;

verus! {

} // verus!
