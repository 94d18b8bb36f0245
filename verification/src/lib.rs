//! A payments ledger engine: per-client accounts driven by a stream of
//! deposit, withdrawal, dispute, resolve and chargeback events, processed
//! shard by shard with exact fixed-point arithmetic.

pub mod digits;
pub mod money;
pub mod transaction;
pub mod account;
pub mod output;
pub mod shard;
pub mod engine;
pub mod decode;
pub mod writer;
