//! A verified batch ledger: per-client accounts are built by replaying
//! deposit, withdrawal, dispute, resolve and chargeback events against a
//! durable transaction history, and emitted as balance snapshots.
pub mod account;
pub mod amount;
pub mod balancer;
pub mod codec;
pub mod tx_cluster;
pub mod tx_history;
pub mod tx_row;
pub mod digits;
pub mod error;
pub mod processor;
pub mod store;
pub mod summary;
