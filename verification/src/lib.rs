//! Verified core of a Kaspa node toolkit: block-DAG bookkeeping, wallets and
//! transaction building, mempool analytics, and the decisions of the RPC client,
//! the notification listener, the batch caches and the network monitor.

pub mod text;
pub mod collections;
pub mod order;
pub mod types;
pub mod codec;
pub mod crypto;
pub mod config;
pub mod dag;
pub mod wallet;
pub mod mem;
pub mod rpc;
pub mod events;
pub mod batch;
pub mod monitor;
