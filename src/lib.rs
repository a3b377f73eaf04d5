//! State-commitment layer of a Starknet full node: a keyed byte store with
//! snapshots and optimistic transactions, the adapter that lays trie keys out
//! over its columns, staged trie handlers, and the commitment engine that turns
//! a block's state diff into the global state root.

pub mod bonsai_db;
pub mod bytes;
pub mod commitment;
pub mod config;
pub mod error;
pub mod felt;
pub mod felt_map;
pub mod handler;
pub mod store;
pub mod table;
