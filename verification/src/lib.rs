//! A small in-process proof-of-work ledger.
//!
//! Each participant holds a chain of blocks over unauthenticated transactions,
//! mines new blocks by brute-force nonce search, validates chains link by
//! link, and resolves forks by a longest-valid-chain rule. A registry of
//! nodes delivers blocks and whole chains to direct peers.
//!
//! The difficulty predicate used throughout (mining, receiving, validation)
//! is byte-based: a digest satisfies difficulty `d` when its first `d` bytes
//! are zero, eight bits per unit of difficulty.
#![verifier::loop_isolation(false)]

pub mod hashing;
pub mod clock;
pub mod transaction;
pub mod block;
pub mod blockchain;
pub mod node;
pub mod network;

pub use block::Block;
pub use blockchain::{Blockchain, BlockchainError};
pub use network::Network;
pub use node::{Node, NodeError};
pub use hashing::{sha256_of, dec_digits, meets_difficulty, zero_digest};
pub use transaction::Transaction;
