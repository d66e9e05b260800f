//! Consensus and ledger engine for a minimal proof-of-work cryptocurrency
//! node: UTXO transactions, a stack-based locking-script verifier, block and
//! chain validation, difficulty retargeting, a mempool, and the decision
//! logic of the node's reconciliation and mining loop.

pub mod arith;
pub mod settings;
pub mod difficulty;
pub mod hashes;
pub mod hex;
pub mod encode;
pub mod transaction;
pub mod txstore;
pub mod ecdsa;
pub mod script;
pub mod block;
pub mod blockchain;
pub mod mempool;
pub mod utils;
pub mod node;
