//! The clock wrapper and the proof-of-work nonce search.

use vstd::prelude::*;
use crate::block::{Block, block_hash_spec};
use crate::difficulty::{satisfies, satisfies_spec};

verus! {

/// Relies on std::time::SystemTime::now and duration_since: seconds since
/// the Unix epoch. The reading is environmental; nothing is promised of it.
#[verifier::external_body]
pub fn current_time() -> u64 {
    match std::time::SystemTime::now().duration_since(std::time::SystemTime::UNIX_EPOCH) {
        Ok(d) => d.as_secs(),
        Err(_) => 0,
    }
}

/// Tries up to `attempts` nonces from `start_nonce` upward against the
/// block's hash: the first nonce whose hash meets the target, or nothing if
/// every tried nonce fails. A caller polls cancellation between calls.
pub fn mine_attempt(block: &Block, difficulty: &[u8; 32], start_nonce: u128, attempts: u64) -> (r:
    Option<u128>)
    ensures
        r matches Some(n) ==> start_nonce <= n && n - start_nonce < attempts && satisfies_spec(
            difficulty@,
            block_hash_spec(block@, n),
        ) && (forall|m: u128|
            start_nonce <= m < n ==> !satisfies_spec(difficulty@, block_hash_spec(block@, m))),
        r is None ==> forall|m: u128|
            start_nonce <= m && m - start_nonce < attempts ==> !satisfies_spec(
                difficulty@,
                block_hash_spec(block@, m),
            ),
{
    let mut n: u128 = start_nonce;
    let mut tried: u64 = 0;
    while tried < attempts
        invariant
            start_nonce <= n,
            n - start_nonce == tried,
            forall|m: u128|
                start_nonce <= m < n ==> !satisfies_spec(difficulty@, block_hash_spec(block@, m)),
        decreases attempts - tried,
    {
        let h = block.hash(Some(n));
        if satisfies(difficulty, &h) {
            return Some(n);
        }
        if n == u128::MAX {
            return None;
        }
        n = n + 1;
        tried = tried + 1;
    }
    None
}

/// Searches the whole nonce space from zero for a nonce whose hash meets
/// the target: the smallest such nonce, or nothing if none exists at all.
pub fn find_nonce(block: &Block, difficulty: &[u8; 32]) -> (r: Option<u128>)
    ensures
        r matches Some(n) ==> satisfies_spec(difficulty@, block_hash_spec(block@, n)) && (forall|
            m: u128,
        |
            m < n ==> !satisfies_spec(difficulty@, block_hash_spec(block@, m))),
        r is None ==> forall|m: u128|
            !satisfies_spec(difficulty@, block_hash_spec(block@, m)),
{
    let mut n: u128 = 0;
    loop
        invariant
            forall|m: u128| m < n ==> !satisfies_spec(difficulty@, block_hash_spec(block@, m)),
        decreases u128::MAX - n,
    {
        let h = block.hash(Some(n));
        if satisfies(difficulty, &h) {
            return Some(n);
        }
        if n == u128::MAX {
            return None;
        }
        n = n + 1;
    }
}

} // verus!
