//! Node settings: difficulty retargeting parameters, mining reward schedule,
//! and the starting difficulty of a fresh chain.

use vstd::prelude::*;
use crate::arith::{pow10, pow256};

verus! {

/// Consensus parameters shared by every node of a network.
#[derive(Clone, Copy, Debug)]
pub struct Settings {
    /// Desired seconds between blocks.
    pub target_time: u64,
    /// Difficulty is recomputed every this many blocks.
    pub adjustment_interval: u32,
    /// Decimal digits of fixed-point precision used while retargeting.
    pub precision: u32,
    /// The mining reward halves every this many blocks.
    pub halvings_interval: usize,
    /// Reward minted by the coinbase transaction of the first blocks.
    pub start_mining_reward: u128,
    /// Decimal digits by which displayed amounts are scaled.
    pub crypto_precision: u32,
    /// Difficulty target of a fresh chain.
    pub start_difficulty: [u8; 32],
}

impl Settings {
    /// Well-formed settings: the intervals are positive and the fixed-point
    /// scale of retargeting fits a 64-bit value.
    pub open spec fn wf(&self) -> bool {
        &&& self.target_time >= 1
        &&& self.adjustment_interval >= 1
        &&& self.halvings_interval >= 1
        &&& self.precision <= 19
        &&& (self.target_time as nat) * (self.adjustment_interval as nat) * pow10(
            self.precision as nat,
        ) <= u64::MAX
    }

    pub fn new(
        target_time: u64,
        adjustment_interval: u32,
        precision: u32,
        halvings_interval: usize,
        start_mining_reward: u128,
        crypto_precision: u32,
        start_difficulty: [u8; 32],
    ) -> (r: Self)
        ensures
            r == (Settings {
                target_time,
                adjustment_interval,
                precision,
                halvings_interval,
                start_mining_reward,
                crypto_precision,
                start_difficulty,
            }),
    {
        Self {
            target_time,
            adjustment_interval,
            precision,
            halvings_interval,
            start_mining_reward,
            crypto_precision,
            start_difficulty,
        }
    }
}

impl Default for Settings {
    /// The reference parameters: two-second blocks, retargeting every 30
    /// blocks with five digits of precision, halvings every 43200 blocks,
    /// and a starting target of one leading zero byte.
    fn default() -> (r: Self)
        ensures
            r.wf(),
            r.target_time == 2,
            r.adjustment_interval == 30,
            r.precision == 5,
            r.halvings_interval == 43200,
            r.start_mining_reward == 3_000_000,
            r.crypto_precision == 3,
            r.start_difficulty@[0] == 0u8,
            forall|i: int| 1 <= i < 32 ==> r.start_difficulty@[i] == 0xFFu8,
    {
        let mut start_difficulty: [u8; 32] = [0xFFu8; 32];
        start_difficulty[0] = 0u8;
        proof {
            assert(pow10(5) == 100000) by {
                reveal_with_fuel(pow10, 7);
            }
        }
        Settings {
            target_time: 2,
            adjustment_interval: 30,
            precision: 5,
            halvings_interval: 43200,
            start_mining_reward: 3_000_000,
            crypto_precision: 3,
            start_difficulty,
        }
    }
}

} // verus!
