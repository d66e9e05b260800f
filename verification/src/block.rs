//! Blocks: a timestamped batch of transactions linked to its predecessor by
//! hash, carrying its height, its difficulty target and the proof-of-work
//! nonce. The hash takes a caller-chosen nonce so a miner can search without
//! rebuilding the block.

use vstd::prelude::*;
use crate::encode::{enc_u64, enc_u128, push_u64, push_u128, push_bytes};
use crate::hashes::{sha256, sha256_of};
use crate::transaction::{Transaction, TxV, enc_tx};
use crate::difficulty::satisfies_spec;
use crate::arith::be_val;

verus! {

/// A block of the chain.
pub struct Block {
    pub nonce: u128,
    pub timestamp: u64,
    pub previous: [u8; 32],
    pub difficulty: [u8; 32],
    pub height: usize,
    pub transactions: Vec<Transaction>,
}

/// Mathematical model of a block.
pub ghost struct BlockV {
    pub nonce: u128,
    pub timestamp: u64,
    pub previous: Seq<u8>,
    pub difficulty: Seq<u8>,
    pub height: usize,
    pub transactions: Seq<TxV>,
}

impl View for Block {
    type V = BlockV;

    open spec fn view(&self) -> BlockV {
        BlockV {
            nonce: self.nonce,
            timestamp: self.timestamp,
            previous: self.previous@,
            difficulty: self.difficulty@,
            height: self.height,
            transactions: Seq::new(self.transactions@.len(), |i: int| self.transactions@[i]@),
        }
    }
}

impl Clone for Block {
    fn clone(&self) -> (r: Self)
        ensures
            r@ == self@,
    {
        let mut transactions: Vec<Transaction> = Vec::new();
        let mut i: usize = 0;
        while i < self.transactions.len()
            invariant
                i <= self.transactions@.len(),
                transactions@.len() == i,
                forall|j: int| 0 <= j < i ==> transactions@[j]@ == self.transactions@[j]@,
            decreases self.transactions@.len() - i,
        {
            transactions.push(self.transactions[i].clone());
            i = i + 1;
        }
        let r = Block {
            nonce: self.nonce,
            timestamp: self.timestamp,
            previous: self.previous,
            difficulty: self.difficulty,
            height: self.height,
            transactions,
        };
        proof {
            assert(r@.transactions =~= self@.transactions);
        }
        r
    }
}

/// Canonical encoding of a sequence of transactions.
pub open spec fn enc_txs(s: Seq<TxV>) -> Seq<u8>
    decreases s.len(),
{
    if s.len() == 0 {
        Seq::empty()
    } else {
        enc_txs(s.drop_last()) + enc_tx(s.last())
    }
}

/// Canonical encoding of a block under a chosen nonce.
pub open spec fn enc_block(b: BlockV, nonce: u128) -> Seq<u8> {
    enc_u64(b.timestamp) + b.previous + b.difficulty + enc_u64(b.height as u64) + enc_u128(nonce)
        + enc_u64(b.transactions.len() as u64) + enc_txs(b.transactions)
}

/// A block's hash under a chosen nonce.
pub open spec fn block_hash_spec(b: BlockV, nonce: u128) -> Seq<u8> {
    sha256_of(enc_block(b, nonce))
}

/// The previous-hash sentinel of a genesis block: 32 zero bytes.
pub open spec fn zero_hash() -> Seq<u8> {
    Seq::new(32, |i: int| 0u8)
}

impl Block {
    /// A fresh candidate block: nonce not yet found.
    pub fn new(
        timestamp: u64,
        previous: [u8; 32],
        difficulty: [u8; 32],
        block_height: usize,
        transactions: Vec<Transaction>,
    ) -> (r: Block)
        ensures
            r.nonce == 0,
            r.timestamp == timestamp,
            r.previous@ == previous@,
            r.difficulty@ == difficulty@,
            r.height == block_height,
            r@.transactions == Seq::new(transactions@.len(), |i: int| transactions@[i]@),
    {
        Block { nonce: 0, timestamp, previous, difficulty, height: block_height, transactions }
    }

    /// A genesis block at the given time: height zero, the zero sentinel as
    /// previous hash, and two leading zero bytes of difficulty.
    pub fn default_genesis(timestamp: u64) -> (r: Block)
        ensures
            r.nonce == 0,
            r.timestamp == timestamp,
            r.previous@ == zero_hash(),
            r.height == 0,
            r@.transactions.len() == 0,
            forall|i: int| 0 <= i < 2 ==> r.difficulty@[i] == 0u8,
            forall|i: int| 2 <= i < 32 ==> r.difficulty@[i] == 0xFFu8,
    {
        let difficulty = match crate::difficulty::create(2) {
            Some(d) => d,
            None => {
                proof {
                    assert(false);
                }
                [0u8; 32]
            },
        };
        let r = Block {
            nonce: 0,
            timestamp,
            previous: [0u8; 32],
            difficulty,
            height: 0,
            transactions: Vec::new(),
        };
        proof {
            assert(r.previous@ =~= zero_hash());
            assert(r@.transactions =~= Seq::<TxV>::empty());
        }
        r
    }

    /// The block's canonical encoding under a chosen nonce.
    pub fn encoded(&self, nonce: u128) -> (r: Vec<u8>)
        ensures
            r@ == enc_block(self@, nonce),
    {
        let mut out: Vec<u8> = Vec::new();
        push_u64(&mut out, self.timestamp);
        push_bytes(&mut out, self.previous.as_slice());
        push_bytes(&mut out, self.difficulty.as_slice());
        push_u64(&mut out, self.height as u64);
        push_u128(&mut out, nonce);
        push_u64(&mut out, self.transactions.len() as u64);
        let ghost prefix = out@;
        let ghost txs = self@.transactions;
        let mut i: usize = 0;
        proof {
            assert(txs.take(0) =~= Seq::<TxV>::empty());
            assert(out@ =~= prefix + enc_txs(txs.take(0)));
        }
        while i < self.transactions.len()
            invariant
                i <= self.transactions@.len(),
                txs == self@.transactions,
                out@ =~= prefix + enc_txs(txs.take(i as int)),
            decreases self.transactions@.len() - i,
        {
            let mut enc = self.transactions[i].encoded();
            out.append(&mut enc);
            proof {
                assert(txs.take(i + 1).drop_last() =~= txs.take(i as int));
                assert(txs.take(i + 1).last() == txs[i as int]);
            }
            i = i + 1;
        }
        proof {
            assert(txs.take(txs.len() as int) =~= txs);
            assert(out@ =~= enc_block(self@, nonce));
        }
        out
    }

    /// The block's hash, under its own nonce or a caller-supplied one.
    pub fn hash(&self, custom_nonce: Option<u128>) -> (r: [u8; 32])
        ensures
            r@ == block_hash_spec(
                self@,
                if custom_nonce is Some {
                    custom_nonce->Some_0
                } else {
                    self.nonce
                },
            ),
    {
        let nonce = match custom_nonce {
            Some(n) => n,
            None => self.nonce,
        };
        let encoded = self.encoded(nonce);
        sha256(encoded.as_slice())
    }

    /// Whether the block's hash under the given nonce meets its own stored
    /// difficulty target.
    pub fn valid_nonce(&self, nonce: Option<u128>) -> (r: bool)
        ensures
            r == satisfies_spec(
                self.difficulty@,
                block_hash_spec(
                    self@,
                    if nonce is Some {
                        nonce->Some_0
                    } else {
                        self.nonce
                    },
                ),
            ),
    {
        let h = self.hash(nonce);
        crate::difficulty::satisfies(&self.difficulty, &h)
    }
}

} // verus!
