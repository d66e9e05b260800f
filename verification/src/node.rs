//! The node's decision core. The orchestration loop around it performs the
//! network and clock work; every decision — how an incoming block is
//! treated, when a peer's chain replaces the local one, which transactions
//! the mempool admits, and what candidate block the miner searches — is a
//! verified transition on this state.

use vstd::prelude::*;
use crate::arith::be_val;
use crate::block::{Block, block_hash_spec, zero_hash};
use crate::blockchain::{
    Blockchain, apply_block, calculate_mining_reward, next_target, replay, reward_spec,
    valid_next_spec,
};
use crate::ecdsa::{create_lock_with_addr, lock_script};
use crate::mempool::{MemPool, fee_of, txs_views};
use crate::settings::Settings;
use crate::transaction::{Transaction, TxV, UtxoV, apply_tx, tx_valid, tx_hash_spec};
use crate::txstore::TxStore;

verus! {

/// The largest number of transactions a mined block may carry, coinbase
/// included.
pub const BLOCK_TX_LIMIT: usize = 1000;

/// What to do with an incoming block.
#[derive(Clone, Copy, Debug, PartialEq, Eq, Structural)]
pub enum BlockDecision {
    /// The block belongs to a chain no longer than ours: drop it.
    Stale,
    /// The block is the valid immediate successor of our chain: apply it.
    AcceptNext,
    /// The block implies a longer or divergent chain: fetch the sender's
    /// whole chain and weigh it.
    FetchChain,
}

/// The node's ledger state: the chain, its UTXO set and difficulty, and the
/// mempool with its shadow UTXO view.
pub struct Node {
    pub settings: Settings,
    pub blockchain: Blockchain,
    pub store: TxStore,
    pub difficulty: [u8; 32],
    pub mem_transactions: MemPool,
    pub mem_store: TxStore,
}

/// The treatment an incoming block earns against the current state.
pub open spec fn decide_block_spec(
    chain: Seq<crate::block::BlockV>,
    store: crate::txstore::StoreV,
    diff: nat,
    s: Settings,
    claimed_height: usize,
    b: crate::block::BlockV,
) -> BlockDecision {
    if claimed_height <= chain.len() {
        BlockDecision::Stale
    } else if claimed_height == chain.len() + 1 && valid_next_spec(
        chain,
        b,
        store,
        next_target(chain, diff, s),
        s,
    ) {
        BlockDecision::AcceptNext
    } else {
        BlockDecision::FetchChain
    }
}

/// Sum of the fees of a transaction sequence, counting those that resolve.
pub open spec fn fees_sum(txs: Seq<TxV>, store: crate::txstore::StoreV) -> nat
    decreases txs.len(),
{
    if txs.len() == 0 {
        0
    } else {
        (fees_sum(txs.drop_last(), store) + (match fee_of(txs.last(), store) {
            Some(f) => f,
            None => 0,
        })) as nat
    }
}

impl Node {
    /// Well-formed node state.
    pub open spec fn wf(&self) -> bool {
        &&& self.settings.wf()
        &&& self.store.wf()
        &&& self.mem_store.wf()
        &&& self.mem_transactions.wf()
    }

    /// A fresh node: empty chain, ledger and mempool, the settings' start
    /// difficulty.
    pub fn new(settings: Settings) -> (r: Node)
        requires
            settings.wf(),
        ensures
            r.wf(),
            r.settings == settings,
            r.blockchain@.len() == 0,
            r.store@ =~= Map::<Seq<u8>, Map<usize, UtxoV>>::empty(),
            r.difficulty == settings.start_difficulty,
            r.mem_transactions@.len() == 0,
    {
        Node {
            settings,
            blockchain: Blockchain::new_empty(),
            store: TxStore::new_empty(),
            difficulty: settings.start_difficulty,
            mem_transactions: MemPool::new(),
            mem_store: TxStore::new_empty(),
        }
    }

    /// Decides what an incoming block of claimed height earns: stale blocks
    /// are dropped, the valid immediate successor is accepted, anything
    /// else prompts fetching the sender's chain.
    pub fn process_block(&self, claimed_height: usize, block: &Block) -> (r: BlockDecision)
        requires
            self.wf(),
        ensures
            r == decide_block_spec(
                self.blockchain@,
                self.store@,
                be_val(self.difficulty@),
                self.settings,
                claimed_height,
                block@,
            ),
    {
        let h = self.blockchain.height();
        if claimed_height <= h {
            return BlockDecision::Stale;
        }
        let adj = self.blockchain.adjust_difficulty(self.difficulty, &self.settings);
        if claimed_height - 1 == h && self.blockchain.valid_next(
            block,
            &self.store,
            &adj,
            &self.settings,
        ) {
            BlockDecision::AcceptNext
        } else {
            BlockDecision::FetchChain
        }
    }

    /// Applies an accepted next block: retargets, appends, updates the
    /// ledger, resets the mempool's shadow view and hands the pending
    /// transactions back for re-validation.
    pub fn accept_block(&mut self, block: Block) -> (requeue: Vec<Transaction>)
        requires
            old(self).wf(),
        ensures
            final(self).wf(),
            final(self).settings == old(self).settings,
            final(self).blockchain@ == old(self).blockchain@.push(block@),
            final(self).store@ == apply_block(old(self).store@, block@),
            be_val(final(self).difficulty@) == next_target(
                old(self).blockchain@,
                be_val(old(self).difficulty@),
                old(self).settings,
            ),
            final(self).mem_store@ == final(self).store@,
            final(self).mem_transactions@.len() == 0,
            txs_views(requeue@) == old(self).mem_transactions@,
    {
        let adj = self.blockchain.adjust_difficulty(self.difficulty, &self.settings);
        self.difficulty = adj;
        let mut store = TxStore::new_empty();
        core::mem::swap(&mut store, &mut self.store);
        self.blockchain.add(&mut store, block);
        self.mem_store = store.clone();
        core::mem::swap(&mut store, &mut self.store);
        self.mem_transactions.take_all()
    }

    /// Fork choice: a peer's chain replaces ours exactly when it replays
    /// successfully from genesis and is strictly longer. On replacement the
    /// ledger and difficulty come from the replay, the shadow view is
    /// reset, and the pending transactions are handed back for
    /// re-validation against the new ledger.
    pub fn replace_chain(&mut self, chain: Blockchain) -> (r: (bool, Vec<Transaction>))
        requires
            old(self).wf(),
        ensures
            final(self).wf(),
            final(self).settings == old(self).settings,
            ({
                let longer = chain@.len() > old(self).blockchain@.len();
                r.0 <==> (replay(chain@, old(self).settings) is Some && longer)
            }),
            !r.0 ==> *final(self) == *old(self) && r.1@.len() == 0,
            r.0 ==> ({
                &&& final(self).blockchain@ == chain@
                &&& (replay(chain@, old(self).settings) matches Some(st) && final(self).store@
                    == st.0 && be_val(final(self).difficulty@) == st.1)
                &&& final(self).mem_store@ == final(self).store@
                &&& final(self).mem_transactions@.len() == 0
                &&& txs_views(r.1@) == old(self).mem_transactions@
            }),
    {
        match chain.is_valid(&self.settings) {
            None => (false, Vec::new()),
            Some(result) => {
                if chain.height() > self.blockchain.height() {
                    self.blockchain = chain;
                    self.store = result.0;
                    self.difficulty = result.1;
                    self.mem_store = self.store.clone();
                    let requeue = self.mem_transactions.take_all();
                    (true, requeue)
                } else {
                    (false, Vec::new())
                }
            },
        }
    }

    /// Admits a transaction into the mempool when it is not yet pending and
    /// verifies against the shadow UTXO view; an admitted transaction's
    /// spends are recorded in the shadow view at once.
    pub fn process_transaction(&mut self, tx: &Transaction) -> (admitted: bool)
        requires
            old(self).wf(),
        ensures
            final(self).wf(),
            final(self).settings == old(self).settings,
            final(self).blockchain@ == old(self).blockchain@,
            final(self).store@ == old(self).store@,
            final(self).difficulty == old(self).difficulty,
            admitted <==> (!old(self).mem_transactions.has_hash(tx_hash_spec(tx@)) && tx_valid(
                tx@,
                old(self).mem_store@,
                Map::empty(),
            )),
            admitted ==> final(self).mem_transactions@ == old(self).mem_transactions@.push(tx@)
                && final(self).mem_store@ == apply_tx(old(self).mem_store@, tx@),
            !admitted ==> final(self).mem_transactions@ == old(self).mem_transactions@
                && final(self).mem_store@ == old(self).mem_store@,
    {
        if self.mem_transactions.contains(tx) {
            return false;
        }
        if !crate::blockchain::is_valid_tx(tx, &self.mem_store) {
            return false;
        }
        self.mem_transactions.add_tx(tx);
        tx.add(&mut self.mem_store);
        true
    }

    /// Builds the candidate block for the miner: the pending transactions
    /// that resolve against the ledger, by descending fee, up to the block
    /// cap, behind a coinbase paying the mining reward plus their fees to
    /// the given address.
    pub fn prepare_mining_block(&self, timestamp: u64, miner_address: &String) -> (r: Block)
        requires
            self.wf(),
        ensures
            r.nonce == 0,
            r.timestamp == timestamp,
            r.height == self.blockchain@.len(),
            be_val(r.difficulty@) == next_target(
                self.blockchain@,
                be_val(self.difficulty@),
                self.settings,
            ),
            self.blockchain@.len() > 0 ==> r.previous@ == block_hash_spec(
                self.blockchain@.last(),
                self.blockchain@.last().nonce,
            ),
            self.blockchain@.len() == 0 ==> r.previous@ == zero_hash(),
            1 <= r@.transactions.len() <= BLOCK_TX_LIMIT,
            r@.transactions[0].vin.len() == 0,
            r@.transactions[0].nonce == self.blockchain@.len() as u128,
            reward_spec(self.blockchain@.len() as int, self.settings) + fees_sum(
                r@.transactions.skip(1),
                self.store@,
            ) <= u128::MAX,
            r@.transactions[0].vout =~= seq![
                UtxoV {
                    value: (reward_spec(self.blockchain@.len() as int, self.settings) + fees_sum(
                        r@.transactions.skip(1),
                        self.store@,
                    )) as u128,
                    lock: lock_script(miner_address@),
                },
            ],
            forall|i: int|
                1 <= i < r@.transactions.len() ==> fee_of(
                    #[trigger] r@.transactions[i],
                    self.store@,
                ) is Some,
            forall|a: int, b: int|
                1 <= a < b < r@.transactions.len() ==> fee_of(
                    #[trigger] r@.transactions[a],
                    self.store@,
                )->Some_0 >= fee_of(#[trigger] r@.transactions[b], self.store@)->Some_0,
            forall|i: int|
                1 <= i < r@.transactions.len() ==> self.mem_transactions@.contains(
                    #[trigger] r@.transactions[i],
                ),
            ({
                let rest = r@.transactions.skip(1);
                let pool = crate::mempool::resolvable_multiset(self.mem_transactions@, self.store@);
                ||| r@.transactions.len() == BLOCK_TX_LIMIT
                ||| rest.to_multiset() == pool
                ||| exists|t: TxV|
                    #[trigger] pool.count(t) > rest.to_multiset().count(t) && reward_spec(
                        self.blockchain@.len() as int,
                        self.settings,
                    ) + fees_sum(rest, self.store@) + fee_of(t, self.store@)->Some_0 > u128::MAX
            }),
    {
        let ghost store0 = self.store@;
        let sorted = self.mem_transactions.sorted_txs(&self.store);
        let reward = calculate_mining_reward(self.blockchain.height(), &self.settings);
        let mut selected: Vec<Transaction> = Vec::new();
        let mut fees: u128 = 0;
        let mut i: usize = 0;
        let mut room: usize = 1;
        proof {
            assert(txs_views(selected@) =~= Seq::<TxV>::empty());
        }
        while room == 1 && i < sorted.len() && i < BLOCK_TX_LIMIT - 1
            invariant
                self.wf(),
                store0 == self.store@,
                i <= sorted@.len(),
                i < BLOCK_TX_LIMIT,
                selected@.len() == i,
                forall|j: int| 0 <= j < i ==> #[trigger] selected@[j]@ == sorted@[j]@,
                fees == fees_sum(txs_views(selected@), store0),
                reward + fees <= u128::MAX,
                reward == reward_spec(self.blockchain@.len() as int, self.settings),
                txs_views(sorted@).to_multiset() == crate::mempool::resolvable_multiset(
                    self.mem_transactions@,
                    store0,
                ),
                forall|j: int| 0 <= j < sorted@.len() ==> fee_of(#[trigger] sorted@[j]@, store0)
                    is Some,
                forall|a: int, b: int|
                    0 <= a < b < sorted@.len() ==> fee_of(#[trigger] sorted@[a]@, store0)->Some_0
                        >= fee_of(#[trigger] sorted@[b]@, store0)->Some_0,
                room <= 1,
                room == 0 ==> i < sorted@.len() && (reward as nat) + (fees as nat) + fee_of(
                    sorted@[i as int]@,
                    store0,
                )->Some_0 > u128::MAX,
            decreases room, sorted@.len() - i,
        {
            let tx = &sorted[i];
            let fee = match tx.fees(&self.store) {
                Some(f) => f,
                None => {
                    proof {
                        assert(fee_of(sorted@[i as int]@, store0) is Some);
                        assert(false);
                    }
                    0
                },
            };
            let new_fees = match fees.checked_add(fee) {
                Some(f) => f,
                None => {
                    proof {
                        assert(fee_of(sorted@[i as int]@, store0) == Some(fee as nat));
                    }
                    room = 0;
                    continue ;
                },
            };
            match reward.checked_add(new_fees) {
                Some(_) => {},
                None => {
                    proof {
                        assert(fee_of(sorted@[i as int]@, store0) == Some(fee as nat));
                    }
                    room = 0;
                    continue ;
                },
            }
            let ghost sel0 = selected@;
            selected.push(tx.clone());
            fees = new_fees;
            proof {
                assert(txs_views(selected@) =~= txs_views(sel0).push(sorted@[i as int]@));
                assert(txs_views(selected@).drop_last() =~= txs_views(sel0));
                assert(fee_of(sorted@[i as int]@, store0) == Some(fee as nat));
            }
            i = i + 1;
        }
        let lock = create_lock_with_addr(miner_address);
        let height = self.blockchain.height();
        let coinbase = Transaction::new_coinbase(height, reward + fees, lock);
        let mut transactions: Vec<Transaction> = Vec::new();
        transactions.push(coinbase);
        let ghost sel = selected@;
        transactions.append(&mut selected);
        let previous: [u8; 32] = if height == 0 {
            let zero = [0u8; 32];
            proof {
                assert(zero@ =~= zero_hash());
            }
            zero
        } else {
            self.blockchain.at(-1).hash(None)
        };
        let difficulty = self.blockchain.adjust_difficulty(self.difficulty, &self.settings);
        let r = Block::new(timestamp, previous, difficulty, height, transactions);
        proof {
            assert(r@.transactions.skip(1) =~= txs_views(sel));
            broadcast use vstd::seq_lib::group_to_multiset_ensures;

            let pool = crate::mempool::resolvable_multiset(self.mem_transactions@, store0);
            let rest = r@.transactions.skip(1);
            if room == 0 {
                let t = sorted@[i as int]@;
                assert(txs_views(sel) =~= txs_views(sorted@).take(i as int));
                lemma_take_multiset_count(txs_views(sorted@), i as int);
                assert(txs_views(sorted@)[i as int] == t);
                assert(pool.count(t) > rest.to_multiset().count(t) && reward_spec(
                    self.blockchain@.len() as int,
                    self.settings,
                ) + fees_sum(rest, self.store@) + fee_of(t, self.store@)->Some_0 > u128::MAX);
            } else if i == sorted@.len() {
                assert(txs_views(sel) =~= txs_views(sorted@));
                assert(rest.to_multiset() == pool);
            } else {
                assert(r@.transactions.len() == BLOCK_TX_LIMIT);
            }
            assert forall|k: int| 1 <= k < r@.transactions.len() implies self.mem_transactions@
                .contains(#[trigger] r@.transactions[k]) by {
                assert(r@.transactions[k] == txs_views(sel)[k - 1]);
                assert(txs_views(sel)[k - 1] == sorted@[k - 1]@);
                assert(txs_views(sorted@)[k - 1] == sorted@[k - 1]@);
                assert(txs_views(sorted@).contains(sorted@[k - 1]@));
                assert(txs_views(sorted@).to_multiset().count(sorted@[k - 1]@) > 0);
                crate::mempool::lemma_resolvable_contains(
                    self.mem_transactions@,
                    store0,
                    sorted@[k - 1]@,
                );
            }
        }
        r
    }

    /// A read-only slice of the chain: the blocks of the half-open index
    /// range, clamped to the chain's height.
    pub fn block_range(&self, start: usize, stop: usize) -> (r: Vec<Block>)
        ensures
            ({
                let n = self.blockchain@.len() as int;
                let lo = if start <= n {
                    start as int
                } else {
                    n
                };
                let hi = if stop <= n {
                    stop as int
                } else {
                    n
                };
                if lo <= hi {
                    Seq::new(r@.len(), |i: int| r@[i]@) == self.blockchain@.subrange(lo, hi)
                } else {
                    r@.len() == 0
                }
            }),
    {
        let n = self.blockchain.0.len();
        let lo = if start <= n {
            start
        } else {
            n
        };
        let hi = if stop <= n {
            stop
        } else {
            n
        };
        let mut r: Vec<Block> = Vec::new();
        if lo >= hi {
            proof {
                assert(Seq::new(r@.len(), |i: int| r@[i]@) =~= Seq::<crate::block::BlockV>::empty());
                if lo as int <= hi as int {
                    assert(self.blockchain@.subrange(lo as int, hi as int) =~= Seq::<
                        crate::block::BlockV,
                    >::empty());
                }
            }
            return r;
        }
        let mut i: usize = lo;
        while i < hi
            invariant
                lo <= i <= hi <= self.blockchain.0@.len(),
                r@.len() == i - lo,
                forall|j: int| 0 <= j < r@.len() ==> #[trigger] r@[j]@ == self.blockchain@[lo + j],
            decreases hi - i,
        {
            r.push(self.blockchain.0[i].clone());
            i = i + 1;
        }
        proof {
            assert(Seq::new(r@.len(), |i: int| r@[i]@) =~= self.blockchain@.subrange(
                lo as int,
                hi as int,
            ));
        }
        r
    }
}


/// A prefix of a sequence counts an element at a position beyond it at
/// least once less than the whole sequence does.
proof fn lemma_take_multiset_count(s: Seq<TxV>, i: int)
    requires
        0 <= i < s.len(),
    ensures
        s.take(i).to_multiset().count(s[i]) < s.to_multiset().count(s[i]),
{
    broadcast use vstd::multiset::group_multiset_axioms;

    s.skip(i).to_multiset_ensures();
    assert(s =~= s.take(i) + s.skip(i));
    vstd::seq_lib::lemma_multiset_commutative(s.take(i), s.skip(i));
    assert(s.skip(i)[0] == s[i]);
    assert(s.skip(i).contains(s[i]));
    assert(s.skip(i).to_multiset().count(s[i]) > 0);
}

} // verus!

