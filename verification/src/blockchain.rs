//! The chain and its validation rules: what the next valid block is, how a
//! block is applied to the ledger, how the difficulty is retargeted, and the
//! replay that decides whether a whole chain is valid from genesis.

use vstd::prelude::*;
use crate::arith::{be_val, pow2, lemma_pow2_pos, lemma_pow2_mono, lemma_be_val_injective};
use crate::block::{Block, BlockV, block_hash_spec, zero_hash};
use crate::difficulty::{adjusted_val, satisfies};
use crate::settings::Settings;
use crate::transaction::{
    Transaction, TxV, apply_tx, tx_valid, vin_check, vout_sum, lemma_vin_check_prefix,
    lemma_vin_check_sum,
};
use crate::txstore::{TxStore, StoreV, hash_eq};

verus! {

/// The ordered, append-only sequence of blocks.
pub struct Blockchain(pub Vec<Block>);

impl View for Blockchain {
    type V = Seq<BlockV>;

    open spec fn view(&self) -> Seq<BlockV> {
        Seq::new(self.0@.len(), |i: int| self.0@[i]@)
    }
}

impl Clone for Blockchain {
    fn clone(&self) -> (r: Self)
        ensures
            r@ == self@,
    {
        let mut blocks: Vec<Block> = Vec::new();
        let mut i: usize = 0;
        while i < self.0.len()
            invariant
                i <= self.0@.len(),
                blocks@.len() == i,
                forall|j: int| 0 <= j < i ==> blocks@[j]@ == self.0@[j]@,
            decreases self.0@.len() - i,
        {
            blocks.push(self.0[i].clone());
            i = i + 1;
        }
        let r = Blockchain(blocks);
        proof {
            assert(r@ =~= self@);
        }
        r
    }
}

/// Applying a block's transactions to a store in order.
pub open spec fn apply_txs(store: StoreV, txs: Seq<TxV>) -> StoreV
    decreases txs.len(),
{
    if txs.len() == 0 {
        store
    } else {
        apply_tx(apply_txs(store, txs.drop_last()), txs.last())
    }
}

/// The effect of a block on the ledger.
pub open spec fn apply_block(store: StoreV, b: BlockV) -> StoreV {
    apply_txs(store, b.transactions)
}

/// The UTXO set reached by folding block application over a chain from the
/// empty ledger.
pub open spec fn fold_apply(blocks: Seq<BlockV>) -> StoreV
    decreases blocks.len(),
{
    if blocks.len() == 0 {
        Map::empty()
    } else {
        apply_block(fold_apply(blocks.drop_last()), blocks.last())
    }
}

/// The mining reward at a height: the starting reward halved once per
/// completed halving interval, zero once the halvings exhaust it.
pub open spec fn reward_spec(height: int, s: Settings) -> nat {
    let halvings = height / (s.halvings_interval as int);
    if halvings < 128 {
        (s.start_mining_reward as nat) / pow2(halvings as nat)
    } else {
        0
    }
}

/// The mining reward minted at a block height.
pub fn calculate_mining_reward(block_height: usize, settings: &Settings) -> (r: u128)
    requires
        settings.wf(),
    ensures
        r == reward_spec(block_height as int, *settings),
{
    let halvings = block_height / settings.halvings_interval;
    if halvings >= 128 {
        return 0;
    }
    let mut r: u128 = settings.start_mining_reward;
    let mut i: usize = 0;
    proof {
        assert(pow2(0) == 1) by {
            reveal_with_fuel(pow2, 2);
        }
        vstd::arithmetic::div_mod::lemma_div_basics(settings.start_mining_reward as int);
    }
    while i < halvings
        invariant
            i <= halvings,
            r == (settings.start_mining_reward as nat) / pow2(i as nat),
        decreases halvings - i,
    {
        proof {
            lemma_pow2_pos(i as nat);
            vstd::arithmetic::div_mod::lemma_div_denominator(
                settings.start_mining_reward as int,
                pow2(i as nat) as int,
                2,
            );
        }
        r = r / 2;
        i = i + 1;
    }
    r
}

/// The model of an optional owned transaction.
pub open spec fn opt_tx_view(o: Option<Transaction>) -> Option<TxV> {
    match o {
        Some(t) => Some(t@),
        None => None,
    }
}

/// Checking a block's transactions in order: at most one coinbase, whose
/// nonce is the block height; every other transaction valid against the
/// store and the outputs consumed so far; the fees accumulate.
pub open spec fn txs_fold(txs: Seq<TxV>, store: StoreV, height: usize) -> Option<
    (Option<TxV>, nat, StoreV),
>
    decreases txs.len(),
{
    if txs.len() == 0 {
        Some((None, 0, Map::empty()))
    } else {
        match txs_fold(txs.drop_last(), store, height) {
            None => None,
            Some(st) => {
                let tx = txs.last();
                if tx.vin.len() == 0 {
                    if st.0 is Some {
                        None
                    } else if tx.nonce != height as u128 {
                        None
                    } else {
                        Some((Some(tx), st.1, st.2))
                    }
                } else {
                    if !tx_valid(tx, store, st.2) {
                        None
                    } else {
                        let acc = vin_check(tx.vin, store, st.2)->Some_0;
                        Some((st.0, (st.1 + (acc.0 - vout_sum(tx.vout))) as nat, acc.1))
                    }
                }
            },
        }
    }
}

/// A failed prefix fails the whole transaction check, and a successful
/// whole has at least the prefix's fees.
pub proof fn lemma_txs_fold_prefix(txs: Seq<TxV>, store: StoreV, height: usize, i: int)
    requires
        0 <= i <= txs.len(),
    ensures
        txs_fold(txs.take(i), store, height) is None ==> txs_fold(txs, store, height) is None,
        (txs_fold(txs.take(i), store, height) matches Some(st)) ==> (txs_fold(txs, store, height)
            is None || (txs_fold(txs, store, height) matches Some(w) && w.1 >= txs_fold(
            txs.take(i),
            store,
            height,
        )->Some_0.1)),
    decreases txs.len() - i,
{
    if i == txs.len() {
        assert(txs.take(i) =~= txs);
    } else {
        lemma_txs_fold_prefix(txs, store, height, i + 1);
        assert(txs.take(i + 1).drop_last() =~= txs.take(i));
        assert(txs.take(i + 1).last() == txs[i]);
    }
}

/// The block that may extend a chain: linked, timely, meeting the target,
/// with a well-formed transaction set whose coinbase mints at most the
/// reward plus the fees.
pub open spec fn valid_next_spec(
    chain: Seq<BlockV>,
    b: BlockV,
    store: StoreV,
    target: nat,
    s: Settings,
) -> bool {
    &&& (chain.len() > 0 ==> b.timestamp >= chain.last().timestamp)
    &&& (chain.len() > 0 ==> b.previous == block_hash_spec(chain.last(), chain.last().nonce))
    &&& (chain.len() == 0 ==> b.previous == zero_hash())
    &&& b.height == chain.len()
    &&& be_val(block_hash_spec(b, b.nonce)) <= target
    &&& match txs_fold(b.transactions, store, chain.len() as usize) {
        None => false,
        Some(st) => st.1 <= u128::MAX && (match st.0 {
            None => true,
            Some(cb) => vout_sum(cb.vout) <= u128::MAX && vout_sum(cb.vout) <= reward_spec(
                chain.len() as int,
                s,
            ) + st.1,
        }),
    }
}

/// Whether a chain length sits on a retargeting boundary: a positive
/// multiple of the adjustment interval.
pub open spec fn at_boundary(len: int, s: Settings) -> bool {
    len >= s.adjustment_interval && len % (s.adjustment_interval as int) == 0
}

/// The observed seconds over the last adjustment interval, clamped at zero.
pub open spec fn interval_spec(chain: Seq<BlockV>, s: Settings) -> u64 {
    let last = chain.last().timestamp;
    let prev = chain[chain.len() - s.adjustment_interval].timestamp;
    if last >= prev {
        (last - prev) as u64
    } else {
        0
    }
}

/// The target for a chain's next block, given the current target value.
pub open spec fn next_target(chain: Seq<BlockV>, cur: nat, s: Settings) -> nat {
    if at_boundary(chain.len() as int, s) {
        adjusted_val(cur, interval_spec(chain, s), s)
    } else {
        cur
    }
}

/// Replaying a chain from the empty ledger: every block must carry the
/// independently derived difficulty and be the valid next block of the
/// rebuilt prefix. Yields the final UTXO set and target value.
pub open spec fn replay(blocks: Seq<BlockV>, s: Settings) -> Option<(StoreV, nat)>
    decreases blocks.len(),
{
    if blocks.len() == 0 {
        Some((Map::empty(), be_val(s.start_difficulty@)))
    } else {
        match replay(blocks.drop_last(), s) {
            None => None,
            Some(st) => {
                let prefix = blocks.drop_last();
                let b = blocks.last();
                let dv = next_target(prefix, st.1, s);
                if be_val(b.difficulty) != dv {
                    None
                } else if !valid_next_spec(prefix, b, st.0, dv, s) {
                    None
                } else {
                    Some((apply_block(st.0, b), dv))
                }
            },
        }
    }
}

/// A failed prefix fails the whole replay.
pub proof fn lemma_replay_prefix_none(blocks: Seq<BlockV>, s: Settings, i: int)
    requires
        0 <= i <= blocks.len(),
        replay(blocks.take(i), s) is None,
    ensures
        replay(blocks, s) is None,
    decreases blocks.len() - i,
{
    if i == blocks.len() {
        assert(blocks.take(i) =~= blocks);
    } else {
        assert(blocks.take(i + 1).drop_last() =~= blocks.take(i));
        lemma_replay_prefix_none(blocks, s, i + 1);
    }
}

impl Blockchain {
    /// The empty chain.
    pub fn new_empty() -> (r: Blockchain)
        ensures
            r@ =~= Seq::<BlockV>::empty(),
    {
        let r = Blockchain(Vec::new());
        proof {
            assert(r@ =~= Seq::<BlockV>::empty());
        }
        r
    }

    /// The chain's height: the number of blocks.
    pub fn height(&self) -> (r: usize)
        ensures
            r == self@.len(),
    {
        self.0.len()
    }

    /// The block at an index; a negative index counts from the end.
    pub fn at(&self, i: i32) -> (r: &Block)
        requires
            i >= 0 ==> i < self@.len(),
            i < 0 ==> -(i as int) <= self@.len(),
        ensures
            r@ == self@[if i >= 0 {
                i as int
            } else {
                self@.len() + i
            }],
    {
        if i < 0 {
            let k = (-(i as i64)) as usize;
            &self.0[self.0.len() - k]
        } else {
            &self.0[i as usize]
        }
    }

    /// Whether `block` is the valid next block of this chain against the
    /// given ledger and target.
    pub fn valid_next(
        &self,
        block: &Block,
        store: &TxStore,
        difficulty: &[u8; 32],
        settings: &Settings,
    ) -> (r: bool)
        requires
            store.wf(),
            settings.wf(),
        ensures
            r == valid_next_spec(self@, block@, store@, be_val(difficulty@), *settings),
    {
        let n = self.0.len();
        if n > 0 {
            let last = &self.0[n - 1];
            if block.timestamp < last.timestamp {
                return false;
            }
            let last_hash = last.hash(None);
            if !hash_eq(&block.previous, &last_hash) {
                return false;
            }
        } else {
            let zero = [0u8; 32];
            proof {
                assert(zero@ =~= zero_hash());
            }
            if !hash_eq(&block.previous, &zero) {
                return false;
            }
        }
        if block.height != n {
            return false;
        }
        let bh = block.hash(None);
        if !satisfies(difficulty, &bh) {
            return false;
        }
        let ghost txs = block@.transactions;
        let ghost store0 = store@;
        let mut used = TxStore::new_empty();
        let mut coinbase: Option<Transaction> = None;
        let mut fees: u128 = 0;
        let mut i: usize = 0;
        proof {
            assert(txs.take(0) =~= Seq::<TxV>::empty());
            assert(used@ =~= Map::<Seq<u8>, Map<usize, crate::transaction::UtxoV>>::empty());
        }
        while i < block.transactions.len()
            invariant
                store.wf(),
                settings.wf(),
                used.wf(),
                i <= block.transactions@.len(),
                txs == block@.transactions,
                store0 == store@,
                n == self@.len(),
                txs_fold(txs.take(i as int), store0, n) == Some(
                    (opt_tx_view(coinbase), fees as nat, used@),
                ),
            decreases block.transactions@.len() - i,
        {
            let tx = &block.transactions[i];
            proof {
                assert(txs.take(i + 1).drop_last() =~= txs.take(i as int));
                assert(txs.take(i + 1).last() == txs[i as int]);
                assert(txs[i as int] == tx@);
            }
            if tx.vin.len() == 0 {
                if coinbase.is_some() {
                    proof {
                        lemma_txs_fold_prefix(txs, store0, n, i + 1);
                    }
                    return false;
                }
                if tx.nonce != n as u128 {
                    proof {
                        lemma_txs_fold_prefix(txs, store0, n, i + 1);
                    }
                    return false;
                }
                coinbase = Some(tx.clone());
            } else {
                let ghost used_before = used@;
                if !tx.verify(store, &mut used) {
                    proof {
                        lemma_txs_fold_prefix(txs, store0, n, i + 1);
                    }
                    return false;
                }
                let fee = match tx.fees(store) {
                    Some(f) => f,
                    None => {
                        proof {
                            lemma_vin_check_sum(tx@.vin, store0, used_before);
                            assert(false);
                        }
                        0
                    },
                };
                proof {
                    lemma_vin_check_sum(tx@.vin, store0, used_before);
                }
                fees = match fees.checked_add(fee) {
                    Some(f) => f,
                    None => {
                        proof {
                            lemma_txs_fold_prefix(txs, store0, n, i + 1);
                        }
                        return false;
                    },
                };
            }
            i = i + 1;
        }
        proof {
            assert(txs.take(txs.len() as int) =~= txs);
        }
        match &coinbase {
            None => true,
            Some(cb) => {
                let cb_total = match cb.vout_total_checked() {
                    Some(t) => t,
                    None => {
                        return false;
                    },
                };
                let reward = calculate_mining_reward(n, settings);
                match reward.checked_add(fees) {
                    Some(limit) => cb_total <= limit,
                    None => true,
                }
            },
        }
    }

    /// Appends a block and applies its transactions to the ledger. Run
    /// `valid_next` first: this performs no validation.
    pub fn add(&mut self, store: &mut TxStore, block: Block)
        requires
            old(store).wf(),
        ensures
            final(store).wf(),
            final(self)@ == old(self)@.push(block@),
            final(store)@ == apply_block(old(store)@, block@),
    {
        let ghost txs = block@.transactions;
        let ghost store0 = store@;
        let mut i: usize = 0;
        proof {
            assert(txs.take(0) =~= Seq::<TxV>::empty());
        }
        while i < block.transactions.len()
            invariant
                store.wf(),
                i <= block.transactions@.len(),
                txs == block@.transactions,
                store@ == apply_txs(store0, txs.take(i as int)),
            decreases block.transactions@.len() - i,
        {
            proof {
                assert(txs.take(i + 1).drop_last() =~= txs.take(i as int));
                assert(txs.take(i + 1).last() == txs[i as int]);
                assert(txs[i as int] == block.transactions@[i as int]@);
            }
            block.transactions[i].add(store);
            i = i + 1;
        }
        proof {
            assert(txs.take(txs.len() as int) =~= txs);
        }
        let ghost chain0 = self@;
        self.0.push(block);
        proof {
            assert(self@ =~= chain0.push(self.0@[chain0.len() as int]@));
        }
    }

    /// Retargets the difficulty at adjustment boundaries; at any other
    /// height the target is returned unchanged.
    pub fn adjust_difficulty(&self, difficulty: [u8; 32], settings: &Settings) -> (r: [u8; 32])
        requires
            settings.wf(),
        ensures
            be_val(r@) == next_target(self@, be_val(difficulty@), *settings),
            !at_boundary(self@.len() as int, *settings) ==> r == difficulty,
    {
        let n = self.0.len();
        let interval = settings.adjustment_interval as usize;
        if n < interval || n % interval != 0 {
            return difficulty;
        }
        let last_ts = self.0[n - 1].timestamp;
        let prev_ts = self.0[n - interval].timestamp;
        let time_interval: u64 = if last_ts >= prev_ts {
            last_ts - prev_ts
        } else {
            0
        };
        crate::difficulty::adjusted(&difficulty, time_interval, settings)
    }

    /// Validates the whole chain by replaying it from the empty ledger,
    /// recomputing each block's expected difficulty; yields the final UTXO
    /// set and difficulty, or nothing at the first invalid block.
    pub fn is_valid(&self, settings: &Settings) -> (r: Option<(TxStore, [u8; 32])>)
        requires
            settings.wf(),
        ensures
            match r {
                Some(p) => replay(self@, *settings) matches Some(st) && p.0@ == st.0 && be_val(
                    p.1@,
                ) == st.1 && p.0.wf(),
                None => replay(self@, *settings) is None,
            },
    {
        let ghost blocks = self@;
        let mut blockchain = Blockchain::new_empty();
        let mut store = TxStore::new_empty();
        let mut difficulty = settings.start_difficulty;
        let mut i: usize = 0;
        proof {
            assert(blocks.take(0) =~= Seq::<BlockV>::empty());
            assert(store@ =~= Map::<Seq<u8>, Map<usize, crate::transaction::UtxoV>>::empty());
        }
        while i < self.0.len()
            invariant
                settings.wf(),
                store.wf(),
                i <= self.0@.len(),
                blocks == self@,
                blockchain@ == blocks.take(i as int),
                replay(blocks.take(i as int), *settings) == Some((store@, be_val(difficulty@))),
            decreases self.0@.len() - i,
        {
            let block = &self.0[i];
            proof {
                assert(blocks.take(i + 1).drop_last() =~= blocks.take(i as int));
                assert(blocks.take(i + 1).last() == blocks[i as int]);
                assert(blocks[i as int] == block@);
            }
            difficulty = blockchain.adjust_difficulty(difficulty, settings);
            if !hash_eq(&block.difficulty, &difficulty) {
                proof {
                    if be_val(block.difficulty@) == be_val(difficulty@) {
                        lemma_be_val_injective(block.difficulty@, difficulty@);
                    }
                    assert(replay(blocks.take(i + 1), *settings) is None);
                    lemma_replay_prefix_none(blocks, *settings, i + 1);
                }
                return None;
            }
            if !blockchain.valid_next(block, &store, &difficulty, settings) {
                proof {
                    assert(replay(blocks.take(i + 1), *settings) is None);
                    lemma_replay_prefix_none(blocks, *settings, i + 1);
                }
                return None;
            }
            blockchain.add(&mut store, block.clone());
            proof {
                assert(blockchain@ =~= blocks.take(i + 1));
            }
            i = i + 1;
        }
        proof {
            assert(blocks.take(blocks.len() as int) =~= blocks);
        }
        Some((store, difficulty))
    }
}

/// Whether a transaction alone is valid against a store: no outputs of the
/// containing block consumed yet.
pub fn is_valid_tx(tx: &Transaction, store: &TxStore) -> (r: bool)
    requires
        store.wf(),
    ensures
        r == tx_valid(tx@, store@, Map::empty()),
{
    let mut used = TxStore::new_empty();
    proof {
        assert(used@ =~= Map::<Seq<u8>, Map<usize, crate::transaction::UtxoV>>::empty());
    }
    tx.verify(store, &mut used)
}

/// Applies a transaction to a store: spends its inputs, creates its outputs.
pub fn add_tx_to_store(tx: &Transaction, store: &mut TxStore)
    requires
        old(store).wf(),
    ensures
        final(store).wf(),
        final(store)@ == apply_tx(old(store)@, tx@),
{
    tx.add(store);
}

/// A chain that replays successfully reaches exactly the UTXO set that
/// folding block application over it from the empty ledger reaches: bulk
/// validation and incremental application agree.
pub proof fn lemma_replay_is_fold(blocks: Seq<BlockV>, s: Settings)
    requires
        replay(blocks, s) is Some,
    ensures
        replay(blocks, s)->Some_0.0 == fold_apply(blocks),
    decreases blocks.len(),
{
    if blocks.len() > 0 {
        lemma_replay_is_fold(blocks.drop_last(), s);
    }
}

/// Changing only the stored previous-hash of any non-genesis block of a
/// chain that replays successfully makes the replay fail: the link to the
/// predecessor no longer matches.
pub proof fn lemma_mutated_previous_rejected(
    blocks: Seq<BlockV>,
    mutated: Seq<BlockV>,
    i: int,
    s: Settings,
)
    requires
        replay(blocks, s) is Some,
        mutated.len() == blocks.len(),
        1 <= i < blocks.len(),
        forall|j: int| 0 <= j < blocks.len() && j != i ==> mutated[j] == blocks[j],
        mutated[i] == (BlockV { previous: mutated[i].previous, ..blocks[i] }),
        mutated[i].previous != blocks[i].previous,
    ensures
        replay(mutated, s) is None,
{
    assert(mutated.take(i) =~= blocks.take(i));
    lemma_replay_take_some(blocks, s, i + 1);
    lemma_replay_take_some(blocks, s, i);
    assert(blocks.take(i + 1).drop_last() =~= blocks.take(i));
    assert(blocks.take(i + 1).last() == blocks[i]);
    let st = replay(blocks.take(i), s)->Some_0;
    let dv = next_target(blocks.take(i), st.1, s);
    assert(valid_next_spec(blocks.take(i), blocks[i], st.0, dv, s));
    assert(blocks[i].previous == block_hash_spec(
        blocks.take(i).last(),
        blocks.take(i).last().nonce,
    ));
    assert(mutated.take(i + 1).drop_last() =~= mutated.take(i));
    assert(mutated.take(i + 1).last() == mutated[i]);
    assert(!valid_next_spec(mutated.take(i), mutated[i], st.0, dv, s));
    assert(replay(mutated.take(i + 1), s) is None);
    lemma_replay_prefix_none(mutated, s, i + 1);
}

/// A successful replay replays every prefix.
pub proof fn lemma_replay_take_some(blocks: Seq<BlockV>, s: Settings, i: int)
    requires
        0 <= i <= blocks.len(),
        replay(blocks, s) is Some,
    ensures
        replay(blocks.take(i), s) is Some,
    decreases blocks.len() - i,
{
    if i == blocks.len() {
        assert(blocks.take(i) =~= blocks);
    } else {
        lemma_replay_take_some(blocks, s, i + 1);
        assert(blocks.take(i + 1).drop_last() =~= blocks.take(i));
    }
}

/// The reward schedule's shape: the full reward at height zero, half of it
/// after one halving interval, and nothing from the point where the number
/// of halvings reaches the reward's magnitude.
pub proof fn lemma_mining_reward_halving(s: Settings, height: int)
    requires
        s.wf(),
        height >= 0,
    ensures
        reward_spec(0, s) == s.start_mining_reward,
        reward_spec(s.halvings_interval as int, s) == (s.start_mining_reward as nat) / 2,
        s.start_mining_reward < 128 && height >= 7 * (s.halvings_interval as int) ==> reward_spec(
            height,
            s,
        ) == 0,
{
    let d = s.halvings_interval as int;
    assert(reward_spec(0, s) == s.start_mining_reward) by {
        vstd::arithmetic::div_mod::lemma_basic_div(0, d);
        assert(pow2(0) == 1) by {
            reveal_with_fuel(pow2, 2);
        }
        vstd::arithmetic::div_mod::lemma_div_by_self(s.start_mining_reward as int + 1);
        assert((s.start_mining_reward as nat) / 1 == s.start_mining_reward);
    }
    assert(reward_spec(d, s) == (s.start_mining_reward as nat) / 2) by {
        vstd::arithmetic::div_mod::lemma_div_by_self(d);
        assert(pow2(1) == 2) by {
            reveal_with_fuel(pow2, 3);
        }
    }
    if s.start_mining_reward < 128 && height >= 7 * d {
        let halvings = height / d;
        vstd::arithmetic::div_mod::lemma_div_multiples_vanish(7, d);
        vstd::arithmetic::div_mod::lemma_div_is_ordered(7 * d, height, d);
        assert(halvings >= 7);
        if halvings < 128 {
            lemma_pow2_mono(7, halvings as nat);
            assert(pow2(7) == 128) by {
                reveal_with_fuel(pow2, 9);
            }
            vstd::arithmetic::div_mod::lemma_basic_div(
                s.start_mining_reward as int,
                pow2(halvings as nat) as int,
            );
        }
    }
}


/// A transaction without inputs whose nonce is not the block height
/// poisons the block's transaction check.
proof fn lemma_txs_fold_bad_coinbase(txs: Seq<TxV>, store: StoreV, height: usize, j: int)
    requires
        0 <= j < txs.len(),
        txs[j].vin.len() == 0,
        txs[j].nonce != height as u128,
    ensures
        txs_fold(txs, store, height) is None,
    decreases txs.len(),
{
    if j < txs.len() - 1 {
        assert(txs.drop_last()[j] == txs[j]);
        lemma_txs_fold_bad_coinbase(txs.drop_last(), store, height, j);
    }
}

/// In a block whose transaction check succeeds, every transaction without
/// inputs carries the block height as nonce.
proof fn lemma_txs_fold_coinbase_nonce(txs: Seq<TxV>, store: StoreV, height: usize, j: int)
    requires
        txs_fold(txs, store, height) is Some,
        0 <= j < txs.len(),
        txs[j].vin.len() == 0,
    ensures
        txs[j].nonce == height as u128,
    decreases txs.len(),
{
    if j < txs.len() - 1 {
        assert(txs.drop_last()[j] == txs[j]);
        lemma_txs_fold_coinbase_nonce(txs.drop_last(), store, height, j);
    }
}

/// Changing only the nonce of a coinbase transaction of any block of a
/// chain that replays successfully makes the replay fail: the nonce no
/// longer names the block's height.
pub proof fn lemma_mutated_coinbase_rejected(
    blocks: Seq<BlockV>,
    mutated: Seq<BlockV>,
    i: int,
    j: int,
    s: Settings,
)
    requires
        replay(blocks, s) is Some,
        mutated.len() == blocks.len(),
        0 <= i < blocks.len(),
        forall|k: int| 0 <= k < blocks.len() && k != i ==> mutated[k] == blocks[k],
        mutated[i] == (BlockV { transactions: mutated[i].transactions, ..blocks[i] }),
        mutated[i].transactions.len() == blocks[i].transactions.len(),
        0 <= j < blocks[i].transactions.len(),
        forall|l: int|
            0 <= l < blocks[i].transactions.len() && l != j ==> mutated[i].transactions[l]
                == blocks[i].transactions[l],
        mutated[i].transactions[j] == (TxV {
            nonce: mutated[i].transactions[j].nonce,
            ..blocks[i].transactions[j]
        }),
        blocks[i].transactions[j].vin.len() == 0,
        mutated[i].transactions[j].nonce != blocks[i].transactions[j].nonce,
    ensures
        replay(mutated, s) is None,
{
    assert(mutated.take(i) =~= blocks.take(i));
    lemma_replay_take_some(blocks, s, i + 1);
    lemma_replay_take_some(blocks, s, i);
    assert(blocks.take(i + 1).drop_last() =~= blocks.take(i));
    assert(blocks.take(i + 1).last() == blocks[i]);
    let st = replay(blocks.take(i), s)->Some_0;
    let dv = next_target(blocks.take(i), st.1, s);
    assert(valid_next_spec(blocks.take(i), blocks[i], st.0, dv, s));
    let height = blocks.take(i).len() as usize;
    assert(txs_fold(blocks[i].transactions, st.0, height) is Some);
    lemma_txs_fold_coinbase_nonce(blocks[i].transactions, st.0, height, j);
    lemma_txs_fold_bad_coinbase(mutated[i].transactions, st.0, height, j);
    assert(mutated.take(i + 1).drop_last() =~= mutated.take(i));
    assert(mutated.take(i + 1).last() == mutated[i]);
    assert(!valid_next_spec(mutated.take(i), mutated[i], st.0, dv, s));
    assert(replay(mutated.take(i + 1), s) is None);
    lemma_replay_prefix_none(mutated, s, i + 1);
}

} // verus!

