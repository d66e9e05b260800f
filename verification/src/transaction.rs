//! Transactions: spendable outputs, spend references, and the transaction
//! itself, with its canonical encoding and hash.

use vstd::prelude::*;
use vstd::string::StringExecFns;
use crate::encode::{enc_u64, enc_u128, enc_str, push_u64, push_u128, push_bytes, push_str};
use crate::hashes::{sha256, sha256_of};
use crate::txstore::{TxStore, StoreV, store_lookup, store_remove, store_insert};
use crate::script::script_ok;

verus! {

/// A spendable output: a value and the locking program that authorizes
/// spending it.
pub struct UTXO {
    pub value: u128,
    pub lock: String,
}

/// A spend reference: which output of which prior transaction is consumed,
/// and the solution program that unlocks it.
pub struct UTXOU {
    pub tx_hash: [u8; 32],
    pub index: usize,
    pub solution: String,
}

/// A transaction: a nonce distinguishing otherwise-identical transactions,
/// consumed outputs, and created outputs. A transaction with no inputs is a
/// coinbase transaction, minting its outputs.
pub struct Transaction {
    pub nonce: u128,
    pub vin: Vec<UTXOU>,
    pub vout: Vec<UTXO>,
}

/// Mathematical model of an output.
pub ghost struct UtxoV {
    pub value: u128,
    pub lock: Seq<char>,
}

/// Mathematical model of a spend reference.
pub ghost struct UtxouV {
    pub tx_hash: Seq<u8>,
    pub index: usize,
    pub solution: Seq<char>,
}

/// Mathematical model of a transaction.
pub ghost struct TxV {
    pub nonce: u128,
    pub vin: Seq<UtxouV>,
    pub vout: Seq<UtxoV>,
}

impl View for UTXO {
    type V = UtxoV;

    open spec fn view(&self) -> UtxoV {
        UtxoV { value: self.value, lock: self.lock@ }
    }
}

impl View for UTXOU {
    type V = UtxouV;

    open spec fn view(&self) -> UtxouV {
        UtxouV { tx_hash: self.tx_hash@, index: self.index, solution: self.solution@ }
    }
}

impl View for Transaction {
    type V = TxV;

    open spec fn view(&self) -> TxV {
        TxV {
            nonce: self.nonce,
            vin: Seq::new(self.vin@.len(), |i: int| self.vin@[i]@),
            vout: Seq::new(self.vout@.len(), |i: int| self.vout@[i]@),
        }
    }
}

impl Clone for UTXO {
    fn clone(&self) -> (r: Self)
        ensures
            r@ == self@,
    {
        UTXO { value: self.value, lock: self.lock.clone() }
    }
}

impl Clone for UTXOU {
    fn clone(&self) -> (r: Self)
        ensures
            r@ == self@,
    {
        UTXOU { tx_hash: self.tx_hash, index: self.index, solution: self.solution.clone() }
    }
}

impl Clone for Transaction {
    fn clone(&self) -> (r: Self)
        ensures
            r@ == self@,
    {
        let mut vin: Vec<UTXOU> = Vec::new();
        let mut i: usize = 0;
        while i < self.vin.len()
            invariant
                i <= self.vin@.len(),
                vin@.len() == i,
                forall|j: int| 0 <= j < i ==> vin@[j]@ == self.vin@[j]@,
            decreases self.vin@.len() - i,
        {
            vin.push(self.vin[i].clone());
            i = i + 1;
        }
        let mut vout: Vec<UTXO> = Vec::new();
        let mut k: usize = 0;
        while k < self.vout.len()
            invariant
                k <= self.vout@.len(),
                vout@.len() == k,
                forall|j: int| 0 <= j < k ==> vout@[j]@ == self.vout@[j]@,
            decreases self.vout@.len() - k,
        {
            vout.push(self.vout[k].clone());
            k = k + 1;
        }
        let r = Transaction { nonce: self.nonce, vin, vout };
        proof {
            assert(r@.vin =~= self@.vin);
            assert(r@.vout =~= self@.vout);
        }
        r
    }
}

impl UTXO {
    pub fn new(value: u128, lock: String) -> (r: UTXO)
        ensures
            r@ == (UtxoV { value, lock: lock@ }),
    {
        UTXO { value, lock }
    }
}

impl UTXOU {
    pub fn new(tx_hash: [u8; 32], index: usize, solution: String) -> (r: UTXOU)
        ensures
            r@ == (UtxouV { tx_hash: tx_hash@, index, solution: solution@ }),
    {
        UTXOU { tx_hash, index, solution }
    }
}

/// Canonical encoding of an output.
pub open spec fn enc_utxo(u: UtxoV) -> Seq<u8> {
    enc_u128(u.value) + enc_str(u.lock)
}

/// Canonical encoding of a spend reference.
pub open spec fn enc_utxou(u: UtxouV) -> Seq<u8> {
    u.tx_hash + enc_u64(u.index as u64) + enc_str(u.solution)
}

/// Canonical encoding of a sequence of spend references.
pub open spec fn enc_vin(s: Seq<UtxouV>) -> Seq<u8>
    decreases s.len(),
{
    if s.len() == 0 {
        Seq::empty()
    } else {
        enc_vin(s.drop_last()) + enc_utxou(s.last())
    }
}

/// Canonical encoding of a sequence of outputs.
pub open spec fn enc_vout(s: Seq<UtxoV>) -> Seq<u8>
    decreases s.len(),
{
    if s.len() == 0 {
        Seq::empty()
    } else {
        enc_vout(s.drop_last()) + enc_utxo(s.last())
    }
}

/// Canonical encoding of a whole transaction.
pub open spec fn enc_tx(t: TxV) -> Seq<u8> {
    enc_u128(t.nonce) + enc_u64(t.vin.len() as u64) + enc_vin(t.vin) + enc_u64(
        t.vout.len() as u64,
    ) + enc_vout(t.vout)
}

/// A transaction's identity: the SHA-256 digest of its canonical encoding.
pub open spec fn tx_hash_spec(t: TxV) -> Seq<u8> {
    sha256_of(enc_tx(t))
}

/// Sum of the values of a sequence of outputs.
pub open spec fn vout_sum(s: Seq<UtxoV>) -> nat
    decreases s.len(),
{
    if s.len() == 0 {
        0
    } else {
        (vout_sum(s.drop_last()) + s.last().value) as nat
    }
}

impl Transaction {
    pub fn new(nonce: u128, vin: Vec<UTXOU>, vout: Vec<UTXO>) -> (r: Transaction)
        ensures
            r.nonce == nonce,
            r@.vin == Seq::new(vin@.len(), |i: int| vin@[i]@),
            r@.vout == Seq::new(vout@.len(), |i: int| vout@[i]@),
    {
        Transaction { nonce, vin, vout }
    }

    /// The coinbase transaction of a block: no inputs, one minted output,
    /// and the block height as nonce so that every height's coinbase hashes
    /// differently.
    pub fn new_coinbase(block_height: usize, reward: u128, lock: String) -> (r: Transaction)
        ensures
            r.nonce == block_height as u128,
            r@.vin.len() == 0,
            r@.vout =~= seq![UtxoV { value: reward, lock: lock@ }],
    {
        let vout_item = UTXO { value: reward, lock };
        let mut vout: Vec<UTXO> = Vec::new();
        vout.push(vout_item);
        Transaction { nonce: block_height as u128, vin: Vec::new(), vout }
    }

    /// The transaction's canonical byte encoding.
    pub fn encoded(&self) -> (r: Vec<u8>)
        ensures
            r@ == enc_tx(self@),
    {
        let mut out: Vec<u8> = Vec::new();
        push_u128(&mut out, self.nonce);
        push_u64(&mut out, self.vin.len() as u64);
        let mut i: usize = 0;
        while i < self.vin.len()
            invariant
                i <= self.vin@.len(),
                out@ =~= enc_u128(self.nonce) + enc_u64(self.vin@.len() as u64) + enc_vin(
                    self@.vin.take(i as int),
                ),
            decreases self.vin@.len() - i,
        {
            let u = &self.vin[i];
            push_bytes(&mut out, u.tx_hash.as_slice());
            push_u64(&mut out, u.index as u64);
            push_str(&mut out, u.solution.as_str());
            proof {
                assert(self@.vin.take(i + 1).drop_last() =~= self@.vin.take(i as int));
                assert(self@.vin.take(i + 1).last() == self@.vin[i as int]);
            }
            i = i + 1;
        }
        proof {
            assert(self@.vin.take(self@.vin.len() as int) =~= self@.vin);
        }
        push_u64(&mut out, self.vout.len() as u64);
        let ghost prefix = out@;
        let mut k: usize = 0;
        while k < self.vout.len()
            invariant
                k <= self.vout@.len(),
                out@ =~= prefix + enc_vout(self@.vout.take(k as int)),
            decreases self.vout@.len() - k,
        {
            let u = &self.vout[k];
            push_u128(&mut out, u.value);
            push_str(&mut out, u.lock.as_str());
            proof {
                assert(self@.vout.take(k + 1).drop_last() =~= self@.vout.take(k as int));
                assert(self@.vout.take(k + 1).last() == self@.vout[k as int]);
            }
            k = k + 1;
        }
        proof {
            assert(self@.vout.take(self@.vout.len() as int) =~= self@.vout);
            assert(out@ =~= enc_tx(self@));
        }
        out
    }

    /// The transaction's identity hash.
    pub fn hash(&self) -> (r: [u8; 32])
        ensures
            r@ == tx_hash_spec(self@),
    {
        let encoded = self.encoded();
        sha256(encoded.as_slice())
    }

    /// Total value created by the transaction's outputs, if it fits the
    /// 128-bit value range.
    pub fn vout_total_checked(&self) -> (r: Option<u128>)
        ensures
            r is Some <==> vout_sum(self@.vout) <= u128::MAX,
            r is Some ==> r->Some_0 == vout_sum(self@.vout),
    {
        let mut total: u128 = 0;
        let mut i: usize = 0;
        while i < self.vout.len()
            invariant
                i <= self.vout@.len(),
                total == vout_sum(self@.vout.take(i as int)),
            decreases self.vout@.len() - i,
        {
            proof {
                assert(self@.vout.take(i + 1).drop_last() =~= self@.vout.take(i as int));
                assert(self@.vout.take(i + 1).last() == self@.vout[i as int]);
            }
            total = match total.checked_add(self.vout[i].value) {
                Some(t) => t,
                None => {
                    proof {
                        lemma_vout_sum_prefix_le(self@.vout, (i + 1) as int);
                    }
                    return None;
                },
            };
            i = i + 1;
        }
        proof {
            assert(self@.vout.take(self@.vout.len() as int) =~= self@.vout);
        }
        Some(total)
    }

    /// Total value created by the transaction's outputs.
    pub fn vout_total(&self) -> (r: u128)
        requires
            vout_sum(self@.vout) <= u128::MAX,
        ensures
            r == vout_sum(self@.vout),
    {
        match self.vout_total_checked() {
            Some(t) => t,
            None => {
                proof {
                    assert(false);
                }
                0
            },
        }
    }
}

/// A prefix of the outputs never sums to more than the whole.
pub proof fn lemma_vout_sum_prefix_le(s: Seq<UtxoV>, i: int)
    requires
        0 <= i <= s.len(),
    ensures
        vout_sum(s.take(i)) <= vout_sum(s),
    decreases s.len() - i,
{
    if i == s.len() {
        assert(s.take(i) =~= s);
    } else {
        lemma_vout_sum_prefix_le(s, i + 1);
        assert(s.take(i + 1).drop_last() =~= s.take(i));
    }
}


/// Checking a transaction's inputs left to right against a store and the
/// outputs already consumed in the same block: the input total and the
/// grown consumed-set, or nothing at the first missing output, double
/// spend, or failing script.
pub open spec fn vin_check(vin: Seq<UtxouV>, store: StoreV, used: StoreV) -> Option<(nat, StoreV)>
    decreases vin.len(),
{
    if vin.len() == 0 {
        Some((0, used))
    } else {
        match vin_check(vin.drop_last(), store, used) {
            None => None,
            Some(acc) => {
                let x = vin.last();
                match store_lookup(store, x.tx_hash, x.index) {
                    None => None,
                    Some(utxo) => {
                        if store_lookup(acc.1, x.tx_hash, x.index) is Some {
                            None
                        } else if !script_ok(x.solution, utxo.lock) {
                            None
                        } else {
                            Some(
                                (
                                    (acc.0 + utxo.value) as nat,
                                    store_insert(acc.1, x.tx_hash, x.index, utxo),
                                ),
                            )
                        }
                    },
                }
            },
        }
    }
}

/// A non-coinbase transaction is valid against a store and a consumed-set
/// when every input resolves, is not doubly spent, its script authorizes,
/// the totals fit the 128-bit range, and inputs cover outputs.
pub open spec fn tx_valid(tx: TxV, store: StoreV, used: StoreV) -> bool {
    match vin_check(tx.vin, store, used) {
        None => false,
        Some(acc) => acc.0 <= u128::MAX && vout_sum(tx.vout) <= acc.0,
    }
}

/// Input checking of a prefix bounds input checking of the whole: a failed
/// prefix fails the whole, and a successful whole has at least the prefix's
/// total.
pub proof fn lemma_vin_check_prefix(vin: Seq<UtxouV>, store: StoreV, used: StoreV, i: int)
    requires
        0 <= i <= vin.len(),
    ensures
        vin_check(vin.take(i), store, used) is None ==> vin_check(vin, store, used) is None,
        (vin_check(vin.take(i), store, used) matches Some(acc)) ==> (vin_check(vin, store, used)
            is None || (vin_check(vin, store, used) matches Some(a) && a.0
            >= vin_check(vin.take(i), store, used)->Some_0.0)),
    decreases vin.len() - i,
{
    if i == vin.len() {
        assert(vin.take(i) =~= vin);
    } else {
        lemma_vin_check_prefix(vin, store, used, i + 1);
        assert(vin.take(i + 1).drop_last() =~= vin.take(i));
        assert(vin.take(i + 1).last() == vin[i]);
    }
}

/// Summing a transaction's inputs as the store resolves them.
pub open spec fn vin_sum(vin: Seq<UtxouV>, store: StoreV) -> Option<nat>
    decreases vin.len(),
{
    if vin.len() == 0 {
        Some(0)
    } else {
        match vin_sum(vin.drop_last(), store) {
            None => None,
            Some(t) => match store_lookup(store, vin.last().tx_hash, vin.last().index) {
                None => None,
                Some(u) => Some((t + u.value) as nat),
            },
        }
    }
}

/// The sum of a prefix of the inputs bounds the sum of all of them.
pub proof fn lemma_vin_sum_prefix(vin: Seq<UtxouV>, store: StoreV, i: int)
    requires
        0 <= i <= vin.len(),
    ensures
        vin_sum(vin.take(i), store) is None ==> vin_sum(vin, store) is None,
        (vin_sum(vin.take(i), store) matches Some(t)) ==> (vin_sum(vin, store) is None || (
        vin_sum(vin, store) matches Some(a) && a >= vin_sum(vin.take(i), store)->Some_0)),
    decreases vin.len() - i,
{
    if i == vin.len() {
        assert(vin.take(i) =~= vin);
    } else {
        lemma_vin_sum_prefix(vin, store, i + 1);
        assert(vin.take(i + 1).drop_last() =~= vin.take(i));
        assert(vin.take(i + 1).last() == vin[i]);
    }
}

/// Spending a transaction's inputs in order, pruning emptied keys.
pub open spec fn remove_vin(store: StoreV, vin: Seq<UtxouV>) -> StoreV
    decreases vin.len(),
{
    if vin.len() == 0 {
        store
    } else {
        store_remove(remove_vin(store, vin.drop_last()), vin.last().tx_hash, vin.last().index)
    }
}

/// Creating a transaction's outputs in order under its hash.
pub open spec fn add_vout(store: StoreV, h: Seq<u8>, vout: Seq<UtxoV>) -> StoreV
    decreases vout.len(),
{
    if vout.len() == 0 {
        store
    } else {
        store_insert(add_vout(store, h, vout.drop_last()), h, (vout.len() - 1) as usize, vout.last())
    }
}

/// The effect of applying a transaction to a store: consumed outputs leave,
/// created outputs enter under the transaction's hash.
pub open spec fn apply_tx(store: StoreV, tx: TxV) -> StoreV {
    add_vout(remove_vin(store, tx.vin), tx_hash_spec(tx), tx.vout)
}

impl Transaction {
    /// Verifies a non-coinbase transaction against a store snapshot and the
    /// set of outputs already consumed by earlier transactions of the same
    /// block; on success the consumed-set has grown by this transaction's
    /// inputs, on failure it is unchanged.
    pub fn verify(&self, tx_store: &TxStore, used_tx_store: &mut TxStore) -> (r: bool)
        requires
            tx_store.wf(),
            old(used_tx_store).wf(),
        ensures
            final(used_tx_store).wf(),
            r == tx_valid(self@, tx_store@, old(used_tx_store)@),
            r ==> (vin_check(self@.vin, tx_store@, old(used_tx_store)@) matches Some(acc)
                && final(used_tx_store)@ == acc.1),
            !r ==> final(used_tx_store)@ == old(used_tx_store)@,
    {
        let ghost vin = self@.vin;
        let ghost store0 = tx_store@;
        let ghost used0 = used_tx_store@;
        let mut u = used_tx_store.clone();
        let mut total: u128 = 0;
        let mut i: usize = 0;
        proof {
            assert(vin.take(0) =~= Seq::<UtxouV>::empty());
        }
        while i < self.vin.len()
            invariant
                tx_store.wf(),
                u.wf(),
                i <= self.vin@.len(),
                vin == self@.vin,
                store0 == tx_store@,
                used0 == old(used_tx_store)@,
                used_tx_store.wf(),
                used_tx_store@ == used0,
                vin_check(vin.take(i as int), store0, used0) == Some((total as nat, u@)),
            decreases self.vin@.len() - i,
        {
            let x = &self.vin[i];
            proof {
                assert(vin.take(i + 1).drop_last() =~= vin.take(i as int));
                assert(vin.take(i + 1).last() == vin[i as int]);
                assert(vin[i as int] == x@);
            }
            let utxo = match tx_store.get(&x.tx_hash, x.index) {
                Some(f) => f,
                None => {
                    proof {
                        assert(vin_check(vin.take(i + 1), store0, used0) is None);
                        lemma_vin_check_prefix(vin, store0, used0, i + 1);
                    }
                    return false;
                },
            };
            if u.get(&x.tx_hash, x.index).is_some() {
                proof {
                    assert(vin_check(vin.take(i + 1), store0, used0) is None);
                    lemma_vin_check_prefix(vin, store0, used0, i + 1);
                }
                return false;
            }
            let mut combined = x.solution.clone();
            combined.append(" ");
            combined.append(utxo.lock.as_str());
            proof {
                reveal_strlit(" ");
                assert(" "@ =~= seq![' ']);
                assert(combined@ =~= x@.solution + seq![' '] + utxo@.lock);
            }
            if crate::script::eval(combined.as_str()).is_none() {
                proof {
                    assert(!script_ok(x@.solution, utxo@.lock));
                    assert(vin_check(vin.take(i + 1), store0, used0) is None);
                    lemma_vin_check_prefix(vin, store0, used0, i + 1);
                }
                return false;
            }
            let value = utxo.value;
            let utxo_owned = utxo.clone();
            u.set(&x.tx_hash, x.index, utxo_owned);
            total = match total.checked_add(value) {
                Some(t) => t,
                None => {
                    proof {
                        lemma_vin_check_prefix(vin, store0, used0, i + 1);
                    }
                    return false;
                },
            };
            i = i + 1;
        }
        proof {
            assert(vin.take(vin.len() as int) =~= vin);
        }
        let vt = match self.vout_total_checked() {
            Some(t) => t,
            None => {
                return false;
            },
        };
        if vt > total {
            return false;
        }
        *used_tx_store = u;
        true
    }

    /// Total value of the inputs as the store resolves them, if every input
    /// resolves and the sum fits the 128-bit range.
    pub fn vin_total(&self, tx_store: &TxStore) -> (r: Option<u128>)
        requires
            tx_store.wf(),
        ensures
            r is Some <==> (vin_sum(self@.vin, tx_store@) matches Some(t) && t <= u128::MAX),
            r is Some ==> vin_sum(self@.vin, tx_store@) == Some(r->Some_0 as nat),
    {
        let ghost vin = self@.vin;
        let ghost store0 = tx_store@;
        let mut total: u128 = 0;
        let mut i: usize = 0;
        proof {
            assert(vin.take(0) =~= Seq::<UtxouV>::empty());
        }
        while i < self.vin.len()
            invariant
                tx_store.wf(),
                i <= self.vin@.len(),
                vin == self@.vin,
                store0 == tx_store@,
                vin_sum(vin.take(i as int), store0) == Some(total as nat),
            decreases self.vin@.len() - i,
        {
            let x = &self.vin[i];
            proof {
                assert(vin.take(i + 1).drop_last() =~= vin.take(i as int));
                assert(vin.take(i + 1).last() == vin[i as int]);
                assert(vin[i as int] == x@);
            }
            let utxo = match tx_store.get(&x.tx_hash, x.index) {
                Some(f) => f,
                None => {
                    proof {
                        lemma_vin_sum_prefix(vin, store0, i + 1);
                    }
                    return None;
                },
            };
            total = match total.checked_add(utxo.value) {
                Some(t) => t,
                None => {
                    proof {
                        lemma_vin_sum_prefix(vin, store0, i + 1);
                    }
                    return None;
                },
            };
            i = i + 1;
        }
        proof {
            assert(vin.take(vin.len() as int) =~= vin);
        }
        Some(total)
    }

    /// The fee a transaction pays: inputs minus outputs, if both resolve.
    pub fn fees(&self, tx_store: &TxStore) -> (r: Option<u128>)
        requires
            tx_store.wf(),
        ensures
            r is Some <==> (vin_sum(self@.vin, tx_store@) matches Some(t) && t <= u128::MAX
                && vout_sum(self@.vout) <= t),
            r is Some ==> Some(r->Some_0 as nat) == Some(
                (vin_sum(self@.vin, tx_store@)->Some_0 - vout_sum(self@.vout)) as nat,
            ),
    {
        let vin = match self.vin_total(tx_store) {
            Some(t) => t,
            None => {
                return None;
            },
        };
        let vout = match self.vout_total_checked() {
            Some(t) => t,
            None => {
                proof {
                    assert(vout_sum(self@.vout) > u128::MAX);
                }
                return None;
            },
        };
        if vout > vin {
            return None;
        }
        Some(vin - vout)
    }

    /// Applies the transaction to a store: spends its inputs, creates its
    /// outputs. Call only after it verified against that store.
    pub fn add(&self, tx_store: &mut TxStore)
        requires
            old(tx_store).wf(),
        ensures
            final(tx_store).wf(),
            final(tx_store)@ == apply_tx(old(tx_store)@, self@),
    {
        let ghost vin = self@.vin;
        let ghost store0 = tx_store@;
        let mut i: usize = 0;
        proof {
            assert(vin.take(0) =~= Seq::<UtxouV>::empty());
        }
        while i < self.vin.len()
            invariant
                tx_store.wf(),
                i <= self.vin@.len(),
                vin == self@.vin,
                tx_store@ == remove_vin(store0, vin.take(i as int)),
            decreases self.vin@.len() - i,
        {
            let x = &self.vin[i];
            proof {
                assert(vin.take(i + 1).drop_last() =~= vin.take(i as int));
                assert(vin.take(i + 1).last() == vin[i as int]);
                assert(vin[i as int] == x@);
            }
            let ghost before = tx_store@;
            tx_store.remove(&x.tx_hash, x.index);
            proof {
                assert(tx_store@ =~= store_remove(before, x@.tx_hash, x@.index));
            }
            i = i + 1;
        }
        proof {
            assert(vin.take(vin.len() as int) =~= vin);
        }
        let ghost removed = tx_store@;
        let ghost vout = self@.vout;
        let h = self.hash();
        let mut k: usize = 0;
        proof {
            assert(vout.take(0) =~= Seq::<UtxoV>::empty());
        }
        while k < self.vout.len()
            invariant
                tx_store.wf(),
                k <= self.vout@.len(),
                vout == self@.vout,
                h@ == tx_hash_spec(self@),
                tx_store@ == add_vout(removed, tx_hash_spec(self@), vout.take(k as int)),
            decreases self.vout@.len() - k,
        {
            proof {
                assert(vout.take(k + 1).drop_last() =~= vout.take(k as int));
                assert(vout.take(k + 1).last() == vout[k as int]);
                assert(vout[k as int] == self.vout@[k as int]@);
            }
            let ghost before = tx_store@;
            let utxo = self.vout[k].clone();
            tx_store.set(&h, k, utxo);
            proof {
                assert(tx_store@ =~= store_insert(before, tx_hash_spec(self@), k, vout[k as int]));
            }
            k = k + 1;
        }
        proof {
            assert(vout.take(vout.len() as int) =~= vout);
        }
    }
}


/// A successful input check sums exactly what the store resolves.
pub proof fn lemma_vin_check_sum(vin: Seq<UtxouV>, store: StoreV, used: StoreV)
    requires
        vin_check(vin, store, used) is Some,
    ensures
        vin_sum(vin, store) == Some(vin_check(vin, store, used)->Some_0.0),
    decreases vin.len(),
{
    if vin.len() > 0 {
        lemma_vin_check_sum(vin.drop_last(), store, used);
    }
}

} // verus!


