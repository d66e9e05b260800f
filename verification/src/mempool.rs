//! The mempool: verified-but-unconfirmed transactions, de-duplicated by
//! transaction hash, with fee-sorted extraction for block building.

use vstd::prelude::*;
use vstd::multiset::Multiset;
use crate::transaction::{Transaction, TxV, vin_sum, vout_sum};
use crate::txstore::{TxStore, StoreV, hash_eq};

verus! {

/// A pool of pending transactions and their identity hashes, kept in step.
pub struct MemPool {
    pub transactions: Vec<Transaction>,
    pub hashes: Vec<[u8; 32]>,
}

/// The views of a vector of transactions.
pub open spec fn txs_views(v: Seq<Transaction>) -> Seq<TxV> {
    Seq::new(v.len(), |i: int| v[i]@)
}

/// The fee a transaction would pay against a store, where it resolves.
pub open spec fn fee_of(t: TxV, store: StoreV) -> Option<nat> {
    match vin_sum(t.vin, store) {
        None => None,
        Some(v) => if v <= u128::MAX && vout_sum(t.vout) <= v {
            Some((v - vout_sum(t.vout)) as nat)
        } else {
            None
        },
    }
}

/// The multiset of the transactions whose fee resolves against a store.
pub open spec fn resolvable_multiset(txs: Seq<TxV>, store: StoreV) -> Multiset<TxV>
    decreases txs.len(),
{
    if txs.len() == 0 {
        Multiset::empty()
    } else {
        let m = resolvable_multiset(txs.drop_last(), store);
        if fee_of(txs.last(), store) is Some {
            m.insert(txs.last())
        } else {
            m
        }
    }
}

impl View for MemPool {
    type V = Seq<TxV>;

    open spec fn view(&self) -> Seq<TxV> {
        txs_views(self.transactions@)
    }
}

impl MemPool {
    /// The pool's hashes as byte strings.
    pub open spec fn hashes_view(&self) -> Seq<Seq<u8>> {
        Seq::new(self.hashes@.len(), |i: int| self.hashes@[i]@)
    }

    /// Well-formed pool: one hash per transaction, each the transaction's
    /// identity, all distinct.
    pub open spec fn wf(&self) -> bool {
        &&& self.hashes@.len() == self.transactions@.len()
        &&& forall|i: int|
            0 <= i < self.transactions@.len() ==> self.hashes_view()[i]
                == crate::transaction::tx_hash_spec(#[trigger] self@[i])
        &&& forall|i: int, j: int|
            0 <= i < j < self.hashes@.len() ==> #[trigger] self.hashes_view()[i]
                != #[trigger] self.hashes_view()[j]
    }

    /// Whether the pool holds a transaction of the given hash.
    pub open spec fn has_hash(&self, h: Seq<u8>) -> bool {
        exists|i: int| 0 <= i < self.hashes@.len() && #[trigger] self.hashes_view()[i] == h
    }

    /// The empty pool.
    pub fn new() -> (r: MemPool)
        ensures
            r@ =~= Seq::<TxV>::empty(),
            r.wf(),
    {
        MemPool { transactions: Vec::new(), hashes: Vec::new() }
    }

    /// Admits a transaction unless one of the same hash is already pending.
    pub fn add_tx(&mut self, tx: &Transaction)
        requires
            old(self).wf(),
        ensures
            final(self).wf(),
            old(self).has_hash(crate::transaction::tx_hash_spec(tx@)) ==> final(self)@ == old(
                self,
            )@,
            !old(self).has_hash(crate::transaction::tx_hash_spec(tx@)) ==> final(self)@ == old(
                self,
            )@.push(tx@) && final(self).has_hash(crate::transaction::tx_hash_spec(tx@)),
    {
        let h = tx.hash();
        let mut i: usize = 0;
        while i < self.hashes.len()
            invariant
                self == old(self),
                self.wf(),
                i <= self.hashes@.len(),
                h@ == crate::transaction::tx_hash_spec(tx@),
                forall|j: int| 0 <= j < i ==> #[trigger] self.hashes_view()[j] != h@,
            decreases self.hashes@.len() - i,
        {
            if hash_eq(&self.hashes[i], &h) {
                proof {
                    assert(old(self).hashes_view()[i as int] == h@);
                }
                return ;
            }
            i = i + 1;
        }
        let ghost hv0 = self.hashes_view();
        let ghost v0 = self@;
        self.transactions.push(tx.clone());
        self.hashes.push(h);
        proof {
            assert(self@ =~= v0.push(tx@));
            assert(self.hashes_view() =~= hv0.push(h@));
            assert forall|a: int, b: int| 0 <= a < b < self.hashes@.len() implies #[trigger] self
                .hashes_view()[a] != #[trigger] self.hashes_view()[b] by {
                if b == self.hashes@.len() - 1 {
                    assert(self.hashes_view()[a] == hv0[a]);
                    assert(self.hashes_view()[b] == h@);
                } else {
                    assert(self.hashes_view()[a] == hv0[a]);
                    assert(self.hashes_view()[b] == hv0[b]);
                }
            }
            assert(self.hashes_view()[self.hashes@.len() - 1] == h@);
        }
    }

    /// Removes the pending transaction of the given transaction's hash, if
    /// one is there.
    pub fn remove_tx(&mut self, tx: &Transaction)
        requires
            old(self).wf(),
        ensures
            final(self).wf(),
            !old(self).has_hash(crate::transaction::tx_hash_spec(tx@)) ==> final(self)@ == old(
                self,
            )@,
            old(self).has_hash(crate::transaction::tx_hash_spec(tx@)) ==> exists|i: int|
                0 <= i < old(self)@.len() && old(self).hashes_view()[i]
                    == crate::transaction::tx_hash_spec(tx@) && final(self)@ == old(
                    self,
                )@.remove(i),
            !final(self).has_hash(crate::transaction::tx_hash_spec(tx@)),
    {
        let h = tx.hash();
        let mut i: usize = 0;
        while i < self.hashes.len()
            invariant
                i <= self.hashes@.len(),
                self.wf(),
                self == old(self),
                h@ == crate::transaction::tx_hash_spec(tx@),
                forall|j: int| 0 <= j < i ==> #[trigger] self.hashes_view()[j] != h@,
            decreases self.hashes@.len() - i,
        {
            if hash_eq(&self.hashes[i], &h) {
                let ghost hv0 = self.hashes_view();
                let ghost v0 = self@;
                proof {
                    assert(hv0[i as int] == h@);
                }
                self.transactions.remove(i);
                self.hashes.remove(i);
                proof {
                    assert(self@ =~= v0.remove(i as int));
                    assert(self.hashes_view() =~= hv0.remove(i as int));
                    assert forall|j: int| 0 <= j < self.hashes@.len() implies #[trigger] self
                        .hashes_view()[j] != h@ by {
                        if j < i {
                            assert(self.hashes_view()[j] == hv0[j]);
                        } else {
                            assert(self.hashes_view()[j] == hv0[j + 1]);
                        }
                    }
                    assert forall|a: int, b: int|
                        0 <= a < b < self.hashes@.len() implies #[trigger] self.hashes_view()[a]
                        != #[trigger] self.hashes_view()[b] by {
                        let a0 = if a < i { a } else { a + 1 };
                        let b0 = if b < i { b } else { b + 1 };
                        assert(self.hashes_view()[a] == hv0[a0]);
                        assert(self.hashes_view()[b] == hv0[b0]);
                    }
                    assert forall|j: int| 0 <= j < self.transactions@.len() implies self
                        .hashes_view()[j] == crate::transaction::tx_hash_spec(
                        #[trigger] self@[j],
                    ) by {
                        let j0 = if j < i { j } else { j + 1 };
                        assert(self.hashes_view()[j] == hv0[j0]);
                        assert(self@[j] == v0[j0]);
                    }
                }
                return ;
            }
            i = i + 1;
        }
    }

    /// The pending transactions that resolve against the store, ordered by
    /// descending fee: exactly the resolvable pool entries, each once.
    pub fn sorted_txs(&self, tx_store: &TxStore) -> (r: Vec<Transaction>)
        requires
            tx_store.wf(),
        ensures
            txs_views(r@).to_multiset() == resolvable_multiset(self@, tx_store@),
            forall|i: int| 0 <= i < r@.len() ==> fee_of(#[trigger] r@[i]@, tx_store@) is Some,
            forall|a: int, b: int|
                0 <= a < b < r@.len() ==> fee_of(#[trigger] r@[a]@, tx_store@)->Some_0 >= fee_of(
                    #[trigger] r@[b]@,
                    tx_store@,
                )->Some_0,
    {
        broadcast use vstd::seq_lib::group_to_multiset_ensures;

        let ghost all = self@;
        let ghost store0 = tx_store@;
        let mut pending: Vec<Transaction> = Vec::new();
        let mut pending_fees: Vec<u128> = Vec::new();
        let mut i: usize = 0;
        proof {
            assert(all.take(0) =~= Seq::<TxV>::empty());
            assert(txs_views(pending@).to_multiset() =~= resolvable_multiset(
                all.take(0),
                store0,
            ));
        }
        while i < self.transactions.len()
            invariant
                tx_store.wf(),
                i <= self.transactions@.len(),
                all == self@,
                store0 == tx_store@,
                pending_fees@.len() == pending@.len(),
                forall|j: int|
                    0 <= j < pending@.len() ==> fee_of(#[trigger] txs_views(pending@)[j], store0)
                        == Some(pending_fees@[j] as nat),
                txs_views(pending@).to_multiset() == resolvable_multiset(all.take(i as int), store0),
            decreases self.transactions@.len() - i,
        {
            let tx = &self.transactions[i];
            proof {
                assert(all.take(i + 1).drop_last() =~= all.take(i as int));
                assert(all.take(i + 1).last() == all[i as int]);
                assert(all[i as int] == tx@);
            }
            match tx.fees(tx_store) {
                Some(f) => {
                    let ghost p0 = pending@;
                    pending.push(tx.clone());
                    pending_fees.push(f);
                    proof {
                        txs_views(p0).to_multiset_ensures();
                        assert(txs_views(pending@) =~= txs_views(p0).push(tx@));
                        assert(txs_views(p0).push(tx@).to_multiset() =~= txs_views(
                            p0,
                        ).to_multiset().insert(tx@));
                        assert(fee_of(all[i as int], store0) is Some);
                    }
                },
                None => {
                    proof {
                        assert(fee_of(all[i as int], store0) is None);
                    }
                },
            }
            i = i + 1;
        }
        proof {
            assert(all.take(all.len() as int) =~= all);
        }
        let mut out: Vec<Transaction> = Vec::new();
        let mut out_fees: Vec<u128> = Vec::new();
        while pending.len() > 0
            invariant
                tx_store.wf(),
                store0 == tx_store@,
                pending_fees@.len() == pending@.len(),
                out_fees@.len() == out@.len(),
                forall|j: int|
                    0 <= j < pending@.len() ==> fee_of(#[trigger] txs_views(pending@)[j], store0)
                        == Some(pending_fees@[j] as nat),
                forall|j: int|
                    0 <= j < out@.len() ==> fee_of(#[trigger] txs_views(out@)[j], store0) == Some(
                        out_fees@[j] as nat,
                    ),
                forall|a: int, b: int|
                    0 <= a < b < out@.len() ==> #[trigger] out_fees@[a] >= #[trigger] out_fees@[b],
                forall|a: int, b: int|
                    0 <= a < out@.len() && 0 <= b < pending@.len() ==> #[trigger] out_fees@[a]
                        >= #[trigger] pending_fees@[b],
                txs_views(out@).to_multiset().add(txs_views(pending@).to_multiset())
                    == resolvable_multiset(all, store0),
            decreases pending@.len(),
        {
            let mut m: usize = 0;
            let mut k: usize = 1;
            while k < pending_fees.len()
                invariant
                    m < k <= pending_fees@.len() || (k <= pending_fees@.len() && m == 0),
                    m < pending_fees@.len(),
                    pending_fees@.len() > 0,
                    forall|j: int| 0 <= j < k ==> pending_fees@[j] <= pending_fees@[m as int],
                decreases pending_fees@.len() - k,
            {
                if pending_fees[k] > pending_fees[m] {
                    m = k;
                }
                k = k + 1;
            }
            let ghost p0 = pending@;
            let ghost pf0 = pending_fees@;
            let ghost o0 = out@;
            let picked = pending.remove(m);
            let picked_fee = pending_fees.remove(m);
            out.push(picked);
            out_fees.push(picked_fee);
            proof {
                broadcast use vstd::multiset::group_multiset_axioms;

                txs_views(p0).to_multiset_ensures();
                txs_views(o0).to_multiset_ensures();
                let x = p0[m as int]@;
                assert(txs_views(p0)[m as int] == x);
                assert(txs_views(p0).contains(x));
                assert(txs_views(p0).to_multiset().count(x) > 0);
                assert(txs_views(pending@) =~= txs_views(p0).remove(m as int));
                assert(txs_views(p0).remove(m as int).to_multiset() =~= txs_views(
                    p0,
                ).to_multiset().remove(txs_views(p0)[m as int]));
                assert(txs_views(out@) =~= txs_views(o0).push(x));
                assert(txs_views(o0).push(x).to_multiset() =~= txs_views(o0).to_multiset().insert(
                    x,
                ));
                assert(txs_views(out@).to_multiset().add(txs_views(pending@).to_multiset())
                    =~= txs_views(o0).to_multiset().add(txs_views(p0).to_multiset()));
            }
        }
        proof {
            broadcast use vstd::multiset::group_multiset_axioms;

            txs_views(pending@).to_multiset_ensures();
            assert(txs_views(pending@) =~= Seq::<TxV>::empty());
            assert(txs_views(pending@).to_multiset().len() == 0);
            assert(txs_views(pending@).to_multiset() =~= Multiset::<TxV>::empty());
            assert(txs_views(out@).to_multiset().add(Multiset::<TxV>::empty())
                =~= txs_views(out@).to_multiset());
            assert forall|i: int| 0 <= i < out@.len() implies fee_of(
                #[trigger] out@[i]@,
                store0,
            ) is Some by {
                assert(txs_views(out@)[i] == out@[i]@);
            }
            assert forall|a: int, b: int| 0 <= a < b < out@.len() implies fee_of(
                #[trigger] out@[a]@,
                store0,
            )->Some_0 >= fee_of(#[trigger] out@[b]@, store0)->Some_0 by {
                assert(txs_views(out@)[a] == out@[a]@);
                assert(txs_views(out@)[b] == out@[b]@);
                assert(out_fees@[a] >= out_fees@[b]);
            }
        }
        out
    }
}

impl Clone for MemPool {
    fn clone(&self) -> (r: Self)
        ensures
            r@ == self@,
            r.hashes_view() == self.hashes_view(),
            self.wf() ==> r.wf(),
    {
        let mut transactions: Vec<Transaction> = Vec::new();
        let mut i: usize = 0;
        while i < self.transactions.len()
            invariant
                i <= self.transactions@.len(),
                transactions@.len() == i,
                forall|j: int| 0 <= j < i ==> transactions@[j]@ == self.transactions@[j]@,
            decreases self.transactions@.len() - i,
        {
            transactions.push(self.transactions[i].clone());
            i = i + 1;
        }
        let mut hashes: Vec<[u8; 32]> = Vec::new();
        let mut k: usize = 0;
        while k < self.hashes.len()
            invariant
                k <= self.hashes@.len(),
                hashes@.len() == k,
                forall|j: int| 0 <= j < k ==> hashes@[j] == self.hashes@[j],
            decreases self.hashes@.len() - k,
        {
            hashes.push(self.hashes[k]);
            k = k + 1;
        }
        let r = MemPool { transactions, hashes };
        proof {
            assert(r@ =~= self@);
            assert(r.hashes_view() =~= self.hashes_view());
        }
        r
    }
}


impl MemPool {
    /// Whether a transaction of this transaction's hash is pending.
    pub fn contains(&self, tx: &Transaction) -> (r: bool)
        requires
            self.wf(),
        ensures
            r == self.has_hash(crate::transaction::tx_hash_spec(tx@)),
    {
        let h = tx.hash();
        let mut i: usize = 0;
        while i < self.hashes.len()
            invariant
                i <= self.hashes@.len(),
                h@ == crate::transaction::tx_hash_spec(tx@),
                forall|j: int| 0 <= j < i ==> #[trigger] self.hashes_view()[j] != h@,
            decreases self.hashes@.len() - i,
        {
            if hash_eq(&self.hashes[i], &h) {
                proof {
                    assert(self.hashes_view()[i as int] == h@);
                }
                return true;
            }
            i = i + 1;
        }
        false
    }

    /// Empties the pool, handing its transactions out for re-validation.
    pub fn take_all(&mut self) -> (r: Vec<Transaction>)
        ensures
            final(self).wf(),
            final(self)@ =~= Seq::<TxV>::empty(),
            txs_views(r@) == old(self)@,
    {
        let mut txs: Vec<Transaction> = Vec::new();
        core::mem::swap(&mut txs, &mut self.transactions);
        self.hashes.clear();
        proof {
            assert(self@ =~= Seq::<TxV>::empty());
        }
        txs
    }
}

/// An entry counted by the resolvable multiset is one of the listed
/// transactions.
pub proof fn lemma_resolvable_contains(txs: Seq<TxV>, store: StoreV, x: TxV)
    requires
        resolvable_multiset(txs, store).count(x) > 0,
    ensures
        txs.contains(x),
    decreases txs.len(),
{
    broadcast use vstd::multiset::group_multiset_axioms;

    if txs.len() == 0 {
        assert(Multiset::<TxV>::empty().count(x) == 0);
    } else {
        if txs.last() == x {
            assert(txs[txs.len() - 1] == x);
        } else {
            if resolvable_multiset(txs.drop_last(), store).count(x) > 0 {
                lemma_resolvable_contains(txs.drop_last(), store, x);
                let i = choose|i: int| 0 <= i < txs.drop_last().len() && txs.drop_last()[i] == x;
                assert(txs[i] == x);
            } else {
                assert(resolvable_multiset(txs, store).count(x) == 0);
            }
        }
    }
}

} // verus!

