//! The UTXO set: a mapping from transaction hash to the still-unspent
//! outputs of that transaction, modelled as a map of maps. Entries whose
//! outputs are all spent are pruned so the store cannot grow stale keys.

use vstd::prelude::*;
use crate::transaction::{UTXO, UtxoV};

verus! {

/// One still-unspent output of a transaction, keyed by its position.
pub struct OutputEntry {
    pub index: usize,
    pub utxo: UTXO,
}

/// The unspent outputs of one transaction.
pub struct StoreEntry {
    pub tx_hash: [u8; 32],
    pub outputs: Vec<OutputEntry>,
}

/// The UTXO set.
pub struct TxStore {
    pub entries: Vec<StoreEntry>,
}

/// Mathematical model of one output entry.
pub ghost struct OutputV {
    pub index: usize,
    pub utxo: UtxoV,
}

/// Mathematical model of one store entry.
pub ghost struct StoreEntryV {
    pub tx_hash: Seq<u8>,
    pub outputs: Seq<OutputV>,
}

impl View for OutputEntry {
    type V = OutputV;

    open spec fn view(&self) -> OutputV {
        OutputV { index: self.index, utxo: self.utxo@ }
    }
}

impl View for StoreEntry {
    type V = StoreEntryV;

    open spec fn view(&self) -> StoreEntryV {
        StoreEntryV {
            tx_hash: self.tx_hash@,
            outputs: Seq::new(self.outputs@.len(), |i: int| self.outputs@[i]@),
        }
    }
}

/// The map an output list denotes.
pub open spec fn outs_map(s: Seq<OutputV>) -> Map<usize, UtxoV>
    decreases s.len(),
{
    if s.len() == 0 {
        Map::empty()
    } else {
        outs_map(s.drop_last()).insert(s.last().index, s.last().utxo)
    }
}

/// The map of maps an entry list denotes.
pub open spec fn entries_map(s: Seq<StoreEntryV>) -> Map<Seq<u8>, Map<usize, UtxoV>>
    decreases s.len(),
{
    if s.len() == 0 {
        Map::empty()
    } else {
        entries_map(s.drop_last()).insert(s.last().tx_hash, outs_map(s.last().outputs))
    }
}

/// Distinct indices in an output list.
pub open spec fn outs_distinct(s: Seq<OutputV>) -> bool {
    forall|a: int, b: int|
        0 <= a < b < s.len() ==> (#[trigger] s[a]).index != (#[trigger] s[b]).index
}

impl View for TxStore {
    type V = Map<Seq<u8>, Map<usize, UtxoV>>;

    open spec fn view(&self) -> Map<Seq<u8>, Map<usize, UtxoV>> {
        entries_map(self.entries_view())
    }
}

impl TxStore {
    /// The entry list as a sequence of models.
    pub open spec fn entries_view(&self) -> Seq<StoreEntryV> {
        Seq::new(self.entries@.len(), |i: int| self.entries@[i]@)
    }

    /// Well-formed store: entry hashes are distinct, every entry holds at
    /// least one output, and output indices within an entry are distinct.
    pub open spec fn wf(&self) -> bool {
        let es = self.entries_view();
        &&& forall|i: int, j: int|
            0 <= i < j < es.len() ==> (#[trigger] es[i]).tx_hash != (#[trigger] es[j]).tx_hash
        &&& forall|i: int| 0 <= i < es.len() ==> (#[trigger] es[i]).outputs.len() >= 1
        &&& forall|i: int| 0 <= i < es.len() ==> outs_distinct((#[trigger] es[i]).outputs)
    }
}

/// With distinct indices, the denoted map holds exactly the listed outputs.
pub proof fn lemma_outs_map_index(s: Seq<OutputV>, i: int)
    requires
        outs_distinct(s),
        0 <= i < s.len(),
    ensures
        outs_map(s).contains_key(s[i].index),
        outs_map(s)[s[i].index] == s[i].utxo,
    decreases s.len(),
{
    if i == s.len() - 1 {
    } else {
        assert(s.drop_last()[i] == s[i]);
        lemma_outs_map_index(s.drop_last(), i);
    }
}

/// A key the list does not mention is not in the denoted map.
pub proof fn lemma_outs_map_absent(s: Seq<OutputV>, k: usize)
    requires
        forall|i: int| 0 <= i < s.len() ==> (#[trigger] s[i]).index != k,
    ensures
        !outs_map(s).contains_key(k),
    decreases s.len(),
{
    if s.len() > 0 {
        lemma_outs_map_absent(s.drop_last(), k);
    }
}


/// Removing the listed output at position `p` removes its key from the map.
pub proof fn lemma_outs_map_remove(s: Seq<OutputV>, p: int)
    requires
        outs_distinct(s),
        0 <= p < s.len(),
    ensures
        outs_map(s.remove(p)) =~= outs_map(s).remove(s[p].index),
    decreases s.len(),
{
    if p == s.len() - 1 {
        assert(s.remove(p) =~= s.drop_last());
        lemma_outs_map_absent_from_distinct(s);
    } else {
        lemma_outs_map_remove(s.drop_last(), p);
        assert(s.remove(p).drop_last() =~= s.drop_last().remove(p));
        assert(s.remove(p).last() == s.last());
        assert(s.drop_last()[p] == s[p]);
    }
}

/// In a distinct list the last index does not occur earlier, so the map of
/// the rest lacks it.
proof fn lemma_outs_map_absent_from_distinct(s: Seq<OutputV>)
    requires
        outs_distinct(s),
        s.len() >= 1,
    ensures
        !outs_map(s.drop_last()).contains_key(s.last().index),
{
    assert(forall|i: int|
        0 <= i < s.drop_last().len() ==> (#[trigger] s.drop_last()[i]).index != s.last().index);
    lemma_outs_map_absent(s.drop_last(), s.last().index);
}

/// With distinct hashes, the denoted map holds exactly the listed entries.
pub proof fn lemma_entries_map_index(s: Seq<StoreEntryV>, i: int)
    requires
        forall|a: int, b: int|
            0 <= a < b < s.len() ==> (#[trigger] s[a]).tx_hash != (#[trigger] s[b]).tx_hash,
        0 <= i < s.len(),
    ensures
        entries_map(s).contains_key(s[i].tx_hash),
        entries_map(s)[s[i].tx_hash] == outs_map(s[i].outputs),
    decreases s.len(),
{
    if i == s.len() - 1 {
    } else {
        assert(s.drop_last()[i] == s[i]);
        lemma_entries_map_index(s.drop_last(), i);
    }
}

/// A hash the list does not mention is not in the denoted map.
pub proof fn lemma_entries_map_absent(s: Seq<StoreEntryV>, k: Seq<u8>)
    requires
        forall|i: int| 0 <= i < s.len() ==> (#[trigger] s[i]).tx_hash != k,
    ensures
        !entries_map(s).contains_key(k),
    decreases s.len(),
{
    if s.len() > 0 {
        lemma_entries_map_absent(s.drop_last(), k);
    }
}


/// Updating the entry at position `i`, keeping its hash, updates its key.
pub proof fn lemma_entries_map_update(s: Seq<StoreEntryV>, i: int, e: StoreEntryV)
    requires
        forall|a: int, b: int|
            0 <= a < b < s.len() ==> (#[trigger] s[a]).tx_hash != (#[trigger] s[b]).tx_hash,
        0 <= i < s.len(),
        e.tx_hash == s[i].tx_hash,
    ensures
        entries_map(s.update(i, e)) =~= entries_map(s).insert(e.tx_hash, outs_map(e.outputs)),
    decreases s.len(),
{
    if i == s.len() - 1 {
        assert(s.update(i, e).drop_last() =~= s.drop_last());
        assert(s.update(i, e).last() == e);
    } else {
        lemma_entries_map_update(s.drop_last(), i, e);
        assert(s.update(i, e).drop_last() =~= s.drop_last().update(i, e));
        assert(s.update(i, e).last() == s.last());
        assert(s.drop_last()[i] == s[i]);
    }
}

/// Removing the entry at position `i` removes its key.
pub proof fn lemma_entries_map_remove(s: Seq<StoreEntryV>, i: int)
    requires
        forall|a: int, b: int|
            0 <= a < b < s.len() ==> (#[trigger] s[a]).tx_hash != (#[trigger] s[b]).tx_hash,
        0 <= i < s.len(),
    ensures
        entries_map(s.remove(i)) =~= entries_map(s).remove(s[i].tx_hash),
    decreases s.len(),
{
    if i == s.len() - 1 {
        assert(s.remove(i) =~= s.drop_last());
        assert(forall|j: int|
            0 <= j < s.drop_last().len() ==> (#[trigger] s.drop_last()[j]).tx_hash != s.last().tx_hash);
        lemma_entries_map_absent(s.drop_last(), s.last().tx_hash);
    } else {
        lemma_entries_map_remove(s.drop_last(), i);
        assert(s.remove(i).drop_last() =~= s.drop_last().remove(i));
        assert(s.remove(i).last() == s.last());
        assert(s.drop_last()[i] == s[i]);
    }
}

/// Appending a new entry with a fresh hash inserts its key.
pub proof fn lemma_entries_map_push(s: Seq<StoreEntryV>, e: StoreEntryV)
    ensures
        entries_map(s.push(e)) == entries_map(s).insert(e.tx_hash, outs_map(e.outputs)),
{
    assert(s.push(e).drop_last() =~= s);
    assert(s.push(e).last() == e);
}

/// Byte-wise equality of two hashes.
pub fn hash_eq(a: &[u8; 32], b: &[u8; 32]) -> (r: bool)
    ensures
        r == (a@ == b@),
{
    let mut i: usize = 0;
    while i < 32
        invariant
            i <= 32,
            forall|j: int| 0 <= j < i ==> a@[j] == b@[j],
        decreases 32 - i,
    {
        if a[i] != b[i] {
            return false;
        }
        i = i + 1;
    }
    proof {
        assert(a@ =~= b@);
    }
    true
}

impl Clone for OutputEntry {
    fn clone(&self) -> (r: Self)
        ensures
            r@ == self@,
    {
        OutputEntry { index: self.index, utxo: self.utxo.clone() }
    }
}

impl Clone for StoreEntry {
    fn clone(&self) -> (r: Self)
        ensures
            r@ == self@,
    {
        let mut outputs: Vec<OutputEntry> = Vec::new();
        let mut i: usize = 0;
        while i < self.outputs.len()
            invariant
                i <= self.outputs@.len(),
                outputs@.len() == i,
                forall|j: int| 0 <= j < i ==> outputs@[j]@ == self.outputs@[j]@,
            decreases self.outputs@.len() - i,
        {
            outputs.push(self.outputs[i].clone());
            i = i + 1;
        }
        let r = StoreEntry { tx_hash: self.tx_hash, outputs };
        proof {
            assert(r@.outputs =~= self@.outputs);
        }
        r
    }
}

impl Clone for TxStore {
    fn clone(&self) -> (r: Self)
        ensures
            r@ == self@,
            r.entries_view() == self.entries_view(),
            self.wf() ==> r.wf(),
    {
        let mut entries: Vec<StoreEntry> = Vec::new();
        let mut i: usize = 0;
        while i < self.entries.len()
            invariant
                i <= self.entries@.len(),
                entries@.len() == i,
                forall|j: int| 0 <= j < i ==> entries@[j]@ == self.entries@[j]@,
            decreases self.entries@.len() - i,
        {
            entries.push(self.entries[i].clone());
            i = i + 1;
        }
        let r = TxStore { entries };
        proof {
            assert(r.entries_view() =~= self.entries_view());
        }
        r
    }
}

impl TxStore {
    /// The empty store.
    pub fn new_empty() -> (r: TxStore)
        ensures
            r@ =~= Map::<Seq<u8>, Map<usize, UtxoV>>::empty(),
            r.wf(),
            r.entries_view().len() == 0,
    {
        let r = TxStore { entries: Vec::new() };
        proof {
            assert(r.entries_view() =~= Seq::<StoreEntryV>::empty());
        }
        r
    }

    /// The empty store, under its shorter customary name.
    pub fn new() -> (r: TxStore)
        ensures
            r@ =~= Map::<Seq<u8>, Map<usize, UtxoV>>::empty(),
            r.wf(),
            r.entries_view().len() == 0,
    {
        TxStore::new_empty()
    }

    /// Position of the entry holding `hash`, if any.
    fn find_entry(&self, hash: &[u8; 32]) -> (r: Option<usize>)
        ensures
            match r {
                Some(i) => i < self.entries@.len() && self.entries_view()[i as int].tx_hash
                    == hash@,
                None => forall|i: int|
                    0 <= i < self.entries@.len() ==> (#[trigger] self.entries_view()[i]).tx_hash
                        != hash@,
            },
    {
        let mut i: usize = 0;
        while i < self.entries.len()
            invariant
                i <= self.entries@.len(),
                forall|j: int|
                    0 <= j < i ==> (#[trigger] self.entries_view()[j]).tx_hash != hash@,
            decreases self.entries@.len() - i,
        {
            if hash_eq(&self.entries[i].tx_hash, hash) {
                return Some(i);
            }
            i = i + 1;
        }
        None
    }

    /// Position of the output with `index` inside entry `e`, if any.
    fn find_output(e: &StoreEntry, index: usize) -> (r: Option<usize>)
        ensures
            match r {
                Some(p) => p < e.outputs@.len() && e@.outputs[p as int].index == index,
                None => forall|p: int|
                    0 <= p < e.outputs@.len() ==> (#[trigger] e@.outputs[p]).index != index,
            },
    {
        let mut p: usize = 0;
        while p < e.outputs.len()
            invariant
                p <= e.outputs@.len(),
                forall|q: int| 0 <= q < p ==> (#[trigger] e@.outputs[q]).index != index,
            decreases e.outputs@.len() - p,
        {
            if e.outputs[p].index == index {
                return Some(p);
            }
            p = p + 1;
        }
        None
    }

    /// Looks an output up by transaction hash and position.
    pub fn get(&self, hash: &[u8; 32], index: usize) -> (r: Option<&UTXO>)
        requires
            self.wf(),
        ensures
            match r {
                Some(u) => self@.contains_key(hash@) && self@[hash@].contains_key(index)
                    && u@ == self@[hash@][index],
                None => !(self@.contains_key(hash@) && self@[hash@].contains_key(index)),
            },
    {
        match self.find_entry(hash) {
            None => {
                proof {
                    lemma_entries_map_absent(self.entries_view(), hash@);
                }
                None
            },
            Some(i) => {
                proof {
                    lemma_entries_map_index(self.entries_view(), i as int);
                }
                let e = &self.entries[i];
                match Self::find_output(e, index) {
                    None => {
                        proof {
                            lemma_outs_map_absent(e@.outputs, index);
                        }
                        None
                    },
                    Some(p) => {
                        proof {
                            lemma_outs_map_index(e@.outputs, p as int);
                        }
                        Some(&e.outputs[p].utxo)
                    },
                }
            },
        }
    }

    /// Inserts (or replaces) the output at `(hash, index)`.
    pub fn set(&mut self, hash: &[u8; 32], index: usize, utxo: UTXO)
        requires
            old(self).wf(),
        ensures
            final(self).wf(),
            final(self)@ =~= old(self)@.insert(
                hash@,
                (if old(self)@.contains_key(hash@) {
                    old(self)@[hash@]
                } else {
                    Map::empty()
                }).insert(index, utxo@),
            ),
    {
        let ghost old_es = self.entries_view();
        match self.find_entry(hash) {
            None => {
                proof {
                    lemma_entries_map_absent(old_es, hash@);
                }
                let mut outputs: Vec<OutputEntry> = Vec::new();
                outputs.push(OutputEntry { index, utxo });
                let e = StoreEntry { tx_hash: *hash, outputs };
                proof {
                    assert(e@.outputs =~= seq![OutputV { index, utxo: utxo@ }]);
                    assert(e@.outputs.drop_last() =~= Seq::<OutputV>::empty());
                    assert(e@.outputs.last() == OutputV { index, utxo: utxo@ });
                    assert(outs_map(Seq::<OutputV>::empty()) =~= Map::<usize, UtxoV>::empty());
                    assert(outs_map(e@.outputs) =~= Map::<usize, UtxoV>::empty().insert(
                        index,
                        utxo@,
                    ));
                }
                self.entries.push(e);
                proof {
                    assert(self.entries_view() =~= old_es.push(e@));
                    lemma_entries_map_push(old_es, e@);
                }
            },
            Some(i) => {
                proof {
                    lemma_entries_map_index(old_es, i as int);
                }
                let ghost old_entry = self.entries_view()[i as int];
                let e = &mut self.entries[i];
                let ghost old_outs = e@.outputs;
                match Self::find_output(e, index) {
                    None => {
                        proof {
                            lemma_outs_map_absent(old_outs, index);
                        }
                        e.outputs.push(OutputEntry { index, utxo });
                        proof {
                            assert(e@.outputs =~= old_outs.push(OutputV { index, utxo: utxo@ }));
                            assert(e@.outputs.drop_last() =~= old_outs);
                        }
                    },
                    Some(p) => {
                        proof {
                            lemma_outs_map_index(old_outs, p as int);
                        }
                        e.outputs[p] = OutputEntry { index, utxo };
                        proof {
                            assert(e@.outputs =~= old_outs.update(
                                p as int,
                                OutputV { index, utxo: utxo@ },
                            ));
                            lemma_outs_map_update(old_outs, p as int, OutputV { index, utxo: utxo@ });
                        }
                    },
                }
                proof {
                    assert(outs_map(e@.outputs) =~= outs_map(old_outs).insert(index, utxo@));
                    assert(self.entries_view() =~= old_es.update(
                        i as int,
                        StoreEntryV { tx_hash: hash@, outputs: e@.outputs },
                    ));
                    lemma_entries_map_update(
                        old_es,
                        i as int,
                        StoreEntryV { tx_hash: hash@, outputs: e@.outputs },
                    );
                }
            },
        }
    }

    /// Removes the output at `(hash, index)` if present, pruning the entry
    /// when its last output is spent.
    pub fn remove(&mut self, hash: &[u8; 32], index: usize)
        requires
            old(self).wf(),
        ensures
            final(self).wf(),
            final(self)@ =~= (if old(self)@.contains_key(hash@) {
                let inner = old(self)@[hash@].remove(index);
                if inner =~= Map::<usize, UtxoV>::empty() {
                    old(self)@.remove(hash@)
                } else {
                    old(self)@.insert(hash@, inner)
                }
            } else {
                old(self)@
            }),
    {
        let ghost old_es = self.entries_view();
        match self.find_entry(hash) {
            None => {
                proof {
                    lemma_entries_map_absent(old_es, hash@);
                }
            },
            Some(i) => {
                proof {
                    lemma_entries_map_index(old_es, i as int);
                }
                let e = &mut self.entries[i];
                let ghost old_outs = e@.outputs;
                match Self::find_output(e, index) {
                    None => {
                        proof {
                            lemma_outs_map_absent(old_outs, index);
                            assert(outs_map(old_outs).remove(index) =~= outs_map(old_outs));
                            assert(old(self)@[hash@].len() >= 1 ==> !(old(self)@[hash@].remove(
                                index,
                            ) =~= Map::<usize, UtxoV>::empty()));
                            lemma_outs_map_index(old_outs, 0);
                            assert(self.entries_view() =~= old_es);
                        }
                    },
                    Some(p) => {
                        proof {
                            lemma_outs_map_index(old_outs, p as int);
                            lemma_outs_map_remove(old_outs, p as int);
                        }
                        e.outputs.remove(p);
                        proof {
                            assert(e@.outputs =~= old_outs.remove(p as int));
                        }
                        if e.outputs.len() == 0 {
                            proof {
                                assert(outs_map(e@.outputs) =~= Map::<usize, UtxoV>::empty());
                            }
                            self.entries.remove(i);
                            proof {
                                assert(self.entries_view() =~= old_es.remove(i as int));
                                lemma_entries_map_remove(old_es, i as int);
                            }
                        } else {
                            proof {
                                lemma_outs_map_index(e@.outputs, 0);
                                assert(outs_map(e@.outputs).contains_key(e@.outputs[0].index));
                                assert(!(outs_map(e@.outputs) =~= Map::<usize, UtxoV>::empty()));
                                assert(self.entries_view() =~= old_es.update(
                                    i as int,
                                    StoreEntryV { tx_hash: hash@, outputs: e@.outputs },
                                ));
                                lemma_entries_map_update(
                                    old_es,
                                    i as int,
                                    StoreEntryV { tx_hash: hash@, outputs: e@.outputs },
                                );
                            }
                        }
                    },
                }
            },
        }
    }
}

/// Updating the listed output at position `p`, keeping its index, updates
/// its key.
pub proof fn lemma_outs_map_update(s: Seq<OutputV>, p: int, o: OutputV)
    requires
        outs_distinct(s),
        0 <= p < s.len(),
        o.index == s[p].index,
    ensures
        outs_map(s.update(p, o)) =~= outs_map(s).insert(o.index, o.utxo),
    decreases s.len(),
{
    if p == s.len() - 1 {
        assert(s.update(p, o).drop_last() =~= s.drop_last());
        assert(s.update(p, o).last() == o);
    } else {
        lemma_outs_map_update(s.drop_last(), p, o);
        assert(s.update(p, o).drop_last() =~= s.drop_last().update(p, o));
        assert(s.update(p, o).last() == s.last());
        assert(s.drop_last()[p] == s[p]);
    }
}


/// The type of a store's mathematical model.
pub type StoreV = Map<Seq<u8>, Map<usize, UtxoV>>;

/// Looks an output up in a store model.
pub open spec fn store_lookup(store: StoreV, h: Seq<u8>, i: usize) -> Option<UtxoV> {
    if store.contains_key(h) && store[h].contains_key(i) {
        Some(store[h][i])
    } else {
        None
    }
}

/// Removal of one output from a store model, pruning an emptied key.
pub open spec fn store_remove(store: StoreV, h: Seq<u8>, i: usize) -> StoreV {
    if store.contains_key(h) {
        let inner = store[h].remove(i);
        if inner =~= Map::<usize, UtxoV>::empty() {
            store.remove(h)
        } else {
            store.insert(h, inner)
        }
    } else {
        store
    }
}

/// Insertion of one output into a store model.
pub open spec fn store_insert(store: StoreV, h: Seq<u8>, i: usize, u: UtxoV) -> StoreV {
    store.insert(
        h,
        (if store.contains_key(h) {
            store[h]
        } else {
            Map::empty()
        }).insert(i, u),
    )
}

} // verus!

