//! The set of unspent outputs of a ledger: the index, rebuilt from the chain
//! or kept up block by block, and the queries on it.

use crate::block::Block;
use crate::blockchain::{ledger, Blockchain};
use crate::tx::{OutputModel, TXOutputs};
use crate::utxoindex::{
    apply_all, distinct_refs, entry_points, flat, lemma_selection_names_once, locked_to, refs_to,
    reindexed, selected, total, EntryModel, OutPointModel, UtxoIndex,
};
use vstd::prelude::*;
use vstd::string::*;

verus! {

/// A ledger with the index of its unspent outputs. The index is derived: it
/// is rebuilt by `reindex` and kept up by `update`, and never decides what
/// the ledger holds.
pub struct UTXOSet {
    pub blockchain: Blockchain,
    pub index: UtxoIndex,
}

impl UTXOSet {
    /// The entries of the index, in its order.
    pub open spec fn entries(&self) -> Seq<EntryModel> {
        self.index@
    }

    /// The index is well formed: no two entries are for the same
    /// transaction, no entry is empty, and no entry holds one place twice.
    pub open spec fn wf(&self) -> bool {
        self.index.wf()
    }

    /// A set over `blockchain` whose index is still empty: `reindex` fills
    /// it.
    pub fn new(blockchain: Blockchain) -> (set: UTXOSet)
        ensures
            set.blockchain == blockchain,
            set.entries().len() == 0,
            set.wf(),
    {
        UTXOSet { blockchain, index: UtxoIndex::new() }
    }

    /// Rebuilds the index from the chain: it holds every output that no
    /// input in the chain consumes. The new index is built in full and then
    /// takes the place of the old one.
    pub fn reindex(&mut self)
        ensures
            final(self).blockchain == old(self).blockchain,
            final(self).entries() == reindexed(ledger(old(self).blockchain@)),
            final(self).wf(),
    {
        let index = self.blockchain.find_UTXO();
        self.index = index;
    }

    /// Brings the index up to a block that was appended: each transaction
    /// of the block, in its order, is applied to the index.
    pub fn update(&mut self, block: &Block)
        requires
            old(self).wf(),
        ensures
            final(self).blockchain == old(self).blockchain,
            final(self).entries() == apply_all(old(self).entries(), block@.transactions),
            final(self).wf(),
    {
        let ghost before = self.index@;
        let transactions = block.get_transactions();
        let ghost txs = transactions.deep_view();
        let mut i: usize = 0;
        assert(txs.take(0) =~= Seq::<crate::transaction::TransactionModel>::empty());
        while i < transactions.len()
            invariant
                i <= transactions.len(),
                txs == transactions.deep_view(),
                self.blockchain == old(self).blockchain,
                self.index.wf(),
                self.index@ == apply_all(before, txs.take(i as int)),
            decreases transactions.len() - i,
        {
            assert(txs.take(i as int + 1).drop_last() =~= txs.take(i as int));
            assert(txs.take(i as int + 1).last() == transactions[i as int]@);
            self.index.apply(&transactions[i]);
            i += 1;
        }
        assert(txs.take(transactions.len() as int) =~= txs);
    }

    /// The number of transactions that the index has an entry for.
    pub fn count_transactions(&self) -> (count: usize)
        ensures
            count == self.entries().len(),
    {
        self.index.len()
    }

    /// Selects outputs that the holder of `pub_key_hash` can spend, in the
    /// order of the index, until they cover `amount`. Returns the sum of
    /// their values and the references to them. From an index that is well
    /// formed no output is named twice.
    pub fn find_spendable_outputs(&self, pub_key_hash: &[u8], amount: i32) -> (found: (
        i64,
        Vec<(String, i32)>,
    ))
        ensures
            found.0 == total(selected(flat(self.entries()), pub_key_hash@, amount as int)),
            found.1.deep_view() == refs_to(
                selected(flat(self.entries()), pub_key_hash@, amount as int),
            ),
            self.wf() ==> distinct_refs(found.1.deep_view()),
    {
        proof {
            if self.wf() {
                lemma_selection_names_once(self.index@, pub_key_hash@, amount as int);
            }
        }
        let ghost entries = self.index@;
        let ghost pkh = pub_key_hash@;
        let mut accumulated: i64 = 0;
        let mut picked: Vec<(String, i32)> = Vec::new();
        let mut e: usize = 0;
        let n = self.index.len();
        assert(entries.take(0) =~= Seq::<EntryModel>::empty());
        assert(picked.deep_view() =~= refs_to(Seq::<OutPointModel>::empty()));
        while e < n
            invariant
                e <= n,
                n == entries.len(),
                entries == self.index@,
                pkh == pub_key_hash@,
                0 <= accumulated <= 0xFFFF_FFFF,
                accumulated == total(selected(flat(entries.take(e as int)), pkh, amount as int)),
                picked.deep_view() == refs_to(
                    selected(flat(entries.take(e as int)), pkh, amount as int),
                ),
            decreases n - e,
        {
            let entry = self.index.entry(e);
            let ghost base = flat(entries.take(e as int));
            let ghost points = entry_points(entry@);
            assert(entries.take(e as int + 1).drop_last() =~= entries.take(e as int));
            assert(entries.take(e as int + 1).last() == entry@);
            let mut o: usize = 0;
            assert(base + points.take(0) =~= base);
            while o < entry.outputs.len()
                invariant
                    o <= entry.outputs.len(),
                    pkh == pub_key_hash@,
                    points == entry_points(entry@),
                    0 <= accumulated <= 0xFFFF_FFFF,
                    accumulated == total(selected(base + points.take(o as int), pkh, amount as int)),
                    picked.deep_view() == refs_to(
                        selected(base + points.take(o as int), pkh, amount as int),
                    ),
                decreases entry.outputs.len() - o,
            {
                let unspent = &entry.outputs[o];
                let ghost before = selected(base + points.take(o as int), pkh, amount as int);
                proof {
                    let next = base + points.take(o as int + 1);
                    assert(next.drop_last() =~= base + points.take(o as int));
                    assert(next.last() == points[o as int]);
                    assert(points[o as int].output == unspent@.output);
                    assert(points[o as int].index == unspent@.index);
                }
                if unspent.output.can_be_unlock_with(pub_key_hash) && unspent.output.value >= 0
                    && unspent.index <= 0x7FFF_FFFF && accumulated < amount as i64 {
                    accumulated = accumulated + unspent.output.value as i64;
                    let ghost old_picked = picked.deep_view();
                    picked.push((entry.txid.clone(), unspent.index as i32));
                    proof {
                        let point = points[o as int];
                        assert(before.push(point).drop_last() =~= before);
                        assert(picked.deep_view() =~= old_picked.push(
                            (point.txid, point.index as i32),
                        ));
                        assert(picked.deep_view() =~= refs_to(before.push(point)));
                    }
                }
                o += 1;
            }
            assert(points.take(entry.outputs.len() as int) =~= points);
            e += 1;
        }
        assert(entries.take(n as int) =~= entries);
        (accumulated, picked)
    }

    /// All unspent outputs that are locked to `pub_key_hash`, in the order of
    /// the index.
    #[allow(non_snake_case)]
    pub fn find_UTXO(&self, pub_key_hash: &[u8]) -> (utxos: TXOutputs)
        ensures
            utxos@ == locked_to(flat(self.entries()), pub_key_hash@),
    {
        let ghost entries = self.index@;
        let ghost pkh = pub_key_hash@;
        let mut utxos = TXOutputs::new();
        let mut e: usize = 0;
        let n = self.index.len();
        assert(entries.take(0) =~= Seq::<EntryModel>::empty());
        assert(utxos@ =~= Seq::<OutputModel>::empty());
        while e < n
            invariant
                e <= n,
                n == entries.len(),
                entries == self.index@,
                pkh == pub_key_hash@,
                utxos@ == locked_to(flat(entries.take(e as int)), pkh),
            decreases n - e,
        {
            let entry = self.index.entry(e);
            let ghost base = flat(entries.take(e as int));
            let ghost points = entry_points(entry@);
            assert(entries.take(e as int + 1).drop_last() =~= entries.take(e as int));
            assert(entries.take(e as int + 1).last() == entry@);
            let mut o: usize = 0;
            assert(base + points.take(0) =~= base);
            while o < entry.outputs.len()
                invariant
                    o <= entry.outputs.len(),
                    pkh == pub_key_hash@,
                    points == entry_points(entry@),
                    utxos@ == locked_to(base + points.take(o as int), pkh),
                decreases entry.outputs.len() - o,
            {
                let unspent = &entry.outputs[o];
                proof {
                    let next = base + points.take(o as int + 1);
                    assert(next.drop_last() =~= base + points.take(o as int));
                    assert(next.last() == points[o as int]);
                    assert(points[o as int].output == unspent@.output);
                }
                if unspent.output.can_be_unlock_with(pub_key_hash) {
                    let ghost before = utxos@;
                    utxos.outputs.push(unspent.output.duplicate());
                    assert(utxos@ =~= before.push(unspent@.output));
                }
                o += 1;
            }
            assert(points.take(entry.outputs.len() as int) =~= points);
            e += 1;
        }
        assert(entries.take(n as int) =~= entries);
        utxos
    }
}

} // verus!
