//! The index is derived from the ledger: rebuilding it from the chain and
//! keeping it up block by block lead to the same index, and what it holds
//! are the outputs that no input has consumed.

use crate::block::BlockModel;
use crate::blockchain::ledger;
use crate::transaction::TransactionModel;
use crate::tx::InputModel;
use crate::utxoindex::{
    all_outputs, all_refs, apply_all, apply_tx, distinct_keys, input_refs, keep,
    lemma_position_of, listed, position_of, put, ref_of, refs_of, reindexed, reindexed_with,
    spend, spend_all, unconsumed, EntryModel, OutputRef, UnspentModel,
};
use vstd::map::*;
use vstd::prelude::*;

verus! {

/// The index as a map from the id of a transaction to its unspent outputs.
pub open spec fn as_map(entries: Seq<EntryModel>) -> Map<Seq<char>, Seq<UnspentModel>> {
    Map::new(
        |txid: Seq<char>| position_of(entries, txid, 0) is Some,
        |txid: Seq<char>| entries[position_of(entries, txid, 0)->0].outputs,
    )
}

/// Whether one of `refs` names an output of transaction `txid`.
pub open spec fn names(refs: Seq<OutputRef>, txid: Seq<char>) -> bool {
    exists|e: int| 0 <= e < refs.len() && (#[trigger] refs[e]).0 == txid
}

/// The first entry for a transaction is what `position_of` finds.
pub proof fn lemma_position_is_first(entries: Seq<EntryModel>, txid: Seq<char>, from: int, at: int)
    requires
        0 <= from <= at < entries.len(),
        entries[at].txid == txid,
        forall|j: int| from <= j < at ==> (#[trigger] entries[j]).txid != txid,
    ensures
        position_of(entries, txid, from) == Some(at),
    decreases at - from,
{
    if from < at {
        lemma_position_is_first(entries, txid, from + 1, at);
    }
}

/// In an index without repeated keys, an entry is found under its key.
pub proof fn lemma_position_distinct(entries: Seq<EntryModel>, at: int)
    requires
        distinct_keys(entries),
        0 <= at < entries.len(),
    ensures
        position_of(entries, entries[at].txid, 0) == Some(at),
{
    lemma_position_is_first(entries, entries[at].txid, 0, at);
}

/// Setting an entry sets the key in the map, and keeps the keys apart.
pub proof fn lemma_put(entries: Seq<EntryModel>, txid: Seq<char>, outputs: Seq<UnspentModel>)
    requires
        distinct_keys(entries),
    ensures
        distinct_keys(put(entries, txid, outputs)),
        as_map(put(entries, txid, outputs)) == as_map(entries).insert(txid, outputs),
{
    let after = put(entries, txid, outputs);
    lemma_position_of(entries, txid, 0);
    assert(distinct_keys(after));
    assert_maps_equal!(as_map(after), as_map(entries).insert(txid, outputs), id => {
        lemma_position_of(entries, id, 0);
        lemma_position_of(after, id, 0);
        match position_of(entries, txid, 0) {
            Some(k) => {
                if id == txid {
                    lemma_position_distinct(after, k);
                } else {
                    match position_of(entries, id, 0) {
                        Some(i) => {
                            assert(after[i] == entries[i]);
                            lemma_position_distinct(after, i);
                        },
                        None => {
                            if position_of(after, id, 0) is Some {
                                let i = position_of(after, id, 0)->0;
                                assert(entries[i].txid == after[i].txid);
                            }
                        },
                    }
                }
            },
            None => {
                if id == txid {
                    lemma_position_distinct(after, entries.len() as int);
                } else {
                    match position_of(entries, id, 0) {
                        Some(i) => {
                            assert(after[i] == entries[i]);
                            lemma_position_distinct(after, i);
                        },
                        None => {
                            if position_of(after, id, 0) is Some {
                                let i = position_of(after, id, 0)->0;
                                assert(i < entries.len());
                                assert(entries[i].txid == after[i].txid);
                            }
                        },
                    }
                }
            },
        }
    });
}

/// A reference is listed in two lists joined when it is listed in one.
pub proof fn lemma_listed_concat(a: Seq<OutputRef>, b: Seq<OutputRef>, txid: Seq<char>, index: int)
    ensures
        listed(a + b, txid, index) == (listed(a, txid, index) || listed(b, txid, index)),
{
    if listed(a, txid, index) {
        let e = choose|e: int|
            0 <= e < a.len() && (#[trigger] a[e]).0 == txid && a[e].1 as int == index;
        assert((a + b)[e] == a[e]);
    }
    if listed(b, txid, index) {
        let e = choose|e: int|
            0 <= e < b.len() && (#[trigger] b[e]).0 == txid && b[e].1 as int == index;
        assert((a + b)[a.len() + e] == b[e]);
    }
    if listed(a + b, txid, index) {
        let e = choose|e: int|
            0 <= e < (a + b).len() && (#[trigger] (a + b)[e]).0 == txid && (a + b)[e].1 as int
                == index;
        if e < a.len() {
            assert(a[e] == (a + b)[e]);
        } else {
            assert(b[e - a.len()] == (a + b)[e]);
        }
    }
}

/// Keeping what a first list does not name, and of that what a second does
/// not name, keeps what neither names.
pub proof fn lemma_keep_compose(
    outputs: Seq<UnspentModel>,
    a: Seq<OutputRef>,
    b: Seq<OutputRef>,
    txid: Seq<char>,
)
    ensures
        keep(keep(outputs, a, txid), b, txid) == keep(outputs, a + b, txid),
    decreases outputs.len(),
{
    if outputs.len() > 0 {
        lemma_keep_compose(outputs.drop_last(), a, b, txid);
        lemma_listed_concat(a, b, txid, outputs.last().index);
        let rest = keep(outputs.drop_last(), a, txid);
        if !listed(a, txid, outputs.last().index) {
            assert(rest.push(outputs.last()).drop_last() =~= rest);
        }
    }
}

/// References that do not name a transaction leave its outputs as they are.
pub proof fn lemma_keep_unnamed(outputs: Seq<UnspentModel>, refs: Seq<OutputRef>, txid: Seq<char>)
    requires
        !names(refs, txid),
    ensures
        keep(outputs, refs, txid) == outputs,
    decreases outputs.len(),
{
    if outputs.len() > 0 {
        lemma_keep_unnamed(outputs.drop_last(), refs, txid);
        assert(outputs.drop_last().push(outputs.last()) =~= outputs);
    }
}

/// Fewer outputs are kept, never more.
pub proof fn lemma_keep_len(outputs: Seq<UnspentModel>, refs: Seq<OutputRef>, txid: Seq<char>)
    ensures
        keep(outputs, refs, txid).len() <= outputs.len(),
    decreases outputs.len(),
{
    if outputs.len() > 0 {
        lemma_keep_len(outputs.drop_last(), refs, txid);
    }
}

/// No two transactions have the same id.
pub open spec fn distinct_ids(txs: Seq<TransactionModel>) -> bool {
    forall|p: int, q: int|
        0 <= p < q < txs.len() ==> (#[trigger] txs[p]).id != (#[trigger] txs[q]).id
}

/// The transactions are in order: their ids differ, and no input names its
/// own transaction or one that comes after it.
pub open spec fn well_ordered(txs: Seq<TransactionModel>) -> bool {
    &&& distinct_ids(txs)
    &&& forall|q: int, j: int, p: int|
        #![trigger txs[q].vin[j], txs[p]]
        0 <= q <= p < txs.len() && !txs[q].is_coinbase() && 0 <= j < txs[q].vin.len()
            ==> txs[q].vin[j].txid != txs[p].id
}

/// Transaction `p` has an output that `refs` does not name.
pub open spec fn live(txs: Seq<TransactionModel>, refs: Seq<OutputRef>, p: int) -> bool {
    0 <= p < txs.len() && keep(all_outputs(txs[p]), refs, txs[p].id).len() > 0
}

/// The rebuilt index has an entry for exactly the transactions with an
/// output that is not consumed, and the entry holds those outputs.
pub proof fn lemma_reindexed_at(
    refs: Seq<OutputRef>,
    txs: Seq<TransactionModel>,
    txid: Seq<char>,
)
    requires
        distinct_ids(txs),
    ensures
        distinct_keys(reindexed_with(refs, txs)),
        as_map(reindexed_with(refs, txs)).contains_key(txid) == (exists|p: int|
            #[trigger] live(txs, refs, p) && txs[p].id == txid),
        forall|p: int|
            #[trigger] live(txs, refs, p) && txs[p].id == txid ==> as_map(
                reindexed_with(refs, txs),
            )[txid] == keep(all_outputs(txs[p]), refs, txid),
    decreases txs.len(),
{
    if txs.len() == 0 {
    } else {
        let pre = txs.drop_last();
        let last = txs.last();
        let before = reindexed_with(refs, pre);
        let outputs = keep(all_outputs(last), refs, last.id);
        assert(distinct_ids(pre)) by {
            assert forall|p: int, q: int| 0 <= p < q < pre.len() implies (#[trigger] pre[p]).id != (
            #[trigger] pre[q]).id by {
                assert(pre[p] == txs[p]);
                assert(pre[q] == txs[q]);
            }
        }
        lemma_reindexed_at(refs, pre, txid);
        assert forall|p: int| 0 <= p < pre.len() implies live(pre, refs, p) == live(txs, refs, p) by {
            assert(pre[p] == txs[p]);
        }
        if outputs.len() > 0 {
            lemma_put(before, last.id, outputs);
            assert(live(txs, refs, txs.len() - 1));
        }
        let now = as_map(reindexed_with(refs, txs));
        if exists|p: int| #[trigger] live(txs, refs, p) && txs[p].id == txid {
            let p = choose|p: int| #[trigger] live(txs, refs, p) && txs[p].id == txid;
            if p < pre.len() {
                assert(live(pre, refs, p) && pre[p].id == txid);
                assert(txs[p].id != txs[txs.len() - 1].id);
            }
            assert(now.contains_key(txid));
        }
        if now.contains_key(txid) {
            if outputs.len() > 0 && txid == last.id {
                assert(live(txs, refs, txs.len() - 1) && txs[txs.len() - 1].id == txid);
            } else {
                assert(as_map(before).contains_key(txid));
                let p = choose|p: int| #[trigger] live(pre, refs, p) && pre[p].id == txid;
                assert(live(txs, refs, p) && txs[p].id == txid);
            }
        }
        assert forall|p: int| #[trigger] live(txs, refs, p) && txs[p].id == txid implies now[txid]
            == keep(all_outputs(txs[p]), refs, txid) by {
            if p < pre.len() {
                assert(live(pre, refs, p) && pre[p].id == txid);
                assert(txs[p].id != txs[txs.len() - 1].id);
            }
        }
    }
}

/// Every reference that the transactions make is an input of one of them
/// that is no coinbase transaction.
pub proof fn lemma_all_refs_names(txs: Seq<TransactionModel>, txid: Seq<char>)
    requires
        names(all_refs(txs), txid),
    ensures
        exists|q: int, j: int|
            #![trigger txs[q].vin[j]]
            0 <= q < txs.len() && !txs[q].is_coinbase() && 0 <= j < txs[q].vin.len()
                && txs[q].vin[j].txid == txid,
    decreases txs.len(),
{
    let refs = all_refs(txs);
    let e = choose|e: int| 0 <= e < refs.len() && (#[trigger] refs[e]).0 == txid;
    if txs.len() > 0 {
        let pre = txs.drop_last();
        let before = all_refs(pre);
        if e < before.len() {
            assert(before[e] == refs[e]);
            assert(names(before, txid));
            lemma_all_refs_names(pre, txid);
            let (q, j) = choose|q: int, j: int|
                #![trigger pre[q].vin[j]]
                0 <= q < pre.len() && !pre[q].is_coinbase() && 0 <= j < pre[q].vin.len()
                    && pre[q].vin[j].txid == txid;
            assert(txs[q].vin[j] == pre[q].vin[j]);
        } else {
            let last = txs.last();
            let j = e - before.len();
            assert(refs_of(last)[j] == refs[e]);
            assert(!last.is_coinbase());
            assert(txs[txs.len() - 1].vin[j].txid == txid);
        }
    }
}

/// A prefix of transactions that can be replayed can be replayed.
pub proof fn lemma_well_ordered_prefix(txs: Seq<TransactionModel>, k: int)
    requires
        well_ordered(txs),
        0 <= k <= txs.len(),
    ensures
        well_ordered(txs.take(k)),
{
    let pre = txs.take(k);
    assert forall|p: int, q: int| 0 <= p < q < pre.len() implies (#[trigger] pre[p]).id != (
    #[trigger] pre[q]).id by {
        assert(pre[p] == txs[p] && pre[q] == txs[q]);
    }
    assert forall|q: int, j: int, p: int|
        #![trigger pre[q].vin[j], pre[p]]
        0 <= q <= p < pre.len() && !pre[q].is_coinbase() && 0 <= j < pre[q].vin.len()
            implies pre[q].vin[j].txid != pre[p].id by {
        assert(pre[q] == txs[q] && pre[p] == txs[p]);
        assert(txs[q].vin[j].txid != txs[p].id);
    }
}

/// The index that is kept up along a chain: rebuilt once when the ledger
/// is created, over the genesis block, and updated with each block that is
/// appended since.
pub open spec fn maintained(chain: Seq<BlockModel>, n: int) -> Seq<EntryModel>
    decreases n,
{
    if n <= 1 {
        reindexed(ledger(chain.take(1)))
    } else {
        apply_all(maintained(chain, n - 1), chain[n - 1].transactions)
    }
}

/// What `position_of` finds in an index with one more entry at its end.
pub proof fn lemma_position_push(entries: Seq<EntryModel>, entry: EntryModel, txid: Seq<char>)
    ensures
        position_of(entries.push(entry), txid, 0) == match position_of(entries, txid, 0) {
            Some(k) => Some(k),
            None => if entry.txid == txid {
                Some(entries.len() as int)
            } else {
                None
            },
        },
{
    let longer = entries.push(entry);
    lemma_position_of(entries, txid, 0);
    lemma_position_of(longer, txid, 0);
    match position_of(entries, txid, 0) {
        Some(k) => {
            assert(longer[k] == entries[k]);
            assert forall|j: int| 0 <= j < k implies (#[trigger] longer[j]).txid != txid by {
                assert(longer[j] == entries[j]);
            }
            lemma_position_is_first(longer, txid, 0, k);
        },
        None => {
            assert forall|j: int| 0 <= j < entries.len() implies (#[trigger] longer[j]).txid
                != txid by {
                assert(longer[j] == entries[j]);
            }
            if entry.txid == txid {
                lemma_position_is_first(longer, txid, 0, entries.len() as int);
            }
        },
    }
}

/// The rebuilt index has no entry for an id that none of the transactions
/// carries.
pub proof fn lemma_reindexed_foreign(
    refs: Seq<OutputRef>,
    txs: Seq<TransactionModel>,
    txid: Seq<char>,
)
    requires
        distinct_ids(txs),
        forall|p: int| 0 <= p < txs.len() ==> (#[trigger] txs[p]).id != txid,
    ensures
        position_of(reindexed_with(refs, txs), txid, 0) is None,
{
    lemma_reindexed_at(refs, txs, txid);
    assert(!as_map(reindexed_with(refs, txs)).contains_key(txid));
}

/// Letting an input consume its output in the rebuilt index gives the index
/// that is rebuilt with the reference of that input among the consumed.
pub proof fn lemma_spend_reindexed(
    refs: Seq<OutputRef>,
    txs: Seq<TransactionModel>,
    input: InputModel,
)
    requires
        distinct_ids(txs),
    ensures
        spend(reindexed_with(refs, txs), input) == reindexed_with(refs + seq![ref_of(input)], txs),
    decreases txs.len(),
{
    let one = seq![ref_of(input)];
    let more = refs + one;
    if txs.len() == 0 {
    } else {
        let pre = txs.drop_last();
        let last = txs.last();
        assert(distinct_ids(pre)) by {
            assert forall|p: int, q: int| 0 <= p < q < pre.len() implies (#[trigger] pre[p]).id != (
            #[trigger] pre[q]).id by {
                assert(pre[p] == txs[p]);
                assert(pre[q] == txs[q]);
            }
        }
        assert forall|p: int| 0 <= p < pre.len() implies (#[trigger] pre[p]).id != last.id by {
            assert(pre[p] == txs[p]);
            assert(txs[p].id != txs[txs.len() - 1].id);
        }
        lemma_spend_reindexed(refs, pre, input);
        lemma_reindexed_foreign(refs, pre, last.id);
        lemma_reindexed_foreign(more, pre, last.id);
        let before = reindexed_with(refs, pre);
        let after = reindexed_with(more, pre);
        let outputs = keep(all_outputs(last), refs, last.id);
        let left = keep(all_outputs(last), more, last.id);
        lemma_keep_compose(all_outputs(last), refs, one, last.id);
        let entry = EntryModel { txid: last.id, outputs };
        assert(one[0] == ref_of(input));
        if outputs.len() > 0 {
            assert(reindexed_with(refs, txs) == before.push(entry));
            lemma_position_push(before, entry, input.txid);
            if input.txid == last.id {
                let at = before.len() as int;
                assert(before.push(entry)[at] == entry);
                if left.len() == 0 {
                    assert(before.push(entry).remove(at) =~= before);
                } else {
                    assert(before.push(entry).update(
                        at,
                        (EntryModel { txid: last.id, outputs: left }),
                    ) =~= before.push((EntryModel { txid: last.id, outputs: left })));
                }
            } else {
                assert(!names(one, last.id));
                lemma_keep_unnamed(outputs, one, last.id);
                match position_of(before, input.txid, 0) {
                    Some(k) => {
                        lemma_position_of(before, input.txid, 0);
                        assert(before.push(entry)[k] == before[k]);
                        let rest = keep(before[k].outputs, one, input.txid);
                        if rest.len() == 0 {
                            assert(before.push(entry).remove(k) =~= before.remove(k).push(entry));
                        } else {
                            let changed = EntryModel { txid: before[k].txid, outputs: rest };
                            assert(before.push(entry).update(k, changed) =~= before.update(
                                k,
                                changed,
                            ).push(entry));
                        }
                    },
                    None => {},
                }
            }
        } else {
            lemma_keep_len(outputs, one, last.id);
        }
    }
}

/// Letting inputs consume their outputs in the rebuilt index, one after the
/// other, gives the index that is rebuilt with their references among the
/// consumed.
pub proof fn lemma_spend_all_reindexed(
    refs: Seq<OutputRef>,
    txs: Seq<TransactionModel>,
    inputs: Seq<InputModel>,
)
    requires
        distinct_ids(txs),
    ensures
        spend_all(reindexed_with(refs, txs), inputs) == reindexed_with(
            refs + input_refs(inputs),
            txs,
        ),
    decreases inputs.len(),
{
    if inputs.len() == 0 {
        assert(refs + input_refs(inputs) =~= refs);
    } else {
        let pre = inputs.drop_last();
        lemma_spend_all_reindexed(refs, txs, pre);
        lemma_spend_reindexed(refs + input_refs(pre), txs, inputs.last());
        assert(refs + input_refs(pre) + seq![ref_of(inputs.last())] =~= refs + input_refs(inputs));
    }
}

/// Applying the next transaction to the unconsumed outputs of the
/// transactions before it gives the unconsumed outputs of the transactions
/// up to it, entry for entry.
pub proof fn lemma_apply_rebuilds(txs: Seq<TransactionModel>, k: int)
    requires
        well_ordered(txs),
        0 <= k < txs.len(),
    ensures
        apply_tx(unconsumed(txs.take(k)), txs[k]) == unconsumed(txs.take(k + 1)),
{
    let before = txs.take(k);
    let upto = txs.take(k + 1);
    let tx = txs[k];
    let old_refs = all_refs(before);
    let new_refs = all_refs(upto);
    assert(upto.drop_last() =~= before);
    assert(upto.last() == tx);
    assert(new_refs == old_refs + refs_of(tx));
    lemma_well_ordered_prefix(txs, k);
    lemma_well_ordered_prefix(txs, k + 1);
    let spent = if tx.is_coinbase() {
        unconsumed(before)
    } else {
        spend_all(unconsumed(before), tx.vin)
    };
    assert(spent == reindexed_with(new_refs, before)) by {
        if tx.is_coinbase() {
            assert(old_refs + refs_of(tx) =~= old_refs);
        } else {
            lemma_spend_all_reindexed(old_refs, before, tx.vin);
            assert(input_refs(tx.vin) =~= refs_of(tx));
        }
    }
    assert(!names(new_refs, tx.id)) by {
        if names(new_refs, tx.id) {
            lemma_all_refs_names(upto, tx.id);
            let (q, j) = choose|q: int, j: int|
                #![trigger upto[q].vin[j]]
                0 <= q < upto.len() && !upto[q].is_coinbase() && 0 <= j < upto[q].vin.len()
                    && upto[q].vin[j].txid == tx.id;
            assert(upto[q].vin[j].txid != upto[k].id);
        }
    }
    lemma_keep_unnamed(all_outputs(tx), new_refs, tx.id);
    assert(all_outputs(tx).len() == tx.vout.len());
}

/// Applying the next transactions to the unconsumed outputs of those before
/// them, one after the other, gives the unconsumed outputs of all of them,
/// entry for entry.
pub proof fn lemma_apply_all_rebuilds(txs: Seq<TransactionModel>, k: int, n: int)
    requires
        well_ordered(txs),
        0 <= k,
        0 <= n,
        k + n <= txs.len(),
    ensures
        apply_all(unconsumed(txs.take(k)), txs.subrange(k, k + n)) == unconsumed(txs.take(k + n)),
    decreases n,
{
    let part = txs.subrange(k, k + n);
    if n > 0 {
        lemma_apply_all_rebuilds(txs, k, n - 1);
        assert(part.drop_last() =~= txs.subrange(k, k + n - 1));
        assert(part.last() == txs[k + n - 1]);
        lemma_apply_rebuilds(txs, k + n - 1);
    }
}

/// Applying one list of transactions and then another is applying the two
/// in a row.
pub proof fn lemma_apply_all_concat(
    entries: Seq<EntryModel>,
    a: Seq<TransactionModel>,
    b: Seq<TransactionModel>,
)
    ensures
        apply_all(entries, a + b) == apply_all(apply_all(entries, a), b),
    decreases b.len(),
{
    if b.len() == 0 {
        assert(a + b =~= a);
    } else {
        lemma_apply_all_concat(entries, a, b.drop_last());
        assert((a + b).drop_last() =~= a + b.drop_last());
        assert((a + b).last() == b.last());
    }
}

/// Along the first `n` blocks of a chain, the index that is kept up is the
/// rebuilt one, entry for entry.
pub proof fn lemma_maintained_is_rebuilt(chain: Seq<BlockModel>, n: int)
    requires
        1 <= n <= chain.len(),
    ensures
        maintained(chain, n) == reindexed(ledger(chain.take(n))),
    decreases n,
{
    if n > 1 {
        lemma_maintained_is_rebuilt(chain, n - 1);
        assert(chain.take(n).drop_last() =~= chain.take(n - 1));
        assert(chain.take(n).last() == chain[n - 1]);
        lemma_apply_all_concat(
            Seq::<EntryModel>::empty(),
            ledger(chain.take(n - 1)),
            chain[n - 1].transactions,
        );
    }
}

/// Rebuilding the index over a chain gives the very index, entry for entry
/// and in the same order, that is rebuilt once over the genesis block and
/// updated with every block appended since. This holds of every chain,
/// whatever its transactions are. So the outputs that are selected for a
/// spend do not depend on which of the two ways the index came about.
pub proof fn lemma_rebuild_is_update(chain: Seq<BlockModel>)
    requires
        chain.len() >= 1,
    ensures
        reindexed(ledger(chain)) == maintained(chain, chain.len() as int),
{
    lemma_maintained_is_rebuilt(chain, chain.len() as int);
    assert(chain.take(chain.len() as int) =~= chain);
}

/// Rebuilding the index over a chain gives the same keys, each with the
/// same unspent outputs, as rebuilding it once over the genesis block and
/// updating it with every block appended since.
pub proof fn lemma_rebuild_matches_updates(chain: Seq<BlockModel>)
    requires
        chain.len() >= 1,
    ensures
        as_map(reindexed(ledger(chain))) == as_map(maintained(chain, chain.len() as int)),
        as_map(reindexed(ledger(chain))).dom() == as_map(
            maintained(chain, chain.len() as int),
        ).dom(),
{
    lemma_rebuild_is_update(chain);
}

/// Of transactions that are in order, with ids that differ and inputs
/// that name earlier transactions only, the rebuilt index holds exactly the
/// outputs that no input consumes: each under the id of its transaction,
/// in the order of the transactions.
pub proof fn lemma_rebuilt_is_unconsumed(txs: Seq<TransactionModel>)
    requires
        well_ordered(txs),
    ensures
        reindexed(txs) == unconsumed(txs),
{
    lemma_apply_all_rebuilds(txs, 0, txs.len() as int);
    assert(txs.take(0) =~= Seq::<TransactionModel>::empty());
    assert(txs.subrange(0, txs.len() as int) =~= txs);
    assert(txs.take(txs.len() as int) =~= txs);
}

} // verus!
