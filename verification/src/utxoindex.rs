//! The index of unspent outputs: for each transaction that still has any,
//! its unspent outputs with their places in the transaction.

use crate::codec::str_eq;
use crate::errors::LedgerError;
use crate::transaction::{Transaction, TransactionModel};
use crate::tx::{InputModel, OutputModel, TXInput, TXOutput};
use vstd::prelude::*;
use vstd::string::*;

verus! {

/// An output together with its place in the transaction that made it.
pub struct UnspentModel {
    pub index: int,
    pub output: OutputModel,
}

/// The unspent outputs of one transaction.
pub struct EntryModel {
    pub txid: Seq<char>,
    pub outputs: Seq<UnspentModel>,
}

/// A reference to an output: the id of its transaction and its place there.
pub type OutputRef = (Seq<char>, i32);

/// An output together with its place in the transaction that made it.
#[derive(Debug, Clone)]
pub struct UnspentOutput {
    pub index: usize,
    pub output: TXOutput,
}

/// The unspent outputs of one transaction.
#[derive(Debug, Clone)]
pub struct UtxoEntry {
    pub txid: String,
    pub outputs: Vec<UnspentOutput>,
}

/// The index: one entry for each transaction id, in the order in which the
/// ids came in.
#[derive(Debug)]
pub struct UtxoIndex {
    entries: Vec<UtxoEntry>,
}

impl View for UnspentOutput {
    type V = UnspentModel;

    open spec fn view(&self) -> UnspentModel {
        UnspentModel { index: self.index as int, output: self.output@ }
    }
}

impl DeepView for UnspentOutput {
    type V = UnspentModel;

    open spec fn deep_view(&self) -> UnspentModel {
        self.view()
    }
}

impl View for UtxoEntry {
    type V = EntryModel;

    open spec fn view(&self) -> EntryModel {
        EntryModel { txid: self.txid@, outputs: self.outputs.deep_view() }
    }
}

impl DeepView for UtxoEntry {
    type V = EntryModel;

    open spec fn deep_view(&self) -> EntryModel {
        self.view()
    }
}

impl View for UtxoIndex {
    type V = Seq<EntryModel>;

    closed spec fn view(&self) -> Seq<EntryModel> {
        self.entries.deep_view()
    }
}

/// The place of the first entry, from `from` on, for the transaction `txid`.
pub open spec fn position_of(entries: Seq<EntryModel>, txid: Seq<char>, from: int) -> Option<int>
    decreases entries.len() - from,
{
    if from < 0 || from >= entries.len() {
        None
    } else if entries[from].txid == txid {
        Some(from)
    } else {
        position_of(entries, txid, from + 1)
    }
}

/// No two entries are for the same transaction.
pub open spec fn distinct_keys(entries: Seq<EntryModel>) -> bool {
    forall|i: int, j: int|
        0 <= i < j < entries.len() ==> (#[trigger] entries[i]).txid != (#[trigger] entries[j]).txid
}

/// No two of `outputs` stand at the same place of their transaction.
pub open spec fn distinct_places(outputs: Seq<UnspentModel>) -> bool {
    forall|i: int, j: int|
        0 <= i < j < outputs.len() ==> (#[trigger] outputs[i]).index != (#[trigger] outputs[j]).index
}

/// The index is well formed: no two entries are for the same transaction,
/// no entry is empty, and no entry holds one place twice.
pub open spec fn well_formed(entries: Seq<EntryModel>) -> bool {
    &&& distinct_keys(entries)
    &&& forall|e: int|
        0 <= e < entries.len() ==> (#[trigger] entries[e]).outputs.len() > 0 && distinct_places(
            entries[e].outputs,
        )
}

/// No reference occurs twice.
pub open spec fn distinct_refs(refs: Seq<OutputRef>) -> bool {
    forall|i: int, j: int| 0 <= i < j < refs.len() ==> #[trigger] refs[i] != #[trigger] refs[j]
}

/// Whether `refs` holds a reference to output `index` of transaction `txid`.
pub open spec fn listed(refs: Seq<OutputRef>, txid: Seq<char>, index: int) -> bool {
    exists|e: int| 0 <= e < refs.len() && (#[trigger] refs[e]).0 == txid && refs[e].1 as int == index
}

/// The outputs among `outputs`, which belong to transaction `txid`, that
/// `refs` does not name.
pub open spec fn keep(outputs: Seq<UnspentModel>, refs: Seq<OutputRef>, txid: Seq<char>) -> Seq<
    UnspentModel,
>
    decreases outputs.len(),
{
    if outputs.len() == 0 {
        Seq::<UnspentModel>::empty()
    } else if listed(refs, txid, outputs.last().index) {
        keep(outputs.drop_last(), refs, txid)
    } else {
        keep(outputs.drop_last(), refs, txid).push(outputs.last())
    }
}

/// The index with the entry for `txid` set to `outputs`: in the place of the
/// entry that was there, or at the end.
pub open spec fn put(entries: Seq<EntryModel>, txid: Seq<char>, outputs: Seq<UnspentModel>) -> Seq<
    EntryModel,
> {
    match position_of(entries, txid, 0) {
        Some(k) => entries.update(k, EntryModel { txid, outputs }),
        None => entries.push(EntryModel { txid, outputs }),
    }
}

/// The reference that an input makes.
pub open spec fn ref_of(input: InputModel) -> OutputRef {
    (input.txid, input.vout)
}

/// The references that inputs make.
pub open spec fn input_refs(inputs: Seq<InputModel>) -> Seq<OutputRef> {
    Seq::new(inputs.len(), |j: int| ref_of(inputs[j]))
}

/// The index once `input` has consumed the output that it names: the output
/// leaves its entry, and an entry that is left empty leaves the index. An
/// input that names no entry changes nothing.
pub open spec fn spend(entries: Seq<EntryModel>, input: InputModel) -> Seq<EntryModel> {
    match position_of(entries, input.txid, 0) {
        Some(k) => {
            let rest = keep(entries[k].outputs, seq![ref_of(input)], input.txid);
            if rest.len() == 0 {
                entries.remove(k)
            } else {
                entries.update(k, EntryModel { txid: entries[k].txid, outputs: rest })
            }
        },
        None => entries,
    }
}

/// The index once each of `inputs` has consumed its output, in their order.
pub open spec fn spend_all(entries: Seq<EntryModel>, inputs: Seq<InputModel>) -> Seq<EntryModel>
    decreases inputs.len(),
{
    if inputs.len() == 0 {
        entries
    } else {
        spend(spend_all(entries, inputs.drop_last()), inputs.last())
    }
}

/// All outputs of a transaction, each with its place.
pub open spec fn all_outputs(tx: TransactionModel) -> Seq<UnspentModel> {
    Seq::new(tx.vout.len(), |k: int| UnspentModel { index: k, output: tx.vout[k] })
}

/// The index once `tx` has been applied: the outputs that its inputs consume
/// are gone, unless it is a coinbase transaction, and its own outputs, if it
/// has any, stand under its id.
pub open spec fn apply_tx(entries: Seq<EntryModel>, tx: TransactionModel) -> Seq<EntryModel> {
    let spent = if tx.is_coinbase() {
        entries
    } else {
        spend_all(entries, tx.vin)
    };
    if tx.vout.len() > 0 {
        put(spent, tx.id, all_outputs(tx))
    } else {
        spent
    }
}

/// The index once each of `txs` has been applied, in their order.
pub open spec fn apply_all(entries: Seq<EntryModel>, txs: Seq<TransactionModel>) -> Seq<EntryModel>
    decreases txs.len(),
{
    if txs.len() == 0 {
        entries
    } else {
        apply_tx(apply_all(entries, txs.drop_last()), txs.last())
    }
}

/// The references that a transaction makes: one for each input, and none for
/// a coinbase transaction.
pub open spec fn refs_of(tx: TransactionModel) -> Seq<OutputRef> {
    if tx.is_coinbase() {
        Seq::<OutputRef>::empty()
    } else {
        Seq::new(tx.vin.len(), |j: int| ref_of(tx.vin[j]))
    }
}

/// The references that the transactions make, in their order.
pub open spec fn all_refs(txs: Seq<TransactionModel>) -> Seq<OutputRef>
    decreases txs.len(),
{
    if txs.len() == 0 {
        Seq::<OutputRef>::empty()
    } else {
        all_refs(txs.drop_last()) + refs_of(txs.last())
    }
}

/// The index over `txs` where the outputs that `refs` names are consumed:
/// each transaction, in its order, brings the entry of its outputs that are
/// not consumed, if it has any.
pub open spec fn reindexed_with(refs: Seq<OutputRef>, txs: Seq<TransactionModel>) -> Seq<
    EntryModel,
>
    decreases txs.len(),
{
    if txs.len() == 0 {
        Seq::<EntryModel>::empty()
    } else {
        let before = reindexed_with(refs, txs.drop_last());
        let outputs = keep(all_outputs(txs.last()), refs, txs.last().id);
        if outputs.len() > 0 {
            put(before, txs.last().id, outputs)
        } else {
            before
        }
    }
}

/// The outputs of `txs` that no input of `txs` consumes, each under the id
/// of its transaction.
pub open spec fn unconsumed(txs: Seq<TransactionModel>) -> Seq<EntryModel> {
    reindexed_with(all_refs(txs), txs)
}

/// The index that a ledger of the transactions `txs` has: the transactions
/// are walked from the first to the last; the inputs of each consume the
/// outputs that they name among those that came before, and its own outputs
/// come in under its id. What is left are the outputs that no later input
/// has consumed.
pub open spec fn reindexed(txs: Seq<TransactionModel>) -> Seq<EntryModel> {
    apply_all(Seq::<EntryModel>::empty(), txs)
}

/// An unspent output as a candidate for spending.
pub struct OutPointModel {
    pub txid: Seq<char>,
    pub index: int,
    pub output: OutputModel,
}

/// The outputs of an entry, as candidates.
pub open spec fn entry_points(entry: EntryModel) -> Seq<OutPointModel> {
    Seq::new(
        entry.outputs.len(),
        |o: int|
            OutPointModel {
                txid: entry.txid,
                index: entry.outputs[o].index,
                output: entry.outputs[o].output,
            },
    )
}

/// All unspent outputs in the order of the index: entry by entry, and within
/// an entry in the order of the outputs.
pub open spec fn flat(entries: Seq<EntryModel>) -> Seq<OutPointModel>
    decreases entries.len(),
{
    if entries.len() == 0 {
        Seq::<OutPointModel>::empty()
    } else {
        flat(entries.drop_last()) + entry_points(entries.last())
    }
}

/// An output can be spent by the holder of `pub_key_hash` when it is locked
/// to that hash, its value is not negative, and an input can name its place.
pub open spec fn spendable(point: OutPointModel, pub_key_hash: Seq<u8>) -> bool {
    point.output.pub_key_hash == pub_key_hash && point.output.value >= 0 && 0 <= point.index
        <= i32::MAX
}

/// The sum of the values of `points`.
pub open spec fn total(points: Seq<OutPointModel>) -> int
    decreases points.len(),
{
    if points.len() == 0 {
        0
    } else {
        total(points.drop_last()) + points.last().output.value
    }
}

/// The outputs that are selected to cover `amount`: walking `points` in
/// their order, each spendable output is taken as long as what was taken
/// before it does not cover the amount.
pub open spec fn selected(points: Seq<OutPointModel>, pub_key_hash: Seq<u8>, amount: int) -> Seq<
    OutPointModel,
>
    decreases points.len(),
{
    if points.len() == 0 {
        Seq::<OutPointModel>::empty()
    } else {
        let before = selected(points.drop_last(), pub_key_hash, amount);
        if spendable(points.last(), pub_key_hash) && total(before) < amount {
            before.push(points.last())
        } else {
            before
        }
    }
}

/// The sum of the values of all outputs that the holder of `pub_key_hash`
/// can spend.
pub open spec fn spendable_total(points: Seq<OutPointModel>, pub_key_hash: Seq<u8>) -> int
    decreases points.len(),
{
    if points.len() == 0 {
        0
    } else if spendable(points.last(), pub_key_hash) {
        spendable_total(points.drop_last(), pub_key_hash) + points.last().output.value
    } else {
        spendable_total(points.drop_last(), pub_key_hash)
    }
}

/// The outputs among `points` that are locked to `pub_key_hash`.
pub open spec fn locked_to(points: Seq<OutPointModel>, pub_key_hash: Seq<u8>) -> Seq<OutputModel>
    decreases points.len(),
{
    if points.len() == 0 {
        Seq::<OutputModel>::empty()
    } else if points.last().output.pub_key_hash == pub_key_hash {
        locked_to(points.drop_last(), pub_key_hash).push(points.last().output)
    } else {
        locked_to(points.drop_last(), pub_key_hash)
    }
}

/// The references by which inputs name `points`.
pub open spec fn refs_to(points: Seq<OutPointModel>) -> Seq<OutputRef> {
    Seq::new(points.len(), |i: int| (points[i].txid, points[i].index as i32))
}

/// Every selected output is one that the holder can spend.
pub proof fn lemma_selected_spendable(
    points: Seq<OutPointModel>,
    pub_key_hash: Seq<u8>,
    amount: int,
)
    ensures
        forall|i: int|
            0 <= i < selected(points, pub_key_hash, amount).len() ==> spendable(
                #[trigger] selected(points, pub_key_hash, amount)[i],
                pub_key_hash,
            ),
    decreases points.len(),
{
    if points.len() > 0 {
        lemma_selected_spendable(points.drop_last(), pub_key_hash, amount);
        let before = selected(points.drop_last(), pub_key_hash, amount);
        let now = selected(points, pub_key_hash, amount);
        assert forall|i: int| 0 <= i < now.len() implies spendable(#[trigger] now[i], pub_key_hash) by {
            if i < before.len() {
                assert(now[i] == before[i]);
            }
        }
    }
}

/// The selection covers the amount exactly when the spendable total does:
/// it falls short of `amount` if and only if all that can be spent falls
/// short of it.
pub proof fn lemma_selection_covers(points: Seq<OutPointModel>, pub_key_hash: Seq<u8>, amount: int)
    ensures
        0 <= total(selected(points, pub_key_hash, amount)) <= spendable_total(
            points,
            pub_key_hash,
        ),
        total(selected(points, pub_key_hash, amount)) < amount ==> total(
            selected(points, pub_key_hash, amount),
        ) == spendable_total(points, pub_key_hash),
        total(selected(points, pub_key_hash, amount)) < amount <==> spendable_total(
            points,
            pub_key_hash,
        ) < amount,
    decreases points.len(),
{
    if points.len() > 0 {
        lemma_selection_covers(points.drop_last(), pub_key_hash, amount);
        let before = selected(points.drop_last(), pub_key_hash, amount);
        if spendable(points.last(), pub_key_hash) && total(before) < amount {
            assert(before.push(points.last()).drop_last() =~= before);
        }
    }
}

impl UtxoIndex {
    /// No two entries are for the same transaction, no entry is empty, and
    /// no entry holds one place twice. Every index that this module hands
    /// out is of this kind, and every operation keeps it so.
    pub open spec fn wf(&self) -> bool {
        well_formed(self@)
    }

    /// The empty index.
    pub fn new() -> (index: UtxoIndex)
        ensures
            index@.len() == 0,
            index.wf(),
    {
        UtxoIndex { entries: Vec::new() }
    }

    /// The number of entries.
    pub fn len(&self) -> (n: usize)
        ensures
            n == self@.len(),
    {
        self.entries.len()
    }

    /// The entry at `at`, counted in the order of the index.
    pub fn entry(&self, at: usize) -> (entry: &UtxoEntry)
        requires
            at < self@.len(),
        ensures
            entry@ == self@[at as int],
    {
        &self.entries[at]
    }

    /// The place of the entry for `txid`.
    pub fn position(&self, txid: &str) -> (found: Option<usize>)
        ensures
            match found {
                Some(k) => k < self@.len() && position_of(self@, txid@, 0) == Some(k as int),
                None => position_of(self@, txid@, 0) is None,
            },
    {
        let mut i: usize = 0;
        while i < self.entries.len()
            invariant
                i <= self.entries.len(),
                position_of(self@, txid@, 0) == position_of(self@, txid@, i as int),
            decreases self.entries.len() - i,
        {
            if str_eq(self.entries[i].txid.as_str(), txid) {
                return Some(i);
            }
            i += 1;
        }
        None
    }

    /// Sets the entry for `txid` to `outputs`, of which there is at least
    /// one and no two at the same place.
    pub fn put(&mut self, txid: String, outputs: Vec<UnspentOutput>)
        requires
            old(self).wf(),
            outputs.len() > 0,
            distinct_places(outputs.deep_view()),
        ensures
            final(self).wf(),
            final(self)@ == put(old(self)@, txid@, outputs.deep_view()),
    {
        let ghost before = self@;
        proof {
            lemma_position_of(before, txid@, 0);
        }
        match self.position(txid.as_str()) {
            Some(k) => {
                self.entries.set(k, UtxoEntry { txid, outputs });
                assert(self@ =~= before.update(
                    k as int,
                    (EntryModel { txid: txid@, outputs: outputs.deep_view() }),
                ));
            },
            None => {
                self.entries.push(UtxoEntry { txid, outputs });
                assert(self@ =~= before.push(
                    (EntryModel { txid: txid@, outputs: outputs.deep_view() }),
                ));
            },
        }
    }

    /// Lets `input` consume the output that it names.
    pub fn spend(&mut self, input: &TXInput)
        requires
            old(self).wf(),
        ensures
            final(self).wf(),
            final(self)@ == spend(old(self)@, input@),
    {
        let ghost before = self@;
        let k = match self.position(input.txid.as_str()) {
            Some(k) => k,
            None => {
                return ;
            },
        };
        let ghost refs = seq![ref_of(input@)];
        let entry = &self.entries[k];
        let ghost outs = entry.outputs.deep_view();
        let mut rest: Vec<UnspentOutput> = Vec::new();
        let mut i: usize = 0;
        while i < entry.outputs.len()
            invariant
                i <= entry.outputs.len(),
                outs == entry.outputs.deep_view(),
                refs == seq![ref_of(input@)],
                rest.deep_view() == keep(outs.take(i as int), refs, input@.txid),
            decreases entry.outputs.len() - i,
        {
            let unspent = &entry.outputs[i];
            proof {
                assert(outs.take(i as int + 1).drop_last() =~= outs.take(i as int));
                assert(outs.take(i as int + 1).last() == unspent@);
                assert(refs[0] == ref_of(input@));
                assert(listed(refs, input@.txid, unspent@.index) <==> input@.vout as int
                    == unspent@.index);
            }
            if !(input.vout >= 0 && unspent.index == input.vout as usize) {
                let ghost old_rest = rest.deep_view();
                rest.push(UnspentOutput { index: unspent.index, output: unspent.output.duplicate() });
                assert(rest.deep_view() =~= old_rest.push(unspent@));
            }
            i += 1;
        }
        assert(outs.take(entry.outputs.len() as int) =~= outs);
        assert(before[k as int] == entry@);
        proof {
            lemma_keep_distinct(outs, refs, input@.txid);
        }
        if rest.len() == 0 {
            self.entries.remove(k);
            assert(self@ =~= before.remove(k as int));
        } else {
            let txid = entry.txid.clone();
            self.entries.set(k, UtxoEntry { txid, outputs: rest });
            assert(self@ =~= before.update(
                k as int,
                (EntryModel { txid: before[k as int].txid, outputs: rest.deep_view() }),
            ));
        }
    }

    /// Applies a transaction: its inputs consume the outputs that they
    /// name, unless it is a coinbase transaction, and its own outputs become
    /// the entry under its id. A transaction without outputs brings no
    /// entry.
    pub fn apply(&mut self, tx: &Transaction)
        requires
            old(self).wf(),
        ensures
            final(self).wf(),
            final(self)@ == apply_tx(old(self)@, tx@),
    {
        let ghost before = self@;
        if !tx.is_coinbase() {
            let mut i: usize = 0;
            assert(tx@.vin.take(0) =~= Seq::<InputModel>::empty());
            while i < tx.vin.len()
                invariant
                    i <= tx.vin.len(),
                    self.wf(),
                    self@ == spend_all(before, tx@.vin.take(i as int)),
                decreases tx.vin.len() - i,
            {
                assert(tx@.vin.take(i as int + 1).drop_last() =~= tx@.vin.take(i as int));
                assert(tx@.vin.take(i as int + 1).last() == tx.vin[i as int]@);
                self.spend(&tx.vin[i]);
                i += 1;
            }
            assert(tx@.vin.take(tx.vin.len() as int) =~= tx@.vin);
        }
        let mut outputs: Vec<UnspentOutput> = Vec::new();
        let mut k: usize = 0;
        while k < tx.vout.len()
            invariant
                k <= tx.vout.len(),
                outputs.len() == k,
                forall|j: int| 0 <= j < k ==> outputs[j]@ == all_outputs(tx@)[j],
            decreases tx.vout.len() - k,
        {
            outputs.push(UnspentOutput { index: k, output: tx.vout[k].duplicate() });
            k += 1;
        }
        assert(outputs.deep_view() =~= all_outputs(tx@));
        if outputs.len() > 0 {
            self.put(tx.id.clone(), outputs);
        }
    }
}

/// Whether one of `outputs` stands at the place `index`.
pub open spec fn has_place(outputs: Seq<UnspentModel>, index: int) -> bool {
    exists|j: int| 0 <= j < outputs.len() && (#[trigger] outputs[j]).index == index
}

/// What is kept of outputs at different places are outputs at different
/// places, each of them one of those that were there.
pub proof fn lemma_keep_distinct(outputs: Seq<UnspentModel>, refs: Seq<OutputRef>, txid: Seq<char>)
    requires
        distinct_places(outputs),
    ensures
        distinct_places(keep(outputs, refs, txid)),
        forall|i: int|
            0 <= i < keep(outputs, refs, txid).len() ==> has_place(
                outputs,
                (#[trigger] keep(outputs, refs, txid)[i]).index,
            ),
    decreases outputs.len(),
{
    if outputs.len() > 0 {
        let pre = outputs.drop_last();
        let last = outputs.last();
        assert(distinct_places(pre)) by {
            assert forall|i: int, j: int| 0 <= i < j < pre.len() implies (#[trigger] pre[i]).index != (
            #[trigger] pre[j]).index by {
                assert(pre[i] == outputs[i] && pre[j] == outputs[j]);
            }
        }
        lemma_keep_distinct(pre, refs, txid);
        let kept_pre = keep(pre, refs, txid);
        let kept = keep(outputs, refs, txid);
        assert forall|i: int| 0 <= i < kept_pre.len() implies has_place(
            outputs,
            (#[trigger] kept_pre[i]).index,
        ) && kept_pre[i].index != last.index by {
            assert(has_place(pre, kept_pre[i].index));
            let j = choose|j: int| 0 <= j < pre.len() && (#[trigger] pre[j]).index == kept_pre[i].index;
            assert(outputs[j] == pre[j]);
            assert(outputs[j].index != outputs[outputs.len() - 1].index);
        }
        assert forall|i: int| 0 <= i < kept.len() implies has_place(
            outputs,
            (#[trigger] kept[i]).index,
        ) by {
            if i < kept_pre.len() {
                assert(kept[i] == kept_pre[i]);
            } else {
                assert(outputs[outputs.len() - 1].index == kept[i].index);
            }
        }
        assert forall|i: int, j: int| 0 <= i < j < kept.len() implies (#[trigger] kept[i]).index != (
        #[trigger] kept[j]).index by {
            assert(kept[i] == kept_pre[i]);
            if j < kept_pre.len() {
                assert(kept[j] == kept_pre[j]);
            }
        }
    }
}

/// Whether two candidates are one output: the same place of the same
/// transaction.
pub open spec fn same_output(a: OutPointModel, b: OutPointModel) -> bool {
    a.txid == b.txid && a.index == b.index
}

/// No output occurs twice among `points`.
pub open spec fn distinct_points(points: Seq<OutPointModel>) -> bool {
    forall|i: int, j: int|
        0 <= i < j < points.len() ==> !same_output(#[trigger] points[i], #[trigger] points[j])
}

/// Whether `points` holds the output `point`.
pub open spec fn has_point(points: Seq<OutPointModel>, point: OutPointModel) -> bool {
    exists|i: int| 0 <= i < points.len() && same_output(#[trigger] points[i], point)
}

/// Whether the index has an entry for `txid`.
pub open spec fn has_key(entries: Seq<EntryModel>, txid: Seq<char>) -> bool {
    exists|e: int| 0 <= e < entries.len() && (#[trigger] entries[e]).txid == txid
}

/// In a well-formed index no output occurs twice among the candidates, and
/// each candidate belongs to an entry.
pub proof fn lemma_flat_distinct(entries: Seq<EntryModel>)
    requires
        well_formed(entries),
    ensures
        distinct_points(flat(entries)),
        forall|i: int|
            0 <= i < flat(entries).len() ==> has_key(entries, (#[trigger] flat(entries)[i]).txid),
    decreases entries.len(),
{
    if entries.len() > 0 {
        let pre = entries.drop_last();
        let last = entries.last();
        assert(well_formed(pre)) by {
            assert forall|i: int, j: int| 0 <= i < j < pre.len() implies (#[trigger] pre[i]).txid != (
            #[trigger] pre[j]).txid by {
                assert(pre[i] == entries[i] && pre[j] == entries[j]);
            }
            assert forall|e: int| 0 <= e < pre.len() implies (#[trigger] pre[e]).outputs.len() > 0
                && distinct_places(pre[e].outputs) by {
                assert(pre[e] == entries[e]);
            }
        }
        lemma_flat_distinct(pre);
        let head = flat(pre);
        let tail = entry_points(last);
        let all = flat(entries);
        assert(distinct_places(entries[entries.len() - 1].outputs));
        assert forall|i: int| 0 <= i < all.len() implies has_key(entries, (#[trigger] all[i]).txid) by {
            if i < head.len() {
                assert(all[i] == head[i]);
                let e = choose|e: int| 0 <= e < pre.len() && (#[trigger] pre[e]).txid == head[i].txid;
                assert(entries[e] == pre[e]);
            } else {
                assert(all[i] == tail[i - head.len()]);
                assert(entries[entries.len() - 1].txid == all[i].txid);
            }
        }
        assert forall|i: int, j: int| 0 <= i < j < all.len() implies !same_output(
            #[trigger] all[i],
            #[trigger] all[j],
        ) by {
            if j < head.len() {
                assert(all[i] == head[i] && all[j] == head[j]);
            } else if i < head.len() {
                assert(all[i] == head[i]);
                assert(all[j] == tail[j - head.len()]);
                let e = choose|e: int| 0 <= e < pre.len() && (#[trigger] pre[e]).txid == head[i].txid;
                assert(entries[e] == pre[e]);
                assert(entries[e].txid != entries[entries.len() - 1].txid);
            } else {
                assert(all[i] == tail[i - head.len()]);
                assert(all[j] == tail[j - head.len()]);
                assert(last.outputs[i - head.len()].index != last.outputs[j - head.len()].index);
            }
        }
    }
}

/// Among candidates of which none occurs twice, none is selected twice, and
/// what is selected is among the candidates.
pub proof fn lemma_selected_distinct(points: Seq<OutPointModel>, pub_key_hash: Seq<u8>, amount: int)
    requires
        distinct_points(points),
    ensures
        distinct_points(selected(points, pub_key_hash, amount)),
        forall|i: int|
            0 <= i < selected(points, pub_key_hash, amount).len() ==> has_point(
                points,
                #[trigger] selected(points, pub_key_hash, amount)[i],
            ),
    decreases points.len(),
{
    if points.len() > 0 {
        let pre = points.drop_last();
        let last = points.last();
        assert(distinct_points(pre)) by {
            assert forall|i: int, j: int| 0 <= i < j < pre.len() implies !same_output(
                #[trigger] pre[i],
                #[trigger] pre[j],
            ) by {
                assert(pre[i] == points[i] && pre[j] == points[j]);
            }
        }
        lemma_selected_distinct(pre, pub_key_hash, amount);
        let before = selected(pre, pub_key_hash, amount);
        let now = selected(points, pub_key_hash, amount);
        assert forall|i: int| 0 <= i < before.len() implies has_point(points, #[trigger] before[i])
            && !same_output(before[i], last) by {
            assert(has_point(pre, before[i]));
            let j = choose|j: int| 0 <= j < pre.len() && same_output(#[trigger] pre[j], before[i]);
            assert(points[j] == pre[j]);
            assert(!same_output(points[j], points[points.len() - 1]));
        }
        assert forall|i: int| 0 <= i < now.len() implies has_point(points, #[trigger] now[i]) by {
            if i < before.len() {
                assert(now[i] == before[i]);
            } else {
                assert(same_output(points[points.len() - 1], now[i]));
            }
        }
        assert forall|i: int, j: int| 0 <= i < j < now.len() implies !same_output(
            #[trigger] now[i],
            #[trigger] now[j],
        ) by {
            assert(now[i] == before[i]);
            if j < before.len() {
                assert(now[j] == before[j]);
            }
        }
    }
}

/// The references to what is selected from a well-formed index name no
/// output twice.
pub proof fn lemma_selection_names_once(
    entries: Seq<EntryModel>,
    pub_key_hash: Seq<u8>,
    amount: int,
)
    requires
        well_formed(entries),
    ensures
        distinct_refs(refs_to(selected(flat(entries), pub_key_hash, amount))),
{
    let picked = selected(flat(entries), pub_key_hash, amount);
    lemma_flat_distinct(entries);
    lemma_selected_distinct(flat(entries), pub_key_hash, amount);
    lemma_selected_spendable(flat(entries), pub_key_hash, amount);
    let refs = refs_to(picked);
    assert forall|i: int, j: int| 0 <= i < j < refs.len() implies #[trigger] refs[i]
        != #[trigger] refs[j] by {
        assert(!same_output(picked[i], picked[j]));
        assert(spendable(picked[i], pub_key_hash));
        assert(spendable(picked[j], pub_key_hash));
    }
}

/// Where `position_of` finds an entry, it is the first for that transaction;
/// where it finds none, there is none.
pub proof fn lemma_position_of(entries: Seq<EntryModel>, txid: Seq<char>, from: int)
    requires
        0 <= from,
    ensures
        match position_of(entries, txid, from) {
            Some(k) => from <= k < entries.len() && entries[k].txid == txid && forall|j: int|
                from <= j < k ==> (#[trigger] entries[j]).txid != txid,
            None => forall|j: int| from <= j < entries.len() ==> (#[trigger] entries[j]).txid != txid,
        },
    decreases entries.len() - from,
{
    if from < entries.len() && entries[from].txid != txid {
        lemma_position_of(entries, txid, from + 1);
    }
}

/// The place, from `from` on, of the first of `outputs` that stands at
/// `index` in its transaction.
pub open spec fn place_of(outputs: Seq<UnspentModel>, index: int, from: int) -> Option<int>
    decreases outputs.len() - from,
{
    if from < 0 || from >= outputs.len() {
        None
    } else if outputs[from].index == index {
        Some(from)
    } else {
        place_of(outputs, index, from + 1)
    }
}

/// The value of the output that `named` names, where the index holds it.
pub open spec fn value_at(entries: Seq<EntryModel>, named: OutputRef) -> Option<i32> {
    match position_of(entries, named.0, 0) {
        Some(e) => match place_of(entries[e].outputs, named.1 as int, 0) {
            Some(o) => Some(entries[e].outputs[o].output.value),
            None => None,
        },
        None => None,
    }
}

/// The index holds every output that `refs` names.
pub open spec fn all_unspent(entries: Seq<EntryModel>, refs: Seq<OutputRef>) -> bool {
    forall|j: int| 0 <= j < refs.len() ==> value_at(entries, #[trigger] refs[j]) is Some
}

/// The sum of the values of the outputs that `refs` names; an output that
/// the index does not hold counts nothing.
pub open spec fn input_total(entries: Seq<EntryModel>, refs: Seq<OutputRef>) -> int
    decreases refs.len(),
{
    if refs.len() == 0 {
        0
    } else {
        input_total(entries, refs.drop_last()) + match value_at(entries, refs.last()) {
            Some(value) => value as int,
            None => 0,
        }
    }
}

/// No output is worth less than nothing.
pub open spec fn none_negative(outputs: Seq<OutputModel>) -> bool {
    forall|k: int| 0 <= k < outputs.len() ==> (#[trigger] outputs[k]).value >= 0
}

/// The inputs of `tx` can be spent: each names an output that the index
/// holds, and no two name the same.
pub open spec fn inputs_unspent(entries: Seq<EntryModel>, tx: TransactionModel) -> bool {
    all_unspent(entries, input_refs(tx.vin)) && distinct_refs(input_refs(tx.vin))
}

/// The inputs of `tx` cover its outputs.
pub open spec fn inputs_cover(entries: Seq<EntryModel>, tx: TransactionModel) -> bool {
    input_total(entries, input_refs(tx.vin)) >= crate::transaction::output_total(tx.vout)
}

/// The index allows `tx`: no output is worth less than nothing, and unless
/// it is a coinbase transaction, its inputs consume unspent outputs, each
/// its own, that are worth at least as much as its outputs.
pub open spec fn allowed(entries: Seq<EntryModel>, tx: TransactionModel) -> bool {
    none_negative(tx.vout) && (tx.is_coinbase() || (inputs_unspent(entries, tx) && inputs_cover(
        entries,
        tx,
    )))
}

impl UtxoIndex {
    /// The value of output `vout` of transaction `txid`, where the index
    /// holds it.
    pub fn value_of(&self, txid: &str, vout: i32) -> (value: Option<i32>)
        ensures
            value == value_at(self@, (txid@, vout)),
    {
        let e = match self.position(txid) {
            Some(e) => e,
            None => {
                return None;
            },
        };
        let entry = &self.entries[e];
        let ghost outs = entry.outputs.deep_view();
        assert(self@[e as int] == entry@);
        let mut o: usize = 0;
        while o < entry.outputs.len()
            invariant
                o <= entry.outputs.len(),
                outs == entry.outputs.deep_view(),
                e < self@.len(),
                self@[e as int].outputs == outs,
                position_of(self@, txid@, 0) == Some(e as int),
                place_of(outs, vout as int, 0) == place_of(outs, vout as int, o as int),
            decreases entry.outputs.len() - o,
        {
            assert(outs[o as int] == entry.outputs[o as int]@);
            if vout >= 0 && entry.outputs[o].index == vout as usize {
                assert(outs[o as int].index == vout as int);
                assert(place_of(outs, vout as int, 0) == Some(o as int));
                return Some(entry.outputs[o].output.value);
            }
            assert(outs[o as int].index != vout as int);
            o += 1;
        }
        None
    }

    /// Tells whether the index allows `tx`. `Overspend` says that an output
    /// is worth less than nothing or that the outputs are worth more than
    /// the inputs; `OutputSpent` that an input names an output that the
    /// index does not hold, or that two inputs name the same output.
    pub fn allows(&self, tx: &Transaction) -> (checked: Result<(), LedgerError>)
        ensures
            match checked {
                Ok(()) => allowed(self@, tx@),
                Err(e) => !allowed(self@, tx@) && if !none_negative(tx@.vout) {
                    e == LedgerError::Overspend
                } else if !inputs_unspent(self@, tx@) {
                    e == LedgerError::OutputSpent
                } else {
                    e == LedgerError::Overspend
                },
            },
    {
        let ghost outs = tx@.vout;
        let mut paid: i128 = 0;
        let mut k: usize = 0;
        assert(outs.take(0) =~= Seq::<OutputModel>::empty());
        while k < tx.vout.len()
            invariant
                k <= tx.vout.len(),
                outs == tx@.vout,
                paid == crate::transaction::output_total(outs.take(k as int)),
                0 <= paid <= k * 0x7FFF_FFFF,
                forall|j: int| 0 <= j < k ==> (#[trigger] outs[j]).value >= 0,
            decreases tx.vout.len() - k,
        {
            assert(outs.take(k as int + 1).drop_last() =~= outs.take(k as int));
            assert(outs.take(k as int + 1).last() == outs[k as int]);
            assert(outs[k as int] == tx.vout[k as int]@);
            if tx.vout[k].value < 0 {
                return Err(LedgerError::Overspend);
            }
            paid = paid + tx.vout[k].value as i128;
            k += 1;
        }
        assert(outs.take(tx.vout.len() as int) =~= outs);
        if tx.is_coinbase() {
            return Ok(());
        }
        let ghost refs = input_refs(tx@.vin);
        let mut brought: i128 = 0;
        let mut i: usize = 0;
        assert(refs.take(0) =~= Seq::<OutputRef>::empty());
        while i < tx.vin.len()
            invariant
                i <= tx.vin.len(),
                refs == input_refs(tx@.vin),
                !tx@.is_coinbase(),
                none_negative(tx@.vout),
                brought == input_total(self@, refs.take(i as int)),
                -i * 0x8000_0000 <= brought <= i * 0x7FFF_FFFF,
                forall|j: int| 0 <= j < i ==> value_at(self@, #[trigger] refs[j]) is Some,
            decreases tx.vin.len() - i,
        {
            assert(refs.take(i as int + 1).drop_last() =~= refs.take(i as int));
            assert(refs.take(i as int + 1).last() == refs[i as int]);
            assert(refs[i as int] == (tx.vin[i as int].txid@, tx.vin[i as int].vout));
            match self.value_of(tx.vin[i].txid.as_str(), tx.vin[i].vout) {
                Some(value) => {
                    brought = brought + value as i128;
                },
                None => {
                    return Err(LedgerError::OutputSpent);
                },
            }
            i += 1;
        }
        assert(refs.take(tx.vin.len() as int) =~= refs);
        if !names_each_once(&tx.vin) {
            return Err(LedgerError::OutputSpent);
        }
        if brought < paid {
            return Err(LedgerError::Overspend);
        }
        Ok(())
    }
}

/// Tells whether no two of `inputs` name the same output.
pub fn names_each_once(inputs: &Vec<TXInput>) -> (ok: bool)
    ensures
        ok == distinct_refs(input_refs(inputs.deep_view())),
{
    let ghost refs = input_refs(inputs.deep_view());
    let mut j: usize = 0;
    while j < inputs.len()
        invariant
            j <= inputs.len(),
            refs == input_refs(inputs.deep_view()),
            forall|a: int, b: int| 0 <= a < b < j ==> #[trigger] refs[a] != #[trigger] refs[b],
        decreases inputs.len() - j,
    {
        let mut i: usize = 0;
        while i < j
            invariant
                i <= j,
                j < inputs.len(),
                refs == input_refs(inputs.deep_view()),
                forall|a: int| 0 <= a < i ==> #[trigger] refs[a] != refs[j as int],
            decreases j - i,
        {
            assert(refs[i as int] == (inputs[i as int].txid@, inputs[i as int].vout));
            assert(refs[j as int] == (inputs[j as int].txid@, inputs[j as int].vout));
            if inputs[i].vout == inputs[j].vout && str_eq(
                inputs[i].txid.as_str(),
                inputs[j].txid.as_str(),
            ) {
                return false;
            }
            i += 1;
        }
        j += 1;
    }
    true
}

} // verus!
