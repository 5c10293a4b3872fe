//! Transactions: their identity, the coinbase, signing and verification.

use crate::codec::{
    copy_bytes, digest_text, i32_layout, le_bytes, lemma_i32_layout_split, lemma_le_bytes_split,
    lemma_length_prefixed_split, lemma_limits, lemma_text_layout_split, length_prefixed, limit,
    spec_sha256, text_layout, upper_hex,
};
use crate::blockchain::prior_of;
use crate::errors::LedgerError;
use crate::tx::{address_shape, spec_address_body, InputModel, OutputModel, TXInput, TXOutput};
use crate::utxoindex::{
    distinct_refs, flat, input_refs, lemma_selected_spendable, lemma_selection_covers, refs_to,
    selected, spendable, spendable_total, total, EntryModel, OutPointModel, OutputRef,
};
use crate::utxoset::UTXOSet;
use crate::wallet::{
    ed25519_signature, ed25519_verify, is_key_pair, spec_ed25519_signature, spec_ed25519_verify,
    spec_hash_pub_key, Wallet,
};
use vstd::prelude::*;
use vstd::string::*;

verus! {

/// The value that a coinbase transaction issues.
pub const SUBSIDY: i32 = 100;

/// What a transaction holds.
pub struct TransactionModel {
    pub id: Seq<char>,
    pub vin: Seq<InputModel>,
    pub vout: Seq<OutputModel>,
}

/// A transfer of value: inputs that spend earlier outputs, and new outputs.
#[derive(Debug, Clone)]
pub struct Transaction {
    pub id: String,
    pub vin: Vec<TXInput>,
    pub vout: Vec<TXOutput>,
}

impl View for Transaction {
    type V = TransactionModel;

    open spec fn view(&self) -> TransactionModel {
        TransactionModel {
            id: self.id@,
            vin: self.vin.deep_view(),
            vout: self.vout.deep_view(),
        }
    }
}

impl DeepView for Transaction {
    type V = TransactionModel;

    open spec fn deep_view(&self) -> TransactionModel {
        self.view()
    }
}

/// The bytes of an input: the transaction it names, the index, the signature
/// and the public key.
pub open spec fn input_layout(input: InputModel) -> Seq<u8> {
    text_layout(input.txid) + i32_layout(input.vout) + length_prefixed(input.signature)
        + length_prefixed(input.pub_key)
}

/// The bytes of an output: the value and the hash it is locked to.
pub open spec fn output_layout(output: OutputModel) -> Seq<u8> {
    i32_layout(output.value) + length_prefixed(output.pub_key_hash)
}

/// The bytes of the inputs, one after the other.
pub open spec fn inputs_layout(inputs: Seq<InputModel>) -> Seq<u8>
    decreases inputs.len(),
{
    if inputs.len() == 0 {
        Seq::<u8>::empty()
    } else {
        inputs_layout(inputs.drop_last()) + input_layout(inputs.last())
    }
}

/// The bytes of the outputs, one after the other.
pub open spec fn outputs_layout(outputs: Seq<OutputModel>) -> Seq<u8>
    decreases outputs.len(),
{
    if outputs.len() == 0 {
        Seq::<u8>::empty()
    } else {
        outputs_layout(outputs.drop_last()) + output_layout(outputs.last())
    }
}

/// The bytes of a transaction: the id, the inputs behind their number, the
/// outputs behind theirs.
pub open spec fn transaction_layout(tx: TransactionModel) -> Seq<u8> {
    text_layout(tx.id) + le_bytes(tx.vin.len(), 8) + inputs_layout(tx.vin) + le_bytes(
        tx.vout.len(),
        8,
    ) + outputs_layout(tx.vout)
}

/// The place of the first transaction of `txs`, from `from` on, whose id is
/// `id`.
pub open spec fn first_with_id(txs: Seq<TransactionModel>, id: Seq<char>, from: int) -> Option<
    int,
>
    decreases txs.len() - from,
{
    if from < 0 || from >= txs.len() {
        None
    } else if txs[from].id == id {
        Some(from)
    } else {
        first_with_id(txs, id, from + 1)
    }
}

/// The hash to which the output that `input` names is locked, where `prior`
/// holds the transaction and the transaction has that output.
pub open spec fn referenced_lock(prior: Seq<TransactionModel>, input: InputModel) -> Option<
    Seq<u8>,
> {
    if input.txid.len() == 0 {
        None
    } else {
        match first_with_id(prior, input.txid, 0) {
            Some(k) => if 0 <= input.vout < prior[k].vout.len() {
                Some(prior[k].vout[input.vout as int].pub_key_hash)
            } else {
                None
            },
            None => None,
        }
    }
}

/// The inputs as they are signed: no signature, and a public-key field only
/// at the input under signature, where it holds the lock of the output that
/// the input spends.
pub open spec fn signing_inputs(inputs: Seq<InputModel>, at: int, lock: Seq<u8>) -> Seq<
    InputModel,
> {
    Seq::new(
        inputs.len(),
        |i: int|
            InputModel {
                txid: inputs[i].txid,
                vout: inputs[i].vout,
                signature: Seq::<u8>::empty(),
                pub_key: if i == at {
                    lock
                } else {
                    Seq::<u8>::empty()
                },
            },
    )
}

impl TransactionModel {
    /// Exactly one input, which names no transaction and carries the
    /// sentinel index.
    pub open spec fn is_coinbase(self) -> bool {
        self.vin.len() == 1 && self.vin[0].is_sentinel()
    }

    /// The transaction without its id.
    pub open spec fn without_id(self) -> TransactionModel {
        TransactionModel { id: Seq::<char>::empty(), vin: self.vin, vout: self.vout }
    }

    /// The hash of the transaction: SHA-256 over its bytes with the id
    /// cleared, in hexadecimal.
    pub open spec fn hash(self) -> Seq<char> {
        upper_hex(spec_sha256(transaction_layout(self.without_id())))
    }

    /// The transaction with every signature and public key cleared.
    pub open spec fn trimmed(self) -> TransactionModel {
        TransactionModel {
            id: self.id,
            vin: Seq::new(
                self.vin.len(),
                |i: int|
                    InputModel {
                        txid: self.vin[i].txid,
                        vout: self.vin[i].vout,
                        signature: Seq::<u8>::empty(),
                        pub_key: Seq::<u8>::empty(),
                    },
            ),
            vout: self.vout,
        }
    }

    /// The bytes that are hashed for the signature of input `at`.
    pub open spec fn signing_payload(self, at: int, lock: Seq<u8>) -> Seq<u8> {
        transaction_layout(
            TransactionModel {
                id: Seq::<char>::empty(),
                vin: signing_inputs(self.vin, at, lock),
                vout: self.vout,
            },
        )
    }

    /// The message that is signed for input `at`: the hexadecimal text of the
    /// hash of the payload, as bytes.
    pub open spec fn signing_message(self, at: int, lock: Seq<u8>) -> Seq<u8> {
        vstd::utf8::encode_utf8(upper_hex(spec_sha256(self.signing_payload(at, lock))))
    }

    /// Every input names an output that `prior` holds.
    pub open spec fn resolves(self, prior: Seq<TransactionModel>) -> bool {
        forall|i: int| 0 <= i < self.vin.len() ==> referenced_lock(prior, #[trigger] self.vin[i])
            is Some
    }

    /// The message that is signed for input `at`, with the lock taken from
    /// `prior`.
    pub open spec fn message_for(self, at: int, prior: Seq<TransactionModel>) -> Seq<u8> {
        self.signing_message(at, referenced_lock(prior, self.vin[at])->0)
    }

    /// The transaction as it was before it was signed: every signature
    /// cleared, all else as it is.
    pub open spec fn unsigned(self) -> TransactionModel {
        TransactionModel {
            id: self.id,
            vin: Seq::new(
                self.vin.len(),
                |i: int|
                    InputModel {
                        txid: self.vin[i].txid,
                        vout: self.vin[i].vout,
                        signature: Seq::<u8>::empty(),
                        pub_key: self.vin[i].pub_key,
                    },
            ),
            vout: self.vout,
        }
    }

    /// `self` is `was` but for the signatures of its inputs: the id, the
    /// outputs, the number of inputs and what each input names and declares
    /// are the same.
    pub open spec fn differs_in_signatures_only(self, was: TransactionModel) -> bool {
        &&& self.id == was.id
        &&& self.vout == was.vout
        &&& self.vin.len() == was.vin.len()
        &&& forall|i: int|
            0 <= i < was.vin.len() ==> (#[trigger] self.vin[i]).txid == was.vin[i].txid
                && self.vin[i].vout == was.vin[i].vout && self.vin[i].pub_key
                == was.vin[i].pub_key
    }

    /// The id is frozen: it is the hash that the transaction had before it
    /// was signed.
    pub open spec fn id_is_frozen(self) -> bool {
        self.id == self.unsigned().hash()
    }

    /// The transaction with each input signed under `secret_key`: the id,
    /// the outputs and what each input names and declares are as they were,
    /// and the signature of each input is that of its own message.
    pub open spec fn signed(self, secret_key: Seq<u8>, prior: Seq<TransactionModel>) -> TransactionModel {
        TransactionModel {
            id: self.id,
            vin: Seq::new(
                self.vin.len(),
                |i: int|
                    InputModel {
                        txid: self.vin[i].txid,
                        vout: self.vin[i].vout,
                        signature: spec_ed25519_signature(self.message_for(i, prior), secret_key),
                        pub_key: self.vin[i].pub_key,
                    },
            ),
            vout: self.vout,
        }
    }

    /// Input `at` names an output of `prior` and carries a signature of its
    /// message that verifies under the public key that the input declares.
    pub open spec fn input_verifies(self, at: int, prior: Seq<TransactionModel>) -> bool {
        &&& referenced_lock(prior, self.vin[at]) is Some
        &&& self.vin[at].pub_key.len() == 32
        &&& self.vin[at].signature.len() == 64
        &&& spec_ed25519_verify(
            self.message_for(at, prior),
            self.vin[at].pub_key,
            self.vin[at].signature,
        )
    }

    /// Every input declares `public_key` as the key of the one who spends.
    pub open spec fn declares(self, public_key: Seq<u8>) -> bool {
        forall|i: int| 0 <= i < self.vin.len() ==> (#[trigger] self.vin[i]).pub_key == public_key
    }

    /// A coinbase transaction verifies; another one verifies when each of its
    /// inputs does.
    pub open spec fn verifies(self, prior: Seq<TransactionModel>) -> bool {
        self.is_coinbase() || forall|i: int|
            0 <= i < self.vin.len() ==> #[trigger] self.input_verifies(i, prior)
    }
}

/// `bincode::serialize` on the id, the inputs and the outputs, each input and
/// output handed over as the tuple of its fields. The crate returns bytes:
/// it sets no limit on the size, and every list handed over has a length, so
/// none of its errors can come. The bytes are the layout that this module
/// states (integers fixed-width and little-endian, texts, byte strings and
/// lists behind their length as eight bytes, nothing around a tuple).
#[verifier::external_body]
fn encode_transaction(id: &str, vin: &Vec<TXInput>, vout: &Vec<TXOutput>) -> (out: Option<Vec<u8>>)
    ensures
        out is Some,
        out matches Some(bytes) ==> bytes@ == transaction_layout(
            (TransactionModel { id: id@, vin: vin.deep_view(), vout: vout.deep_view() }),
        ),
{
    let inputs: Vec<(&String, i32, &Vec<u8>, &Vec<u8>)> =
        vin.iter().map(|i| (&i.txid, i.vout, &i.signature, &i.pub_key)).collect();
    let outputs: Vec<(i32, &Vec<u8>)> = vout.iter().map(|o| (o.value, &o.pub_key_hash)).collect();
    match bincode::serialize(&(id, inputs, outputs)) {
        Ok(bytes) => Some(bytes),
        Err(_) => None,
    }
}

/// The note that a coinbase input carries: `data`, or a line that names the
/// recipient where `data` is empty.
pub open spec fn coinbase_note(to: Seq<char>, data: Seq<char>) -> Seq<char> {
    if data.len() == 0 {
        "Reward to `"@ + to + "`"@
    } else {
        data
    }
}

/// The inputs and outputs of the coinbase transaction that pays the subsidy
/// to `pub_key_hash` and carries `note`.
pub open spec fn coinbase_parts(pub_key_hash: Seq<u8>, note: Seq<char>) -> TransactionModel {
    TransactionModel {
        id: Seq::<char>::empty(),
        vin: seq![
            InputModel {
                txid: Seq::<char>::empty(),
                vout: -1i32,
                signature: Seq::<u8>::empty(),
                pub_key: vstd::utf8::encode_utf8(note),
            },
        ],
        vout: seq![OutputModel { value: SUBSIDY, pub_key_hash }],
    }
}

/// The coinbase transaction that pays the subsidy to `pub_key_hash` and
/// carries `note`: its parts, with their hash as the id.
pub open spec fn coinbase_model(pub_key_hash: Seq<u8>, note: Seq<char>) -> TransactionModel {
    let parts = coinbase_parts(pub_key_hash, note);
    TransactionModel { id: parts.hash(), vin: parts.vin, vout: parts.vout }
}

/// The inputs that spend the outputs that `refs` names, each declaring
/// `public_key` and not signed yet.
pub open spec fn spending_inputs(refs: Seq<OutputRef>, public_key: Seq<u8>) -> Seq<InputModel> {
    Seq::new(
        refs.len(),
        |i: int|
            InputModel {
                txid: refs[i].0,
                vout: refs[i].1,
                signature: Seq::<u8>::empty(),
                pub_key: public_key,
            },
    )
}

/// The outputs of a spend: `amount` for the recipient and, where the inputs
/// bring more, the rest back to the sender.
pub open spec fn spending_outputs(
    amount: i32,
    recipient: Seq<u8>,
    accumulated: int,
    sender: Seq<u8>,
) -> Seq<OutputModel> {
    if accumulated > amount {
        seq![
            OutputModel { value: amount, pub_key_hash: recipient },
            OutputModel { value: (accumulated - amount) as i32, pub_key_hash: sender },
        ]
    } else {
        seq![OutputModel { value: amount, pub_key_hash: recipient }]
    }
}

/// The spend of `amount` by the holder of `public_key` to `recipient`, over
/// the index `entries`, before it is signed: its inputs consume the selected
/// outputs, and its id is its hash.
pub open spec fn unsigned_spend(
    public_key: Seq<u8>,
    recipient: Seq<u8>,
    amount: i32,
    entries: Seq<EntryModel>,
) -> TransactionModel {
    let sender = spec_hash_pub_key(public_key);
    let picked = selected(flat(entries), sender, amount as int);
    let parts = TransactionModel {
        id: Seq::<char>::empty(),
        vin: spending_inputs(refs_to(picked), public_key),
        vout: spending_outputs(amount, recipient, total(picked), sender),
    };
    TransactionModel { id: parts.hash(), vin: parts.vin, vout: parts.vout }
}

/// The sum of the values of `outputs`.
pub open spec fn output_total(outputs: Seq<OutputModel>) -> int
    decreases outputs.len(),
{
    if outputs.len() == 0 {
        0
    } else {
        output_total(outputs.drop_last()) + outputs.last().value
    }
}

/// A spend that the index covers pays out exactly what its inputs bring in:
/// the values of its outputs add up to the values of the outputs that its
/// inputs consume.
pub proof fn lemma_spend_balances(
    public_key: Seq<u8>,
    recipient: Seq<u8>,
    amount: i32,
    entries: Seq<EntryModel>,
)
    requires
        amount >= 0,
        spendable_total(flat(entries), spec_hash_pub_key(public_key)) >= amount,
    ensures
        output_total(unsigned_spend(public_key, recipient, amount, entries).vout) == total(
            selected(flat(entries), spec_hash_pub_key(public_key), amount as int),
        ),
{
    let sender = spec_hash_pub_key(public_key);
    let picked = selected(flat(entries), sender, amount as int);
    let outputs = spending_outputs(amount, recipient, total(picked), sender);
    lemma_selection_covers(flat(entries), sender, amount as int);
    lemma_selection_bound(flat(entries), sender, amount as int);
    reveal_with_fuel(output_total, 3);
    if total(picked) > amount {
        assert(outputs.drop_last() =~= seq![OutputModel { value: amount, pub_key_hash: recipient }]);
        assert(outputs.drop_last().drop_last() =~= Seq::<OutputModel>::empty());
    } else {
        assert(outputs.drop_last() =~= Seq::<OutputModel>::empty());
    }
}

/// What is selected exceeds the amount by less than the value of one output.
pub proof fn lemma_selection_bound(points: Seq<OutPointModel>, pub_key_hash: Seq<u8>, amount: int)
    requires
        amount >= 0,
    ensures
        0 <= total(selected(points, pub_key_hash, amount)) < amount + 0x8000_0000,
    decreases points.len(),
{
    if points.len() > 0 {
        lemma_selection_bound(points.drop_last(), pub_key_hash, amount);
        let before = selected(points.drop_last(), pub_key_hash, amount);
        assert(before.push(points.last()).drop_last() =~= before);
    }
}

fn find_prior(prior: &Vec<Transaction>, id: &String) -> (found: Option<usize>)
    ensures
        match found {
            Some(k) => k < prior.len() && first_with_id(prior.deep_view(), id@, 0) == Some(
                k as int,
            ),
            None => first_with_id(prior.deep_view(), id@, 0) is None,
        },
{
    let mut i: usize = 0;
    while i < prior.len()
        invariant
            i <= prior.len(),
            first_with_id(prior.deep_view(), id@, 0) == first_with_id(
                prior.deep_view(),
                id@,
                i as int,
            ),
        decreases prior.len() - i,
    {
        if prior[i].id == *id {
            return Some(i);
        }
        i += 1;
    }
    None
}

fn lock_of(prior: &Vec<Transaction>, input: &TXInput) -> (lock: Option<Vec<u8>>)
    ensures
        match lock {
            Some(bytes) => referenced_lock(prior.deep_view(), input@) == Some(bytes@),
            None => referenced_lock(prior.deep_view(), input@) is None,
        },
{
    if input.txid.as_str().is_empty() {
        return None;
    }
    match find_prior(prior, &input.txid) {
        Some(k) => {
            let tx = &prior[k];
            if input.vout >= 0 && (input.vout as usize) < tx.vout.len() {
                Some(copy_bytes(tx.vout[input.vout as usize].pub_key_hash.as_slice()))
            } else {
                None
            }
        },
        None => None,
    }
}

impl Transaction {
    /// A transaction with the same contents.
    pub fn duplicate(&self) -> (copy: Transaction)
        ensures
            copy@ == self@,
    {
        let mut vin: Vec<TXInput> = Vec::new();
        let mut i: usize = 0;
        while i < self.vin.len()
            invariant
                i <= self.vin.len(),
                vin.len() == i,
                forall|j: int| 0 <= j < i ==> vin[j]@ == self.vin[j]@,
            decreases self.vin.len() - i,
        {
            vin.push(self.vin[i].duplicate());
            i += 1;
        }
        let mut vout: Vec<TXOutput> = Vec::new();
        let mut k: usize = 0;
        while k < self.vout.len()
            invariant
                k <= self.vout.len(),
                vout.len() == k,
                forall|j: int| 0 <= j < k ==> vout[j]@ == self.vout[j]@,
            decreases self.vout.len() - k,
        {
            vout.push(self.vout[k].duplicate());
            k += 1;
        }
        assert(vin.deep_view() =~= self.vin.deep_view());
        assert(vout.deep_view() =~= self.vout.deep_view());
        Transaction { id: self.id.clone(), vin, vout }
    }

    /// Tells whether this is a coinbase transaction: exactly one input, which
    /// names no transaction and carries the index -1.
    pub fn is_coinbase(&self) -> (coinbase: bool)
        ensures
            coinbase == self@.is_coinbase(),
    {
        self.vin.len() == 1 && self.vin[0].txid.as_str().is_empty() && self.vin[0].vout == -1
    }

    /// The hash of the transaction, which is its id once it is frozen:
    /// SHA-256 over the encoding with the id cleared, in hexadecimal, 64
    /// digits. It never fails.
    pub fn hash(&self) -> (hash: Result<String, LedgerError>)
        ensures
            hash matches Ok(text) && text@ == self@.hash() && text@.len() == 64,
    {
        proof {
            reveal_strlit("");
            assert(""@ =~= Seq::<char>::empty());
        }
        digest_text(encode_transaction("", &self.vin, &self.vout))
    }

    /// The coinbase transaction that pays the subsidy to `pub_key_hash` and
    /// carries `note` in its input. It never fails.
    pub fn coinbase_to(pub_key_hash: Vec<u8>, note: &str) -> (made: Result<
        Transaction,
        LedgerError,
    >)
        ensures
            made matches Ok(tx) && tx@ == coinbase_model(pub_key_hash@, note@)
                && tx@.without_id() == coinbase_parts(pub_key_hash@, note@) && tx@.id
                == tx@.hash() && tx@.id_is_frozen() && tx@.id.len() == 64 && tx@.is_coinbase(),
    {
        let input = TXInput {
            txid: String::new(),
            vout: -1,
            signature: Vec::new(),
            pub_key: copy_bytes(note.as_bytes()),
        };
        let mut vin: Vec<TXInput> = Vec::new();
        vin.push(input);
        let mut vout: Vec<TXOutput> = Vec::new();
        vout.push(TXOutput::locked_to(SUBSIDY, pub_key_hash));
        let mut tx = Transaction { id: String::new(), vin, vout };
        assert(tx@.vin =~= coinbase_parts(pub_key_hash@, note@).vin);
        assert(tx@.vout =~= coinbase_parts(pub_key_hash@, note@).vout);
        match tx.hash() {
            Ok(id) => {
                tx.id = id;
                assert(tx@.unsigned().vin =~= tx@.vin);
                assert(coinbase_parts(pub_key_hash@, note@).without_id() == coinbase_parts(
                    pub_key_hash@,
                    note@,
                ));
                Ok(tx)
            },
            Err(e) => Err(e),
        }
    }

    /// The coinbase transaction that pays the subsidy to the address `to`.
    /// Its input carries `data`, or a line that names the recipient where
    /// `data` is empty. A text that is no address gives `InvalidAddress`.
    pub fn new_coinbase(to: String, data: String) -> (made: Result<Transaction, LedgerError>)
        ensures
            match made {
                Ok(tx) => address_shape(to@) && spec_address_body(to@) is Some && tx@
                    == coinbase_model(spec_address_body(to@)->0, coinbase_note(to@, data@))
                    && tx@.without_id() == coinbase_parts(
                    spec_address_body(to@)->0,
                    coinbase_note(to@, data@),
                )
                    && tx@.id == tx@.hash() && tx@.id_is_frozen() && tx@.id.len() == 64
                    && tx@.is_coinbase(),
                Err(e) => e == LedgerError::InvalidAddress && !(address_shape(to@)
                    && spec_address_body(to@) is Some),
            },
    {
        let mut note = data;
        if note.as_str().is_empty() {
            note = String::from_str("Reward to `");
            note.append(to.as_str());
            note.append("`");
            assert(note@ =~= coinbase_note(to@, data@));
        }
        match TXOutput::new(SUBSIDY, to) {
            Ok(output) => Transaction::coinbase_to(output.pub_key_hash, note.as_str()),
            Err(e) => Err(e),
        }
    }

    /// Builds the transaction by which the owner of `wallet` sends `amount`
    /// to the address `to`. The inputs consume the outputs that the index
    /// selects for the wallet; where they bring more than `amount`, a second
    /// output returns the rest to the wallet. The id is the hash of the
    /// transaction as it is returned: not signed yet, which is left to the
    /// caller. A negative amount gives `InvalidAmount`; `InsufficientFunds`
    /// says that all the wallet can spend does not cover `amount`;
    /// `InvalidAddress` that `to` is no address. Neither the ledger nor the
    /// index is changed. In an index that is well formed no two inputs name
    /// the same output.
    #[allow(non_snake_case)]
    pub fn new_UTXO(wallet: &Wallet, to: &str, amount: i32, utxo_set: &UTXOSet) -> (made: Result<
        Transaction,
        LedgerError,
    >)
        ensures
            match made {
                Ok(tx) => {
                    &&& amount >= 0
                    &&& spendable_total(
                        flat(utxo_set.entries()),
                        spec_hash_pub_key(wallet.public_key@),
                    ) >= amount
                    &&& address_shape(to@) && spec_address_body(to@) is Some
                    &&& tx@ == unsigned_spend(
                        wallet.public_key@,
                        spec_address_body(to@)->0,
                        amount,
                        utxo_set.entries(),
                    )
                    &&& tx@.id == tx@.hash()
                    &&& tx@.id_is_frozen()
                    &&& tx@.id.len() == 64
                    &&& !tx@.is_coinbase()
                    &&& utxo_set.wf() ==> distinct_refs(input_refs(tx@.vin))
                },
                Err(e) => if amount < 0 {
                    e == LedgerError::InvalidAmount
                } else if spendable_total(
                    flat(utxo_set.entries()),
                    spec_hash_pub_key(wallet.public_key@),
                ) < amount {
                    e == LedgerError::InsufficientFunds
                } else {
                    e == LedgerError::InvalidAddress && !(address_shape(to@) && spec_address_body(
                        to@,
                    ) is Some)
                },
            },
    {
        if amount < 0 {
            return Err(LedgerError::InvalidAmount);
        }
        let pub_key_hash = Wallet::hash_of(wallet.public_key.as_slice());
        let ghost sender = pub_key_hash@;
        let ghost points = flat(utxo_set.entries());
        let ghost picked = selected(points, sender, amount as int);
        let (accumulated, refs) = utxo_set.find_spendable_outputs(pub_key_hash.as_slice(), amount);
        proof {
            lemma_selection_covers(points, sender, amount as int);
            lemma_selection_bound(points, sender, amount as int);
        }
        if accumulated < amount as i64 {
            return Err(LedgerError::InsufficientFunds);
        }
        let first = match TXOutput::new(amount, String::from_str(to)) {
            Ok(output) => output,
            Err(e) => {
                return Err(e);
            },
        };
        let ghost recipient = first.pub_key_hash@;
        let mut vin: Vec<TXInput> = Vec::new();
        let mut i: usize = 0;
        while i < refs.len()
            invariant
                i <= refs.len(),
                vin.len() == i,
                forall|j: int|
                    0 <= j < i ==> vin[j]@ == spending_inputs(
                        refs.deep_view(),
                        wallet.public_key@,
                    )[j],
            decreases refs.len() - i,
        {
            assert(refs.deep_view()[i as int] == (refs[i as int].0@, refs[i as int].1));
            vin.push(
                TXInput {
                    txid: refs[i].0.clone(),
                    vout: refs[i].1,
                    signature: Vec::new(),
                    pub_key: copy_bytes(wallet.public_key.as_slice()),
                },
            );
            i += 1;
        }
        assert(vin.deep_view() =~= spending_inputs(refs.deep_view(), wallet.public_key@));
        let mut vout: Vec<TXOutput> = Vec::new();
        vout.push(first);
        if accumulated > amount as i64 {
            let change = (accumulated - amount as i64) as i32;
            vout.push(TXOutput::locked_to(change, pub_key_hash));
        }
        assert(vout.deep_view() =~= spending_outputs(
            amount,
            recipient,
            accumulated as int,
            sender,
        ));
        let mut tx = Transaction { id: String::new(), vin, vout };
        let id = match tx.hash() {
            Ok(id) => id,
            Err(e) => {
                return Err(e);
            },
        };
        tx.id = id;
        proof {
            lemma_selected_spendable(points, sender, amount as int);
            if tx@.vin.len() == 1 {
                assert(spendable(picked[0], sender));
                assert(tx@.vin[0].vout >= 0);
            }
            assert(!tx@.is_coinbase());
            assert(input_refs(tx@.vin) =~= refs.deep_view());
            assert(tx@.unsigned().vin =~= tx@.vin);
        }
        Ok(tx)
    }

    /// A copy for hashing: every signature and public key cleared.
    pub fn trim_copy(&self) -> (copy: Transaction)
        ensures
            copy@ == self@.trimmed(),
    {
        let mut vin: Vec<TXInput> = Vec::new();
        let mut i: usize = 0;
        while i < self.vin.len()
            invariant
                i <= self.vin.len(),
                vin.len() == i,
                forall|j: int| 0 <= j < i ==> vin[j]@ == self@.trimmed().vin[j],
            decreases self.vin.len() - i,
        {
            vin.push(
                TXInput {
                    txid: self.vin[i].txid.clone(),
                    vout: self.vin[i].vout,
                    signature: Vec::new(),
                    pub_key: Vec::new(),
                },
            );
            i += 1;
        }
        let mut vout: Vec<TXOutput> = Vec::new();
        let mut k: usize = 0;
        while k < self.vout.len()
            invariant
                k <= self.vout.len(),
                vout.len() == k,
                forall|j: int| 0 <= j < k ==> vout[j]@ == self.vout[j]@,
            decreases self.vout.len() - k,
        {
            vout.push(self.vout[k].duplicate());
            k += 1;
        }
        assert(vin.deep_view() =~= self@.trimmed().vin);
        assert(vout.deep_view() =~= self.vout.deep_view());
        Transaction { id: self.id.clone(), vin, vout }
    }

    /// The hash that the transaction had before it was signed: the hash of
    /// the transaction with every signature cleared. It never fails.
    pub fn unsigned_hash(&self) -> (hash: Result<String, LedgerError>)
        ensures
            hash matches Ok(text) && text@ == self@.unsigned().hash() && text@.len() == 64,
    {
        proof {
            reveal_strlit("");
            assert(""@ =~= Seq::<char>::empty());
        }
        let mut inputs: Vec<TXInput> = Vec::new();
        let mut i: usize = 0;
        while i < self.vin.len()
            invariant
                i <= self.vin.len(),
                inputs.len() == i,
                forall|j: int| 0 <= j < i ==> inputs[j]@ == self@.unsigned().vin[j],
            decreases self.vin.len() - i,
        {
            inputs.push(
                TXInput {
                    txid: self.vin[i].txid.clone(),
                    vout: self.vin[i].vout,
                    signature: Vec::new(),
                    pub_key: copy_bytes(self.vin[i].pub_key.as_slice()),
                },
            );
            i += 1;
        }
        assert(inputs.deep_view() =~= self@.unsigned().vin);
        digest_text(encode_transaction("", &inputs, &self.vout))
    }

    fn inputs_for_signing(&self, at: usize, lock: &[u8]) -> (inputs: Vec<TXInput>)
        ensures
            inputs.deep_view() == signing_inputs(self@.vin, at as int, lock@),
    {
        let mut inputs: Vec<TXInput> = Vec::new();
        let mut i: usize = 0;
        while i < self.vin.len()
            invariant
                i <= self.vin.len(),
                inputs.len() == i,
                forall|j: int|
                    0 <= j < i ==> inputs[j]@ == signing_inputs(self@.vin, at as int, lock@)[j],
            decreases self.vin.len() - i,
        {
            let pub_key = if i == at {
                copy_bytes(lock)
            } else {
                Vec::new()
            };
            inputs.push(
                TXInput {
                    txid: self.vin[i].txid.clone(),
                    vout: self.vin[i].vout,
                    signature: Vec::new(),
                    pub_key,
                },
            );
            i += 1;
        }
        assert(inputs.deep_view() =~= signing_inputs(self@.vin, at as int, lock@));
        inputs
    }

    /// The bytes that are hashed for the signature of input `at`, where
    /// `lock` is the hash that the output spent by that input is locked to:
    /// the transaction without id and signatures, with `lock` in the
    /// public-key field of input `at` and nothing in that field of the other
    /// inputs. Nothing of the transaction is changed, and it never fails.
    pub fn signing_payload(&self, at: usize, lock: &[u8]) -> (payload: Result<
        Vec<u8>,
        LedgerError,
    >)
        ensures
            payload matches Ok(bytes) && bytes@ == self@.signing_payload(at as int, lock@),
    {
        proof {
            reveal_strlit("");
            assert(""@ =~= Seq::<char>::empty());
        }
        let inputs = self.inputs_for_signing(at, lock);
        match encode_transaction("", &inputs, &self.vout) {
            Some(bytes) => Ok(bytes),
            None => Err(LedgerError::Serialization),
        }
    }

    /// The message that is signed for input `at`: the hexadecimal text of
    /// the SHA-256 digest of the payload, as bytes. It never fails.
    pub fn signing_message(&self, at: usize, lock: &[u8]) -> (message: Result<
        Vec<u8>,
        LedgerError,
    >)
        ensures
            message matches Ok(bytes) && bytes@ == self@.signing_message(at as int, lock@),
    {
        let payload = match self.signing_payload(at, lock) {
            Ok(bytes) => bytes,
            Err(e) => {
                return Err(e);
            },
        };
        match digest_text(Some(payload)) {
            Ok(text) => Ok(copy_bytes(text.as_str().as_bytes())),
            Err(e) => Err(e),
        }
    }

    /// Signs every input with `private_key`, each over its own message. Only
    /// the signatures change: the id stays frozen, and the outputs and what
    /// each input names and declares are as they were. A coinbase
    /// transaction is left as it is. Where an input names an output
    /// that `prev_txs` does not hold, the signing fails with
    /// `InvalidPriorTransaction` and nothing is changed; else it succeeds.
    /// Where the key belongs together with the public key that every input
    /// declares, the signed transaction verifies.
    pub fn sign(&mut self, private_key: &[u8], prev_txs: &Vec<Transaction>) -> (done: Result<
        (),
        LedgerError,
    >)
        requires
            private_key@.len() == 64,
        ensures
            done is Ok ==> forall|public_key: Seq<u8>|
                #[trigger] is_key_pair(private_key@, public_key) && old(self)@.declares(public_key)
                    ==> final(self)@.verifies(prev_txs.deep_view()),
            final(self)@.differs_in_signatures_only(old(self)@),
            final(self)@.unsigned() == old(self)@.unsigned(),
            old(self)@.id_is_frozen() ==> final(self)@.id_is_frozen(),
            done is Ok && !old(self)@.is_coinbase() ==> forall|i: int|
                0 <= i < old(self)@.vin.len() ==> (#[trigger] final(self)@.vin[i]).signature
                    == spec_ed25519_signature(
                    old(self)@.message_for(i, prev_txs.deep_view()),
                    private_key@,
                ),
            match done {
                Ok(()) => if old(self)@.is_coinbase() {
                    final(self)@ == old(self)@
                } else {
                    old(self)@.resolves(prev_txs.deep_view()) && final(self)@ == old(self)@.signed(
                        private_key@,
                        prev_txs.deep_view(),
                    )
                },
                Err(e) => final(self)@ == old(self)@ && !old(self)@.is_coinbase() && !old(self)@.resolves(
                    prev_txs.deep_view(),
                ) && e == LedgerError::InvalidPriorTransaction,
            },
    {
        if self.is_coinbase() {
            return Ok(());
        }
        let ghost prior = prev_txs.deep_view();
        let ghost before = self@;
        let n = self.vin.len();
        let mut locks: Vec<Vec<u8>> = Vec::new();
        let mut i: usize = 0;
        while i < n
            invariant
                i <= n,
                n == self.vin.len(),
                self@ == before,
                before == old(self)@,
                !before.is_coinbase(),
                prior == prev_txs.deep_view(),
                locks.len() == i,
                forall|j: int|
                    0 <= j < i ==> referenced_lock(prior, #[trigger] before.vin[j]) == Some(
                        locks[j]@,
                    ),
            decreases n - i,
        {
            match lock_of(prev_txs, &self.vin[i]) {
                Some(lock) => {
                    locks.push(lock);
                },
                None => {
                    assert(referenced_lock(prior, before.vin[i as int]) is None);
                    return Err(LedgerError::InvalidPriorTransaction);
                },
            }
            i += 1;
        }
        assert(before.resolves(prior));
        let mut signed: Vec<TXInput> = Vec::new();
        let mut k: usize = 0;
        while k < n
            invariant
                k <= n,
                n == self.vin.len(),
                self@ == before,
                before == old(self)@,
                !before.is_coinbase(),
                before.resolves(prior),
                prior == prev_txs.deep_view(),
                private_key@.len() == 64,
                locks.len() == n,
                signed.len() == k,
                forall|j: int|
                    0 <= j < n ==> referenced_lock(prior, #[trigger] before.vin[j]) == Some(
                        locks[j]@,
                    ),
                forall|j: int|
                    0 <= j < k ==> signed[j]@ == before.signed(private_key@, prior).vin[j],
            decreases n - k,
        {
            let message = match self.signing_message(k, locks[k].as_slice()) {
                Ok(bytes) => bytes,
                Err(e) => {
                    return Err(e);
                },
            };
            let signature = ed25519_signature(message.as_slice(), private_key);
            assert(referenced_lock(prior, before.vin[k as int]) == Some(locks[k as int]@));
            signed.push(
                TXInput {
                    txid: self.vin[k].txid.clone(),
                    vout: self.vin[k].vout,
                    signature,
                    pub_key: copy_bytes(self.vin[k].pub_key.as_slice()),
                },
            );
            k += 1;
        }
        assert(signed.deep_view() =~= before.signed(private_key@, prior).vin);
        self.vin = signed;
        proof {
            assert(self@.unsigned().vin =~= before.unsigned().vin);
            assert forall|public_key: Seq<u8>|
                #[trigger] is_key_pair(private_key@, public_key) && before.declares(
                    public_key,
                ) implies self@.verifies(prior) by {
                lemma_signed_verifies(before, private_key@, public_key, prior);
            }
        }
        Ok(())
    }

    /// Checks the signature of input `at` against the public key that the
    /// input declares, over the message that signing builds for that input.
    /// The answer is `Ok(true)` for an input that verifies and never
    /// `Ok(false)`: an input that names no output of `prev_txs` fails with
    /// `InvalidPriorTransaction`, and one whose signature does not verify,
    /// or whose key or signature has not the length that Ed25519 uses,
    /// fails with `SignatureInvalid`.
    pub fn verify_input(&self, at: usize, prev_txs: &Vec<Transaction>) -> (checked: Result<
        bool,
        LedgerError,
    >)
        requires
            at < self.vin.len(),
        ensures
            match checked {
                Ok(ok) => ok && self@.input_verifies(at as int, prev_txs.deep_view()),
                Err(e) => if referenced_lock(prev_txs.deep_view(), self@.vin[at as int]) is Some {
                    e == LedgerError::SignatureInvalid && !self@.input_verifies(
                        at as int,
                        prev_txs.deep_view(),
                    )
                } else {
                    e == LedgerError::InvalidPriorTransaction
                },
            },
    {
        let lock = match lock_of(prev_txs, &self.vin[at]) {
            Some(bytes) => bytes,
            None => {
                return Err(LedgerError::InvalidPriorTransaction);
            },
        };
        let input = &self.vin[at];
        if input.pub_key.len() != 32 || input.signature.len() != 64 {
            return Err(LedgerError::SignatureInvalid);
        }
        match self.signing_message(at, lock.as_slice()) {
            Ok(message) => {
                if ed25519_verify(
                    message.as_slice(),
                    input.pub_key.as_slice(),
                    input.signature.as_slice(),
                ) {
                    Ok(true)
                } else {
                    Err(LedgerError::SignatureInvalid)
                }
            },
            Err(e) => Err(e),
        }
    }

    /// Verifies the transaction. The answer is `Ok(true)` where it
    /// verifies, and never `Ok(false)`: a coinbase transaction is accepted
    /// as it is; another one fails with `InvalidPriorTransaction` where an
    /// input names no output of `prev_txs`, and else with `SignatureInvalid`
    /// where an input does not verify, whatever the other inputs do.
    pub fn verify(&self, prev_txs: &Vec<Transaction>) -> (checked: Result<bool, LedgerError>)
        ensures
            self@.is_coinbase() ==> (checked matches Ok(ok) && ok),
            match checked {
                Ok(ok) => ok && self@.verifies(prev_txs.deep_view()) && (self@.is_coinbase()
                    || self@.resolves(prev_txs.deep_view())),
                Err(e) => !self@.is_coinbase() && !self@.verifies(prev_txs.deep_view()) && if self@.resolves(
                    prev_txs.deep_view(),
                ) {
                    e == LedgerError::SignatureInvalid
                } else {
                    e == LedgerError::InvalidPriorTransaction
                },
            },
    {
        if self.is_coinbase() {
            return Ok(true);
        }
        let ghost prior = prev_txs.deep_view();
        let n = self.vin.len();
        let mut i: usize = 0;
        while i < n
            invariant
                i <= n,
                n == self.vin.len(),
                prior == prev_txs.deep_view(),
                !self@.is_coinbase(),
                forall|j: int| 0 <= j < i ==> referenced_lock(prior, #[trigger] self@.vin[j]) is Some,
            decreases n - i,
        {
            if lock_of(prev_txs, &self.vin[i]).is_none() {
                assert(referenced_lock(prior, self@.vin[i as int]) is None);
                assert(!self@.input_verifies(i as int, prior));
                return Err(LedgerError::InvalidPriorTransaction);
            }
            i += 1;
        }
        assert(self@.resolves(prior));
        let mut k: usize = 0;
        while k < n
            invariant
                k <= n,
                n == self.vin.len(),
                prior == prev_txs.deep_view(),
                self@.resolves(prior),
                !self@.is_coinbase(),
                forall|j: int| 0 <= j < k ==> #[trigger] self@.input_verifies(j, prior),
            decreases n - k,
        {
            match self.verify_input(k, prev_txs) {
                Ok(_) => {},
                Err(e) => {
                    assert(referenced_lock(prior, self@.vin[k as int]) is Some);
                    assert(!self@.input_verifies(k as int, prior));
                    return Err(e);
                },
            }
            k += 1;
        }
        Ok(true)
    }
}

/// A transaction whose inputs all declare the public key of a key pair
/// verifies once it is signed with the secret key of that pair.
pub proof fn lemma_signed_verifies(
    tx: TransactionModel,
    secret_key: Seq<u8>,
    public_key: Seq<u8>,
    prior: Seq<TransactionModel>,
)
    requires
        is_key_pair(secret_key, public_key),
        tx.resolves(prior),
        tx.declares(public_key),
    ensures
        tx.signed(secret_key, prior).verifies(prior),
{
    let signed = tx.signed(secret_key, prior);
    assert forall|i: int| 0 <= i < signed.vin.len() implies #[trigger] signed.input_verifies(
        i,
        prior,
    ) by {
        let lock = referenced_lock(prior, tx.vin[i])->0;
        assert(referenced_lock(prior, signed.vin[i]) == referenced_lock(prior, tx.vin[i]));
        assert(signing_inputs(signed.vin, i, lock) =~= signing_inputs(tx.vin, i, lock));
        assert(signed.message_for(i, prior) == tx.message_for(i, prior));
        assert(tx.vin[i].pub_key == public_key);
        assert(spec_ed25519_verify(
            tx.message_for(i, prior),
            public_key,
            spec_ed25519_signature(tx.message_for(i, prior), secret_key),
        ));
    }
}

/// The transactions that a chain holds for the inputs of a transaction
/// depend on nothing but the ids that the inputs name.
pub proof fn lemma_prior_of_inputs(
    chain: Seq<crate::block::BlockModel>,
    a: TransactionModel,
    b: TransactionModel,
)
    requires
        a.vin.len() == b.vin.len(),
        forall|i: int| 0 <= i < a.vin.len() ==> (#[trigger] a.vin[i]).txid == b.vin[i].txid,
    ensures
        prior_of(chain, a) == prior_of(chain, b),
{
    lemma_prior_upto_inputs(chain, a.vin, b.vin, a.vin.len() as int);
}

proof fn lemma_prior_upto_inputs(
    chain: Seq<crate::block::BlockModel>,
    a: Seq<InputModel>,
    b: Seq<InputModel>,
    n: int,
)
    requires
        0 <= n <= a.len(),
        a.len() == b.len(),
        forall|i: int| 0 <= i < a.len() ==> (#[trigger] a[i]).txid == b[i].txid,
    ensures
        crate::blockchain::prior_upto(chain, a, n) == crate::blockchain::prior_upto(chain, b, n),
    decreases n,
{
    if n > 0 {
        lemma_prior_upto_inputs(chain, a, b, n - 1);
        assert(a[n - 1].txid == b[n - 1].txid);
    }
}

/// A transaction that is no coinbase and has an input that names no output
/// of `prior` does not verify: the check of that input has no lock to build
/// its message from.
pub proof fn lemma_unresolved_fails(tx: TransactionModel, prior: Seq<TransactionModel>)
    requires
        !tx.is_coinbase(),
        !tx.resolves(prior),
    ensures
        !tx.verifies(prior),
{
    let i = choose|i: int| 0 <= i < tx.vin.len() && !(referenced_lock(prior, #[trigger] tx.vin[i])
        is Some);
    assert(!tx.input_verifies(i, prior));
}

/// The transaction with another public key declared by input `at`.
pub open spec fn with_key(tx: TransactionModel, at: int, public_key: Seq<u8>) -> TransactionModel {
    TransactionModel {
        id: tx.id,
        vin: tx.vin.update(
            at,
            InputModel {
                txid: tx.vin[at].txid,
                vout: tx.vin[at].vout,
                signature: tx.vin[at].signature,
                pub_key: public_key,
            },
        ),
        vout: tx.vout,
    }
}

/// A public key put in the place of the one that an input declares
/// touches the check of that input only: every other input verifies as it
/// did before. And where the check of that input now fails, the whole
/// transaction fails, though the others still verify.
pub proof fn lemma_substituted_key(
    tx: TransactionModel,
    prior: Seq<TransactionModel>,
    at: int,
    public_key: Seq<u8>,
    other: int,
)
    requires
        0 <= at < tx.vin.len(),
        0 <= other < tx.vin.len(),
        other != at,
    ensures
        with_key(tx, at, public_key).input_verifies(other, prior) == tx.input_verifies(
            other,
            prior,
        ),
        !with_key(tx, at, public_key).input_verifies(at, prior) ==> !with_key(
            tx,
            at,
            public_key,
        ).verifies(prior),
{
    let changed = with_key(tx, at, public_key);
    let lock = referenced_lock(prior, tx.vin[other])->0;
    assert(changed.vin[other] == tx.vin[other]);
    assert(signing_inputs(changed.vin, other, lock) =~= signing_inputs(tx.vin, other, lock));
    assert(changed.message_for(other, prior) == tx.message_for(other, prior));
    assert(changed.vin.len() >= 2);
    assert(!changed.is_coinbase());
}

/// No partial credit: in a transaction that was signed under one key,
/// another public key put in the place of the one that input `at` declares
/// leaves every other input verifying on its own; and where the signature
/// of input `at` is not accepted under the new key, that input fails, and
/// with it the whole transaction.
pub proof fn lemma_substituted_after_signing(
    tx: TransactionModel,
    secret_key: Seq<u8>,
    public_key: Seq<u8>,
    prior: Seq<TransactionModel>,
    at: int,
    substitute: Seq<u8>,
    other: int,
)
    requires
        is_key_pair(secret_key, public_key),
        tx.resolves(prior),
        tx.declares(public_key),
        0 <= at < tx.vin.len(),
        0 <= other < tx.vin.len(),
        other != at,
    ensures
        with_key(tx.signed(secret_key, prior), at, substitute).input_verifies(other, prior),
        !spec_ed25519_verify(
            tx.message_for(at, prior),
            substitute,
            spec_ed25519_signature(tx.message_for(at, prior), secret_key),
        ) ==> !with_key(tx.signed(secret_key, prior), at, substitute).input_verifies(at, prior)
            && !with_key(tx.signed(secret_key, prior), at, substitute).verifies(prior),
{
    let signed = tx.signed(secret_key, prior);
    let changed = with_key(signed, at, substitute);
    lemma_signed_verifies(tx, secret_key, public_key, prior);
    assert(signed.vin.len() >= 2);
    assert(signed.input_verifies(other, prior));
    lemma_substituted_key(signed, prior, at, substitute, other);
    let lock = referenced_lock(prior, tx.vin[at])->0;
    assert(referenced_lock(prior, changed.vin[at]) == referenced_lock(prior, tx.vin[at]));
    assert(signing_inputs(changed.vin, at, lock) =~= signing_inputs(tx.vin, at, lock));
    assert(changed.message_for(at, prior) == tx.message_for(at, prior));
    assert(changed.vin[at].signature == spec_ed25519_signature(
        tx.message_for(at, prior),
        secret_key,
    ));
    assert(changed.vin[at].pub_key == substitute);
}

/// One input that does not verify fails the whole transaction, whatever the
/// other inputs do.
pub proof fn lemma_no_partial_credit(tx: TransactionModel, prior: Seq<TransactionModel>, at: int)
    requires
        !tx.is_coinbase(),
        0 <= at < tx.vin.len(),
        !tx.input_verifies(at, prior),
    ensures
        !tx.verifies(prior),
{
}

/// The lengths in an input fit the eight bytes in which they are laid out.
pub open spec fn input_fits(input: InputModel) -> bool {
    &&& vstd::utf8::encode_utf8(input.txid).len() < limit(8)
    &&& input.signature.len() < limit(8)
    &&& input.pub_key.len() < limit(8)
}

/// The length in an output fits the eight bytes in which it is laid out.
pub open spec fn output_fits(output: OutputModel) -> bool {
    output.pub_key_hash.len() < limit(8)
}

/// The lengths in a transaction fit the eight bytes in which they are laid
/// out. This holds of every transaction in memory.
pub open spec fn transaction_fits(tx: TransactionModel) -> bool {
    &&& vstd::utf8::encode_utf8(tx.id).len() < limit(8)
    &&& tx.vin.len() < limit(8)
    &&& tx.vout.len() < limit(8)
    &&& forall|i: int| 0 <= i < tx.vin.len() ==> input_fits(#[trigger] tx.vin[i])
    &&& forall|k: int| 0 <= k < tx.vout.len() ==> output_fits(#[trigger] tx.vout[k])
}

/// Two inputs, each followed by more bytes: where the whole is the same, the
/// inputs are the same and so is what follows.
pub proof fn lemma_input_layout_split(a: InputModel, x: Seq<u8>, b: InputModel, y: Seq<u8>)
    requires
        input_fits(a),
        input_fits(b),
        input_layout(a) + x == input_layout(b) + y,
    ensures
        a == b,
        x == y,
{
    let key_a = length_prefixed(a.pub_key) + x;
    let key_b = length_prefixed(b.pub_key) + y;
    let sig_a = length_prefixed(a.signature) + key_a;
    let sig_b = length_prefixed(b.signature) + key_b;
    let place_a = i32_layout(a.vout) + sig_a;
    let place_b = i32_layout(b.vout) + sig_b;
    assert(input_layout(a) + x =~= text_layout(a.txid) + place_a);
    assert(input_layout(b) + y =~= text_layout(b.txid) + place_b);
    lemma_text_layout_split(a.txid, place_a, b.txid, place_b);
    lemma_i32_layout_split(a.vout, sig_a, b.vout, sig_b);
    lemma_length_prefixed_split(a.signature, key_a, b.signature, key_b);
    lemma_length_prefixed_split(a.pub_key, x, b.pub_key, y);
}

/// Two outputs, each followed by more bytes: where the whole is the same,
/// the outputs are the same and so is what follows.
pub proof fn lemma_output_layout_split(a: OutputModel, x: Seq<u8>, b: OutputModel, y: Seq<u8>)
    requires
        output_fits(a),
        output_fits(b),
        output_layout(a) + x == output_layout(b) + y,
    ensures
        a == b,
        x == y,
{
    let lock_a = length_prefixed(a.pub_key_hash) + x;
    let lock_b = length_prefixed(b.pub_key_hash) + y;
    assert(output_layout(a) + x =~= i32_layout(a.value) + lock_a);
    assert(output_layout(b) + y =~= i32_layout(b.value) + lock_b);
    lemma_i32_layout_split(a.value, lock_a, b.value, lock_b);
    lemma_length_prefixed_split(a.pub_key_hash, x, b.pub_key_hash, y);
}

/// The bytes of a list of inputs begin with the bytes of the first.
pub proof fn lemma_inputs_layout_front(inputs: Seq<InputModel>)
    requires
        inputs.len() > 0,
    ensures
        inputs_layout(inputs) == input_layout(inputs[0]) + inputs_layout(inputs.drop_first()),
    decreases inputs.len(),
{
    if inputs.len() == 1 {
        assert(inputs.drop_last() =~= Seq::<InputModel>::empty());
        assert(inputs.drop_first() =~= Seq::<InputModel>::empty());
        assert(inputs_layout(inputs) =~= input_layout(inputs[0]) + inputs_layout(
            inputs.drop_first(),
        ));
    } else {
        lemma_inputs_layout_front(inputs.drop_last());
        assert(inputs.drop_last().drop_first() =~= inputs.drop_first().drop_last());
        assert(inputs.drop_first().last() == inputs.last());
        assert(inputs.drop_last()[0] == inputs[0]);
        assert(inputs_layout(inputs) =~= input_layout(inputs[0]) + inputs_layout(
            inputs.drop_first(),
        ));
    }
}

/// The bytes of a list of outputs begin with the bytes of the first.
pub proof fn lemma_outputs_layout_front(outputs: Seq<OutputModel>)
    requires
        outputs.len() > 0,
    ensures
        outputs_layout(outputs) == output_layout(outputs[0]) + outputs_layout(
            outputs.drop_first(),
        ),
    decreases outputs.len(),
{
    if outputs.len() == 1 {
        assert(outputs.drop_last() =~= Seq::<OutputModel>::empty());
        assert(outputs.drop_first() =~= Seq::<OutputModel>::empty());
        assert(outputs_layout(outputs) =~= output_layout(outputs[0]) + outputs_layout(
            outputs.drop_first(),
        ));
    } else {
        lemma_outputs_layout_front(outputs.drop_last());
        assert(outputs.drop_last().drop_first() =~= outputs.drop_first().drop_last());
        assert(outputs.drop_first().last() == outputs.last());
        assert(outputs.drop_last()[0] == outputs[0]);
        assert(outputs_layout(outputs) =~= output_layout(outputs[0]) + outputs_layout(
            outputs.drop_first(),
        ));
    }
}

/// Two lists of as many inputs, each followed by more bytes: where the
/// whole is the same, the lists are the same and so is what follows.
pub proof fn lemma_inputs_layout_split(
    a: Seq<InputModel>,
    x: Seq<u8>,
    b: Seq<InputModel>,
    y: Seq<u8>,
)
    requires
        a.len() == b.len(),
        forall|i: int| 0 <= i < a.len() ==> input_fits(#[trigger] a[i]),
        forall|i: int| 0 <= i < b.len() ==> input_fits(#[trigger] b[i]),
        inputs_layout(a) + x == inputs_layout(b) + y,
    ensures
        a == b,
        x == y,
    decreases a.len(),
{
    if a.len() == 0 {
        assert(a =~= b);
        assert(inputs_layout(a) + x =~= x);
        assert(inputs_layout(b) + y =~= y);
    } else {
        lemma_inputs_layout_front(a);
        lemma_inputs_layout_front(b);
        let rest_a = inputs_layout(a.drop_first()) + x;
        let rest_b = inputs_layout(b.drop_first()) + y;
        assert(inputs_layout(a) + x =~= input_layout(a[0]) + rest_a);
        assert(inputs_layout(b) + y =~= input_layout(b[0]) + rest_b);
        lemma_input_layout_split(a[0], rest_a, b[0], rest_b);
        assert forall|i: int| 0 <= i < a.drop_first().len() implies input_fits(
            #[trigger] a.drop_first()[i],
        ) by {
            assert(a.drop_first()[i] == a[i + 1]);
        }
        assert forall|i: int| 0 <= i < b.drop_first().len() implies input_fits(
            #[trigger] b.drop_first()[i],
        ) by {
            assert(b.drop_first()[i] == b[i + 1]);
        }
        lemma_inputs_layout_split(a.drop_first(), x, b.drop_first(), y);
        assert(a =~= seq![a[0]] + a.drop_first());
        assert(b =~= seq![b[0]] + b.drop_first());
    }
}

/// Two lists of as many outputs, each followed by more bytes: where the
/// whole is the same, the lists are the same and so is what follows.
pub proof fn lemma_outputs_layout_split(
    a: Seq<OutputModel>,
    x: Seq<u8>,
    b: Seq<OutputModel>,
    y: Seq<u8>,
)
    requires
        a.len() == b.len(),
        forall|i: int| 0 <= i < a.len() ==> output_fits(#[trigger] a[i]),
        forall|i: int| 0 <= i < b.len() ==> output_fits(#[trigger] b[i]),
        outputs_layout(a) + x == outputs_layout(b) + y,
    ensures
        a == b,
        x == y,
    decreases a.len(),
{
    if a.len() == 0 {
        assert(a =~= b);
        assert(outputs_layout(a) + x =~= x);
        assert(outputs_layout(b) + y =~= y);
    } else {
        lemma_outputs_layout_front(a);
        lemma_outputs_layout_front(b);
        let rest_a = outputs_layout(a.drop_first()) + x;
        let rest_b = outputs_layout(b.drop_first()) + y;
        assert(outputs_layout(a) + x =~= output_layout(a[0]) + rest_a);
        assert(outputs_layout(b) + y =~= output_layout(b[0]) + rest_b);
        lemma_output_layout_split(a[0], rest_a, b[0], rest_b);
        assert forall|i: int| 0 <= i < a.drop_first().len() implies output_fits(
            #[trigger] a.drop_first()[i],
        ) by {
            assert(a.drop_first()[i] == a[i + 1]);
        }
        assert forall|i: int| 0 <= i < b.drop_first().len() implies output_fits(
            #[trigger] b.drop_first()[i],
        ) by {
            assert(b.drop_first()[i] == b[i + 1]);
        }
        lemma_outputs_layout_split(a.drop_first(), x, b.drop_first(), y);
        assert(a =~= seq![a[0]] + a.drop_first());
        assert(b =~= seq![b[0]] + b.drop_first());
    }
}

/// Transactions with the same bytes are the same: the layout loses
/// nothing.
#[verifier::rlimit(60)]
pub proof fn lemma_transaction_layout_injective(a: TransactionModel, b: TransactionModel)
    requires
        transaction_fits(a),
        transaction_fits(b),
        transaction_layout(a) == transaction_layout(b),
    ensures
        a == b,
{
    lemma_limits();
    let outs_a = le_bytes(a.vout.len(), 8) + outputs_layout(a.vout);
    let outs_b = le_bytes(b.vout.len(), 8) + outputs_layout(b.vout);
    let ins_a = inputs_layout(a.vin) + outs_a;
    let ins_b = inputs_layout(b.vin) + outs_b;
    let count_a = le_bytes(a.vin.len(), 8) + ins_a;
    let count_b = le_bytes(b.vin.len(), 8) + ins_b;
    assert(transaction_layout(a) =~= text_layout(a.id) + count_a);
    assert(transaction_layout(b) =~= text_layout(b.id) + count_b);
    lemma_text_layout_split(a.id, count_a, b.id, count_b);
    lemma_le_bytes_split(a.vin.len(), ins_a, b.vin.len(), ins_b, 8);
    lemma_inputs_layout_split(a.vin, outs_a, b.vin, outs_b);
    lemma_le_bytes_split(a.vout.len(), outputs_layout(a.vout), b.vout.len(), outputs_layout(b.vout), 8);
    assert(outputs_layout(a.vout) + Seq::<u8>::empty() =~= outputs_layout(a.vout));
    assert(outputs_layout(b.vout) + Seq::<u8>::empty() =~= outputs_layout(b.vout));
    lemma_outputs_layout_split(a.vout, Seq::<u8>::empty(), b.vout, Seq::<u8>::empty());
}

} // verus!
