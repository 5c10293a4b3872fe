//! The ledger: an append-only chain of sealed blocks, each linked to the one
//! before it by that block's hash.

use crate::block::{Block, BlockModel};
use crate::codec::str_eq;
use crate::errors::LedgerError;
use crate::transaction::{first_with_id, Transaction, TransactionModel};
use crate::utxoindex::{
    allowed, apply_all, inputs_unspent, none_negative, reindexed, EntryModel, UtxoIndex,
};
use vstd::prelude::*;
use vstd::string::*;

verus! {

/// The data that the coinbase of a genesis block carries.
pub const GENESIS_COINBASE_DATA: &'static str = "TODO";

/// The most blocks that a chain can hold: one for every height.
pub const MAX_BLOCKS: usize = 0x8000_0000;

/// The coinbase transaction of the genesis block that pays `address`.
pub open spec fn genesis_coinbase(address: Seq<char>) -> TransactionModel {
    crate::transaction::coinbase_model(
        crate::tx::spec_address_body(address)->0,
        GENESIS_COINBASE_DATA@,
    )
}

/// A chain is linked when it has a genesis block without a predecessor, each
/// later block names the hash of the block before it, every block is sealed,
/// and the height of a block is its place in the chain.
pub open spec fn linked(chain: Seq<BlockModel>) -> bool {
    &&& 0 < chain.len() <= MAX_BLOCKS
    &&& chain[0].prev_block_hash.len() == 0
    &&& forall|i: int| 0 <= i < chain.len() ==> (#[trigger] chain[i]).height == i && chain[i].sealed()
    &&& forall|i: int| 0 < i < chain.len() ==> (#[trigger] chain[i]).prev_block_hash == chain[i - 1].hash
}

/// The transactions of the chain, from the first of the genesis block to the
/// last of the tip.
pub open spec fn ledger(chain: Seq<BlockModel>) -> Seq<TransactionModel>
    decreases chain.len(),
{
    if chain.len() == 0 {
        Seq::<TransactionModel>::empty()
    } else {
        ledger(chain.drop_last()) + chain.last().transactions
    }
}

/// The transaction with the given id that is found first when the chain is
/// walked from the tip back to the genesis block, each block from its first
/// transaction on.
pub open spec fn find_in_chain(chain: Seq<BlockModel>, id: Seq<char>) -> Option<TransactionModel>
    decreases chain.len(),
{
    if chain.len() == 0 {
        None
    } else {
        match first_with_id(chain.last().transactions, id, 0) {
            Some(k) => Some(chain.last().transactions[k]),
            None => find_in_chain(chain.drop_last(), id),
        }
    }
}

/// The transactions that the first `n` of `inputs` name, as far as the chain
/// holds them, in the order of the inputs.
pub open spec fn prior_upto(
    chain: Seq<BlockModel>,
    inputs: Seq<crate::tx::InputModel>,
    n: int,
) -> Seq<TransactionModel>
    decreases n,
{
    if n <= 0 {
        Seq::<TransactionModel>::empty()
    } else {
        match find_in_chain(chain, inputs[n - 1].txid) {
            Some(tx) => prior_upto(chain, inputs, n - 1).push(tx),
            None => prior_upto(chain, inputs, n - 1),
        }
    }
}

/// The transactions of the chain that the inputs of `tx` name.
pub open spec fn prior_of(chain: Seq<BlockModel>, tx: TransactionModel) -> Seq<TransactionModel> {
    prior_upto(chain, tx.vin, tx.vin.len() as int)
}

/// Every one of `transactions` verifies against the chain.
pub open spec fn all_verify(chain: Seq<BlockModel>, transactions: Seq<TransactionModel>) -> bool {
    forall|i: int|
        0 <= i < transactions.len() ==> (#[trigger] transactions[i]).verifies(
            prior_of(chain, transactions[i]),
        )
}

/// The index of the chain once the first `k` of `transactions` have been
/// applied to it.
pub open spec fn index_before(
    chain: Seq<BlockModel>,
    transactions: Seq<TransactionModel>,
    k: int,
) -> Seq<EntryModel> {
    apply_all(reindexed(ledger(chain)), transactions.take(k))
}

/// Each of `transactions` is allowed by the index of the chain as it is
/// once the transactions before it have been applied: its inputs consume
/// outputs that are unspent then, and cover its outputs.
pub open spec fn all_allowed(chain: Seq<BlockModel>, transactions: Seq<TransactionModel>) -> bool {
    forall|k: int|
        0 <= k < transactions.len() ==> allowed(
            #[trigger] index_before(chain, transactions, k),
            transactions[k],
        )
}

/// Transaction `at` is the first of `transactions` that the index does not
/// allow.
pub open spec fn first_refused(
    chain: Seq<BlockModel>,
    transactions: Seq<TransactionModel>,
    at: int,
) -> bool {
    &&& 0 <= at < transactions.len()
    &&& !allowed(index_before(chain, transactions, at), transactions[at])
    &&& forall|j: int|
        0 <= j < at ==> allowed(#[trigger] index_before(chain, transactions, j), transactions[j])
}

/// The ledger.
#[derive(Debug)]
pub struct Blockchain {
    blocks: Vec<Block>,
}

/// A walk over the blocks of a ledger, from the tip back to the genesis
/// block.
pub struct BlockchainIter<'a> {
    position: usize,
    bc: &'a Blockchain,
}

impl View for Blockchain {
    type V = Seq<BlockModel>;

    closed spec fn view(&self) -> Seq<BlockModel> {
        self.blocks.deep_view()
    }
}

impl Blockchain {
    /// The chain is linked. Every ledger that this module hands out is, and
    /// every operation keeps it so.
    pub open spec fn wf(&self) -> bool {
        linked(self@)
    }

    /// Opens the ledger that `blocks` hold, in their order from the genesis
    /// block to the tip. `NotFound` says that there is no block, `BrokenChain`
    /// that the blocks are not a linked chain; every linked chain is opened.
    pub fn new(blocks: Vec<Block>) -> (opened: Result<Blockchain, LedgerError>)
        ensures
            match opened {
                Ok(bc) => bc@ == blocks.deep_view() && bc.wf(),
                Err(e) => if blocks.len() == 0 {
                    e == LedgerError::NotFound
                } else {
                    e == LedgerError::BrokenChain && !linked(blocks.deep_view())
                },
            },
    {
        let n = blocks.len();
        if n == 0 {
            return Err(LedgerError::NotFound);
        }
        let ghost chain = blocks.deep_view();
        if n > MAX_BLOCKS {
            return Err(LedgerError::BrokenChain);
        }
        if !blocks[0].get_prev_block_hash().as_str().is_empty() {
            assert(chain[0] == blocks[0]@);
            return Err(LedgerError::BrokenChain);
        }
        assert(chain[0] == blocks[0]@);
        let mut i: usize = 0;
        while i < n
            invariant
                i <= n,
                n == blocks.len(),
                0 < n <= MAX_BLOCKS,
                chain == blocks.deep_view(),
                chain[0].prev_block_hash.len() == 0,
                forall|j: int|
                    0 <= j < i ==> (#[trigger] chain[j]).height == j && chain[j].sealed(),
                forall|j: int|
                    0 < j < i ==> (#[trigger] chain[j]).prev_block_hash == chain[j - 1].hash,
            decreases n - i,
        {
            let block = &blocks[i];
            assert(chain[i as int] == block@);
            if block.get_height() < 0 || block.get_height() as usize != i {
                return Err(LedgerError::BrokenChain);
            }
            match block.validate() {
                Ok(true) => {},
                Ok(false) => {
                    return Err(LedgerError::BrokenChain);
                },
                Err(e) => {
                    return Err(e);
                },
            }
            if i > 0 {
                assert(chain[i as int - 1] == blocks[i as int - 1]@);
                if block.get_prev_block_hash() != blocks[i - 1].get_hash() {
                    return Err(LedgerError::BrokenChain);
                }
            }
            i += 1;
        }
        assert(chain[0] == blocks[0]@);
        Ok(Blockchain { blocks })
    }

    /// Creates a ledger: one genesis block whose coinbase pays the subsidy to
    /// `address`.
    pub fn create_blockchain(address: String) -> (created: Result<Blockchain, LedgerError>)
        ensures
            match created {
                Ok(bc) => crate::tx::address_shape(address@) && crate::tx::spec_address_body(
                    address@,
                ) is Some && bc.wf() && bc@.len() == 1 && bc@[0].mined() && bc@[0].transactions
                    == seq![genesis_coinbase(address@)] && bc@[0].transactions[0].is_coinbase(),
                Err(e) => if crate::tx::address_shape(address@) && crate::tx::spec_address_body(
                    address@,
                ) is Some {
                    e == LedgerError::Clock || (e == LedgerError::NonceExhausted
                        && exists|timestamp: u128| #[trigger]
                        crate::block::no_nonce(
                            timestamp,
                            seq![genesis_coinbase(address@)],
                            Seq::<char>::empty(),
                            0,
                        ))
                } else {
                    e == LedgerError::InvalidAddress
                },
            },
    {
        proof {
            reveal_strlit("TODO");
        }
        let cbtx = match Transaction::new_coinbase(
            address,
            String::from_str(GENESIS_COINBASE_DATA),
        ) {
            Ok(tx) => tx,
            Err(e) => {
                return Err(e);
            },
        };
        let ghost coinbase = cbtx@;
        assert(crate::transaction::coinbase_note(address@, GENESIS_COINBASE_DATA@)
            == GENESIS_COINBASE_DATA@);
        assert(coinbase == genesis_coinbase(address@));
        let genesis = match Block::new_genesis_block(cbtx) {
            Ok(block) => block,
            Err(e) => {
                assert(e == LedgerError::NonceExhausted ==> exists|timestamp: u128| #[trigger]
                    crate::block::no_nonce(timestamp, seq![coinbase], Seq::<char>::empty(), 0));
                return Err(e);
            },
        };
        let mut blocks: Vec<Block> = Vec::new();
        blocks.push(genesis);
        assert(blocks.deep_view() =~= seq![genesis@]);
        Ok(Blockchain { blocks })
    }

    /// The number of blocks.
    pub fn len(&self) -> (n: usize)
        ensures
            n == self@.len(),
    {
        self.blocks.len()
    }

    /// The hash of the block at the tip.
    pub fn tip_hash(&self) -> (hash: String)
        requires
            self.wf(),
        ensures
            hash@ == self@.last().hash,
    {
        let n = self.blocks.len();
        self.blocks[n - 1].get_hash()
    }

    /// The block at `height`.
    pub fn block_at(&self, height: usize) -> (block: Option<&Block>)
        ensures
            match block {
                Some(b) => height < self@.len() && b@ == self@[height as int],
                None => height >= self@.len(),
            },
    {
        if height < self.blocks.len() {
            Some(&self.blocks[height])
        } else {
            None
        }
    }

    /// Appends a block over `transactions`. Each of them is verified against
    /// the outputs that its inputs name in the chain so far; one that does
    /// not verify, or an input that cannot be resolved, refuses the whole
    /// block. Then a block that names the tip is sealed and becomes the tip.
    /// On any failure the chain is what it was. The block is refused with
    /// `InvalidTransaction` exactly when one of the transactions does not
    /// verify. Where all verify, a full chain gives `ChainFull`. Then each
    /// transaction is held against the unspent outputs of the chain as they
    /// are once the transactions before it in the block have been applied:
    /// `OutputSpent` where an input names an output that is not unspent or
    /// that another input of the transaction names too, `Overspend` where
    /// the outputs are worth more than the inputs or less than nothing. A
    /// transaction whose id is not the hash that it had before it was
    /// signed, or is the id of another one of the block, gives `InvalidId`;
    /// then only the clock or a search without a nonce can still fail the
    /// sealing.
    pub fn add_block(&mut self, transactions: Vec<Transaction>) -> (added: Result<
        Block,
        LedgerError,
    >)
        requires
            old(self).wf(),
        ensures
            final(self).wf(),
            match added {
                Ok(block) => all_verify(old(self)@, transactions.deep_view()) && all_allowed(
                    old(self)@,
                    transactions.deep_view(),
                ) && final(self)@ == old(self)@.push(block@) && block@.transactions
                    == transactions.deep_view()
                    && block@.prev_block_hash == old(self)@.last().hash && block@.height == old(
                    self,
                )@.len() && block@.mined(),
                Err(e) => {
                    &&& final(self)@ == old(self)@
                    &&& e == LedgerError::InvalidTransaction <==> !all_verify(
                        old(self)@,
                        transactions.deep_view(),
                    )
                    &&& e == LedgerError::ChainFull ==> all_verify(
                        old(self)@,
                        transactions.deep_view(),
                    ) && old(self)@.len() == MAX_BLOCKS
                    &&& e == LedgerError::OutputSpent || e == LedgerError::Overspend
                        ==> all_verify(old(self)@, transactions.deep_view()) && old(self)@.len()
                        < MAX_BLOCKS && exists|k: int|
                        #[trigger] first_refused(old(self)@, transactions.deep_view(), k) && (e
                            == LedgerError::OutputSpent <==> none_negative(
                            transactions.deep_view()[k].vout,
                        ) && !inputs_unspent(
                            index_before(old(self)@, transactions.deep_view(), k),
                            transactions.deep_view()[k],
                        ))
                    &&& e == LedgerError::InvalidId ==> all_verify(
                        old(self)@,
                        transactions.deep_view(),
                    ) && old(self)@.len() < MAX_BLOCKS && all_allowed(
                        old(self)@,
                        transactions.deep_view(),
                    ) && !crate::block::ids_hold(transactions.deep_view())
                    &&& e == LedgerError::Clock || e == LedgerError::NonceExhausted
                        ==> all_verify(old(self)@, transactions.deep_view()) && old(self)@.len()
                        < MAX_BLOCKS && all_allowed(old(self)@, transactions.deep_view())
                        && crate::block::ids_hold(transactions.deep_view())
                    &&& e == LedgerError::NonceExhausted ==> exists|timestamp: u128| #[trigger]
                        crate::block::no_nonce(
                            timestamp,
                            transactions.deep_view(),
                            old(self)@.last().hash,
                            old(self)@.len() as i32,
                        )
                    &&& e == LedgerError::InvalidTransaction || e == LedgerError::ChainFull || e
                        == LedgerError::OutputSpent || e == LedgerError::Overspend || e
                        == LedgerError::InvalidId || e == LedgerError::Clock || e
                        == LedgerError::NonceExhausted
                },
            },
    {
        let ghost chain = self@;
        let mut i: usize = 0;
        while i < transactions.len()
            invariant
                i <= transactions.len(),
                self@ == chain,
                chain == old(self)@,
                linked(chain),
                forall|j: int|
                    0 <= j < i ==> (#[trigger] transactions.deep_view()[j]).verifies(
                        prior_of(chain, transactions.deep_view()[j]),
                    ),
            decreases transactions.len() - i,
        {
            match self.verify_transaction(&transactions[i]) {
                Ok(_) => {},
                Err(_) => {
                    assert(transactions.deep_view()[i as int] == transactions[i as int]@);
                    assert(!all_verify(chain, transactions.deep_view()));
                    return Err(LedgerError::InvalidTransaction);
                },
            }
            i += 1;
        }
        let n = self.blocks.len();
        if n >= MAX_BLOCKS {
            return Err(LedgerError::ChainFull);
        }
        let ghost list = transactions.deep_view();
        let mut index = self.find_UTXO();
        let mut k: usize = 0;
        assert(list.take(0) =~= Seq::<TransactionModel>::empty());
        while k < transactions.len()
            invariant
                k <= transactions.len(),
                self@ == chain,
                chain == old(self)@,
                list == transactions.deep_view(),
                n == chain.len(),
                n == self.blocks.len(),
                n < MAX_BLOCKS,
                linked(chain),
                all_verify(chain, list),
                index.wf(),
                index@ == index_before(chain, list, k as int),
                forall|j: int|
                    0 <= j < k ==> allowed(#[trigger] index_before(chain, list, j), list[j]),
            decreases transactions.len() - k,
        {
            assert(list[k as int] == transactions[k as int]@);
            match index.allows(&transactions[k]) {
                Ok(()) => {},
                Err(e) => {
                    assert(first_refused(chain, list, k as int));
                    return Err(e);
                },
            }
            assert(list.take(k as int + 1).drop_last() =~= list.take(k as int));
            assert(list.take(k as int + 1).last() == list[k as int]);
            index.apply(&transactions[k]);
            k += 1;
        }
        assert(all_allowed(chain, list));
        let tip = self.blocks[n - 1].get_hash();
        assert(chain[n as int - 1] == self.blocks[n as int - 1]@);
        let block = match Block::new(transactions, tip, n as i32) {
            Ok(block) => block,
            Err(e) => {
                return Err(e);
            },
        };
        let copy = block.duplicate();
        proof {
            let after = self.blocks.deep_view().push(block@);
            assert forall|j: int| 0 <= j < after.len() implies (#[trigger] after[j]).height == j
                && after[j].sealed() by {
                if j < n {
                    assert(after[j] == chain[j]);
                }
            }
            assert forall|j: int| 0 < j < after.len() implies (#[trigger] after[j]).prev_block_hash
                == after[j - 1].hash by {
                if j < n {
                    assert(after[j] == chain[j]);
                    assert(after[j - 1] == chain[j - 1]);
                }
            }
            assert(after[0] == chain[0]);
            assert(linked(after));
        }
        self.blocks.push(block);
        assert(self.blocks.deep_view() =~= chain.push(block@));
        Ok(copy)
    }

    /// The transactions of the chain, from the first of the genesis block to
    /// the last of the tip.
    pub fn ledger_transactions(&self) -> (txs: Vec<&Transaction>)
        ensures
            txs.deep_view() == ledger(self@),
    {
        let ghost chain = self@;
        let mut txs: Vec<&Transaction> = Vec::new();
        let mut i: usize = 0;
        assert(chain.take(0) =~= Seq::<BlockModel>::empty());
        while i < self.blocks.len()
            invariant
                i <= self.blocks.len(),
                chain == self@,
                txs.deep_view() == ledger(chain.take(i as int)),
            decreases self.blocks.len() - i,
        {
            let transactions = self.blocks[i].get_transactions();
            let ghost block_txs = transactions.deep_view();
            let ghost base = ledger(chain.take(i as int));
            assert(chain.take(i as int + 1).drop_last() =~= chain.take(i as int));
            assert(chain.take(i as int + 1).last() == self.blocks[i as int]@);
            let mut k: usize = 0;
            assert(txs.deep_view() =~= base + block_txs.take(0));
            while k < transactions.len()
                invariant
                    k <= transactions.len(),
                    block_txs == transactions.deep_view(),
                    txs.deep_view() == base + block_txs.take(k as int),
                decreases transactions.len() - k,
            {
                let ghost before = txs.deep_view();
                txs.push(&transactions[k]);
                assert(txs.deep_view() =~= before.push(transactions[k as int]@));
                assert(txs.deep_view() =~= base + block_txs.take(k as int + 1));
                k += 1;
            }
            assert(block_txs.take(transactions.len() as int) =~= block_txs);
            i += 1;
        }
        assert(chain.take(self.blocks.len() as int) =~= chain);
        txs
    }

    /// The index of the chain. The transactions are walked from the first
    /// of the genesis block to the last of the tip; the inputs of each
    /// consume the outputs that they name, and its own outputs come in under
    /// its id. What is left is every output that no later input has
    /// consumed.
    #[allow(non_snake_case)]
    pub fn find_UTXO(&self) -> (index: UtxoIndex)
        ensures
            index.wf(),
            index@ == reindexed(ledger(self@)),
    {
        let txs = self.ledger_transactions();
        let ghost all = txs.deep_view();
        let mut index = UtxoIndex::new();
        let mut i: usize = 0;
        assert(all.take(0) =~= Seq::<TransactionModel>::empty());
        assert(index@ =~= reindexed(all.take(0)));
        while i < txs.len()
            invariant
                i <= txs.len(),
                all == txs.deep_view(),
                index.wf(),
                index@ == reindexed(all.take(i as int)),
            decreases txs.len() - i,
        {
            let tx = txs[i];
            assert(all.take(i as int + 1).drop_last() =~= all.take(i as int));
            assert(all.take(i as int + 1).last() == tx@);
            index.apply(tx);
            i += 1;
        }
        assert(all.take(txs.len() as int) =~= all);
        index
    }

    /// A walk over the blocks, from the tip back to the genesis block.
    pub fn iter(&self) -> (walk: BlockchainIter<'_>)
        ensures
            walk.wf(),
            walk@ == self@,
    {
        BlockchainIter { position: self.blocks.len(), bc: self }
    }

    /// The transaction with the given id, or `NotFound` where the chain
    /// holds none. Where several have the id, the latest block decides, and
    /// within it the first of them.
    pub fn find_transaction(&self, id: &str) -> (found: Result<Transaction, LedgerError>)
        ensures
            match found {
                Ok(tx) => find_in_chain(self@, id@) == Some(tx@) && tx@.id == id@,
                Err(e) => e == LedgerError::NotFound && find_in_chain(self@, id@) is None,
            },
    {
        let ghost chain = self@;
        let mut i: usize = self.blocks.len();
        assert(chain.take(i as int) =~= chain);
        while i > 0
            invariant
                i <= self.blocks.len(),
                chain == self.blocks.deep_view(),
                find_in_chain(chain, id@) == find_in_chain(chain.take(i as int), id@),
            decreases i,
        {
            i -= 1;
            let transactions = self.blocks[i].get_transactions();
            let ghost txs = transactions.deep_view();
            assert(chain.take(i as int + 1).last() == self.blocks[i as int]@);
            assert(chain.take(i as int + 1).drop_last() =~= chain.take(i as int));
            let mut k: usize = 0;
            while k < transactions.len()
                invariant
                    k <= transactions.len(),
                    txs == transactions.deep_view(),
                    i < chain.len(),
                    chain == self@,
                    chain.take(i as int + 1).last().transactions == txs,
                    chain.take(i as int + 1).drop_last() == chain.take(i as int),
                    find_in_chain(chain, id@) == find_in_chain(chain.take(i as int + 1), id@),
                    first_with_id(txs, id@, 0) == first_with_id(txs, id@, k as int),
                decreases transactions.len() - k,
            {
                if str_eq(transactions[k].id.as_str(), id) {
                    assert(first_with_id(txs, id@, 0) == Some(k as int));
                    assert(txs[k as int] == transactions[k as int]@);
                    return Ok(transactions[k].duplicate());
                }
                k += 1;
            }
        }
        assert(chain.take(0) =~= Seq::<BlockModel>::empty());
        Err(LedgerError::NotFound)
    }

    /// The transactions of the chain that the inputs of `tx` name.
    pub fn get_prev_txs(&self, tx: &Transaction) -> (prior: Vec<Transaction>)
        ensures
            prior.deep_view() == prior_of(self@, tx@),
    {
        let mut prior: Vec<Transaction> = Vec::new();
        let mut i: usize = 0;
        while i < tx.vin.len()
            invariant
                i <= tx.vin.len(),
                prior.deep_view() == prior_upto(self@, tx@.vin, i as int),
            decreases tx.vin.len() - i,
        {
            match self.find_transaction(tx.vin[i].txid.as_str()) {
                Ok(found) => {
                    assert(prior.deep_view().push(found@) =~= prior_upto(
                        self@,
                        tx@.vin,
                        i as int + 1,
                    ));
                    let ghost before = prior.deep_view();
                    prior.push(found);
                    assert(prior.deep_view() =~= before.push(found@));
                },
                Err(_) => {},
            }
            i += 1;
        }
        prior
    }

    /// Signs the inputs of `tx` with `private_key`, each against the output
    /// that it names in the chain. Only the signatures change; the id stays
    /// as it was. Where the key belongs together with the
    /// public key that every input declares, the signed transaction verifies
    /// against the chain.
    pub fn sign_transaction(&self, tx: &mut Transaction, private_key: &[u8]) -> (done: Result<
        (),
        LedgerError,
    >)
        requires
            private_key@.len() == 64,
        ensures
            done is Ok ==> forall|public_key: Seq<u8>|
                #[trigger] crate::wallet::is_key_pair(private_key@, public_key) && old(
                    tx,
                )@.declares(public_key) ==> final(tx)@.verifies(prior_of(self@, final(tx)@)),
            final(tx)@.differs_in_signatures_only(old(tx)@),
            final(tx)@.unsigned() == old(tx)@.unsigned(),
            old(tx)@.id_is_frozen() ==> final(tx)@.id_is_frozen(),
            done is Ok && !old(tx)@.is_coinbase() ==> forall|i: int|
                0 <= i < old(tx)@.vin.len() ==> (#[trigger] final(tx)@.vin[i]).signature
                    == crate::wallet::spec_ed25519_signature(
                    old(tx)@.message_for(i, prior_of(self@, old(tx)@)),
                    private_key@,
                ),
            match done {
                Ok(()) => if old(tx)@.is_coinbase() {
                    final(tx)@ == old(tx)@
                } else {
                    old(tx)@.resolves(prior_of(self@, old(tx)@)) && final(tx)@ == old(tx)@.signed(
                        private_key@,
                        prior_of(self@, old(tx)@),
                    )
                },
                Err(e) => final(tx)@ == old(tx)@ && !old(tx)@.is_coinbase() && !old(
                    tx,
                )@.resolves(prior_of(self@, old(tx)@)) && e
                    == LedgerError::InvalidPriorTransaction,
            },
    {
        let prev_txs = self.get_prev_txs(tx);
        let ghost before = tx@;
        let done = tx.sign(private_key, &prev_txs);
        proof {
            if done is Ok {
                crate::transaction::lemma_prior_of_inputs(self@, before, tx@);
            }
        }
        done
    }

    /// Verifies `tx` against the outputs that its inputs name in the chain.
    /// A coinbase transaction verifies whatever the chain holds. The answer
    /// is `Ok(true)` or an error: `InvalidPriorTransaction` for an input that
    /// names no output of the chain, `SignatureInvalid` for one that does
    /// not verify.
    pub fn verify_transaction(&self, tx: &Transaction) -> (checked: Result<bool, LedgerError>)
        ensures
            tx@.is_coinbase() ==> (checked matches Ok(ok) && ok),
            match checked {
                Ok(ok) => ok && tx@.verifies(prior_of(self@, tx@)) && (tx@.is_coinbase()
                    || tx@.resolves(prior_of(self@, tx@))),
                Err(e) => !tx@.is_coinbase() && !tx@.verifies(prior_of(self@, tx@)) && if tx@.resolves(
                    prior_of(self@, tx@),
                ) {
                    e == LedgerError::SignatureInvalid
                } else {
                    e == LedgerError::InvalidPriorTransaction
                },
            },
    {
        if tx.is_coinbase() {
            return Ok(true);
        }
        let prev_txs = self.get_prev_txs(tx);
        tx.verify(&prev_txs)
    }
}

impl<'a> View for BlockchainIter<'a> {
    type V = Seq<BlockModel>;

    /// The blocks that the walk has not handed out yet, the genesis block
    /// first.
    closed spec fn view(&self) -> Seq<BlockModel> {
        self.bc@.take(self.position as int)
    }
}

impl<'a> BlockchainIter<'a> {
    /// The walk stands at a block of its ledger, or behind the genesis block.
    pub closed spec fn wf(&self) -> bool {
        self.position <= self.bc@.len()
    }

    /// The next block towards the genesis block, or `None` once the genesis
    /// block has been handed out.
    pub fn next(&mut self) -> (block: Option<Block>)
        requires
            old(self).wf(),
        ensures
            final(self).wf(),
            match block {
                Some(b) => old(self)@.len() > 0 && b@ == old(self)@.last() && final(self)@ == old(
                    self,
                )@.drop_last(),
                None => old(self)@.len() == 0 && final(self)@ == old(self)@,
            },
    {
        if self.position == 0 {
            return None;
        }
        let ghost before = self@;
        let at = self.position - 1;
        let block = self.bc.blocks[at].duplicate();
        self.position = at;
        assert(self@ =~= before.drop_last());
        Some(block)
    }
}

} // verus!
