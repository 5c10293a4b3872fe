//! Blocks and the proof of work that seals them.

use crate::codec::{
    copy_bytes, has_leading_zero_digits, i32_layout, le_bytes, leading_zero_digits,
    lemma_hex_bytes_len, lemma_i32_layout_split, lemma_le_bytes_split,
    lemma_length_prefixed_split, lemma_limits, lemma_text_layout_split,
    lemma_upper_hex_injective, length_prefixed, limit, sha256, sha256_collides,
    sha256_collision_exists, sha256_is_sized, spec_sha256, text_layout, to_hex, upper_hex,
};
use crate::errors::LedgerError;
use crate::derivation::distinct_ids;
use crate::merkle::{
    build_merkle_root, distinct_nodes, lemma_bytes_deep_view,
    lemma_merkle_root_injective_distinct, merkle_root, uniform,
};
use crate::transaction::{
    lemma_transaction_layout_injective, transaction_fits, transaction_layout, Transaction,
    TransactionModel,
};
use std::time::{Duration, SystemTime};
use vstd::prelude::*;
use vstd::string::*;

verus! {

/// The number of leading zero digits that the hexadecimal text of a block's
/// hash must show.
pub const TARGET_HEXT: usize = 2;

/// What a block holds.
pub struct BlockModel {
    pub timestamp: u128,
    pub transactions: Seq<TransactionModel>,
    pub prev_block_hash: Seq<char>,
    pub hash: Seq<char>,
    pub height: i32,
    pub nonce: i32,
}

/// The bytes that are hashed for a block: the hash of the block before it,
/// the Merkle root of its transactions, its timestamp, the difficulty and the
/// nonce.
pub open spec fn header_layout(
    prev_block_hash: Seq<char>,
    root: Seq<u8>,
    timestamp: u128,
    difficulty: usize,
    nonce: i32,
) -> Seq<u8> {
    text_layout(prev_block_hash) + length_prefixed(root) + le_bytes(timestamp as nat, 16)
        + le_bytes(difficulty as nat, 8) + i32_layout(nonce)
}

/// A block that is not sealed yet: the given fields, the nonce to try, and
/// no hash.
pub open spec fn candidate(
    timestamp: u128,
    transactions: Seq<TransactionModel>,
    prev_block_hash: Seq<char>,
    height: i32,
    nonce: i32,
) -> BlockModel {
    BlockModel {
        timestamp,
        transactions,
        prev_block_hash,
        hash: Seq::<char>::empty(),
        height,
        nonce,
    }
}

/// No nonce, counted from zero, seals a block of the given fields.
pub open spec fn no_nonce(
    timestamp: u128,
    transactions: Seq<TransactionModel>,
    prev_block_hash: Seq<char>,
    height: i32,
) -> bool {
    forall|n: i32|
        0 <= n ==> !(#[trigger] candidate(
            timestamp,
            transactions,
            prev_block_hash,
            height,
            n,
        )).meets_target()
}

/// The ids hold: the id of every transaction is frozen, that is, the hash
/// that the transaction had before it was signed, and no two transactions
/// carry the same id.
pub open spec fn ids_hold(transactions: Seq<TransactionModel>) -> bool {
    &&& forall|i: int| 0 <= i < transactions.len() ==> (#[trigger] transactions[i]).id_is_frozen()
    &&& distinct_ids(transactions)
}

impl BlockModel {
    /// The leaves of the block's Merkle tree: the hash of each transaction
    /// as it stands, signatures and all, as the bytes of its hexadecimal
    /// text. For a transaction without signatures this is its id.
    pub open spec fn leaves(self) -> Seq<Seq<u8>> {
        Seq::new(
            self.transactions.len(),
            |i: int| vstd::utf8::encode_utf8(self.transactions[i].hash()),
        )
    }

    /// The Merkle root of the block's transactions.
    pub open spec fn root(self) -> Seq<u8> {
        merkle_root(self.leaves())
    }

    /// The bytes that are hashed for the block.
    pub open spec fn preimage(self) -> Seq<u8> {
        header_layout(
            self.prev_block_hash,
            self.root(),
            self.timestamp,
            TARGET_HEXT,
            self.nonce,
        )
    }

    /// The digest of the block as its fields stand.
    pub open spec fn digest(self) -> Seq<u8> {
        spec_sha256(self.preimage())
    }

    /// The block with another nonce.
    pub open spec fn with_nonce(self, nonce: i32) -> BlockModel {
        BlockModel { nonce, ..self }
    }

    /// The digest of the block meets the difficulty target.
    pub open spec fn meets_target(self) -> bool {
        leading_zero_digits(self.digest(), TARGET_HEXT as int)
    }

    /// The block is sealed: the id of each transaction is frozen, no two
    /// transactions carry the same id, the hash that the block stores is the
    /// hash of its fields, and that hash meets the target.
    pub open spec fn sealed(self) -> bool {
        ids_hold(self.transactions) && self.meets_target() && self.hash == upper_hex(
            self.digest(),
        )
    }

    /// No nonce from `from` up to the block's own gives a digest that meets
    /// the target.
    pub open spec fn none_before(self, from: int) -> bool {
        forall|n: i32| from <= n < self.nonce ==> !(#[trigger] self.with_nonce(n)).meets_target()
    }

    /// The block is mined: sealed with the least nonce, counted from zero,
    /// that seals it.
    pub open spec fn mined(self) -> bool {
        self.sealed() && self.nonce >= 0 && self.none_before(0)
    }
}

/// `bincode::serialize` on the tuple of the five values. The crate returns
/// bytes: it sets no limit on the size, and the tuple holds no list without
/// a length, so none of its errors can come. The bytes are the layout stated
/// above, the difficulty as eight bytes.
#[verifier::external_body]
fn encode_header(
    prev_block_hash: &str,
    root: &Vec<u8>,
    timestamp: u128,
    difficulty: usize,
    nonce: i32,
) -> (out: Option<Vec<u8>>)
    ensures
        out is Some,
        out matches Some(bytes) ==> bytes@ == header_layout(
            prev_block_hash@,
            root@,
            timestamp,
            difficulty,
            nonce,
        ),
{
    match bincode::serialize(&(prev_block_hash, root, timestamp, difficulty, nonce)) {
        Ok(bytes) => Some(bytes),
        Err(_) => None,
    }
}

/// `std::time::SystemTime`: a reading of the system clock.
#[verifier::external_type_specification]
#[verifier::external_body]
pub struct ExSystemTime(std::time::SystemTime);

/// `std::time::SystemTime::now`: what the clock shows, of which nothing is
/// known.
#[verifier::external_body]
fn clock_now() -> (now: SystemTime) {
    SystemTime::now()
}

/// `std::time::SystemTime::duration_since` the Unix epoch: the time that has
/// passed since then, or `None` for a reading that lies before it.
#[verifier::external_body]
fn since_epoch(time: &SystemTime) -> (elapsed: Option<Duration>) {
    match time.duration_since(SystemTime::UNIX_EPOCH) {
        Ok(elapsed) => Some(elapsed),
        Err(_) => None,
    }
}

/// `std::time::Duration::as_millis`: the whole milliseconds of a span.
#[verifier::external_body]
fn whole_millis(elapsed: &Duration) -> (millis: u128) {
    elapsed.as_millis()
}

/// Tells whether the ids hold: the id of every transaction is the hash that
/// the transaction had before it was signed, and no two transactions carry
/// the same id.
pub fn have_true_ids(transactions: &Vec<Transaction>) -> (ok: bool)
    ensures
        ok == ids_hold(transactions.deep_view()),
{
    let ghost list = transactions.deep_view();
    let mut i: usize = 0;
    while i < transactions.len()
        invariant
            i <= transactions.len(),
            list == transactions.deep_view(),
            forall|j: int| 0 <= j < i ==> (#[trigger] list[j]).id_is_frozen(),
            forall|a: int, b: int| 0 <= a < b < i ==> (#[trigger] list[a]).id != (#[trigger] list[b]).id,
        decreases transactions.len() - i,
    {
        assert(list[i as int] == transactions[i as int]@);
        match transactions[i].unsigned_hash() {
            Ok(text) => {
                if text != transactions[i].id {
                    return false;
                }
            },
            Err(_) => {
                return false;
            },
        }
        let mut k: usize = 0;
        while k < i
            invariant
                k <= i,
                i < transactions.len(),
                list == transactions.deep_view(),
                forall|a: int| 0 <= a < k ==> (#[trigger] list[a]).id != list[i as int].id,
            decreases i - k,
        {
            assert(list[k as int] == transactions[k as int]@);
            assert(list[i as int] == transactions[i as int]@);
            if transactions[k].id == transactions[i].id {
                return false;
            }
            k += 1;
        }
        i += 1;
    }
    true
}

/// A set of transactions, sealed by proof of work and linked to the block
/// before it.
#[derive(Debug, Clone)]
pub struct Block {
    timestamp: u128,
    transactions: Vec<Transaction>,
    prev_block_hash: String,
    hash: String,
    height: i32,
    nonce: i32,
}

impl View for Block {
    type V = BlockModel;

    closed spec fn view(&self) -> BlockModel {
        BlockModel {
            timestamp: self.timestamp,
            transactions: self.transactions.deep_view(),
            prev_block_hash: self.prev_block_hash@,
            hash: self.hash@,
            height: self.height,
            nonce: self.nonce,
        }
    }
}

impl DeepView for Block {
    type V = BlockModel;

    open spec fn deep_view(&self) -> BlockModel {
        self.view()
    }
}

impl Block {
    /// The place of the block in the chain, the genesis block at 0.
    pub fn get_height(&self) -> (height: i32)
        ensures
            height == self@.height,
    {
        self.height
    }

    /// The transactions of the block, to read.
    pub fn get_transactions(&self) -> (transactions: &Vec<Transaction>)
        ensures
            transactions.deep_view() == self@.transactions,
    {
        &self.transactions
    }

    /// The hash that the block stores as its own.
    pub fn get_hash(&self) -> (hash: String)
        ensures
            hash@ == self@.hash,
    {
        self.hash.clone()
    }

    /// The hash of the block before this one, empty for the genesis block.
    pub fn get_prev_block_hash(&self) -> (hash: String)
        ensures
            hash@ == self@.prev_block_hash,
    {
        self.prev_block_hash.clone()
    }

    /// The time of sealing, in milliseconds since the Unix epoch.
    pub fn get_timestamp(&self) -> (timestamp: u128)
        ensures
            timestamp == self@.timestamp,
    {
        self.timestamp
    }

    /// The nonce that the proof of work found.
    pub fn get_nonce(&self) -> (nonce: i32)
        ensures
            nonce == self@.nonce,
    {
        self.nonce
    }

    /// A block with the same contents.
    pub fn duplicate(&self) -> (copy: Block)
        ensures
            copy@ == self@,
    {
        let mut transactions: Vec<Transaction> = Vec::new();
        let mut i: usize = 0;
        while i < self.transactions.len()
            invariant
                i <= self.transactions.len(),
                transactions.len() == i,
                forall|j: int| 0 <= j < i ==> transactions[j]@ == self.transactions[j]@,
            decreases self.transactions.len() - i,
        {
            transactions.push(self.transactions[i].duplicate());
            i += 1;
        }
        assert(transactions.deep_view() =~= self.transactions.deep_view());
        Block {
            timestamp: self.timestamp,
            transactions,
            prev_block_hash: self.prev_block_hash.clone(),
            hash: self.hash.clone(),
            height: self.height,
            nonce: self.nonce,
        }
    }

    /// A block of the given fields, as a store hands them back. Nothing is
    /// checked: `validate` tells whether the block is sealed.
    pub fn from_parts(
        timestamp: u128,
        transactions: Vec<Transaction>,
        prev_block_hash: String,
        hash: String,
        height: i32,
        nonce: i32,
    ) -> (block: Block)
        ensures
            block@ == (BlockModel {
                timestamp,
                transactions: transactions.deep_view(),
                prev_block_hash: prev_block_hash@,
                hash: hash@,
                height,
                nonce,
            }),
    {
        Block { timestamp, transactions, prev_block_hash, hash, height, nonce }
    }

    /// The genesis block: height 0, no block before it, the coinbase
    /// transaction its only one.
    pub fn new_genesis_block(coinbase: Transaction) -> (made: Result<Block, LedgerError>)
        ensures
            match made {
                Ok(block) => block@.transactions == seq![coinbase@] && block@.prev_block_hash.len()
                    == 0 && block@.height == 0 && block@.mined(),
                Err(e) => if !coinbase@.id_is_frozen() {
                    e == LedgerError::InvalidId
                } else {
                    e == LedgerError::Clock || (e == LedgerError::NonceExhausted
                        && exists|timestamp: u128| #[trigger]
                        no_nonce(timestamp, seq![coinbase@], Seq::<char>::empty(), 0))
                },
            },
    {
        let mut data: Vec<Transaction> = Vec::new();
        data.push(coinbase);
        assert(data.deep_view() =~= seq![coinbase@]);
        assert(ids_hold(data.deep_view()) == coinbase@.id_is_frozen()) by {
            assert(data.deep_view()[0] == coinbase@);
        }
        Block::new(data, String::new(), 0)
    }

    /// Seals a block over `data` at the time the clock shows. It fails
    /// with `InvalidId` where a transaction carries an id that is not the
    /// hash that it had before it was signed, or that another one carries
    /// too; else with `Clock` where the clock shows a time before the epoch,
    /// and with `NonceExhausted` where, for the time it shows, no nonce
    /// seals the block.
    pub fn new(data: Vec<Transaction>, prev_block_hash: String, height: i32) -> (made: Result<
        Block,
        LedgerError,
    >)
        ensures
            match made {
                Ok(block) => block@.transactions == data.deep_view() && block@.prev_block_hash
                    == prev_block_hash@ && block@.height == height && block@.mined(),
                Err(e) => if !ids_hold(data.deep_view()) {
                    e == LedgerError::InvalidId
                } else {
                    e == LedgerError::Clock || (e == LedgerError::NonceExhausted
                        && exists|timestamp: u128| #[trigger]
                        no_nonce(timestamp, data.deep_view(), prev_block_hash@, height))
                },
            },
    {
        if !have_true_ids(&data) {
            return Err(LedgerError::InvalidId);
        }
        let now = clock_now();
        match since_epoch(&now) {
            Some(elapsed) => Block::seal(whole_millis(&elapsed), data, prev_block_hash, height),
            None => Err(LedgerError::Clock),
        }
    }

    /// Seals a block over `data` with the given timestamp: the nonce is the
    /// least one, counted from zero, whose digest meets the target, and the
    /// block's hash is that digest in hexadecimal. It fails with `InvalidId`
    /// where a transaction carries an id that is not the hash that it had
    /// before it was signed, or that another one carries too, and else only
    /// where no nonce meets the target, with `NonceExhausted`.
    pub fn seal(
        timestamp: u128,
        data: Vec<Transaction>,
        prev_block_hash: String,
        height: i32,
    ) -> (made: Result<Block, LedgerError>)
        ensures
            match made {
                Ok(block) => block@.timestamp == timestamp && block@.transactions
                    == data.deep_view() && block@.prev_block_hash == prev_block_hash@
                    && block@.height == height && block@.mined(),
                Err(e) => if !ids_hold(data.deep_view()) {
                    e == LedgerError::InvalidId
                } else {
                    e == LedgerError::NonceExhausted && no_nonce(
                        timestamp,
                        data.deep_view(),
                        prev_block_hash@,
                        height,
                    )
                },
            },
    {
        if !have_true_ids(&data) {
            return Err(LedgerError::InvalidId);
        }
        let mut block = Block {
            timestamp,
            transactions: data,
            prev_block_hash,
            hash: String::new(),
            height,
            nonce: 0,
        };
        let ghost start = block@;
        match block.run_proof_of_work() {
            Ok(()) => Ok(block),
            Err(e) => {
                proof {
                    if e == LedgerError::NonceExhausted {
                        assert forall|n: i32| 0 <= n implies !(#[trigger] candidate(
                            timestamp,
                            data.deep_view(),
                            prev_block_hash@,
                            height,
                            n,
                        )).meets_target() by {
                            assert(!start.with_nonce(n).meets_target());
                            assert(start.with_nonce(n) == candidate(
                                timestamp,
                                data.deep_view(),
                                prev_block_hash@,
                                height,
                                n,
                            ));
                        }
                    }
                }
                Err(e)
            },
        }
    }

    /// Searches, from the block's nonce upwards, the first nonce whose digest
    /// meets the target, and stores it with the hash. The block is left as it
    /// was where the search fails.
    fn run_proof_of_work(&mut self) -> (done: Result<(), LedgerError>)
        requires
            ids_hold(old(self)@.transactions),
        ensures
            match done {
                Ok(()) => final(self)@ == (BlockModel {
                    nonce: final(self)@.nonce,
                    hash: final(self)@.hash,
                    ..old(self)@
                }) && final(self)@.sealed() && old(self)@.nonce <= final(self)@.nonce
                    && final(self)@.none_before(old(self)@.nonce as int),
                Err(e) => final(self)@ == old(self)@ && e == LedgerError::NonceExhausted
                    && forall|n: i32|
                    old(self)@.nonce <= n ==> !(#[trigger] old(self)@.with_nonce(n)).meets_target(),
            },
    {
        let root = match self.hash_transactions() {
            Ok(root) => root,
            Err(e) => {
                return Err(e);
            },
        };
        let ghost before = self@;
        let mut nonce: i32 = self.nonce;
        loop
            invariant
                self@ == before,
                before == old(self)@,
                ids_hold(before.transactions),
                root@ == before.root(),
                before.nonce <= nonce,
                forall|n: i32|
                    before.nonce <= n < nonce ==> !(#[trigger] before.with_nonce(n)).meets_target(),
            decreases i32::MAX - nonce,
        {
            let data = match encode_header(
                self.prev_block_hash.as_str(),
                &root,
                self.timestamp,
                TARGET_HEXT,
                nonce,
            ) {
                Some(bytes) => bytes,
                None => {
                    return Err(LedgerError::Serialization);
                },
            };
            let digest = sha256(data.as_slice());
            assert(digest@ == before.with_nonce(nonce).digest());
            if has_leading_zero_digits(digest.as_slice(), TARGET_HEXT) {
                self.nonce = nonce;
                self.hash = to_hex(digest.as_slice());
                proof {
                    let after = self@;
                    assert(after.transactions == before.transactions);
                    assert(after.root() == before.root());
                    assert(after.preimage() == before.with_nonce(nonce).preimage());
                    assert forall|n: i32| before.nonce <= n < after.nonce implies !(
                    #[trigger] after.with_nonce(n)).meets_target() by {
                        assert(after.with_nonce(n).preimage() == before.with_nonce(n).preimage());
                        assert(!before.with_nonce(n).meets_target());
                    }
                }
                return Ok(());
            }
            if nonce == i32::MAX {
                return Err(LedgerError::NonceExhausted);
            }
            nonce += 1;
        }
    }

    /// Tells whether `digest` is what the block claims: it meets the target,
    /// and the stored hash is its hexadecimal text.
    pub fn accepts(&self, digest: &[u8]) -> (ok: bool)
        ensures
            ok == (leading_zero_digits(digest@, TARGET_HEXT as int) && self@.hash == upper_hex(
                digest@,
            )),
    {
        if !has_leading_zero_digits(digest, TARGET_HEXT) {
            return false;
        }
        let text = to_hex(digest);
        text == self.hash
    }

    /// Recomputes the hash from the fields as they stand and tells whether
    /// the block is sealed: the id of each transaction is the hash that it
    /// had before it was signed, no two transactions carry the same id, and
    /// the hash of the block, which is taken over the transactions as they
    /// stand, meets the target and is the one stored. It never fails.
    pub fn validate(&self) -> (checked: Result<bool, LedgerError>)
        ensures
            checked matches Ok(ok) && ok == self@.sealed(),
    {
        if !have_true_ids(&self.transactions) {
            return Ok(false);
        }
        match self.prepare_hash_data() {
            Ok(data) => {
                let digest = sha256(data.as_slice());
                Ok(self.accepts(digest.as_slice()))
            },
            Err(e) => Err(e),
        }
    }

    /// The bytes that are hashed for the block. It never fails.
    pub fn prepare_hash_data(&self) -> (data: Result<Vec<u8>, LedgerError>)
        ensures
            data matches Ok(bytes) && bytes@ == self@.preimage(),
    {
        let root = match self.hash_transactions() {
            Ok(root) => root,
            Err(e) => {
                return Err(e);
            },
        };
        match encode_header(
            self.prev_block_hash.as_str(),
            &root,
            self.timestamp,
            TARGET_HEXT,
            self.nonce,
        ) {
            Some(bytes) => Ok(bytes),
            None => Err(LedgerError::Serialization),
        }
    }

    /// The Merkle root over the hashes of the block's transactions, each
    /// hashed as it stands. A block without transactions has the empty
    /// root. It never fails.
    pub fn hash_transactions(&self) -> (root: Result<Vec<u8>, LedgerError>)
        ensures
            root matches Ok(bytes) && bytes@ == self@.root(),
    {
        let mut leaves: Vec<Vec<u8>> = Vec::new();
        let mut i: usize = 0;
        while i < self.transactions.len()
            invariant
                i <= self.transactions.len(),
                leaves.len() == i,
                forall|j: int| 0 <= j < i ==> leaves[j].deep_view() == self@.leaves()[j],
            decreases self.transactions.len() - i,
        {
            let text = match self.transactions[i].hash() {
                Ok(text) => text,
                Err(e) => {
                    return Err(e);
                },
            };
            let leaf = copy_bytes(text.as_str().as_bytes());
            proof {
                lemma_bytes_deep_view(leaf);
            }
            leaves.push(leaf);
            i += 1;
        }
        assert(leaves.deep_view() =~= self@.leaves());
        Ok(build_merkle_root(leaves))
    }
}

/// The lengths in a block's header fit the eight bytes in which they are
/// laid out. This holds of every block in memory.
pub open spec fn header_fits(block: BlockModel) -> bool {
    vstd::utf8::encode_utf8(block.prev_block_hash).len() < limit(8) && block.root().len() < limit(
        8,
    )
}

/// Headers with the same bytes have the same fields.
pub proof fn lemma_header_layout_injective(
    prev_a: Seq<char>,
    root_a: Seq<u8>,
    timestamp_a: u128,
    nonce_a: i32,
    prev_b: Seq<char>,
    root_b: Seq<u8>,
    timestamp_b: u128,
    nonce_b: i32,
    difficulty: usize,
)
    requires
        vstd::utf8::encode_utf8(prev_a).len() < limit(8),
        vstd::utf8::encode_utf8(prev_b).len() < limit(8),
        root_a.len() < limit(8),
        root_b.len() < limit(8),
        header_layout(prev_a, root_a, timestamp_a, difficulty, nonce_a) == header_layout(
            prev_b,
            root_b,
            timestamp_b,
            difficulty,
            nonce_b,
        ),
    ensures
        prev_a == prev_b,
        root_a == root_b,
        timestamp_a == timestamp_b,
        nonce_a == nonce_b,
{
    lemma_limits();
    let tail_a = le_bytes(difficulty as nat, 8) + i32_layout(nonce_a);
    let tail_b = le_bytes(difficulty as nat, 8) + i32_layout(nonce_b);
    let time_a = le_bytes(timestamp_a as nat, 16) + tail_a;
    let time_b = le_bytes(timestamp_b as nat, 16) + tail_b;
    let rest_a = length_prefixed(root_a) + time_a;
    let rest_b = length_prefixed(root_b) + time_b;
    assert(header_layout(prev_a, root_a, timestamp_a, difficulty, nonce_a) =~= text_layout(prev_a)
        + rest_a);
    assert(header_layout(prev_b, root_b, timestamp_b, difficulty, nonce_b) =~= text_layout(prev_b)
        + rest_b);
    lemma_text_layout_split(prev_a, rest_a, prev_b, rest_b);
    lemma_length_prefixed_split(root_a, time_a, root_b, time_b);
    lemma_le_bytes_split(timestamp_a as nat, tail_a, timestamp_b as nat, tail_b, 16);
    lemma_le_bytes_split(
        difficulty as nat,
        i32_layout(nonce_a),
        difficulty as nat,
        i32_layout(nonce_b),
        8,
    );
    lemma_i32_layout_split(nonce_a, Seq::<u8>::empty(), nonce_b, Seq::<u8>::empty());
}

/// A block that was changed in its timestamp, its nonce, the hash of the
/// block before it or the Merkle root of its transactions, and still stores
/// the hash of the sealed block, is not sealed, unless SHA-256 gives the
/// two different headers the same digest.
pub proof fn lemma_tampered_header(sealed: BlockModel, tampered: BlockModel)
    requires
        sealed.sealed(),
        header_fits(sealed),
        header_fits(tampered),
        tampered.hash == sealed.hash,
        tampered.timestamp != sealed.timestamp || tampered.nonce != sealed.nonce
            || tampered.prev_block_hash != sealed.prev_block_hash || tampered.root()
            != sealed.root(),
    ensures
        tampered.preimage() != sealed.preimage(),
        tampered.sealed() ==> spec_sha256(tampered.preimage()) == spec_sha256(sealed.preimage()),
{
    if tampered.preimage() == sealed.preimage() {
        lemma_header_layout_injective(
            sealed.prev_block_hash,
            sealed.root(),
            sealed.timestamp,
            sealed.nonce,
            tampered.prev_block_hash,
            tampered.root(),
            tampered.timestamp,
            tampered.nonce,
            TARGET_HEXT,
        );
    }
    if tampered.sealed() {
        lemma_upper_hex_injective(tampered.digest(), sealed.digest());
    }
}

/// The lengths in every transaction fit the eight bytes in which they are
/// laid out. This holds of all transactions in memory.
pub open spec fn all_fit(transactions: Seq<TransactionModel>) -> bool {
    forall|i: int|
        0 <= i < transactions.len() ==> transaction_fits((#[trigger] transactions[i]).without_id())
}

/// Transactions with the same hash have the same inputs and outputs, unless
/// SHA-256 gives two different byte strings the same digest.
pub proof fn lemma_same_hash_same_content(a: TransactionModel, b: TransactionModel)
    requires
        transaction_fits(a.without_id()),
        transaction_fits(b.without_id()),
        a.hash() == b.hash(),
        !sha256_collision_exists(),
    ensures
        a.vin == b.vin,
        a.vout == b.vout,
        a.unsigned().hash() == b.unsigned().hash(),
{
    let x = transaction_layout(a.without_id());
    let y = transaction_layout(b.without_id());
    lemma_upper_hex_injective(spec_sha256(x), spec_sha256(y));
    if x != y {
        assert(sha256_collides(x, y));
    }
    lemma_transaction_layout_injective(a.without_id(), b.without_id());
    assert(a.unsigned().vin =~= b.unsigned().vin);
    assert(a.unsigned().without_id() == b.unsigned().without_id());
}

/// The leaf of a transaction that carries no signature and whose id is
/// frozen is its id: over such transactions, a coinbase among them, the
/// Merkle root is the root over the ids.
pub proof fn lemma_leaf_without_signatures_is_id(block: BlockModel, at: int)
    requires
        0 <= at < block.transactions.len(),
        block.transactions[at].id_is_frozen(),
        forall|i: int|
            0 <= i < block.transactions[at].vin.len()
                ==> (#[trigger] block.transactions[at].vin[i]).signature.len() == 0,
    ensures
        block.leaves()[at] == vstd::utf8::encode_utf8(block.transactions[at].id),
{
    let tx = block.transactions[at];
    assert forall|i: int| 0 <= i < tx.vin.len() implies #[trigger] tx.unsigned().vin[i]
        == tx.vin[i] by {
        assert(tx.vin[i].signature =~= Seq::<u8>::empty());
    }
    assert(tx.unsigned().vin =~= tx.vin);
    assert(tx.unsigned() == tx);
}

/// The leaves of a block whose ids hold are texts of 64 bytes, none of them
/// twice, unless SHA-256 collides.
pub proof fn lemma_leaves_of_true_ids(block: BlockModel)
    requires
        sha256_is_sized(),
        !sha256_collision_exists(),
        ids_hold(block.transactions),
        all_fit(block.transactions),
    ensures
        uniform(block.leaves(), 64),
        distinct_nodes(block.leaves()),
{
    let leaves = block.leaves();
    assert forall|i: int| 0 <= i < leaves.len() implies (#[trigger] leaves[i]).len() == 64 by {
        lemma_hex_bytes_len(spec_sha256(transaction_layout(block.transactions[i].without_id())));
    }
    assert forall|i: int, j: int| 0 <= i < j < leaves.len() implies #[trigger] leaves[i]
        != #[trigger] leaves[j] by {
        let a = block.transactions[i];
        let b = block.transactions[j];
        if leaves[i] == leaves[j] {
            vstd::utf8::encode_utf8_decode_utf8(a.hash());
            vstd::utf8::encode_utf8_decode_utf8(b.hash());
            lemma_same_hash_same_content(a, b);
            assert(a.id_is_frozen() && b.id_is_frozen());
            assert(a.id != b.id);
        }
    }
}

/// A block whose transactions were changed in any way, one of them in its
/// id, its inputs, a signature or its outputs, or the list by a transaction
/// added, taken away or moved, and which still stores the hash of the
/// sealed block, is not sealed, unless SHA-256 gives two different byte
/// strings the same digest.
pub proof fn lemma_tampered_transactions(sealed: BlockModel, tampered: BlockModel)
    requires
        sha256_is_sized(),
        sealed.sealed(),
        header_fits(sealed),
        header_fits(tampered),
        all_fit(sealed.transactions),
        all_fit(tampered.transactions),
        tampered.hash == sealed.hash,
        tampered.transactions != sealed.transactions,
    ensures
        tampered.sealed() ==> sha256_collision_exists(),
{
    if tampered.sealed() && !sha256_collision_exists() {
        lemma_upper_hex_injective(tampered.digest(), sealed.digest());
        if tampered.preimage() != sealed.preimage() {
            assert(sha256_collides(tampered.preimage(), sealed.preimage()));
        }
        lemma_header_layout_injective(
            sealed.prev_block_hash,
            sealed.root(),
            sealed.timestamp,
            sealed.nonce,
            tampered.prev_block_hash,
            tampered.root(),
            tampered.timestamp,
            tampered.nonce,
            TARGET_HEXT,
        );
        let a = sealed.leaves();
        let b = tampered.leaves();
        lemma_leaves_of_true_ids(sealed);
        lemma_leaves_of_true_ids(tampered);
        lemma_merkle_root_injective_distinct(a, b, 64);
        assert(a.len() == b.len());
        assert forall|i: int| 0 <= i < sealed.transactions.len() implies sealed.transactions[i]
            == tampered.transactions[i] by {
            let before = sealed.transactions[i];
            let after = tampered.transactions[i];
            assert(a[i] == b[i]);
            vstd::utf8::encode_utf8_decode_utf8(before.hash());
            vstd::utf8::encode_utf8_decode_utf8(after.hash());
            lemma_same_hash_same_content(before, after);
            assert(before.id_is_frozen() && after.id_is_frozen());
            assert(before.id == after.id);
        }
        assert(sealed.transactions =~= tampered.transactions);
    }
}

} // verus!
