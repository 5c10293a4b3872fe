use blockchain_core::block::{Block, TARGET_HEXT};
use blockchain_core::codec::has_leading_zero_digits;
use blockchain_core::merkle::build_merkle_root;
use blockchain_core::transaction::Transaction;
use blockchain_core::tx::{TXInput, TXOutput};
use blockchain_core::wallet::Wallet;
use sha2::{Digest, Sha256};

fn sha(data: &[u8]) -> Vec<u8> {
    let mut hasher = Sha256::new();
    hasher.update(data);
    hasher.finalize().to_vec()
}

fn hex(bytes: &[u8]) -> String {
    bytes.iter().map(|b| format!("{:02X}", b)).collect::<Vec<String>>().concat()
}

fn prefixed(bytes: &[u8]) -> Vec<u8> {
    let mut out = (bytes.len() as u64).to_le_bytes().to_vec();
    out.extend_from_slice(bytes);
    out
}

/// The bytes that are hashed for a block, written out by hand.
fn header(prev: &str, root: &[u8], timestamp: u128, nonce: i32) -> Vec<u8> {
    let mut out = prefixed(prev.as_bytes());
    out.extend(prefixed(root));
    out.extend_from_slice(&timestamp.to_le_bytes());
    out.extend_from_slice(&2u64.to_le_bytes());
    out.extend_from_slice(&nonce.to_le_bytes());
    out
}

fn coinbase(note: &str) -> Transaction {
    Transaction::coinbase_to(vec![4u8; 20], note).unwrap()
}

fn with(block: &Block, timestamp: u128, txs: Vec<Transaction>, prev: &str, nonce: i32) -> Block {
    Block::from_parts(
        timestamp,
        txs,
        prev.to_string(),
        block.get_hash(),
        block.get_height(),
        nonce,
    )
}

fn copies(block: &Block) -> Vec<Transaction> {
    block.get_transactions().iter().map(|t| t.duplicate()).collect()
}

#[test]
fn target_is_two_hex_digits() {
    assert_eq!(TARGET_HEXT, 2);
}

#[test]
fn sealed_block_keeps_what_it_was_given() {
    let txs = vec![coinbase("a"), coinbase("b")];
    let ids: Vec<String> = txs.iter().map(|t| t.id.clone()).collect();
    let block = Block::seal(1_700_000_000_000, txs, "PREV".to_string(), 7).unwrap();
    assert_eq!(block.get_timestamp(), 1_700_000_000_000);
    assert_eq!(block.get_prev_block_hash(), "PREV");
    assert_eq!(block.get_height(), 7);
    assert_eq!(block.get_transactions().len(), 2);
    assert_eq!(block.get_transactions()[0].id, ids[0]);
    assert_eq!(block.get_transactions()[1].id, ids[1]);
    assert!(block.get_nonce() >= 0);
}

#[test]
fn hash_of_a_sealed_block_is_the_digest_of_its_header() {
    let block = Block::seal(42, vec![coinbase("a"), coinbase("b"), coinbase("c")], "AB".to_string(), 1)
        .unwrap();
    let leaves: Vec<Vec<u8>> =
        block.get_transactions().iter().map(|t| t.hash().unwrap().into_bytes()).collect();
    let root = build_merkle_root(leaves);
    assert_eq!(block.hash_transactions().unwrap(), root);
    let bytes = header("AB", &root, 42, block.get_nonce());
    assert_eq!(block.prepare_hash_data().unwrap(), bytes);
    assert_eq!(block.get_hash(), hex(&sha(&bytes)));
    assert!(block.get_hash().starts_with("00"));
    assert_eq!(block.get_hash().len(), 64);
    assert_eq!(block.validate(), Ok(true));
}

#[test]
fn header_layout_byte_by_byte() {
    let block = Block::from_parts(0x0102, Vec::new(), "A".to_string(), String::new(), 0, -2);
    let expected: Vec<u8> = vec![
        1, 0, 0, 0, 0, 0, 0, 0, b'A', // hash of the block before
        0, 0, 0, 0, 0, 0, 0, 0, // root of no transactions
        2, 1, 0, 0, 0, 0, 0, 0, 0, 0, 0, 0, 0, 0, 0, 0, // timestamp
        2, 0, 0, 0, 0, 0, 0, 0, // difficulty
        0xfe, 0xff, 0xff, 0xff, // nonce
    ];
    assert_eq!(block.prepare_hash_data().unwrap(), expected);
    assert_eq!(block.hash_transactions().unwrap(), Vec::<u8>::new());
}

#[test]
fn root_of_a_single_transaction_is_its_hash_text() {
    let tx = coinbase("only");
    let text = tx.hash().unwrap();
    let block = Block::from_parts(1, vec![tx], String::new(), String::new(), 0, 0);
    assert_eq!(block.hash_transactions().unwrap(), text.into_bytes());
}

#[test]
fn nonce_is_the_first_that_meets_the_target() {
    let block = Block::seal(5, vec![coinbase("x")], String::new(), 0).unwrap();
    let root = block.hash_transactions().unwrap();
    for nonce in 0..block.get_nonce() {
        assert!(!has_leading_zero_digits(&sha(&header("", &root, 5, nonce)), 2));
    }
    assert!(has_leading_zero_digits(&sha(&header("", &root, 5, block.get_nonce())), 2));
}

#[test]
fn sealing_is_a_function_of_its_arguments() {
    let a = Block::seal(9, vec![coinbase("x")], "P".to_string(), 3).unwrap();
    let b = Block::seal(9, vec![coinbase("x")], "P".to_string(), 3).unwrap();
    assert_eq!(a.get_hash(), b.get_hash());
    assert_eq!(a.get_nonce(), b.get_nonce());
    let c = Block::seal(10, vec![coinbase("x")], "P".to_string(), 3).unwrap();
    assert_ne!(a.get_hash(), c.get_hash());
}

#[test]
fn height_is_not_part_of_the_hash() {
    let a = Block::seal(9, vec![coinbase("x")], "P".to_string(), 3).unwrap();
    let b = Block::seal(9, vec![coinbase("x")], "P".to_string(), 4).unwrap();
    assert_eq!(a.get_hash(), b.get_hash());
}

#[test]
fn tampering_with_a_field_breaks_the_seal() {
    let block =
        Block::seal(1_000, vec![coinbase("a"), coinbase("b")], "0011".to_string(), 1).unwrap();
    let ts = block.get_timestamp();
    let nonce = block.get_nonce();
    assert_eq!(with(&block, ts, copies(&block), "0011", nonce).validate(), Ok(true));
    // the timestamp
    assert_eq!(with(&block, ts + 1, copies(&block), "0011", nonce).validate(), Ok(false));
    // the nonce
    assert_eq!(with(&block, ts, copies(&block), "0011", nonce + 1).validate(), Ok(false));
    // the hash of the block before
    assert_eq!(with(&block, ts, copies(&block), "0012", nonce).validate(), Ok(false));
    assert_eq!(with(&block, ts, copies(&block), "", nonce).validate(), Ok(false));
    // a transaction: a value, a lock, an input
    let mut txs = copies(&block);
    txs[1].vout[0].value += 1;
    assert_eq!(with(&block, ts, txs, "0011", nonce).validate(), Ok(false));
    let mut txs = copies(&block);
    txs[0].vout[0].pub_key_hash[0] ^= 1;
    assert_eq!(with(&block, ts, txs, "0011", nonce).validate(), Ok(false));
    let mut txs = copies(&block);
    txs[0].vin[0].pub_key.push(b'!');
    assert_eq!(with(&block, ts, txs, "0011", nonce).validate(), Ok(false));
    // the id of a transaction alone
    let mut txs = copies(&block);
    txs[0].id = txs[1].id.clone();
    assert_eq!(with(&block, ts, txs, "0011", nonce).validate(), Ok(false));
    let mut txs = copies(&block);
    txs[1].id.push('0');
    assert_eq!(with(&block, ts, txs, "0011", nonce).validate(), Ok(false));
    // a transaction changed and its id made to fit
    let mut txs = copies(&block);
    txs[1].vout[0].value += 1;
    txs[1].id = txs[1].hash().unwrap();
    assert_eq!(with(&block, ts, txs, "0011", nonce).validate(), Ok(false));
    // the order of the transactions, a missing one, an added one
    let mut txs = copies(&block);
    txs.swap(0, 1);
    assert_eq!(with(&block, ts, txs, "0011", nonce).validate(), Ok(false));
    let mut txs = copies(&block);
    txs.pop();
    assert_eq!(with(&block, ts, txs, "0011", nonce).validate(), Ok(false));
    let mut txs = copies(&block);
    txs.push(coinbase("c"));
    assert_eq!(with(&block, ts, txs, "0011", nonce).validate(), Ok(false));
    // an output more
    let mut txs = copies(&block);
    txs[1].vout.push(TXOutput::locked_to(1, vec![]));
    assert_eq!(with(&block, ts, txs, "0011", nonce).validate(), Ok(false));
}

#[test]
fn stored_hash_must_be_the_recomputed_one() {
    let block = Block::seal(77, vec![coinbase("a")], String::new(), 0).unwrap();
    let other = Block::seal(78, vec![coinbase("a")], String::new(), 0).unwrap();
    let swapped = Block::from_parts(
        block.get_timestamp(),
        copies(&block),
        block.get_prev_block_hash(),
        other.get_hash(),
        0,
        block.get_nonce(),
    );
    assert_eq!(swapped.validate(), Ok(false));
    let digest = sha(&block.prepare_hash_data().unwrap());
    assert!(block.accepts(&digest));
    assert!(!swapped.accepts(&digest));
    assert!(!block.accepts(&sha(b"other")));
    let lower = Block::from_parts(
        block.get_timestamp(),
        copies(&block),
        block.get_prev_block_hash(),
        block.get_hash().to_lowercase(),
        0,
        block.get_nonce(),
    );
    assert_eq!(lower.validate(), Ok(false));
}

#[test]
fn genesis_block_has_no_predecessor() {
    let cb = coinbase("genesis");
    let id = cb.id.clone();
    let block = Block::new_genesis_block(cb).unwrap();
    assert_eq!(block.get_height(), 0);
    assert_eq!(block.get_prev_block_hash(), "");
    assert_eq!(block.get_transactions().len(), 1);
    assert_eq!(block.get_transactions()[0].id, id);
    assert_eq!(block.validate(), Ok(true));
    assert!(block.get_timestamp() > 1_600_000_000_000);
}

#[test]
fn new_block_is_sealed_now() {
    let block = Block::new(vec![coinbase("n")], "AA".to_string(), 5).unwrap();
    assert_eq!(block.get_height(), 5);
    assert_eq!(block.get_prev_block_hash(), "AA");
    assert_eq!(block.validate(), Ok(true));
    let copy = block.duplicate();
    assert_eq!(copy.get_hash(), block.get_hash());
    assert_eq!(copy.get_nonce(), block.get_nonce());
    assert_eq!(copy.get_timestamp(), block.get_timestamp());
    assert_eq!(copy.validate(), Ok(true));
}

#[test]
fn a_repeated_transaction_breaks_the_seal() {
    // Three transactions and the same three with the last one repeated have
    // one Merkle root and so one hash; the repeated id is what tells them
    // apart.
    let block =
        Block::seal(3, vec![coinbase("a"), coinbase("b"), coinbase("c")], String::new(), 0).unwrap();
    let mut txs = copies(&block);
    txs.push(coinbase("c"));
    let wider = with(&block, 3, txs, "", block.get_nonce());
    assert_eq!(wider.hash_transactions().unwrap(), block.hash_transactions().unwrap());
    assert_eq!(wider.prepare_hash_data().unwrap(), block.prepare_hash_data().unwrap());
    assert_eq!(wider.validate(), Ok(false));
    assert_eq!(block.validate(), Ok(true));
    assert_eq!(
        Block::seal(3, vec![coinbase("a"), coinbase("a")], String::new(), 0).err(),
        Some(blockchain_core::errors::LedgerError::InvalidId)
    );
}

#[test]
fn block_over_a_false_id_is_not_sealed() {
    let mut tx = coinbase("x");
    tx.id = "AB".to_string();
    assert_eq!(
        Block::seal(1, vec![coinbase("a"), tx.duplicate()], String::new(), 0).err(),
        Some(blockchain_core::errors::LedgerError::InvalidId)
    );
    assert_eq!(
        Block::new(vec![tx.duplicate()], String::new(), 0).err(),
        Some(blockchain_core::errors::LedgerError::InvalidId)
    );
    assert_eq!(
        Block::new_genesis_block(tx).err(),
        Some(blockchain_core::errors::LedgerError::InvalidId)
    );
}

#[test]
fn root_is_over_the_hashes_of_the_transactions() {
    let txs = vec![coinbase("a"), coinbase("b")];
    let leaves: Vec<Vec<u8>> = txs.iter().map(|t| t.hash().unwrap().into_bytes()).collect();
    let block = Block::seal(1, txs, String::new(), 0).unwrap();
    assert_eq!(block.hash_transactions().unwrap(), build_merkle_root(leaves));
}

fn signed_spend() -> (Transaction, Transaction) {
    let wallet = Wallet::from_seed(&[5u8; 32]).unwrap();
    let prior = Transaction::coinbase_to(Wallet::hash_of(&wallet.public_key), "prior").unwrap();
    let mut tx = Transaction {
        id: String::new(),
        vin: vec![TXInput {
            txid: prior.id.clone(),
            vout: 0,
            signature: Vec::new(),
            pub_key: wallet.public_key.clone(),
        }],
        vout: vec![TXOutput::locked_to(100, vec![8u8; 20])],
    };
    tx.id = tx.hash().unwrap();
    tx.sign(&wallet.secret_key, &vec![prior.duplicate()]).unwrap();
    (prior, tx)
}

#[test]
fn signed_transaction_is_sealed_under_the_id_it_had() {
    let (prior, tx) = signed_spend();
    assert_eq!(tx.verify(&vec![prior]), Ok(true));
    assert_ne!(tx.id, tx.hash().unwrap());
    let block = Block::seal(9, vec![coinbase("r"), tx.duplicate()], "00AA".to_string(), 1).unwrap();
    assert_eq!(block.get_transactions()[1].id, tx.id);
    assert_eq!(block.get_transactions()[1].vin[0].signature, tx.vin[0].signature);
    assert_eq!(block.validate(), Ok(true));
    // the leaf of a transaction is its hash as it stands, signatures included
    let leaves = vec![coinbase("r").hash().unwrap().into_bytes(), tx.hash().unwrap().into_bytes()];
    assert_eq!(block.hash_transactions().unwrap(), build_merkle_root(leaves));
    let over_ids = vec![coinbase("r").id.into_bytes(), tx.id.clone().into_bytes()];
    assert_ne!(block.hash_transactions().unwrap(), build_merkle_root(over_ids));
    assert_eq!(Block::new(vec![tx], block.get_hash(), 2).map(|b| b.validate()), Ok(Ok(true)));
}

#[test]
fn seal_commits_to_the_signatures() {
    let (_, tx) = signed_spend();
    let block = Block::seal(9, vec![coinbase("r"), tx], "00AA".to_string(), 1).unwrap();
    let nonce = block.get_nonce();
    let mut txs = copies(&block);
    txs[1].vin[0].signature[0] ^= 1;
    assert_eq!(with(&block, 9, txs, "00AA", nonce).validate(), Ok(false));
    let mut txs = copies(&block);
    txs[1].vin[0].signature.clear();
    assert_eq!(with(&block, 9, txs, "00AA", nonce).validate(), Ok(false));
    let mut txs = copies(&block);
    txs[1].vin[0].pub_key[0] ^= 1;
    assert_eq!(with(&block, 9, txs, "00AA", nonce).validate(), Ok(false));
    assert_eq!(with(&block, 9, copies(&block), "00AA", nonce).validate(), Ok(true));
}

#[test]
fn id_that_follows_the_signatures_is_refused() {
    let (_, mut tx) = signed_spend();
    tx.id = tx.hash().unwrap();
    assert_eq!(
        Block::seal(9, vec![tx], String::new(), 0).err(),
        Some(blockchain_core::errors::LedgerError::InvalidId)
    );
}
