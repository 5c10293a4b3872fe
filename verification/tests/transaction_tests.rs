use blockchain_core::errors::LedgerError;
use blockchain_core::transaction::{Transaction, SUBSIDY};
use blockchain_core::tx::{TXInput, TXOutput, TXOutputs};
use blockchain_core::wallet::Wallet;
use sha2::{Digest, Sha256};

fn sha_hex(data: &[u8]) -> String {
    let mut hasher = Sha256::new();
    hasher.update(data);
    hasher
        .finalize()
        .iter()
        .map(|b| format!("{:02X}", b))
        .collect::<Vec<String>>()
        .concat()
}

fn prefixed(bytes: &[u8]) -> Vec<u8> {
    let mut out = (bytes.len() as u64).to_le_bytes().to_vec();
    out.extend_from_slice(bytes);
    out
}

/// The bytes of a transaction with its id cleared, written out by hand.
fn layout(tx: &Transaction) -> Vec<u8> {
    let mut out = prefixed(b"");
    out.extend_from_slice(&(tx.vin.len() as u64).to_le_bytes());
    for input in &tx.vin {
        out.extend(prefixed(input.txid.as_bytes()));
        out.extend_from_slice(&input.vout.to_le_bytes());
        out.extend(prefixed(&input.signature));
        out.extend(prefixed(&input.pub_key));
    }
    out.extend_from_slice(&(tx.vout.len() as u64).to_le_bytes());
    for output in &tx.vout {
        out.extend_from_slice(&output.value.to_le_bytes());
        out.extend(prefixed(&output.pub_key_hash));
    }
    out
}

fn owner() -> Wallet {
    Wallet::from_seed(&[1u8; 32]).unwrap()
}

fn prior_with_two_outputs(lock: &[u8]) -> Transaction {
    let mut tx = Transaction {
        id: String::new(),
        vin: vec![TXInput {
            txid: String::new(),
            vout: -1,
            signature: Vec::new(),
            pub_key: b"seed".to_vec(),
        }],
        vout: vec![
            TXOutput::locked_to(60, lock.to_vec()),
            TXOutput::locked_to(40, lock.to_vec()),
        ],
    };
    tx.id = tx.hash().unwrap();
    tx
}

fn spend_of(prior: &Transaction, wallet: &Wallet, places: &[i32]) -> Transaction {
    let mut tx = Transaction {
        id: String::new(),
        vin: places
            .iter()
            .map(|p| TXInput {
                txid: prior.id.clone(),
                vout: *p,
                signature: Vec::new(),
                pub_key: wallet.public_key.clone(),
            })
            .collect(),
        vout: vec![TXOutput::locked_to(100, vec![9u8; 20])],
    };
    tx.id = tx.hash().unwrap();
    tx
}

#[test]
fn hash_is_sha256_over_the_layout_without_the_id() {
    let wallet = owner();
    let prior = prior_with_two_outputs(&Wallet::hash_of(&wallet.public_key));
    assert_eq!(prior.hash().unwrap(), sha_hex(&layout(&prior)));
    assert_eq!(prior.id, sha_hex(&layout(&prior)));
    let spend = spend_of(&prior, &wallet, &[0, 1]);
    assert_eq!(spend.hash().unwrap(), sha_hex(&layout(&spend)));
    assert_eq!(spend.hash().unwrap().len(), 64);
}

#[test]
fn layout_of_a_small_transaction_byte_by_byte() {
    let tx = Transaction {
        id: "ignored".to_string(),
        vin: vec![TXInput {
            txid: "AB".to_string(),
            vout: -1,
            signature: vec![7],
            pub_key: vec![],
        }],
        vout: vec![TXOutput::locked_to(258, vec![1, 2])],
    };
    let expected: Vec<u8> = vec![
        0, 0, 0, 0, 0, 0, 0, 0, // id, cleared
        1, 0, 0, 0, 0, 0, 0, 0, // one input
        2, 0, 0, 0, 0, 0, 0, 0, b'A', b'B', // txid
        0xff, 0xff, 0xff, 0xff, // -1
        1, 0, 0, 0, 0, 0, 0, 0, 7, // signature
        0, 0, 0, 0, 0, 0, 0, 0, // public key
        1, 0, 0, 0, 0, 0, 0, 0, // one output
        2, 1, 0, 0, // 258
        2, 0, 0, 0, 0, 0, 0, 0, 1, 2, // lock
    ];
    assert_eq!(layout(&tx), expected);
    assert_eq!(tx.hash().unwrap(), sha_hex(&expected));
}

#[test]
fn hash_does_not_depend_on_the_id_but_on_every_other_field() {
    let wallet = owner();
    let prior = prior_with_two_outputs(&Wallet::hash_of(&wallet.public_key));
    let base = spend_of(&prior, &wallet, &[0]);
    let mut other = base.duplicate();
    other.id = "something else".to_string();
    assert_eq!(other.hash().unwrap(), base.hash().unwrap());
    let mut changed = base.duplicate();
    changed.vout[0].value = 99;
    assert_ne!(changed.hash().unwrap(), base.hash().unwrap());
    let mut changed = base.duplicate();
    changed.vin[0].vout = 1;
    assert_ne!(changed.hash().unwrap(), base.hash().unwrap());
    let mut changed = base.duplicate();
    changed.vin[0].signature = vec![1];
    assert_ne!(changed.hash().unwrap(), base.hash().unwrap());
}

#[test]
fn coinbase_pays_the_subsidy_to_the_address() {
    let wallet = owner();
    let tx = Transaction::new_coinbase(wallet.get_address(), "note".to_string()).unwrap();
    assert!(tx.is_coinbase());
    assert_eq!(SUBSIDY, 100);
    assert_eq!(tx.vin.len(), 1);
    assert_eq!(tx.vin[0].txid, "");
    assert_eq!(tx.vin[0].vout, -1);
    assert!(tx.vin[0].signature.is_empty());
    assert_eq!(tx.vin[0].pub_key, b"note".to_vec());
    assert_eq!(tx.vout.len(), 1);
    assert_eq!(tx.vout[0].value, 100);
    assert_eq!(tx.vout[0].pub_key_hash, Wallet::hash_of(&wallet.public_key));
    assert_eq!(tx.id, tx.hash().unwrap());
    assert_eq!(tx.id, sha_hex(&layout(&tx)));
}

#[test]
fn coinbase_without_data_names_the_recipient() {
    let address = owner().get_address();
    let tx = Transaction::new_coinbase(address.clone(), String::new()).unwrap();
    assert_eq!(tx.vin[0].pub_key, format!("Reward to `{}`", address).into_bytes());
}

#[test]
fn coinbase_to_a_text_that_is_no_address_fails() {
    assert_eq!(
        Transaction::new_coinbase("nobody".to_string(), "x".to_string()).err(),
        Some(LedgerError::InvalidAddress)
    );
}

#[test]
fn coinbase_to_a_hash_is_the_same_transaction() {
    let wallet = owner();
    let by_address = Transaction::new_coinbase(wallet.get_address(), "n".to_string()).unwrap();
    let by_hash = Transaction::coinbase_to(Wallet::hash_of(&wallet.public_key), "n").unwrap();
    assert_eq!(by_address.id, by_hash.id);
    assert_eq!(by_hash.vout[0].value, 100);
}

#[test]
fn only_one_sentinel_input_makes_a_coinbase() {
    let wallet = owner();
    let prior = prior_with_two_outputs(&[1u8; 20]);
    assert!(prior.is_coinbase());
    assert!(!spend_of(&prior, &wallet, &[0]).is_coinbase());
    let mut two = prior.duplicate();
    two.vin.push(two.vin[0].duplicate());
    assert!(!two.is_coinbase());
    let mut named = prior.duplicate();
    named.vin[0].txid = "AB".to_string();
    assert!(!named.is_coinbase());
    let mut indexed = prior.duplicate();
    indexed.vin[0].vout = 0;
    assert!(!indexed.is_coinbase());
    let mut none = prior.duplicate();
    none.vin.clear();
    assert!(!none.is_coinbase());
}

#[test]
fn trim_copy_clears_signatures_and_keys_only() {
    let wallet = owner();
    let prior = prior_with_two_outputs(&Wallet::hash_of(&wallet.public_key));
    let mut tx = spend_of(&prior, &wallet, &[0, 1]);
    tx.sign(&wallet.secret_key, &vec![prior.duplicate()]).unwrap();
    let copy = tx.trim_copy();
    assert_eq!(copy.id, tx.id);
    assert_eq!(copy.vin.len(), 2);
    for (a, b) in copy.vin.iter().zip(tx.vin.iter()) {
        assert_eq!(a.txid, b.txid);
        assert_eq!(a.vout, b.vout);
        assert!(a.signature.is_empty());
        assert!(a.pub_key.is_empty());
    }
    assert_eq!(copy.vout.len(), 1);
    assert_eq!(copy.vout[0].value, 100);
    assert_eq!(copy.vout[0].pub_key_hash, vec![9u8; 20]);
}

#[test]
fn signing_message_is_the_hash_text_of_the_trimmed_payload() {
    let wallet = owner();
    let lock = Wallet::hash_of(&wallet.public_key);
    let prior = prior_with_two_outputs(&lock);
    let tx = spend_of(&prior, &wallet, &[0, 1]);
    let mut payload = tx.trim_copy();
    payload.vin[1].pub_key = lock.clone();
    let expected = sha_hex(&layout(&payload)).into_bytes();
    assert_eq!(tx.signing_message(1, &lock).unwrap(), expected);
    let mut first = tx.trim_copy();
    first.vin[0].pub_key = lock.clone();
    assert_eq!(tx.signing_message(0, &lock).unwrap(), sha_hex(&layout(&first)).into_bytes());
    assert_ne!(tx.signing_message(0, &lock).unwrap(), tx.signing_message(1, &lock).unwrap());
}

#[test]
fn signed_transaction_verifies() {
    let wallet = owner();
    let prior = prior_with_two_outputs(&Wallet::hash_of(&wallet.public_key));
    let prev = vec![prior.duplicate()];
    for places in [vec![0], vec![1], vec![0, 1], vec![1, 0]] {
        let mut tx = spend_of(&prior, &wallet, &places);
        assert_eq!(tx.verify(&prev), Err(LedgerError::SignatureInvalid));
        let before = tx.duplicate();
        assert_eq!(tx.id, tx.unsigned_hash().unwrap());
        assert_eq!(tx.sign(&wallet.secret_key, &prev), Ok(()));
        // signing fills the signatures and nothing else: the id stays
        assert_eq!(tx.id, before.id);
        assert_eq!(tx.id, tx.unsigned_hash().unwrap());
        assert_eq!(tx.id, sha_hex(&layout(&before)));
        assert_ne!(tx.id, tx.hash().unwrap());
        assert_eq!(tx.hash().unwrap(), sha_hex(&layout(&tx)));
        assert_eq!(tx.vout.len(), before.vout.len());
        for (output, was) in tx.vout.iter().zip(before.vout.iter()) {
            assert_eq!(output.value, was.value);
            assert_eq!(output.pub_key_hash, was.pub_key_hash);
        }
        assert_eq!(tx.vin.len(), before.vin.len());
        for (input, was) in tx.vin.iter().zip(before.vin.iter()) {
            assert_eq!(input.signature.len(), 64);
            assert_eq!(input.pub_key, wallet.public_key);
            assert_eq!(input.txid, was.txid);
            assert_eq!(input.vout, was.vout);
            assert_eq!(input.pub_key, was.pub_key);
        }
        assert_eq!(tx.verify(&prev), Ok(true));
    }
}

#[test]
fn signature_of_each_input_is_its_own() {
    let wallet = owner();
    let prior = prior_with_two_outputs(&Wallet::hash_of(&wallet.public_key));
    let prev = vec![prior.duplicate()];
    let mut tx = spend_of(&prior, &wallet, &[0, 1]);
    tx.sign(&wallet.secret_key, &prev).unwrap();
    assert_ne!(tx.vin[0].signature, tx.vin[1].signature);
    let first = tx.vin[0].signature.clone();
    tx.vin[0].signature = tx.vin[1].signature.clone();
    tx.vin[1].signature = first;
    assert_eq!(tx.verify(&prev), Err(LedgerError::SignatureInvalid));
}

#[test]
fn substituted_public_key_fails_the_whole_transaction() {
    let wallet = owner();
    let stranger = Wallet::from_seed(&[2u8; 32]).unwrap();
    let prior = prior_with_two_outputs(&Wallet::hash_of(&wallet.public_key));
    let prev = vec![prior.duplicate()];
    let mut tx = spend_of(&prior, &wallet, &[0, 1]);
    tx.sign(&wallet.secret_key, &prev).unwrap();
    assert_eq!(tx.verify(&prev), Ok(true));
    tx.vin[1].pub_key = stranger.public_key.clone();
    assert_eq!(tx.verify_input(0, &prev), Ok(true));
    assert_eq!(tx.verify_input(1, &prev), Err(LedgerError::SignatureInvalid));
    assert_eq!(tx.verify(&prev), Err(LedgerError::SignatureInvalid));
}

#[test]
fn tampered_output_fails_verification() {
    let wallet = owner();
    let prior = prior_with_two_outputs(&Wallet::hash_of(&wallet.public_key));
    let prev = vec![prior.duplicate()];
    let mut tx = spend_of(&prior, &wallet, &[0]);
    tx.sign(&wallet.secret_key, &prev).unwrap();
    tx.vout[0].value = 101;
    assert_eq!(tx.verify(&prev), Err(LedgerError::SignatureInvalid));
}

#[test]
fn malformed_key_or_signature_does_not_verify() {
    let wallet = owner();
    let prior = prior_with_two_outputs(&Wallet::hash_of(&wallet.public_key));
    let prev = vec![prior.duplicate()];
    let mut tx = spend_of(&prior, &wallet, &[0]);
    tx.sign(&wallet.secret_key, &prev).unwrap();
    let mut short_key = tx.duplicate();
    short_key.vin[0].pub_key.pop();
    assert_eq!(short_key.verify(&prev), Err(LedgerError::SignatureInvalid));
    let mut long_signature = tx.duplicate();
    long_signature.vin[0].signature.push(0);
    assert_eq!(long_signature.verify(&prev), Err(LedgerError::SignatureInvalid));
    let mut no_signature = tx.duplicate();
    no_signature.vin[0].signature.clear();
    assert_eq!(no_signature.verify(&prev), Err(LedgerError::SignatureInvalid));
}

#[test]
fn coinbase_verifies_without_any_prior_transaction() {
    let cb = Transaction::coinbase_to(vec![5u8; 20], "any").unwrap();
    assert_eq!(cb.verify(&Vec::new()), Ok(true));
    let mut same = cb.duplicate();
    assert_eq!(same.sign(&owner().secret_key, &Vec::new()), Ok(()));
    assert!(same.vin[0].signature.is_empty());
    assert_eq!(same.id, cb.id);
}

#[test]
fn unresolved_prior_output_is_an_error() {
    let wallet = owner();
    let prior = prior_with_two_outputs(&Wallet::hash_of(&wallet.public_key));
    let prev = vec![prior.duplicate()];
    // the transaction is not among the prior ones
    let mut tx = spend_of(&prior, &wallet, &[0]);
    assert_eq!(
        tx.sign(&wallet.secret_key, &Vec::new()),
        Err(LedgerError::InvalidPriorTransaction)
    );
    assert!(tx.vin[0].signature.is_empty());
    assert_eq!(tx.verify(&Vec::new()), Err(LedgerError::InvalidPriorTransaction));
    // the transaction has no such output
    let mut beyond = spend_of(&prior, &wallet, &[2]);
    assert_eq!(beyond.sign(&wallet.secret_key, &prev), Err(LedgerError::InvalidPriorTransaction));
    assert_eq!(beyond.verify(&prev), Err(LedgerError::InvalidPriorTransaction));
    assert_eq!(beyond.verify_input(0, &prev), Err(LedgerError::InvalidPriorTransaction));
    // the second of two inputs names nothing: the first is not signed either
    let mut half = spend_of(&prior, &wallet, &[0, 1]);
    half.vin[1].txid = "FF".to_string();
    assert_eq!(half.sign(&wallet.secret_key, &prev), Err(LedgerError::InvalidPriorTransaction));
    assert!(half.vin[0].signature.is_empty());
    // an input with the sentinel index in a transaction of two inputs
    let mut sentinel = spend_of(&prior, &wallet, &[0, -1]);
    assert_eq!(sentinel.sign(&wallet.secret_key, &prev), Err(LedgerError::InvalidPriorTransaction));
}

#[test]
fn empty_list_of_outputs() {
    assert!(TXOutputs::new().outputs.is_empty());
}

#[test]
fn signing_payload_is_the_layout_of_the_trimmed_copy() {
    let wallet = owner();
    let lock = Wallet::hash_of(&wallet.public_key);
    let prior = prior_with_two_outputs(&lock);
    let mut tx = spend_of(&prior, &wallet, &[0, 1]);
    tx.sign(&wallet.secret_key, &vec![prior.duplicate()]).unwrap();
    let mut payload = tx.trim_copy();
    payload.vin[0].pub_key = lock.clone();
    assert_eq!(tx.signing_payload(0, &lock).unwrap(), layout(&payload));
    // the signatures and keys that the inputs carry are no part of it
    let unsigned = spend_of(&prior, &wallet, &[0, 1]);
    assert_eq!(unsigned.signing_payload(0, &lock), tx.signing_payload(0, &lock));
    assert_ne!(tx.signing_payload(0, &lock), tx.signing_payload(1, &lock));
    assert_ne!(tx.signing_payload(0, &lock), tx.signing_payload(0, &[1u8; 20]));
}

#[test]
fn transaction_without_inputs_needs_no_signature() {
    let mut tx = Transaction {
        id: String::new(),
        vin: Vec::new(),
        vout: vec![TXOutput::locked_to(0, vec![9u8; 20])],
    };
    tx.id = tx.hash().unwrap();
    assert!(!tx.is_coinbase());
    assert_eq!(tx.sign(&owner().secret_key, &Vec::new()), Ok(()));
    assert!(tx.vin.is_empty());
    assert_eq!(tx.verify(&Vec::new()), Ok(true));
}
