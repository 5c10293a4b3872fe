use blockchain_core::block::Block;
use blockchain_core::blockchain::Blockchain;
use blockchain_core::errors::LedgerError;
use blockchain_core::transaction::Transaction;
use blockchain_core::tx::{TXInput, TXOutput};
use blockchain_core::wallet::Wallet;

fn alice() -> Wallet {
    Wallet::from_seed(&[11u8; 32]).unwrap()
}

fn bob() -> Wallet {
    Wallet::from_seed(&[12u8; 32]).unwrap()
}

fn spend_genesis(bc: &Blockchain, from: &Wallet, to: &Wallet, amount: i32) -> Transaction {
    let genesis = bc.block_at(0).unwrap();
    let reward = &genesis.get_transactions()[0];
    let mut tx = Transaction {
        id: String::new(),
        vin: vec![TXInput {
            txid: reward.id.clone(),
            vout: 0,
            signature: Vec::new(),
            pub_key: from.public_key.clone(),
        }],
        vout: vec![
            TXOutput::locked_to(amount, Wallet::hash_of(&to.public_key)),
            TXOutput::locked_to(100 - amount, Wallet::hash_of(&from.public_key)),
        ],
    };
    tx.id = tx.hash().unwrap();
    tx
}

#[test]
fn test_blockchain() {
    let mut block_chain = Blockchain::create_blockchain(alice().get_address()).unwrap();
    let reward = Transaction::new_coinbase(alice().get_address(), "data".to_string()).unwrap();
    let block = block_chain.add_block(vec![reward]).unwrap();
    assert_eq!(block_chain.len(), 2);
    assert_eq!(block_chain.tip_hash(), block.get_hash());
    assert_eq!(block.get_transactions()[0].vin[0].pub_key, b"data".to_vec());
    println!("{:?}", block_chain);
}

#[test]
fn created_ledger_has_one_genesis_block() {
    let bc = Blockchain::create_blockchain(alice().get_address()).unwrap();
    assert_eq!(bc.len(), 1);
    let genesis = bc.block_at(0).unwrap();
    assert_eq!(genesis.get_height(), 0);
    assert_eq!(genesis.get_prev_block_hash(), "");
    assert_eq!(genesis.validate(), Ok(true));
    assert_eq!(bc.tip_hash(), genesis.get_hash());
    let txs = genesis.get_transactions();
    assert_eq!(txs.len(), 1);
    assert!(txs[0].is_coinbase());
    assert_eq!(txs[0].vin[0].pub_key, b"TODO".to_vec());
    assert_eq!(txs[0].vout[0].value, 100);
    assert_eq!(txs[0].vout[0].pub_key_hash, Wallet::hash_of(&alice().public_key));
    assert!(bc.block_at(1).is_none());
}

#[test]
fn ledger_for_a_text_that_is_no_address_is_refused() {
    assert_eq!(
        Blockchain::create_blockchain("nowhere".to_string()).err(),
        Some(LedgerError::InvalidAddress)
    );
}

#[test]
fn appended_block_names_the_tip_and_counts_its_height() {
    let mut bc = Blockchain::create_blockchain(alice().get_address()).unwrap();
    let first_tip = bc.tip_hash();
    let one = bc
        .add_block(vec![Transaction::coinbase_to(vec![1u8; 20], "one").unwrap()])
        .unwrap();
    assert_eq!(one.get_prev_block_hash(), first_tip);
    assert_eq!(one.get_height(), 1);
    assert_eq!(one.validate(), Ok(true));
    let two = bc.add_block(Vec::new()).unwrap();
    assert_eq!(two.get_prev_block_hash(), one.get_hash());
    assert_eq!(two.get_height(), 2);
    assert_eq!(two.get_transactions().len(), 0);
    assert_eq!(bc.len(), 3);
    assert_eq!(bc.tip_hash(), two.get_hash());
    assert_eq!(bc.block_at(1).unwrap().get_hash(), one.get_hash());
}

#[test]
fn walk_goes_from_the_tip_to_the_genesis_block() {
    let mut bc = Blockchain::create_blockchain(alice().get_address()).unwrap();
    let genesis_hash = bc.tip_hash();
    let one = bc.add_block(vec![Transaction::coinbase_to(vec![1u8; 20], "1").unwrap()]).unwrap();
    let two = bc.add_block(vec![Transaction::coinbase_to(vec![1u8; 20], "2").unwrap()]).unwrap();
    let mut walk = bc.iter();
    let mut seen = Vec::new();
    let mut previous: Option<Block> = None;
    while let Some(block) = walk.next() {
        if let Some(later) = &previous {
            assert_eq!(later.get_prev_block_hash(), block.get_hash());
        }
        seen.push(block.get_hash());
        previous = Some(block);
    }
    assert_eq!(seen, vec![two.get_hash(), one.get_hash(), genesis_hash]);
    assert_eq!(previous.unwrap().get_prev_block_hash(), "");
    assert!(walk.next().is_none());
    assert!(walk.next().is_none());
    // a fresh walk starts at the tip again
    assert_eq!(bc.iter().next().unwrap().get_hash(), two.get_hash());
}

#[test]
fn transactions_are_found_by_id() {
    let mut bc = Blockchain::create_blockchain(alice().get_address()).unwrap();
    let a = Transaction::coinbase_to(vec![1u8; 20], "a").unwrap();
    let b = Transaction::coinbase_to(vec![2u8; 20], "b").unwrap();
    bc.add_block(vec![a.duplicate(), b.duplicate()]).unwrap();
    let found = bc.find_transaction(&b.id).unwrap();
    assert_eq!(found.id, b.id);
    assert_eq!(found.vout[0].pub_key_hash, vec![2u8; 20]);
    assert_eq!(bc.find_transaction(&a.id).unwrap().vout[0].pub_key_hash, vec![1u8; 20]);
    let genesis_id = bc.block_at(0).unwrap().get_transactions()[0].id.clone();
    assert_eq!(bc.find_transaction(&genesis_id).unwrap().id, genesis_id);
    assert_eq!(bc.find_transaction("00").err(), Some(LedgerError::NotFound));
    assert_eq!(bc.find_transaction("").err(), Some(LedgerError::NotFound));
}

#[test]
fn prior_transactions_are_those_that_the_inputs_name() {
    let bc = Blockchain::create_blockchain(alice().get_address()).unwrap();
    let mut tx = spend_genesis(&bc, &alice(), &bob(), 30);
    let prior = bc.get_prev_txs(&tx);
    assert_eq!(prior.len(), 1);
    assert_eq!(prior[0].id, tx.vin[0].txid);
    tx.vin[0].txid = "ABCD".to_string();
    assert!(bc.get_prev_txs(&tx).is_empty());
    assert_eq!(bc.ledger_transactions().len(), 1);
}

#[test]
fn ledger_signs_and_verifies_against_its_own_history() {
    let mut bc = Blockchain::create_blockchain(alice().get_address()).unwrap();
    let mut tx = spend_genesis(&bc, &alice(), &bob(), 30);
    assert_eq!(bc.verify_transaction(&tx), Err(LedgerError::SignatureInvalid));
    let id = tx.id.clone();
    assert_eq!(bc.sign_transaction(&mut tx, &alice().secret_key), Ok(()));
    assert_eq!(tx.id, id);
    assert_eq!(bc.verify_transaction(&tx), Ok(true));
    let block = bc.add_block(vec![tx.duplicate()]).unwrap();
    assert_eq!(block.get_transactions()[0].id, id);
    assert_eq!(block.get_transactions()[0].vin[0].signature, tx.vin[0].signature);
    assert_eq!(block.validate(), Ok(true));
    assert_eq!(bc.find_transaction(&id).map(|t| t.vin[0].signature.clone()), Ok(tx.vin[0].signature.clone()));
    assert_eq!(bc.len(), 2);
}

#[test]
fn coinbase_verifies_whatever_the_ledger_holds() {
    let bc = Blockchain::create_blockchain(alice().get_address()).unwrap();
    let cb = Transaction::coinbase_to(vec![3u8; 20], "free").unwrap();
    assert_eq!(bc.verify_transaction(&cb), Ok(true));
    let mut same = cb.duplicate();
    assert_eq!(bc.sign_transaction(&mut same, &alice().secret_key), Ok(()));
    assert_eq!(same.id, cb.id);
}

#[test]
fn block_with_a_bad_signature_is_refused() {
    let mut bc = Blockchain::create_blockchain(alice().get_address()).unwrap();
    let tip = bc.tip_hash();
    let unsigned = spend_genesis(&bc, &alice(), &bob(), 30);
    assert_eq!(bc.verify_transaction(&unsigned), Err(LedgerError::SignatureInvalid));
    assert_eq!(
        bc.add_block(vec![unsigned.duplicate()]).err(),
        Some(LedgerError::InvalidTransaction)
    );
    let mut forged = unsigned.duplicate();
    bc.sign_transaction(&mut forged, &alice().secret_key).unwrap();
    forged.vout[0].value = 100;
    let good = Transaction::coinbase_to(vec![1u8; 20], "ok").unwrap();
    assert_eq!(bc.verify_transaction(&forged), Err(LedgerError::SignatureInvalid));
    assert_eq!(bc.add_block(vec![good, forged]).err(), Some(LedgerError::InvalidTransaction));
    assert_eq!(bc.len(), 1);
    assert_eq!(bc.tip_hash(), tip);
}

#[test]
fn block_with_an_unresolved_input_is_refused() {
    let mut bc = Blockchain::create_blockchain(alice().get_address()).unwrap();
    let mut tx = spend_genesis(&bc, &alice(), &bob(), 30);
    tx.vin[0].txid = "DEAD".to_string();
    assert_eq!(bc.verify_transaction(&tx), Err(LedgerError::InvalidPriorTransaction));
    assert_eq!(
        bc.sign_transaction(&mut tx, &alice().secret_key),
        Err(LedgerError::InvalidPriorTransaction)
    );
    assert_eq!(bc.add_block(vec![tx]).err(), Some(LedgerError::InvalidTransaction));
    assert_eq!(bc.len(), 1);
}

#[test]
fn stored_blocks_open_as_the_same_ledger() {
    let mut bc = Blockchain::create_blockchain(alice().get_address()).unwrap();
    bc.add_block(vec![Transaction::coinbase_to(vec![1u8; 20], "1").unwrap()]).unwrap();
    bc.add_block(vec![Transaction::coinbase_to(vec![1u8; 20], "2").unwrap()]).unwrap();
    let blocks: Vec<Block> = (0..3).map(|i| bc.block_at(i).unwrap().duplicate()).collect();
    let opened = Blockchain::new(blocks).unwrap();
    assert_eq!(opened.len(), 3);
    assert_eq!(opened.tip_hash(), bc.tip_hash());
}

#[test]
fn no_blocks_are_no_ledger() {
    assert_eq!(Blockchain::new(Vec::new()).err(), Some(LedgerError::NotFound));
}

#[test]
fn blocks_that_do_not_link_are_refused() {
    let mut bc = Blockchain::create_blockchain(alice().get_address()).unwrap();
    bc.add_block(vec![Transaction::coinbase_to(vec![1u8; 20], "1").unwrap()]).unwrap();
    bc.add_block(vec![Transaction::coinbase_to(vec![1u8; 20], "2").unwrap()]).unwrap();
    let block = |i: usize| bc.block_at(i).unwrap().duplicate();
    // a block is missing
    assert_eq!(Blockchain::new(vec![block(0), block(2)]).err(), Some(LedgerError::BrokenChain));
    // the order is wrong
    assert_eq!(
        Blockchain::new(vec![block(0), block(2), block(1)]).err(),
        Some(LedgerError::BrokenChain)
    );
    // the genesis block is missing
    assert_eq!(Blockchain::new(vec![block(1), block(2)]).err(), Some(LedgerError::BrokenChain));
    // a block was changed after it was sealed
    let one = block(1);
    let changed = Block::from_parts(
        one.get_timestamp() + 1,
        one.get_transactions().iter().map(|t| t.duplicate()).collect(),
        one.get_prev_block_hash(),
        one.get_hash(),
        one.get_height(),
        one.get_nonce(),
    );
    assert_eq!(
        Blockchain::new(vec![block(0), changed, block(2)]).err(),
        Some(LedgerError::BrokenChain)
    );
    // a height is wrong
    let wrong = Block::from_parts(
        one.get_timestamp(),
        one.get_transactions().iter().map(|t| t.duplicate()).collect(),
        one.get_prev_block_hash(),
        one.get_hash(),
        5,
        one.get_nonce(),
    );
    assert_eq!(Blockchain::new(vec![block(0), wrong]).err(), Some(LedgerError::BrokenChain));
    assert!(Blockchain::new(vec![block(0), block(1)]).is_ok());
}
