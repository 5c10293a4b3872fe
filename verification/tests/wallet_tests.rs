use blockchain_core::tx::{has_address_shape, hash_of_address, TXInput, TXOutput};
use blockchain_core::errors::LedgerError;
use blockchain_core::wallet::Wallet;

fn unhex(text: &str) -> Vec<u8> {
    (0..text.len() / 2)
        .map(|i| u8::from_str_radix(&text[2 * i..2 * i + 2], 16).unwrap())
        .collect()
}

#[test]
fn keys_from_seed_follow_the_standard_vector() {
    // First test vector of RFC 8032, section 7.1.
    let seed = unhex("9d61b19deffd5a60ba844af492ec2cc44449c5697b326919703bac031cae7f60");
    let public = unhex("d75a980182b10ab7d54bfed3c964073a0ee172f3daa62325af021a68f707511a");
    let wallet = Wallet::from_seed(&seed).unwrap();
    assert_eq!(wallet.public_key, public);
    assert_eq!(wallet.secret_key.len(), 64);
    assert_eq!(&wallet.secret_key[..32], &seed[..]);
    assert_eq!(&wallet.secret_key[32..], &public[..]);
}

#[test]
fn seed_must_have_32_bytes() {
    assert!(Wallet::from_seed(&[1u8; 31]).is_none());
    assert!(Wallet::from_seed(&[1u8; 33]).is_none());
    assert!(Wallet::from_seed(&[]).is_none());
    assert_eq!(Wallet::from_seed(&[1u8; 32]), Wallet::from_seed(&[1u8; 32]));
    assert_ne!(Wallet::from_seed(&[1u8; 32]), Wallet::from_seed(&[2u8; 32]));
}

#[test]
fn fresh_wallets_differ() {
    let a = Wallet::new().unwrap();
    let b = Wallet::new().unwrap();
    assert_eq!(a.secret_key.len(), 64);
    assert_eq!(a.public_key.len(), 32);
    assert_ne!(a.secret_key, b.secret_key);
    assert_ne!(a, b);
}

#[test]
fn hash_of_public_key_is_ripemd160_of_sha256() {
    // The hash of the empty string under RIPEMD-160 over SHA-256.
    assert_eq!(Wallet::hash_of(&[]), unhex("b472a266d0bd89c13706a4132ccfb16f7c3b9fcb"));
    let mut key = vec![1u8, 2, 3];
    let expected = Wallet::hash_of(&key);
    Wallet::hash_pub_key(&mut key);
    assert_eq!(key, expected);
    assert_eq!(key.len(), 20);
    assert_ne!(key, vec![1u8, 2, 3]);
}

#[test]
fn address_spells_the_hash_of_the_public_key() {
    let wallet = Wallet::from_seed(&[7u8; 32]).unwrap();
    let address = wallet.get_address();
    assert!(has_address_shape(&address));
    let output = TXOutput::new(5, address.clone()).unwrap();
    assert_eq!(output.value, 5);
    assert_eq!(output.pub_key_hash, Wallet::hash_of(&wallet.public_key));
    assert_ne!(address, Wallet::from_seed(&[8u8; 32]).unwrap().get_address());
}

#[test]
fn known_addresses_decode_to_their_hash() {
    let legacy = TXOutput::new(1, "1NM2HFXin4cEQRBLjkNZAS98qLX9JKzjKn".to_string()).unwrap();
    assert_eq!(legacy.pub_key_hash, unhex("ea2407829a5055466b27784cde8cf463167946bf"));
    let cash = TXOutput::new(
        2,
        "bitcoincash:qr6m7j9njldwwzlg9v7v53unlr4jkmx6eylep8ekg2".to_string(),
    )
    .unwrap();
    assert_eq!(cash.pub_key_hash, unhex("F5BF48B397DAE70BE82B3CCA4793F8EB2B6CDAC9"));
    assert_eq!(cash.value, 2);
}

#[test]
fn address_decodes_without_an_output() {
    assert_eq!(
        hash_of_address("1NM2HFXin4cEQRBLjkNZAS98qLX9JKzjKn"),
        Ok(unhex("ea2407829a5055466b27784cde8cf463167946bf"))
    );
    assert_eq!(hash_of_address("bitcoincash:qqqqqqqq"), Err(LedgerError::InvalidAddress));
    assert_eq!(hash_of_address("1NM2HFXin4cEQRBLjkNZAS98qLX9JKzjKm"), Err(LedgerError::InvalidAddress));
}

#[test]
fn texts_that_are_no_address_are_refused() {
    for text in [
        "",
        "0",
        "not an address",
        "1NM2HFXin4cEQRBLjkNZAS98qLX9JKzjKm",
        "bitcoincash:qr6m7j9njldwwzlg9v7v53unlr4jkmx6eylep8ekg3",
        "bitcoincash:",
        "bitcoincash:qqqqqqqq",
        "bitcoincash:qqqqqqqqq",
        "a:b:c",
        "caf\u{e9}",
    ] {
        assert_eq!(
            TXOutput::new(1, text.to_string()).err(),
            Some(LedgerError::InvalidAddress),
            "{}",
            text
        );
    }
}

#[test]
fn shape_asks_for_ascii_and_a_payload_behind_a_colon() {
    assert!(has_address_shape("1NM2HFXin4cEQRBLjkNZAS98qLX9JKzjKn"));
    assert!(has_address_shape(""));
    assert!(has_address_shape("prefix:0123456789"));
    assert!(!has_address_shape("prefix:012345678"));
    assert!(!has_address_shape("a:0123456789:0"));
    assert!(!has_address_shape("caf\u{e9}"));
}

#[test]
fn outputs_unlock_by_hash_and_inputs_by_key() {
    let wallet = Wallet::from_seed(&[3u8; 32]).unwrap();
    let hash = Wallet::hash_of(&wallet.public_key);
    let output = TXOutput::locked_to(10, hash.clone());
    assert!(output.can_be_unlock_with(&hash));
    assert!(!output.can_be_unlock_with(&wallet.public_key));
    assert!(!output.can_be_unlock_with(&[]));
    let input = TXInput {
        txid: String::new(),
        vout: 0,
        signature: Vec::new(),
        pub_key: wallet.public_key.clone(),
    };
    assert!(input.can_unlock_output_with(&hash));
    assert!(!input.can_unlock_output_with(&wallet.public_key));
    let copy = output.duplicate();
    assert_eq!(copy.value, 10);
    assert_eq!(copy.pub_key_hash, hash);
    let twin = input.duplicate();
    assert_eq!(twin.pub_key, input.pub_key);
    assert_eq!(twin.vout, 0);
}
