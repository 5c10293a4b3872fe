use blockchain_core::codec::{
    bytes_eq, concat_bytes, copy_bytes, digest_text, has_leading_zero_digits, str_eq, to_hex,
};
use blockchain_core::errors::LedgerError;

#[test]
fn hex_of_bytes_is_upper_case() {
    assert_eq!(to_hex(&[0x00, 0x0f, 0xa5, 0xff]), "000FA5FF");
    assert_eq!(to_hex(&[0x12, 0x34, 0x56, 0x78, 0x9a, 0xbc, 0xde]), "123456789ABCDE");
    assert_eq!(to_hex(&[]), "");
}

#[test]
fn leading_zero_digits_are_counted_in_half_bytes() {
    assert!(has_leading_zero_digits(&[0x00, 0x12], 2));
    assert!(!has_leading_zero_digits(&[0x01, 0x00], 2));
    assert!(!has_leading_zero_digits(&[0x10, 0x00], 1));
    assert!(has_leading_zero_digits(&[0x0f], 1));
    assert!(has_leading_zero_digits(&[0x00, 0x0f], 3));
    assert!(!has_leading_zero_digits(&[0x00, 0x1f], 3));
    assert!(!has_leading_zero_digits(&[0x00], 3));
    assert!(has_leading_zero_digits(&[], 0));
    assert!(!has_leading_zero_digits(&[], 1));
}

#[test]
fn byte_strings_compare_by_content() {
    assert!(bytes_eq(&[1, 2], &[1, 2]));
    assert!(!bytes_eq(&[1, 2], &[1, 3]));
    assert!(!bytes_eq(&[1, 2], &[1, 2, 3]));
    assert!(bytes_eq(&[], &[]));
    assert!(str_eq("abc", "abc"));
    assert!(!str_eq("abc", "abd"));
    assert!(!str_eq("abc", "ab"));
    assert!(str_eq("", ""));
}

#[test]
fn copies_and_joins_keep_every_byte() {
    assert_eq!(copy_bytes(&[9, 8, 7]), vec![9, 8, 7]);
    assert_eq!(concat_bytes(&[1, 2], &[3]), vec![1, 2, 3]);
    assert_eq!(concat_bytes(&[], &[]), Vec::<u8>::new());
}

#[test]
fn digest_text_is_sha256_in_hex() {
    // SHA-256 of the empty string and of "abc", as published with the standard.
    assert_eq!(
        digest_text(Some(Vec::new())),
        Ok("E3B0C44298FC1C149AFBF4C8996FB92427AE41E4649B934CA495991B7852B855".to_string())
    );
    assert_eq!(
        digest_text(Some(b"abc".to_vec())),
        Ok("BA7816BF8F01CFEA414140DE5DAE2223B00361A396177A9CB410FF61F20015AD".to_string())
    );
}

#[test]
fn digest_text_without_encoding_is_a_serialization_error() {
    assert_eq!(digest_text(None), Err(LedgerError::Serialization));
}

#[test]
fn every_error_has_its_own_description() {
    let all = [
        LedgerError::Serialization,
        LedgerError::InsufficientFunds,
        LedgerError::InvalidPriorTransaction,
        LedgerError::SignatureInvalid,
        LedgerError::InvalidTransaction,
        LedgerError::NotFound,
        LedgerError::InvalidAddress,
        LedgerError::NonceExhausted,
        LedgerError::BrokenChain,
        LedgerError::Clock,
        LedgerError::ChainFull,
        LedgerError::InvalidAmount,
        LedgerError::InvalidId,
        LedgerError::OutputSpent,
        LedgerError::Overspend,
    ];
    for (i, a) in all.iter().enumerate() {
        for (j, b) in all.iter().enumerate() {
            assert_eq!(i == j, a.describe() == b.describe());
        }
    }
    assert_eq!(LedgerError::InsufficientFunds.describe(), "not enough balance");
}
