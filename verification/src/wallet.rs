//! Key pairs and the hash of a public key to which outputs are locked.

use crate::codec::{sha256, spec_sha256};
use bitcoincash_addr::{Address, HashType, Network, Scheme};
use crypto::digest::Digest;
use crypto::ed25519;
use crypto::ripemd160::Ripemd160;
use rand::rngs::OsRng;
use rand::RngCore;
use vstd::prelude::*;

verus! {

/// The RIPEMD-160 digest of a byte string.
pub uninterp spec fn spec_ripemd160(data: Seq<u8>) -> Seq<u8>;

/// The secret key and the public key that Ed25519 derives from a seed.
pub uninterp spec fn spec_ed25519_keypair(seed: Seq<u8>) -> (Seq<u8>, Seq<u8>);

/// The Ed25519 signature of a message under a secret key.
pub uninterp spec fn spec_ed25519_signature(message: Seq<u8>, secret_key: Seq<u8>) -> Seq<u8>;

/// Whether Ed25519 accepts a signature of a message under a public key.
pub uninterp spec fn spec_ed25519_verify(
    message: Seq<u8>,
    public_key: Seq<u8>,
    signature: Seq<u8>,
) -> bool;

/// The Base58 text of an address whose body is the given bytes.
pub uninterp spec fn spec_base58_address(body: Seq<u8>) -> Seq<char>;

/// The hash of a public key: RIPEMD-160 over SHA-256.
pub open spec fn spec_hash_pub_key(public_key: Seq<u8>) -> Seq<u8> {
    spec_ripemd160(spec_sha256(public_key))
}

/// A secret key and a public key belong together when every signature made
/// with the first has 64 bytes and is accepted under the second. This is
/// what a signature scheme promises of the keys that it makes. Nothing here
/// claims it of any keys: the laws that need it take it as a hypothesis.
pub open spec fn is_key_pair(secret_key: Seq<u8>, public_key: Seq<u8>) -> bool {
    &&& secret_key.len() == 64
    &&& public_key.len() == 32
    &&& forall|message: Seq<u8>|
        (#[trigger] spec_ed25519_signature(message, secret_key)).len() == 64
            && spec_ed25519_verify(
            message,
            public_key,
            spec_ed25519_signature(message, secret_key),
        )
}

/// `crypto::ripemd160::Ripemd160`, fed `data` in one piece: the result is the
/// RIPEMD-160 digest of `data`, 20 bytes. The crate counts the input in bits
/// and stops the program when that count leaves 64 bits, so longer inputs are
/// kept out.
#[verifier::external_body]
pub(crate) fn ripemd160(data: &[u8]) -> (digest: Vec<u8>)
    requires
        data@.len() < 0x2000_0000_0000_0000,
    ensures
        digest@ == spec_ripemd160(data@),
        digest@.len() == 20,
{
    let mut hasher = Ripemd160::new();
    hasher.input(data);
    let mut out = vec![0u8; 20];
    hasher.result(&mut out);
    out
}

/// `crypto::ed25519::keypair` on a seed of 32 bytes: a secret key of 64 bytes
/// and a public key of 32, both a function of the seed.
#[verifier::external_body]
pub(crate) fn ed25519_keypair(seed: &[u8]) -> (keys: (Vec<u8>, Vec<u8>))
    requires
        seed@.len() == 32,
    ensures
        (keys.0@, keys.1@) == spec_ed25519_keypair(seed@),
        keys.0@.len() == 64,
        keys.1@.len() == 32,
{
    let (secret_key, public_key) = ed25519::keypair(seed);
    (secret_key.to_vec(), public_key.to_vec())
}

/// `crypto::ed25519::signature` with a secret key of 64 bytes, as `keypair`
/// makes them: the signature has 64 bytes and is a function of the message and
/// the key. The crate reads the key's first 64 bytes without a check, so other
/// lengths are kept out.
#[verifier::external_body]
pub(crate) fn ed25519_signature(message: &[u8], secret_key: &[u8]) -> (signature: Vec<u8>)
    requires
        secret_key@.len() == 64,
    ensures
        signature@ == spec_ed25519_signature(message@, secret_key@),
        signature@.len() == 64,
{
    ed25519::signature(message, secret_key).to_vec()
}

/// `crypto::ed25519::verify` with a public key of 32 bytes and a signature of
/// 64: the answer is a function of the three arguments. The crate reads both
/// at fixed offsets without a check, so other lengths are kept out.
#[verifier::external_body]
pub(crate) fn ed25519_verify(message: &[u8], public_key: &[u8], signature: &[u8]) -> (ok: bool)
    requires
        public_key@.len() == 32,
        signature@.len() == 64,
    ensures
        ok == spec_ed25519_verify(message@, public_key@, signature@),
{
    ed25519::verify(message, public_key, signature)
}

/// `rand::rngs::OsRng::try_fill_bytes` on a buffer of 32 bytes: the bytes come
/// from the operating system, so nothing but their number is known, and `None`
/// stands for a source that failed.
#[verifier::external_body]
pub(crate) fn random_seed() -> (seed: Option<Vec<u8>>)
    ensures
        seed matches Some(bytes) ==> bytes@.len() == 32,
{
    let mut key = [0u8; 32];
    match OsRng.try_fill_bytes(&mut key) {
        Ok(()) => Some(key.to_vec()),
        Err(_) => None,
    }
}

/// `bitcoincash_addr::Address::encode` in the Base58 scheme, for a script
/// hash on the main network: the text is a function of the body, and this
/// scheme never fails.
#[verifier::external_body]
pub(crate) fn base58_address(body: &Vec<u8>) -> (text: String)
    ensures
        text@ == spec_base58_address(body@),
{
    let address = Address::new(body.clone(), Scheme::Base58, HashType::Script, Network::Main);
    match address.encode() {
        Ok(text) => text,
        Err(_) => String::new(),
    }
}

/// An Ed25519 key pair that owns outputs.
#[derive(Debug, Clone, PartialEq)]
pub struct Wallet {
    pub secret_key: Vec<u8>,
    pub public_key: Vec<u8>,
}

impl Wallet {
    /// The keys have the lengths of Ed25519: 64 bytes the secret key, 32 the
    /// public key.
    pub open spec fn wf(&self) -> bool {
        self.secret_key@.len() == 64 && self.public_key@.len() == 32
    }

    /// The wallet whose keys Ed25519 derives from `seed`, which must have 32
    /// bytes: another length gives `None`.
    pub fn from_seed(seed: &[u8]) -> (made: Option<Wallet>)
        ensures
            match made {
                Some(wallet) => seed@.len() == 32 && (wallet.secret_key@, wallet.public_key@)
                    == spec_ed25519_keypair(seed@) && wallet.wf(),
                None => seed@.len() != 32,
            },
    {
        if seed.len() != 32 {
            return None;
        }
        let (secret_key, public_key) = ed25519_keypair(seed);
        Some(Wallet { secret_key, public_key })
    }

    /// A wallet with fresh keys, or `None` when the operating system gave no
    /// random bytes. The keys are those that Ed25519 derives from a seed of
    /// 32 bytes; which seed is not determined.
    pub fn new() -> (wallet: Option<Wallet>)
        ensures
            wallet matches Some(w) ==> w.wf() && exists|seed: Seq<u8>|
                seed.len() == 32 && (w.secret_key@, w.public_key@)
                    == #[trigger] spec_ed25519_keypair(seed),
    {
        match random_seed() {
            Some(seed) => {
                let made = Wallet::from_seed(seed.as_slice());
                proof {
                    if made is Some {
                        assert((made->0.secret_key@, made->0.public_key@) == spec_ed25519_keypair(
                            seed@,
                        ));
                    }
                }
                made
            },
            None => None,
        }
    }

    /// The hash of a public key, the value to which outputs are locked.
    pub fn hash_of(pub_key: &[u8]) -> (hash: Vec<u8>)
        ensures
            hash@ == spec_hash_pub_key(pub_key@),
            hash@.len() == 20,
    {
        let first = sha256(pub_key);
        ripemd160(first.as_slice())
    }

    /// Replaces a public key by its hash.
    pub fn hash_pub_key(pub_key: &mut Vec<u8>)
        ensures
            final(pub_key)@ == spec_hash_pub_key(old(pub_key)@),
            final(pub_key)@.len() == 20,
    {
        let hash = Wallet::hash_of(pub_key.as_slice());
        *pub_key = hash;
    }

    /// The address under which this wallet receives: the Base58 text of the
    /// hash of its public key.
    pub fn get_address(&self) -> (address: String)
        ensures
            address@ == spec_base58_address(spec_hash_pub_key(self.public_key@)),
    {
        let hash = Wallet::hash_of(self.public_key.as_slice());
        base58_address(&hash)
    }
}

} // verus!
