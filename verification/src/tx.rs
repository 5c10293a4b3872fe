//! Inputs and outputs, the parts of a transaction.

use crate::codec::{bytes_eq, copy_bytes};
use crate::errors::LedgerError;
use crate::wallet::{spec_hash_pub_key, Wallet};
use bitcoincash_addr::Address;
use vstd::prelude::*;
use vstd::string::*;

verus! {

/// The bytes that an address stands for, or `None` for a text that is no
/// address.
pub uninterp spec fn spec_address_body(text: Seq<char>) -> Option<Seq<u8>>;

/// What is asked of a text before the address codec sees it: it is ASCII, of
/// moderate length, and a colon in it is followed by at least ten characters.
/// Every address of either scheme is of this shape.
pub open spec fn address_shape(text: Seq<char>) -> bool {
    &&& text.len() < 0x1000_0000
    &&& vstd::utf8::is_ascii_chars(text)
    &&& forall|i: int| 0 <= i < text.len() && text[i] == ':' ==> i + 10 < text.len()
}

/// `bitcoincash_addr::Address::decode`: the body of the address that `text`
/// spells in the CashAddr or the Base58 scheme, a function of the text, and
/// `None` where the crate reports an error. With a valid prefix and checksum
/// and fewer than two symbols of payload the crate reads past the end of an
/// empty buffer; the shape keeps such texts out.
#[verifier::external_body]
fn decode_address(text: &str) -> (body: Option<Vec<u8>>)
    requires
        address_shape(text@),
    ensures
        match body {
            Some(bytes) => spec_address_body(text@) == Some(bytes@),
            None => spec_address_body(text@) is None,
        },
{
    match Address::decode(text) {
        Ok(address) => Some(address.body),
        Err(_) => None,
    }
}

/// Tells whether a text has the shape of an address.
pub fn has_address_shape(text: &str) -> (ok: bool)
    ensures
        ok == address_shape(text@),
{
    if !text.is_ascii() {
        return false;
    }
    let bytes = text.as_bytes();
    proof {
        is_ascii_spec_bytes(text);
    }
    let n = bytes.len();
    if n >= 0x1000_0000 {
        return false;
    }
    let mut i: usize = 0;
    while i < n
        invariant
            i <= n,
            n == text@.len(),
            n == bytes@.len(),
            n < 0x1000_0000,
            vstd::utf8::is_ascii_chars(text@),
            forall|j: int| 0 <= j < n ==> bytes@[j] == text@[j] as u8,
            forall|j: int| 0 <= j < i && text@[j] == ':' ==> j + 10 < n,
        decreases n - i,
    {
        if bytes[i] == 58 && i + 10 >= n {
            assert(text@[i as int] as u8 == 58);
            assert(text@[i as int] == ':');
            return false;
        }
        assert(text@[i as int] == ':' ==> bytes@[i as int] == 58);
        i += 1;
    }
    true
}

/// The hash that `address` spells, or `InvalidAddress` for a text that has
/// not the shape of an address or that the address codec refuses.
pub fn hash_of_address(address: &str) -> (decoded: Result<Vec<u8>, LedgerError>)
    ensures
        match decoded {
            Ok(hash) => address_shape(address@) && spec_address_body(address@) == Some(hash@),
            Err(e) => e == LedgerError::InvalidAddress && (!address_shape(address@)
                || spec_address_body(address@) is None),
        },
{
    if !has_address_shape(address) {
        return Err(LedgerError::InvalidAddress);
    }
    match decode_address(address) {
        Some(hash) => Ok(hash),
        None => Err(LedgerError::InvalidAddress),
    }
}

/// What an input holds.
pub struct InputModel {
    pub txid: Seq<char>,
    pub vout: i32,
    pub signature: Seq<u8>,
    pub pub_key: Seq<u8>,
}

/// What an output holds.
pub struct OutputModel {
    pub value: i32,
    pub pub_key_hash: Seq<u8>,
}

/// A reference to one output of an earlier transaction, with the signature
/// and the public key of the one who spends it.
#[derive(Debug, Clone)]
pub struct TXInput {
    /// The transaction that holds the output.
    pub txid: String,
    /// The place of the output in that transaction.
    pub vout: i32,
    pub signature: Vec<u8>,
    pub pub_key: Vec<u8>,
}

/// A value locked to the hash of a public key.
#[derive(Debug, Clone)]
pub struct TXOutput {
    pub value: i32,
    pub pub_key_hash: Vec<u8>,
}

/// A list of outputs.
#[derive(Debug, Clone)]
pub struct TXOutputs {
    pub outputs: Vec<TXOutput>,
}

impl View for TXInput {
    type V = InputModel;

    open spec fn view(&self) -> InputModel {
        InputModel {
            txid: self.txid@,
            vout: self.vout,
            signature: self.signature@,
            pub_key: self.pub_key@,
        }
    }
}

impl DeepView for TXInput {
    type V = InputModel;

    open spec fn deep_view(&self) -> InputModel {
        self.view()
    }
}

impl View for TXOutput {
    type V = OutputModel;

    open spec fn view(&self) -> OutputModel {
        OutputModel { value: self.value, pub_key_hash: self.pub_key_hash@ }
    }
}

impl DeepView for TXOutput {
    type V = OutputModel;

    open spec fn deep_view(&self) -> OutputModel {
        self.view()
    }
}

impl View for TXOutputs {
    type V = Seq<OutputModel>;

    open spec fn view(&self) -> Seq<OutputModel> {
        self.outputs.deep_view()
    }
}

impl InputModel {
    /// A coinbase input names no transaction and carries the sentinel index.
    pub open spec fn is_sentinel(self) -> bool {
        self.txid.len() == 0 && self.vout == -1
    }
}

impl TXInput {
    /// An input with the same contents.
    pub fn duplicate(&self) -> (copy: TXInput)
        ensures
            copy@ == self@,
    {
        TXInput {
            txid: self.txid.clone(),
            vout: self.vout,
            signature: copy_bytes(self.signature.as_slice()),
            pub_key: copy_bytes(self.pub_key.as_slice()),
        }
    }

    /// Tells whether the public key of this input hashes to `unlocking_data`,
    /// that is, whether the holder of that hash made the input.
    pub fn can_unlock_output_with(&self, unlocking_data: &[u8]) -> (ok: bool)
        ensures
            ok == (spec_hash_pub_key(self.pub_key@) == unlocking_data@),
    {
        let pub_key_hash = Wallet::hash_of(self.pub_key.as_slice());
        bytes_eq(pub_key_hash.as_slice(), unlocking_data)
    }
}

impl TXOutput {
    /// An output with the same contents.
    pub fn duplicate(&self) -> (copy: TXOutput)
        ensures
            copy@ == self@,
    {
        TXOutput { value: self.value, pub_key_hash: copy_bytes(self.pub_key_hash.as_slice()) }
    }

    /// Tells whether the output is locked to `unlocking_data`.
    pub fn can_be_unlock_with(&self, unlocking_data: &[u8]) -> (ok: bool)
        ensures
            ok == (self.pub_key_hash@ == unlocking_data@),
    {
        bytes_eq(self.pub_key_hash.as_slice(), unlocking_data)
    }

    /// An output of `value` locked to the hash `pub_key_hash`.
    pub fn locked_to(value: i32, pub_key_hash: Vec<u8>) -> (output: TXOutput)
        ensures
            output@ == (OutputModel { value, pub_key_hash: pub_key_hash@ }),
    {
        TXOutput { value, pub_key_hash }
    }

    /// Locks the output to the hash that `address` spells. A text that is no
    /// address leaves the output as it was.
    fn lock(&mut self, address: &str) -> (done: Result<(), LedgerError>)
        ensures
            final(self).value == old(self).value,
            match done {
                Ok(()) => address_shape(address@) && spec_address_body(address@) == Some(
                    final(self).pub_key_hash@,
                ),
                Err(e) => e == LedgerError::InvalidAddress && final(self)@ == old(self)@ && (
                !address_shape(address@) || spec_address_body(address@) is None),
            },
    {
        match hash_of_address(address) {
            Ok(pub_key_hash) => {
                self.pub_key_hash = pub_key_hash;
                Ok(())
            },
            Err(e) => Err(e),
        }
    }

    /// An output of `value` locked to the hash that `address` spells, or
    /// `InvalidAddress` for a text that is no address.
    pub fn new(value: i32, address: String) -> (made: Result<TXOutput, LedgerError>)
        ensures
            match made {
                Ok(output) => address_shape(address@) && spec_address_body(address@) == Some(
                    output.pub_key_hash@,
                ) && output.value == value,
                Err(e) => e == LedgerError::InvalidAddress && (!address_shape(address@)
                    || spec_address_body(address@) is None),
            },
    {
        let mut txo = TXOutput { value, pub_key_hash: Vec::new() };
        match txo.lock(address.as_str()) {
            Ok(()) => Ok(txo),
            Err(e) => Err(e),
        }
    }
}

impl TXOutputs {
    /// The empty list.
    pub fn new() -> (list: TXOutputs)
        ensures
            list@.len() == 0,
    {
        TXOutputs { outputs: Vec::new() }
    }
}

} // verus!
