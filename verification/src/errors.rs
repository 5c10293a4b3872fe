//! The failures that the ledger engine reports.

use vstd::prelude::*;

verus! {

/// Why an operation of the ledger engine was refused.
#[derive(Clone, Copy, Debug, PartialEq, Eq, Structural)]
pub enum LedgerError {
    /// A value could not be encoded, so no hash of it exists.
    Serialization,
    /// The sender's spendable outputs do not cover the requested amount.
    InsufficientFunds,
    /// An input names a prior output that cannot be resolved.
    InvalidPriorTransaction,
    /// A signature does not verify under the public key that its input declares.
    SignatureInvalid,
    /// A transaction that was handed over for a block does not verify.
    InvalidTransaction,
    /// A ledger, a block or a transaction that was asked for is absent.
    NotFound,
    /// A text is no address that the address codec accepts.
    InvalidAddress,
    /// Every nonce was tried and none gave a hash below the target.
    NonceExhausted,
    /// Blocks that were handed over do not form a sealed, hash-linked chain.
    BrokenChain,
    /// The clock shows a time before the Unix epoch.
    Clock,
    /// The chain has as many blocks as a height can count.
    ChainFull,
    /// The amount of a spend is negative.
    InvalidAmount,
    /// A transaction carries an id that is not the hash that it had before
    /// it was signed, or two transactions of one block carry the same id.
    InvalidId,
    /// An input names an output that is not unspent, or two inputs of one
    /// transaction name the same output.
    OutputSpent,
    /// The outputs of a transaction are worth more than the outputs that its
    /// inputs consume, or an output is worth less than nothing.
    Overspend,
}

impl LedgerError {
    /// A short description for messages.
    pub fn describe(&self) -> (text: &'static str)
        ensures
            text@ == Self::spec_describe(*self)@,
    {
        match self {
            LedgerError::Serialization => "value could not be encoded",
            LedgerError::InsufficientFunds => "not enough balance",
            LedgerError::InvalidPriorTransaction => "previous transaction is not correct",
            LedgerError::SignatureInvalid => "signature does not verify",
            LedgerError::InvalidTransaction => "transaction does not verify",
            LedgerError::NotFound => "not found",
            LedgerError::InvalidAddress => "address is not valid",
            LedgerError::NonceExhausted => "no nonce meets the target",
            LedgerError::BrokenChain => "blocks do not form a chain",
            LedgerError::Clock => "clock is set before the epoch",
            LedgerError::ChainFull => "chain holds no further block",
            LedgerError::InvalidAmount => "amount is negative",
            LedgerError::InvalidId => "id of a transaction is not its unsigned hash or not its own",
            LedgerError::OutputSpent => "input names an output that is not unspent",
            LedgerError::Overspend => "outputs are worth more than inputs",
        }
    }

    /// The text that `describe` returns for each failure.
    pub open spec fn spec_describe(e: LedgerError) -> &'static str {
        match e {
            LedgerError::Serialization => "value could not be encoded",
            LedgerError::InsufficientFunds => "not enough balance",
            LedgerError::InvalidPriorTransaction => "previous transaction is not correct",
            LedgerError::SignatureInvalid => "signature does not verify",
            LedgerError::InvalidTransaction => "transaction does not verify",
            LedgerError::NotFound => "not found",
            LedgerError::InvalidAddress => "address is not valid",
            LedgerError::NonceExhausted => "no nonce meets the target",
            LedgerError::BrokenChain => "blocks do not form a chain",
            LedgerError::Clock => "clock is set before the epoch",
            LedgerError::ChainFull => "chain holds no further block",
            LedgerError::InvalidAmount => "amount is negative",
            LedgerError::InvalidId => "id of a transaction is not its unsigned hash or not its own",
            LedgerError::OutputSpent => "input names an output that is not unspent",
            LedgerError::Overspend => "outputs are worth more than inputs",
        }
    }
}

} // verus!
