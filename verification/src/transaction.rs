//! Transfers: structural validation, canonical encoding and content-derived ids.
use vstd::prelude::*;

use crate::error::{TransactionError, TransactionValidationError};
use crate::hash::{
    decode_transaction_fields, encode_transaction_fields, hex_encode, hex_lower, sha256,
    sha256_digest, transaction_decoding, transaction_encoding, transaction_lengths_fit,
    transaction_lengths_fit_in, lemma_encoding_lengths_fit,
};

verus! {

/// The content-derived id of a transfer: the SHA-256 of its canonical bytes.
#[derive(Debug, Clone, Copy, PartialEq, Eq, Hash)]
pub struct TransactionId([u8; 32]);

impl View for TransactionId {
    type V = Seq<u8>;

    closed spec fn view(&self) -> Seq<u8> {
        self.0@
    }
}

impl TransactionId {
    /// The id with the given digest bytes.
    pub fn from_digest(digest: [u8; 32]) -> (id: TransactionId)
        ensures
            id@ == digest@,
    {
        TransactionId(digest)
    }

    /// The id's bytes.
    pub fn as_bytes(&self) -> (bytes: &[u8; 32])
        ensures
            bytes@ == self@,
    {
        &self.0
    }

    /// The id as lower-case hexadecimal text.
    pub fn to_hex(&self) -> (text: String)
        ensures
            text@ == hex_lower(self@),
    {
        hex_encode(&self.0)
    }
}

/// A transfer of `amount` tokens from `sender` to `receiver`, the sender's `nonce`-th.
#[derive(Debug, PartialEq, Eq)]
pub struct Transaction {
    pub sender: String,
    pub receiver: String,
    pub amount: u64,
    pub nonce: u64,
}

/// A transfer with its account ids taken as character sequences.
pub struct TransactionView {
    pub sender: Seq<char>,
    pub receiver: Seq<char>,
    pub amount: u64,
    pub nonce: u64,
}

impl View for Transaction {
    type V = TransactionView;

    open spec fn view(&self) -> TransactionView {
        TransactionView {
            sender: self.sender@,
            receiver: self.receiver@,
            amount: self.amount,
            nonce: self.nonce,
        }
    }
}

impl Clone for Transaction {
    fn clone(&self) -> (copy: Self)
        ensures
            copy@ == self@,
    {
        Transaction {
            sender: self.sender.clone(),
            receiver: self.receiver.clone(),
            amount: self.amount,
            nonce: self.nonce,
        }
    }
}

impl TransactionView {
    /// Structural validation: a positive amount between two distinct accounts.
    pub open spec fn validation(self) -> Result<(), TransactionValidationError> {
        if self.amount == 0 {
            Err(TransactionValidationError::ZeroAmount)
        } else if self.sender == self.receiver {
            Err(TransactionValidationError::SelfTransfer)
        } else {
            Ok(())
        }
    }

    /// The canonical bytes of the transfer.
    pub open spec fn canonical_bytes(self) -> Seq<u8> {
        transaction_encoding(self.sender, self.receiver, self.amount, self.nonce)
    }

    /// The content-derived id of the transfer.
    pub open spec fn id(self) -> Seq<u8> {
        sha256(self.canonical_bytes())
    }
}

/// Ids are content-derived: transfers with the same canonical bytes (in particular, the
/// same fields) have the same id, on every machine.
pub proof fn lemma_id_content_derived(a: TransactionView, b: TransactionView)
    requires
        a.canonical_bytes() == b.canonical_bytes(),
    ensures
        a.id() == b.id(),
{
}

/// Structural validation of a value.
pub trait Validate {
    type Error;

    fn validate(&self) -> Result<(), Self::Error>;
}

impl Validate for Transaction {
    type Error = TransactionValidationError;

    fn validate(&self) -> (r: Result<(), TransactionValidationError>)
        ensures
            r == self@.validation(),
    {
        if self.amount == 0 {
            return Err(TransactionValidationError::ZeroAmount);
        }
        if self.sender == self.receiver {
            return Err(TransactionValidationError::SelfTransfer);
        }
        Ok(())
    }
}

impl Transaction {
    /// A transfer with the given fields.
    pub fn new(sender: &str, receiver: &str, amount: u64, nonce: u64) -> (t: Self)
        ensures
            t@ == (TransactionView { sender: sender@, receiver: receiver@, amount, nonce }),
    {
        Transaction { sender: sender.to_owned(), receiver: receiver.to_owned(), amount, nonce }
    }

    /// The canonical bytes: the bincode encoding (standard configuration) of the fields in order.
    pub fn canonical_bytes(&self) -> (bytes: Vec<u8>)
        ensures
            bytes@ == self@.canonical_bytes(),
    {
        match encode_transaction_fields(
            self.sender.as_str(),
            self.receiver.as_str(),
            self.amount,
            self.nonce,
        ) {
            Ok(bytes) => bytes,
            Err(_) => Vec::new(),
        }
    }

    /// The content-derived id: SHA-256 of the canonical bytes.
    pub fn id(&self) -> (id: TransactionId)
        ensures
            id@ == self@.id(),
    {
        let bytes = self.canonical_bytes();
        TransactionId::from_digest(sha256_digest(bytes.as_slice()))
    }

    /// The content-derived id (the name used by blocks and chains).
    pub fn hash_id(&self) -> (id: TransactionId)
        ensures
            id@ == self@.id(),
    {
        self.id()
    }

    /// Decodes a transfer from canonical bytes; bytes after the encoding are ignored, and
    /// empty or cut-short input is refused, as is input whose string fields declare more
    /// bytes than it holds.
    pub fn from_canonical_bytes(bytes: &[u8]) -> (res: Result<Self, TransactionError>)
        ensures
            transaction_lengths_fit(bytes@) ==> match transaction_decoding(bytes@) {
                Some(fields) => res matches Ok(t) && t@ == (TransactionView {
                    sender: fields.0,
                    receiver: fields.1,
                    amount: fields.2,
                    nonce: fields.3,
                }),
                None => res == Err::<Self, TransactionError>(TransactionError::InvalidEncoding),
            },
            !transaction_lengths_fit(bytes@) ==> res == Err::<Self, TransactionError>(
                TransactionError::InvalidEncoding,
            ),
            forall|t: TransactionView| bytes@ == #[trigger] t.canonical_bytes() ==> (res matches Ok(
                decoded,
            ) && decoded@ == t),
            bytes@.len() == 0 ==> res == Err::<Self, TransactionError>(TransactionError::InvalidEncoding),
            forall|t: TransactionView|
                bytes@.len() < #[trigger] t.canonical_bytes().len() && bytes@ == t.canonical_bytes().take(
                    bytes@.len() as int,
                ) ==> res == Err::<Self, TransactionError>(TransactionError::InvalidEncoding),
    {
        assert(bytes@.len() == bytes.len());
        if !transaction_lengths_fit_in(bytes) {
            proof {
                assert forall|t: TransactionView| bytes@ != #[trigger] t.canonical_bytes() by {
                    if bytes@ == t.canonical_bytes() {
                        lemma_encoding_lengths_fit(t.sender, t.receiver, t.amount, t.nonce);
                    }
                }
            }
            return Err(TransactionError::InvalidEncoding);
        }
        match decode_transaction_fields(bytes) {
            Ok((sender, receiver, amount, nonce)) => Ok(Transaction { sender, receiver, amount, nonce }),
            Err(_) => Err(TransactionError::InvalidEncoding),
        }
    }
}

} // verus!
