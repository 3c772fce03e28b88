//! Typed errors for each layer, and their mathematical views.
use vstd::prelude::*;

use crate::transaction::TransactionId;

verus! {

/// Structural problems with a transfer, found before the ledger is consulted.
#[derive(Debug, Clone, Copy, PartialEq, Eq, Structural)]
pub enum TransactionValidationError {
    ZeroAmount,
    SelfTransfer,
}

/// Problems decoding a transfer from its canonical bytes.
#[derive(Debug, Clone, Copy, PartialEq, Eq, Structural)]
pub enum TransactionError {
    InvalidEncoding,
}

/// Errors of ledger operations.
#[derive(Debug, Clone, PartialEq, Eq)]
pub enum LedgerError {
    AccountAlreadyExists(String),
    SenderNotFound(String),
    ReceiverNotFound(String),
    ZeroAmount,
    SelfTransfer,
    InsufficientBalance { available: u64, requested: u64 },
    IncorrectNonce { expected: u64, received: u64 },
    BalanceOverflow,
}

/// A `LedgerError` with its account ids taken as character sequences.
pub enum LedgerErrorView {
    AccountAlreadyExists(Seq<char>),
    SenderNotFound(Seq<char>),
    ReceiverNotFound(Seq<char>),
    ZeroAmount,
    SelfTransfer,
    InsufficientBalance { available: u64, requested: u64 },
    IncorrectNonce { expected: u64, received: u64 },
    BalanceOverflow,
}

impl View for LedgerError {
    type V = LedgerErrorView;

    open spec fn view(&self) -> LedgerErrorView {
        match self {
            LedgerError::AccountAlreadyExists(id) => LedgerErrorView::AccountAlreadyExists(id@),
            LedgerError::SenderNotFound(id) => LedgerErrorView::SenderNotFound(id@),
            LedgerError::ReceiverNotFound(id) => LedgerErrorView::ReceiverNotFound(id@),
            LedgerError::ZeroAmount => LedgerErrorView::ZeroAmount,
            LedgerError::SelfTransfer => LedgerErrorView::SelfTransfer,
            LedgerError::InsufficientBalance { available, requested } => {
                LedgerErrorView::InsufficientBalance { available: *available, requested: *requested }
            },
            LedgerError::IncorrectNonce { expected, received } => {
                LedgerErrorView::IncorrectNonce { expected: *expected, received: *received }
            },
            LedgerError::BalanceOverflow => LedgerErrorView::BalanceOverflow,
        }
    }
}

/// A structural validation error reported by the ledger.
impl From<TransactionValidationError> for LedgerError {
    fn from(error: TransactionValidationError) -> (e: LedgerError) {
        match error {
            TransactionValidationError::ZeroAmount => LedgerError::ZeroAmount,
            TransactionValidationError::SelfTransfer => LedgerError::SelfTransfer,
        }
    }
}

impl vstd::std_specs::convert::FromSpecImpl<TransactionValidationError> for LedgerError {
    open spec fn obeys_from_spec() -> bool {
        true
    }

    open spec fn from_spec(error: TransactionValidationError) -> LedgerError {
        match error {
            TransactionValidationError::ZeroAmount => LedgerError::ZeroAmount,
            TransactionValidationError::SelfTransfer => LedgerError::SelfTransfer,
        }
    }
}

/// The ledger error that reports a structural validation error.
pub open spec fn validation_error_view(error: TransactionValidationError) -> LedgerErrorView {
    match error {
        TransactionValidationError::ZeroAmount => LedgerErrorView::ZeroAmount,
        TransactionValidationError::SelfTransfer => LedgerErrorView::SelfTransfer,
    }
}

/// Reasons a block is refused.
#[derive(Debug, Clone, PartialEq, Eq)]
pub enum ChainError {
    UnexpectedHeight { expected: u64, received: u64 },
    InvalidPreviousHash,
    InvalidTransactionCommitment,
    DuplicateTransactionId(TransactionId),
    TransactionFailed(LedgerError),
    StateCommitmentFailed(LedgerError),
    InvalidStateCommitment,
    TotalSupplyMismatch { expected: u64, actual: u64 },
}

/// A `ChainError` with ids and nested errors taken by their views.
pub enum ChainErrorView {
    UnexpectedHeight { expected: u64, received: u64 },
    InvalidPreviousHash,
    InvalidTransactionCommitment,
    DuplicateTransactionId(Seq<u8>),
    TransactionFailed(LedgerErrorView),
    StateCommitmentFailed(LedgerErrorView),
    InvalidStateCommitment,
    TotalSupplyMismatch { expected: u64, actual: u64 },
}

impl View for ChainError {
    type V = ChainErrorView;

    open spec fn view(&self) -> ChainErrorView {
        match self {
            ChainError::UnexpectedHeight { expected, received } => {
                ChainErrorView::UnexpectedHeight { expected: *expected, received: *received }
            },
            ChainError::InvalidPreviousHash => ChainErrorView::InvalidPreviousHash,
            ChainError::InvalidTransactionCommitment => ChainErrorView::InvalidTransactionCommitment,
            ChainError::DuplicateTransactionId(id) => ChainErrorView::DuplicateTransactionId(id@),
            ChainError::TransactionFailed(e) => ChainErrorView::TransactionFailed(e@),
            ChainError::StateCommitmentFailed(e) => ChainErrorView::StateCommitmentFailed(e@),
            ChainError::InvalidStateCommitment => ChainErrorView::InvalidStateCommitment,
            ChainError::TotalSupplyMismatch { expected, actual } => {
                ChainErrorView::TotalSupplyMismatch { expected: *expected, actual: *actual }
            },
        }
    }
}

} // verus!
