//! A deterministic account ledger and single-node blockchain state machine.
//!
//! Accounts hold balances and send nonces; transfers are validated and applied
//! atomically; blocks batch transfers and commit to the ledger state they lead to; and the
//! chain advances only by appending a block as a whole.

pub mod account;
pub mod block;
pub mod blockchain;
pub mod error;
pub mod hash;
pub mod ledger;
pub mod order;
pub mod ownership_lab;
pub mod transaction;

pub use account::Account;
pub use block::{Block, BlockHeader};
pub use blockchain::{check_header, ensure_unique_ids, nonces_can_advance_for, Blockchain};
pub use error::{ChainError, LedgerError, TransactionError, TransactionValidationError};
pub use hash::HashedId;
pub use ledger::{Ledger, StateTransition};
pub use ownership_lab::append_suffix;
pub use transaction::{Transaction, TransactionId, Validate};
