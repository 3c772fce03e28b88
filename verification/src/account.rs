//! An account: a token balance and the number of transfers it has sent.
use vstd::prelude::*;

verus! {

/// An account's state.
#[derive(Debug, Clone, Copy, PartialEq, Eq, Structural)]
pub struct Account {
    /// Tokens held by the account.
    pub balance: u64,
    /// Number of transfers already sent from the account.
    pub nonce: u64,
}

impl Account {
    /// A fresh account with the given balance; its nonce starts at zero.
    pub fn new(balance: u64) -> (account: Account)
        ensures
            account == (Account { balance, nonce: 0 }),
    {
        Account { balance, nonce: 0 }
    }
}

} // verus!
