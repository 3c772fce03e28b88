# rust_systems_lab

A deterministic, single-node account ledger and blockchain state machine, verified with
Verus.

- `src/account.rs`: an account's balance and send nonce.
- `src/transaction.rs`: transfers, their structural validation, canonical bytes and
  content-derived ids.
- `src/ledger.rs`: accounts stored sorted by id; account creation, transfers, the total
  supply and the state commitment, each specified over the map of accounts; the laws of
  conservation and of order-independent commitments.
- `src/block.rs`: block headers, the commitment to a block's transfers and header hashes.
- `src/blockchain.rs`: `append_block`, which applies a block atomically, and the chain laws.
- `src/order.rs`: the byte order of account ids.
- `src/hash.rs`: the trusted boundary to `bincode`, `sha2` and `hex`.
- `app/`: printing helpers, a serde-enabled copy of `Transaction`, and `Display` for ids.
