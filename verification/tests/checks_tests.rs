use rust_systems_lab::{
    check_header, ensure_unique_ids, nonces_can_advance_for, Block, BlockHeader, Blockchain,
    ChainError, Ledger, Transaction, TransactionId,
};

fn header(height: u64, previous: u8, commitment: u8) -> BlockHeader {
    BlockHeader {
        height,
        previous_hash: [previous; 32],
        transaction_commitment: [commitment; 32],
        state_commitment: [0u8; 32],
    }
}

#[test]
fn check_header_reports_the_first_mismatch() {
    let h = header(2, 1, 2);
    assert_eq!(check_header(&h, 2, &[1u8; 32], &[2u8; 32]), Ok(()));
    assert_eq!(
        check_header(&h, 3, &[9u8; 32], &[9u8; 32]),
        Err(ChainError::UnexpectedHeight { expected: 3, received: 2 }),
    );
    assert_eq!(check_header(&h, 2, &[9u8; 32], &[9u8; 32]), Err(ChainError::InvalidPreviousHash));
    assert_eq!(
        check_header(&h, 2, &[1u8; 32], &[9u8; 32]),
        Err(ChainError::InvalidTransactionCommitment),
    );
}

#[test]
fn ensure_unique_ids_names_the_first_repeat() {
    let a = TransactionId::from_digest([1u8; 32]);
    let b = TransactionId::from_digest([2u8; 32]);
    let c = TransactionId::from_digest([3u8; 32]);
    assert_eq!(ensure_unique_ids(&[]), Ok(()));
    assert_eq!(ensure_unique_ids(&[a, b, c]), Ok(()));
    assert_eq!(ensure_unique_ids(&[a, b, c, b, a]), Err(ChainError::DuplicateTransactionId(b)));
    assert_eq!(ensure_unique_ids(&[c, c]), Err(ChainError::DuplicateTransactionId(c)));
}

fn two_accounts(alice: u64, bob: u64) -> Ledger {
    let mut ledger = Ledger::new();
    ledger.create_account("alice", alice).expect("account");
    ledger.create_account("bob", bob).expect("account");
    ledger
}

#[test]
fn checked_total_supply_detects_overflow() {
    assert_eq!(two_accounts(1, 2).checked_total_supply(), Some(3));
    assert_eq!(two_accounts(u64::MAX, 0).checked_total_supply(), Some(u64::MAX));
    assert_eq!(two_accounts(u64::MAX, 1).checked_total_supply(), None);
}

#[test]
fn transfer_passes_matches_apply() {
    let ledger = two_accounts(10, 0);
    assert!(ledger.transfer_passes(&Transaction::new("alice", "bob", 10, 0)));
    assert!(!ledger.transfer_passes(&Transaction::new("alice", "bob", 11, 0)));
    assert!(!ledger.transfer_passes(&Transaction::new("alice", "bob", 1, 1)));
    assert!(!ledger.transfer_passes(&Transaction::new("alice", "carol", 1, 0)));
    assert!(!ledger.transfer_passes(&Transaction::new("alice", "alice", 1, 0)));
}

#[test]
fn nonce_at_limit_is_detected_only_when_reached() {
    let mut ledger = two_accounts(10, 10);
    ledger.account_mut("alice").expect("alice").nonce = u64::MAX;
    let at_limit = vec![Transaction::new("alice", "bob", 1, u64::MAX)];
    assert!(!nonces_can_advance_for(&ledger, &at_limit));
    let not_reached = vec![
        Transaction::new("bob", "alice", 100, 0),
        Transaction::new("alice", "bob", 1, u64::MAX),
    ];
    assert!(nonces_can_advance_for(&ledger, &not_reached));
    let fine = vec![Transaction::new("bob", "alice", 1, 0), Transaction::new("bob", "alice", 1, 1)];
    assert!(nonces_can_advance_for(&ledger, &fine));
}

#[test]
fn try_append_block_refuses_an_overflowing_supply() {
    let mut chain = Blockchain::new();
    chain.ledger.create_account("alice", u64::MAX).expect("account");
    chain.ledger.create_account("bob", 1).expect("account");
    let before = chain.clone();
    let block = Block { header: header(0, 0, 0), transactions: Vec::new() };
    assert_eq!(chain.try_append_block(block), None);
    assert_eq!(chain, before);
}

#[test]
fn try_append_block_appends_a_valid_block() {
    let mut chain = Blockchain::new();
    let state_commitment = chain.ledger.state_commitment().expect("commitment");
    let block = Block {
        header: BlockHeader {
            height: 0,
            previous_hash: [0u8; 32],
            transaction_commitment: Block::transaction_commitment(&[]),
            state_commitment,
        },
        transactions: Vec::new(),
    };
    assert_eq!(chain.try_append_block(block), Some(Ok(())));
    assert_eq!(chain.blocks.len(), 1);
    let stale = Block { header: header(0, 0, 0), transactions: Vec::new() };
    assert_eq!(
        chain.try_append_block(stale),
        Some(Err(ChainError::UnexpectedHeight { expected: 1, received: 0 })),
    );
}

#[test]
fn create_account_adds_its_balance_to_the_supply() {
    let mut ledger = Ledger::new();
    assert_eq!(ledger.total_supply(), 0);
    ledger.create_account("alice", 7).expect("account");
    assert_eq!(ledger.total_supply(), 7);
    ledger.create_account("bob", 5).expect("account");
    assert_eq!(ledger.total_supply(), 12);
}
