//! The chain: an ordered history of blocks and the live ledger, advanced only by
//! `append_block`, which applies a block atomically.
use vstd::prelude::*;

use crate::account::Account;
use crate::block::{header_hash, transaction_views, transactions_commitment, Block, BlockHeader};
use crate::error::{ChainError, ChainErrorView, LedgerErrorView};
use crate::hash::same_digest;
use crate::ledger::{
    commitment_of, is_ledger_state, lemma_transfer_conserves_supply, nonce_can_advance, supply_of,
    transfer, Ledger,
};
use crate::transaction::{Transaction, TransactionId, TransactionView};

verus! {

/// The ids of a sequence of transfers.
pub open spec fn transaction_ids(transactions: Seq<TransactionView>) -> Seq<Seq<u8>> {
    transactions.map_values(|t: TransactionView| t.id())
}

/// The position of the first id that equals an earlier one, if any.
pub open spec fn first_repeat(ids: Seq<Seq<u8>>) -> Option<int>
    decreases ids.len(),
{
    if ids.len() == 0 {
        None
    } else {
        match first_repeat(ids.drop_last()) {
            Some(j) => Some(j),
            None => if ids.drop_last().contains(ids.last()) {
                Some(ids.len() - 1)
            } else {
                None
            },
        }
    }
}

/// Applying transfers in order: the final state, or the first refused transfer's error.
pub open spec fn execute(m: Map<Seq<char>, Account>, transactions: Seq<TransactionView>) -> Result<
    Map<Seq<char>, Account>,
    LedgerErrorView,
>
    decreases transactions.len(),
{
    if transactions.len() == 0 {
        Ok(m)
    } else {
        match execute(m, transactions.drop_last()) {
            Err(e) => Err(e),
            Ok(state) => transfer(state, transactions.last()),
        }
    }
}

/// Every transfer that is reached while applying the sequence can advance its sender's nonce.
pub open spec fn nonces_can_advance(
    m: Map<Seq<char>, Account>,
    transactions: Seq<TransactionView>,
) -> bool {
    forall|i: int|
        0 <= i < transactions.len() ==> (#[trigger] execute(m, transactions.take(i)) matches Ok(
            state,
        ) ==> nonce_can_advance(state, transactions[i]))
}

/// The `previous_hash` the next block must carry.
pub open spec fn previous_hash_for(blocks: Seq<Block>) -> Seq<u8> {
    if blocks.len() == 0 {
        Seq::new(32, |i: int| 0u8)
    } else {
        header_hash(blocks.last().header)
    }
}

/// The checks made before any transfer is applied: height, previous hash, transaction
/// commitment, and no repeated transaction id.
pub open spec fn header_checks_pass(blocks: Seq<Block>, block: Block) -> bool {
    let transactions = transaction_views(block.transactions@);
    &&& block.header.height == blocks.len()
    &&& block.header.previous_hash@ == previous_hash_for(blocks)
    &&& block.header.transaction_commitment@ == transactions_commitment(transactions)
    &&& first_repeat(transaction_ids(transactions)) is None
}

/// The outcome of appending `block` to a chain of `blocks` whose ledger holds `m`: the new
/// ledger state, or the first failed check's error.
pub open spec fn append_outcome(blocks: Seq<Block>, m: Map<Seq<char>, Account>, block: Block) -> Result<
    Map<Seq<char>, Account>,
    ChainErrorView,
> {
    let transactions = transaction_views(block.transactions@);
    let ids = transaction_ids(transactions);
    if block.header.height != blocks.len() {
        Err(
            ChainErrorView::UnexpectedHeight {
                expected: blocks.len() as u64,
                received: block.header.height,
            },
        )
    } else if block.header.previous_hash@ != previous_hash_for(blocks) {
        Err(ChainErrorView::InvalidPreviousHash)
    } else if block.header.transaction_commitment@ != transactions_commitment(transactions) {
        Err(ChainErrorView::InvalidTransactionCommitment)
    } else if first_repeat(ids) is Some {
        Err(ChainErrorView::DuplicateTransactionId(ids[first_repeat(ids)->Some_0]))
    } else {
        match execute(m, transactions) {
            Err(e) => Err(ChainErrorView::TransactionFailed(e)),
            Ok(state) => if block.header.state_commitment@ != commitment_of(state) {
                Err(ChainErrorView::InvalidStateCommitment)
            } else {
                Ok(state)
            },
        }
    }
}

proof fn lemma_execute_error_persists(
    m: Map<Seq<char>, Account>,
    transactions: Seq<TransactionView>,
    k: int,
)
    requires
        0 <= k <= transactions.len(),
        execute(m, transactions.take(k)) is Err,
    ensures
        execute(m, transactions) == execute(m, transactions.take(k)),
    decreases transactions.len() - k,
{
    if k == transactions.len() {
        assert(transactions.take(k) =~= transactions);
    } else {
        assert(transactions.take(k + 1).drop_last() =~= transactions.take(k));
        lemma_execute_error_persists(m, transactions, k + 1);
    }
}

proof fn lemma_first_repeat_persists(ids: Seq<Seq<u8>>, k: int)
    requires
        0 <= k <= ids.len(),
        first_repeat(ids.take(k)) is Some,
    ensures
        first_repeat(ids) == first_repeat(ids.take(k)),
    decreases ids.len() - k,
{
    if k == ids.len() {
        assert(ids.take(k) =~= ids);
    } else {
        assert(ids.take(k + 1).drop_last() =~= ids.take(k));
        lemma_first_repeat_persists(ids, k + 1);
    }
}

/// `first_repeat` finds exactly a repeated id: it is `None` when the ids are pairwise
/// distinct, and otherwise the least position whose id equals an earlier one.
pub proof fn lemma_first_repeat_characterized(ids: Seq<Seq<u8>>)
    ensures
        first_repeat(ids) is None <==> forall|i: int, j: int|
            0 <= i < j < ids.len() ==> ids[i] != ids[j],
        first_repeat(ids) matches Some(j) ==> {
            &&& 0 <= j < ids.len()
            &&& exists|i: int| 0 <= i < j && ids[i] == ids[j]
            &&& forall|i: int, k: int| 0 <= i < k < j ==> ids[i] != ids[k]
        },
    decreases ids.len(),
{
    if ids.len() > 0 {
        let d = ids.drop_last();
        lemma_first_repeat_characterized(d);
        match first_repeat(d) {
            Some(j) => {
                let i = choose|i: int| 0 <= i < j && d[i] == d[j];
                assert(ids[i] == ids[j]);
                assert forall|x: int, k: int| 0 <= x < k < j implies ids[x] != ids[k] by {
                    assert(d[x] == ids[x] && d[k] == ids[k]);
                }
            },
            None => {
                if d.contains(ids.last()) {
                    let i = choose|i: int| 0 <= i < d.len() && d[i] == ids.last();
                    assert(ids[i] == ids[ids.len() - 1]);
                    assert forall|x: int, k: int| 0 <= x < k < ids.len() - 1 implies ids[x]
                        != ids[k] by {
                        assert(d[x] == ids[x] && d[k] == ids[k]);
                    }
                } else {
                    assert forall|i: int, j: int| 0 <= i < j < ids.len() implies ids[i] != ids[j] by {
                        if j == ids.len() - 1 {
                            assert(d[i] == ids[i]);
                        } else {
                            assert(d[i] == ids[i] && d[j] == ids[j]);
                        }
                    }
                }
            },
        }
    }
}

/// Transfers apply in sequence: applying `a` followed by `b` applies `a`, then applies `b` to
/// the state `a` left; a refusal within `a` is the outcome.
pub proof fn lemma_execute_append(
    m: Map<Seq<char>, Account>,
    a: Seq<TransactionView>,
    b: Seq<TransactionView>,
)
    ensures
        execute(m, a + b) == match execute(m, a) {
            Ok(state) => execute(state, b),
            Err(e) => Err(e),
        },
    decreases b.len(),
{
    if b.len() == 0 {
        assert(a + b =~= a);
    } else {
        lemma_execute_append(m, a, b.drop_last());
        assert((a + b).drop_last() =~= a + b.drop_last());
    }
}

/// The first transfer applies to the given state, and every later one to the state left by
/// the one before it: a sender's second transfer sees the nonce and balance its first left.
pub proof fn lemma_execute_first_then_rest(
    m: Map<Seq<char>, Account>,
    t: TransactionView,
    rest: Seq<TransactionView>,
)
    ensures
        execute(m, seq![t] + rest) == match transfer(m, t) {
            Ok(state) => execute(state, rest),
            Err(e) => Err(e),
        },
{
    lemma_execute_append(m, seq![t], rest);
    let none = Seq::<TransactionView>::empty();
    assert(seq![t].drop_last() =~= none);
    assert(execute(m, none) == Ok::<Map<Seq<char>, Account>, LedgerErrorView>(m));
    assert(execute(m, seq![t]) == transfer(m, t));
}

/// Acceptance: a block whose header checks pass and whose transfers apply one after another,
/// each to the state the one before it left, reaching the state its header commits to, is
/// accepted, and the ledger becomes that state.
pub proof fn lemma_block_accepted(blocks: Seq<Block>, m: Map<Seq<char>, Account>, block: Block)
    requires
        header_checks_pass(blocks, block),
        execute(m, transaction_views(block.transactions@)) is Ok,
        block.header.state_commitment@ == commitment_of(
            execute(m, transaction_views(block.transactions@))->Ok_0,
        ),
    ensures
        append_outcome(blocks, m, block) == Ok::<Map<Seq<char>, Account>, ChainErrorView>(
            execute(m, transaction_views(block.transactions@))->Ok_0,
        ),
{
}

/// Blocks stand at their heights, each carrying the hash of the header before it (zeros
/// for the first).
pub open spec fn chain_linked(blocks: Seq<Block>) -> bool {
    forall|i: int|
        0 <= i < blocks.len() ==> (#[trigger] blocks[i]).header.height == i
            && blocks[i].header.previous_hash@ == previous_hash_for(blocks.take(i))
}

/// Appending an accepted block to a linked chain keeps it linked: heights stay strictly
/// ordered and the hash chain unbroken.
pub proof fn lemma_append_keeps_chain_linked(
    blocks: Seq<Block>,
    m: Map<Seq<char>, Account>,
    block: Block,
)
    requires
        chain_linked(blocks),
        append_outcome(blocks, m, block) is Ok,
    ensures
        chain_linked(blocks.push(block)),
{
    let next = blocks.push(block);
    assert forall|i: int| 0 <= i < next.len() implies (#[trigger] next[i]).header.height == i
        && next[i].header.previous_hash@ == previous_hash_for(next.take(i)) by {
        if i < blocks.len() {
            assert(next.take(i) =~= blocks.take(i));
        } else {
            assert(next.take(i) =~= blocks);
        }
    }
}

/// Applying transfers in order keeps the total supply, block by block.
pub proof fn lemma_execute_conserves_supply(
    m: Map<Seq<char>, Account>,
    transactions: Seq<TransactionView>,
)
    requires
        is_ledger_state(m),
        execute(m, transactions) is Ok,
    ensures
        is_ledger_state(execute(m, transactions)->Ok_0),
        supply_of(execute(m, transactions)->Ok_0) == supply_of(m),
    decreases transactions.len(),
{
    if transactions.len() > 0 {
        lemma_execute_conserves_supply(m, transactions.drop_last());
        let state = execute(m, transactions.drop_last())->Ok_0;
        lemma_transfer_conserves_supply(state, transactions.last());
    }
}

/// Atomic block execution: a block is accepted only if every one of its transfers applies,
/// in order, and the state they lead to matches the header's state commitment; the state it
/// commits is exactly that state, with the same total supply. A block with a refused transfer
/// is refused as a whole.
pub proof fn lemma_block_all_or_nothing(blocks: Seq<Block>, m: Map<Seq<char>, Account>, block: Block)
    requires
        is_ledger_state(m),
    ensures
        append_outcome(blocks, m, block) is Ok ==> {
            let transactions = transaction_views(block.transactions@);
            &&& execute(m, transactions) is Ok
            &&& execute(m, transactions)->Ok_0 == append_outcome(blocks, m, block)->Ok_0
            &&& commitment_of(append_outcome(blocks, m, block)->Ok_0)
                == block.header.state_commitment@
            &&& supply_of(append_outcome(blocks, m, block)->Ok_0) == supply_of(m)
        },
        execute(m, transaction_views(block.transactions@)) is Err ==> append_outcome(
            blocks,
            m,
            block,
        ) is Err,
{
    let transactions = transaction_views(block.transactions@);
    if append_outcome(blocks, m, block) is Ok {
        lemma_execute_conserves_supply(m, transactions);
    }
}

/// The chain of blocks and the live ledger.
#[derive(Debug, Clone, PartialEq, Eq)]
pub struct Blockchain {
    pub blocks: Vec<Block>,
    pub ledger: Ledger,
}

impl Blockchain {
    /// An empty chain over an empty ledger.
    pub fn new() -> (chain: Self)
        ensures
            chain.blocks@.len() == 0,
            chain.ledger.wf(),
            chain.ledger@ == Map::<Seq<char>, Account>::empty(),
    {
        Blockchain { blocks: Vec::new(), ledger: Ledger::new() }
    }

    /// Validates `block` against the chain and applies it atomically: either every transfer
    /// applies in order, the resulting state matches the header's state commitment, and the
    /// ledger and the block are committed together; or nothing changes and the first failed
    /// check is reported.
    pub fn append_block(&mut self, block: Block) -> (r: Result<(), ChainError>)
        requires
            old(self).ledger.wf(),
            header_checks_pass(old(self).blocks@, block) ==> supply_of(old(self).ledger@)
                <= u64::MAX,
            header_checks_pass(old(self).blocks@, block) ==> nonces_can_advance(
                old(self).ledger@,
                transaction_views(block.transactions@),
            ),
        ensures
            final(self).ledger.wf(),
            match append_outcome(old(self).blocks@, old(self).ledger@, block) {
                Ok(m) => {
                    &&& r is Ok
                    &&& final(self).ledger@ == m
                    &&& final(self).blocks@ == old(self).blocks@.push(block)
                },
                Err(e) => r matches Err(err) && err@ == e && *final(self) == *old(self),
            },
            r is Ok ==> supply_of(final(self).ledger@) == supply_of(old(self).ledger@),
    {
        let ghost transactions = transaction_views(block.transactions@);
        let ghost m0 = self.ledger@;
        // 1.-3. Height, previous block hash and transaction commitment
        let expected_height = self.blocks.len() as u64;
        let n = self.blocks.len();
        let expected_previous_hash: [u8; 32] = if n == 0 {
            [0u8; 32]
        } else {
            *self.blocks[n - 1].hash().as_bytes()
        };
        assert(expected_previous_hash@ =~= previous_hash_for(self.blocks@));
        let expected_transaction_commitment = Block::transaction_commitment(
            block.transactions.as_slice(),
        );
        match check_header(
            &block.header,
            expected_height,
            &expected_previous_hash,
            &expected_transaction_commitment,
        ) {
            Err(e) => {
                return Err(e);
            },
            Ok(()) => {},
        }
        // 4. No duplicate transaction ids inside the block
        match ensure_unique_transaction_ids(&block) {
            Err(e) => {
                return Err(e);
            },
            Ok(()) => {},
        }
        // 5. Atomic execution against a copy of the ledger
        assert(header_checks_pass(old(self).blocks@, block));
        let supply_before = self.ledger.total_supply();
        let mut ledger = self.ledger.clone();
        let mut i: usize = 0;
        #[verifier::loop_isolation(false)]
        while i < block.transactions.len()
            invariant
                transactions == transaction_views(block.transactions@),
                nonces_can_advance(m0, transactions),
                i <= transactions.len(),
                ledger.wf(),
                execute(m0, transactions.take(i as int)) == Ok::<
                    Map<Seq<char>, Account>,
                    LedgerErrorView,
                >(ledger@),
                supply_of(ledger@) == supply_of(m0),
            decreases transactions.len() - i,
        {
            let transaction = block.transactions[i].clone();
            assert(transactions.take(i + 1).drop_last() =~= transactions.take(i as int));
            assert(nonce_can_advance(ledger@, transactions[i as int])) by {
                assert(execute(m0, transactions.take(i as int)) matches Ok(state));
            }
            match ledger.apply_transaction(transaction) {
                Err(e) => {
                    proof {
                        lemma_execute_error_persists(m0, transactions, i + 1);
                    }
                    return Err(ChainError::TransactionFailed(e));
                },
                Ok(()) => {},
            }
            i = i + 1;
        }
        assert(transactions.take(i as int) =~= transactions);
        // 6. The final state commitment matches the header
        let expected_state_commitment = match ledger.state_commitment() {
            Ok(c) => c,
            Err(e) => {
                return Err(ChainError::StateCommitmentFailed(e));
            },
        };
        if !same_digest(&block.header.state_commitment, &expected_state_commitment) {
            return Err(ChainError::InvalidStateCommitment);
        }
        // 7. Ledger invariants remain valid
        match validate_ledger_invariants(&ledger, supply_before) {
            Err(e) => {
                return Err(e);
            },
            Ok(()) => {},
        }
        self.ledger = ledger;
        self.blocks.push(block);
        Ok(())
    }
}

impl Blockchain {
    /// Appends `block` as `append_block` does, after checking that the ledger's total supply
    /// fits in a `u64` and that every transfer the block reaches can advance its sender's
    /// nonce; where either fails it changes nothing and returns `None`.
    pub fn try_append_block(&mut self, block: Block) -> (r: Option<Result<(), ChainError>>)
        requires
            old(self).ledger.wf(),
        ensures
            final(self).ledger.wf(),
            r is None <==> !(supply_of(old(self).ledger@) <= u64::MAX && nonces_can_advance(
                old(self).ledger@,
                transaction_views(block.transactions@),
            )),
            r is None ==> *final(self) == *old(self),
            r matches Some(res) ==> match append_outcome(old(self).blocks@, old(self).ledger@, block) {
                Ok(m) => {
                    &&& res is Ok
                    &&& final(self).ledger@ == m
                    &&& final(self).blocks@ == old(self).blocks@.push(block)
                },
                Err(e) => res matches Err(err) && err@ == e && *final(self) == *old(self),
            },
    {
        match self.ledger.checked_total_supply() {
            None => {
                return None;
            },
            Some(_) => {},
        }
        if !nonces_can_advance_for(&self.ledger, block.transactions.as_slice()) {
            return None;
        }
        Some(self.append_block(block))
    }
}

impl Default for Blockchain {
    fn default() -> (chain: Self)
        ensures
            chain.blocks@.len() == 0,
            chain.ledger.wf(),
            chain.ledger@ == Map::<Seq<char>, Account>::empty(),
    {
        Blockchain::new()
    }
}

/// Whether every transfer that applying `transactions` in order to `ledger` reaches can
/// advance its sender's nonce.
pub fn nonces_can_advance_for(ledger: &Ledger, transactions: &[Transaction]) -> (ok: bool)
    requires
        ledger.wf(),
    ensures
        ok == nonces_can_advance(ledger@, transaction_views(transactions@)),
{
    let ghost m0 = ledger@;
    let ghost views = transaction_views(transactions@);
    let mut state = ledger.clone();
    let mut i: usize = 0;
    while i < transactions.len()
        invariant
            views == transaction_views(transactions@),
            m0 == ledger@,
            i <= views.len(),
            state.wf(),
            execute(m0, views.take(i as int)) == Ok::<Map<Seq<char>, Account>, LedgerErrorView>(
                state@,
            ),
            forall|j: int|
                0 <= j < i ==> (#[trigger] execute(m0, views.take(j)) matches Ok(st)
                    ==> nonce_can_advance(st, views[j])),
        decreases views.len() - i,
    {
        let transaction = &transactions[i];
        assert(views.take(i + 1).drop_last() =~= views.take(i as int));
        if !state.transfer_passes(transaction) {
            proof {
                assert forall|j: int| 0 <= j < views.len() implies (#[trigger] execute(
                    m0,
                    views.take(j),
                ) matches Ok(st) ==> nonce_can_advance(st, views[j])) by {
                    if j > i {
                        assert(views.take(j).take(i + 1) =~= views.take(i + 1));
                        lemma_execute_error_persists(m0, views.take(j), i + 1);
                    }
                }
            }
            return true;
        }
        if transaction.nonce == u64::MAX {
            assert(!nonce_can_advance(state@, views[i as int]));
            assert(execute(m0, views.take(i as int)) matches Ok(st) && !nonce_can_advance(
                st,
                views[i as int],
            ));
            return false;
        }
        let _ = state.apply_transaction(transaction.clone());
        i = i + 1;
    }
    true
}

/// Checks a header against the expected height, previous hash and transaction commitment,
/// in that order, reporting the first mismatch.
pub fn check_header(
    header: &BlockHeader,
    expected_height: u64,
    expected_previous_hash: &[u8; 32],
    expected_transaction_commitment: &[u8; 32],
) -> (r: Result<(), ChainError>)
    ensures
        if header.height != expected_height {
            r matches Err(e) && e@ == (ChainErrorView::UnexpectedHeight {
                expected: expected_height,
                received: header.height,
            })
        } else if header.previous_hash@ != expected_previous_hash@ {
            r matches Err(e) && e@ == ChainErrorView::InvalidPreviousHash
        } else if header.transaction_commitment@ != expected_transaction_commitment@ {
            r matches Err(e) && e@ == ChainErrorView::InvalidTransactionCommitment
        } else {
            r is Ok
        },
{
    if header.height != expected_height {
        return Err(ChainError::UnexpectedHeight { expected: expected_height, received: header.height });
    }
    if !same_digest(&header.previous_hash, expected_previous_hash) {
        return Err(ChainError::InvalidPreviousHash);
    }
    if !same_digest(&header.transaction_commitment, expected_transaction_commitment) {
        return Err(ChainError::InvalidTransactionCommitment);
    }
    Ok(())
}

/// Refuses a list of ids in which some id repeats, naming the first id that repeats an
/// earlier one.
pub fn ensure_unique_ids(ids: &[TransactionId]) -> (r: Result<(), ChainError>)
    ensures
        ({
            let views = ids@.map_values(|id: TransactionId| id@);
            match first_repeat(views) {
                None => r is Ok,
                Some(j) => r matches Err(e) && e@ == ChainErrorView::DuplicateTransactionId(views[j]),
            }
        }),
{
    let ghost views = ids@.map_values(|id: TransactionId| id@);
    let mut j: usize = 0;
    while j < ids.len()
        invariant
            views == ids@.map_values(|id: TransactionId| id@),
            j <= views.len(),
            first_repeat(views.take(j as int)) is None,
        decreases views.len() - j,
    {
        assert(views.take(j + 1).drop_last() =~= views.take(j as int));
        let mut k: usize = 0;
        #[verifier::loop_isolation(false)]
        while k < j
            invariant
                k <= j,
                forall|x: int| 0 <= x < k ==> views[x] != views[j as int],
            decreases j - k,
        {
            if same_digest(ids[k].as_bytes(), ids[j].as_bytes()) {
                proof {
                    assert(views.take(j + 1).drop_last()[k as int] == views.take(j + 1).last());
                    lemma_first_repeat_persists(views, j + 1);
                }
                return Err(ChainError::DuplicateTransactionId(ids[j]));
            }
            k = k + 1;
        }
        assert(!views.take(j + 1).drop_last().contains(views.take(j + 1).last()));
        j = j + 1;
    }
    assert(views.take(j as int) =~= views);
    Ok(())
}

/// Refuses a block in which two transfers have the same id, naming the first id repeated.
fn ensure_unique_transaction_ids(block: &Block) -> (r: Result<(), ChainError>)
    ensures
        ({
            let ids = transaction_ids(transaction_views(block.transactions@));
            match first_repeat(ids) {
                None => r is Ok,
                Some(j) => r matches Err(e) && e@ == ChainErrorView::DuplicateTransactionId(ids[j]),
            }
        }),
{
    let ghost expected = transaction_ids(transaction_views(block.transactions@));
    let mut ids: Vec<TransactionId> = Vec::new();
    let mut j: usize = 0;
    while j < block.transactions.len()
        invariant
            expected == transaction_ids(transaction_views(block.transactions@)),
            j <= expected.len(),
            ids@.len() == j,
            forall|k: int| 0 <= k < j ==> (#[trigger] ids@[k])@ == expected[k],
        decreases expected.len() - j,
    {
        ids.push(block.transactions[j].hash_id());
        j = j + 1;
    }
    assert(ids@.map_values(|id: TransactionId| id@) =~= expected);
    ensure_unique_ids(ids.as_slice())
}

/// Checks that applying the block kept the total supply.
fn validate_ledger_invariants(ledger: &Ledger, supply_before: u64) -> (r: Result<(), ChainError>)
    requires
        ledger.wf(),
        supply_of(ledger@) <= u64::MAX,
    ensures
        r is Ok <==> supply_of(ledger@) == supply_before,
        r matches Err(e) ==> e@ == (ChainErrorView::TotalSupplyMismatch {
            expected: supply_before,
            actual: supply_of(ledger@) as u64,
        }),
{
    let supply_after = ledger.total_supply();
    if supply_after != supply_before {
        return Err(ChainError::TotalSupplyMismatch { expected: supply_before, actual: supply_after });
    }
    Ok(())
}

} // verus!
