//! The ledger: accounts keyed by unique ids, transfers between them, the total supply
//! and a commitment to the whole state.
//!
//! Accounts are stored sorted by id (the order in which `str` values compare), so that
//! the storage, and with it the state commitment, is a function of the accounts alone.
use vstd::prelude::*;

use crate::account::Account;
use crate::error::{validation_error_view, LedgerError, LedgerErrorView};
use crate::hash::{
    account_rows_encoding, encode_account_rows, lemma_varint_read, rows_body_encoding, sha256,
    sha256_digest,
};
use crate::order::{
    compare_ids, id_lt, lemma_id_lt_asymmetric, lemma_id_lt_irreflexive, lemma_id_lt_total,
    lemma_id_lt_transitive, IdOrder,
};
use crate::transaction::{Transaction, TransactionView, Validate};

verus! {

/// Entries are strictly increasing by id (so no id occurs twice).
pub open spec fn entries_sorted(e: Seq<(Seq<char>, Account)>) -> bool {
    forall|i: int, j: int| 0 <= i < j < e.len() ==> id_lt(#[trigger] e[i].0, #[trigger] e[j].0)
}

/// Some entry has id `k`.
pub open spec fn entries_contain(e: Seq<(Seq<char>, Account)>, k: Seq<char>) -> bool {
    exists|i: int| 0 <= i < e.len() && (#[trigger] e[i]).0 == k
}

/// The accounts that a sequence of entries holds, by id.
pub open spec fn entries_map(e: Seq<(Seq<char>, Account)>) -> Map<Seq<char>, Account> {
    Map::new(
        |k: Seq<char>| entries_contain(e, k),
        |k: Seq<char>| e[choose|i: int| 0 <= i < e.len() && (#[trigger] e[i]).0 == k].1,
    )
}

/// The accounts of `m` in the canonical order: sorted by id.
pub open spec fn canonical_entries(m: Map<Seq<char>, Account>) -> Seq<(Seq<char>, Account)> {
    choose|e: Seq<(Seq<char>, Account)>| entries_sorted(e) && entries_map(e) == m
}

/// Entries as the `(id, balance, nonce)` rows that the state commitment encodes.
pub open spec fn rows_of(e: Seq<(Seq<char>, Account)>) -> Seq<(Seq<char>, u64, u64)> {
    Seq::new(e.len(), |i: int| (e[i].0, e[i].1.balance, e[i].1.nonce))
}

/// The sum of the balances of a sequence of entries.
pub open spec fn balance_sum(e: Seq<(Seq<char>, Account)>) -> int
    decreases e.len(),
{
    if e.len() == 0 {
        0
    } else {
        balance_sum(e.drop_last()) + e.last().1.balance
    }
}

/// The total supply of a ledger state: the sum of all balances.
pub open spec fn supply_of(m: Map<Seq<char>, Account>) -> int {
    balance_sum(canonical_entries(m))
}

/// The state commitment of a ledger state: SHA-256 of the canonical encoding of its
/// `(id, balance, nonce)` rows sorted by id.
pub open spec fn commitment_of(m: Map<Seq<char>, Account>) -> Seq<u8> {
    sha256(account_rows_encoding(rows_of(canonical_entries(m))))
}

/// The outcome of creating account `id` with `balance`: the new state, or the error.
pub open spec fn create_outcome(m: Map<Seq<char>, Account>, id: Seq<char>, balance: u64) -> Result<
    Map<Seq<char>, Account>,
    LedgerErrorView,
> {
    if m.contains_key(id) {
        Err(LedgerErrorView::AccountAlreadyExists(id))
    } else {
        Ok(m.insert(id, Account { balance, nonce: 0 }))
    }
}

/// The checks a transfer must pass, in the order in which they are made.
pub open spec fn transfer_check(m: Map<Seq<char>, Account>, t: TransactionView) -> Result<
    (),
    LedgerErrorView,
> {
    match t.validation() {
        Err(e) => Err(validation_error_view(e)),
        Ok(_) => {
            if !m.contains_key(t.sender) {
                Err(LedgerErrorView::SenderNotFound(t.sender))
            } else if !m.contains_key(t.receiver) {
                Err(LedgerErrorView::ReceiverNotFound(t.receiver))
            } else if m[t.sender].nonce != t.nonce {
                Err(LedgerErrorView::IncorrectNonce { expected: m[t.sender].nonce, received: t.nonce })
            } else if m[t.sender].balance < t.amount {
                Err(
                    LedgerErrorView::InsufficientBalance {
                        available: m[t.sender].balance,
                        requested: t.amount,
                    },
                )
            } else if m[t.receiver].balance > u64::MAX - t.amount {
                Err(LedgerErrorView::BalanceOverflow)
            } else {
                Ok(())
            }
        },
    }
}

/// The outcome of a transfer: the sender pays `amount` and its nonce advances by one, the
/// receiver is credited; or the first failed check's error.
pub open spec fn transfer(m: Map<Seq<char>, Account>, t: TransactionView) -> Result<
    Map<Seq<char>, Account>,
    LedgerErrorView,
> {
    match transfer_check(m, t) {
        Err(e) => Err(e),
        Ok(_) => {
            let s = m[t.sender];
            let r = m[t.receiver];
            Ok(
                m.insert(
                    t.sender,
                    Account { balance: (s.balance - t.amount) as u64, nonce: (s.nonce + 1) as u64 },
                ).insert(
                    t.receiver,
                    Account { balance: (r.balance + t.amount) as u64, nonce: r.nonce },
                ),
            )
        },
    }
}

/// A transfer that passes every check can advance its sender's nonce without overflow.
pub open spec fn nonce_can_advance(m: Map<Seq<char>, Account>, t: TransactionView) -> bool {
    transfer_check(m, t) is Ok ==> t.nonce < u64::MAX
}

proof fn lemma_sorted_injective(e: Seq<(Seq<char>, Account)>, i: int, j: int)
    requires
        entries_sorted(e),
        0 <= i < e.len(),
        0 <= j < e.len(),
        e[i].0 == e[j].0,
    ensures
        i == j,
{
    lemma_id_lt_irreflexive(e[i].0);
    if i < j {
        assert(id_lt(e[i].0, e[j].0));
    } else if j < i {
        assert(id_lt(e[j].0, e[i].0));
    }
}

proof fn lemma_entries_map_at(e: Seq<(Seq<char>, Account)>, i: int)
    requires
        entries_sorted(e),
        0 <= i < e.len(),
    ensures
        entries_map(e).contains_key(e[i].0),
        entries_map(e)[e[i].0] == e[i].1,
{
    assert(entries_contain(e, e[i].0));
    let j = choose|j: int| 0 <= j < e.len() && (#[trigger] e[j]).0 == e[i].0;
    lemma_sorted_injective(e, i, j);
}

/// A sorted sequence of entries holds exactly the accounts of `m` when each entry is in `m`
/// and each id of `m` has an entry.
proof fn lemma_entries_map_eq(e: Seq<(Seq<char>, Account)>, m: Map<Seq<char>, Account>)
    requires
        entries_sorted(e),
        forall|i: int| 0 <= i < e.len() ==> m.contains_key(#[trigger] e[i].0) && m[e[i].0] == e[i].1,
        forall|k: Seq<char>| m.contains_key(k) ==> entries_contain(e, k),
    ensures
        entries_map(e) == m,
{
    assert forall|k: Seq<char>| #[trigger] entries_map(e).contains_key(k) implies m.contains_key(k)
        && entries_map(e)[k] == m[k] by {
        let i = choose|i: int| 0 <= i < e.len() && (#[trigger] e[i]).0 == k;
        lemma_entries_map_at(e, i);
    }
    assert(entries_map(e) =~= m);
}

proof fn lemma_entries_map_drop_first(e: Seq<(Seq<char>, Account)>)
    requires
        entries_sorted(e),
        e.len() > 0,
    ensures
        entries_sorted(e.drop_first()),
        entries_map(e.drop_first()) == entries_map(e).remove(e[0].0),
{
    let d = e.drop_first();
    let m = entries_map(e).remove(e[0].0);
    assert(entries_sorted(d)) by {
        assert forall|i: int, j: int| 0 <= i < j < d.len() implies id_lt(
            #[trigger] d[i].0,
            #[trigger] d[j].0,
        ) by {
            assert(d[i] == e[i + 1]);
            assert(d[j] == e[j + 1]);
        }
    }
    assert forall|i: int| 0 <= i < d.len() implies m.contains_key(#[trigger] d[i].0) && m[d[i].0]
        == d[i].1 by {
        assert(d[i] == e[i + 1]);
        lemma_entries_map_at(e, i + 1);
        if d[i].0 == e[0].0 {
            lemma_sorted_injective(e, 0, i + 1);
        }
    }
    assert forall|k: Seq<char>| m.contains_key(k) implies entries_contain(d, k) by {
        let i = choose|i: int| 0 <= i < e.len() && (#[trigger] e[i]).0 == k;
        assert(i != 0);
        assert(d[i - 1] == e[i]);
    }
    lemma_entries_map_eq(d, m);
}

/// Two sorted sequences of entries that hold the same accounts are equal.
proof fn lemma_sorted_unique(e1: Seq<(Seq<char>, Account)>, e2: Seq<(Seq<char>, Account)>)
    requires
        entries_sorted(e1),
        entries_sorted(e2),
        entries_map(e1) == entries_map(e2),
    ensures
        e1 == e2,
    decreases e1.len(),
{
    let m = entries_map(e1);
    if e1.len() == 0 {
        if e2.len() > 0 {
            lemma_entries_map_at(e2, 0);
        }
        assert(e1 =~= e2);
    } else {
        lemma_entries_map_at(e1, 0);
        if e2.len() == 0 {
            assert(false);
        }
        lemma_entries_map_at(e2, 0);
        let k1 = e1[0].0;
        let k2 = e2[0].0;
        let j = choose|j: int| 0 <= j < e2.len() && (#[trigger] e2[j]).0 == k1;
        let i = choose|i: int| 0 <= i < e1.len() && (#[trigger] e1[i]).0 == k2;
        lemma_id_lt_asymmetric(k1, k2);
        if j != 0 {
            assert(id_lt(e2[0].0, e2[j].0));
        }
        if i != 0 {
            assert(id_lt(e1[0].0, e1[i].0));
        }
        assert(k1 == k2);
        lemma_entries_map_drop_first(e1);
        lemma_entries_map_drop_first(e2);
        lemma_sorted_unique(e1.drop_first(), e2.drop_first());
        assert(e1 =~= e2) by {
            assert forall|n: int| 0 <= n < e1.len() implies e1[n] == e2[n] by {
                if n > 0 {
                    assert(e1[n] == e1.drop_first()[n - 1]);
                    assert(e2[n] == e2.drop_first()[n - 1]);
                }
            }
        }
    }
}

/// A sorted sequence of entries is the canonical order of the accounts it holds.
proof fn lemma_canonical_entries(e: Seq<(Seq<char>, Account)>)
    requires
        entries_sorted(e),
    ensures
        canonical_entries(entries_map(e)) == e,
{
    let c = canonical_entries(entries_map(e));
    assert(entries_sorted(e) && entries_map(e) == entries_map(e));
    lemma_sorted_unique(c, e);
}

proof fn lemma_balance_sum_update(e: Seq<(Seq<char>, Account)>, i: int, v: (Seq<char>, Account))
    requires
        0 <= i < e.len(),
    ensures
        balance_sum(e.update(i, v)) == balance_sum(e) - e[i].1.balance + v.1.balance,
    decreases e.len(),
{
    let u = e.update(i, v);
    if i == e.len() - 1 {
        assert(u.drop_last() =~= e.drop_last());
    } else {
        lemma_balance_sum_update(e.drop_last(), i, v);
        assert(u.drop_last() =~= e.drop_last().update(i, v));
    }
}

proof fn lemma_balance_sum_insert(e: Seq<(Seq<char>, Account)>, i: int, v: (Seq<char>, Account))
    requires
        0 <= i <= e.len(),
    ensures
        balance_sum(e.insert(i, v)) == balance_sum(e) + v.1.balance,
    decreases e.len(),
{
    let u = e.insert(i, v);
    if i == e.len() {
        assert(u.drop_last() =~= e);
    } else {
        lemma_balance_sum_insert(e.drop_last(), i, v);
        assert(u.drop_last() =~= e.drop_last().insert(i, v));
    }
}

proof fn lemma_balance_sum_prefix(e: Seq<(Seq<char>, Account)>, k: int)
    requires
        0 <= k <= e.len(),
    ensures
        0 <= balance_sum(e.take(k)) <= balance_sum(e),
    decreases e.len(),
{
    if e.len() > 0 {
        if k == e.len() {
            assert(e.take(k) =~= e);
            lemma_balance_sum_prefix(e.drop_last(), k - 1);
            assert(e.drop_last().take(k - 1) =~= e.drop_last());
        } else {
            lemma_balance_sum_prefix(e.drop_last(), k);
            assert(e.drop_last().take(k) =~= e.take(k));
        }
    }
}

/// Pairs each id with the account at the same position.
spec fn entries_of(ids: Seq<String>, accounts: Seq<Account>) -> Seq<(Seq<char>, Account)> {
    Seq::new(ids.len(), |i: int| (ids[i]@, accounts[i]))
}

/// Replacing the account of entry `i` keeps the entries sorted, replaces that account in
/// the map and changes the balance sum by the difference.
proof fn lemma_entries_set(e: Seq<(Seq<char>, Account)>, i: int, account: Account)
    requires
        entries_sorted(e),
        0 <= i < e.len(),
    ensures
        entries_sorted(e.update(i, (e[i].0, account))),
        entries_map(e.update(i, (e[i].0, account))) == entries_map(e).insert(e[i].0, account),
        balance_sum(e.update(i, (e[i].0, account))) == balance_sum(e) - e[i].1.balance
            + account.balance,
{
    let u = e.update(i, (e[i].0, account));
    assert forall|x: int, y: int| 0 <= x < y < u.len() implies id_lt(
        #[trigger] u[x].0,
        #[trigger] u[y].0,
    ) by {
        assert(u[x].0 == e[x].0);
        assert(u[y].0 == e[y].0);
    }
    let m = entries_map(e).insert(e[i].0, account);
    assert forall|x: int| 0 <= x < u.len() implies m.contains_key(#[trigger] u[x].0) && m[u[x].0]
        == u[x].1 by {
        if x != i {
            lemma_entries_map_at(e, x);
            if e[x].0 == e[i].0 {
                lemma_sorted_injective(e, x, i);
            }
        }
    }
    assert forall|k: Seq<char>| m.contains_key(k) implies entries_contain(u, k) by {
        if k != e[i].0 {
            let j = choose|j: int| 0 <= j < e.len() && (#[trigger] e[j]).0 == k;
            assert(u[j].0 == k);
        } else {
            assert(u[i].0 == k);
        }
    }
    lemma_entries_map_eq(u, m);
    lemma_balance_sum_update(e, i, (e[i].0, account));
}

/// Replacing the account at position `i` of a ledger's storage.
proof fn lemma_set_account(ids: Seq<String>, accounts: Seq<Account>, i: int, account: Account)
    requires
        ids.len() == accounts.len(),
        entries_sorted(entries_of(ids, accounts)),
        0 <= i < ids.len(),
    ensures
        entries_of(ids, accounts.update(i, account)) == entries_of(ids, accounts).update(
            i,
            (ids[i]@, account),
        ),
        entries_sorted(entries_of(ids, accounts.update(i, account))),
        entries_map(entries_of(ids, accounts.update(i, account))) == entries_map(
            entries_of(ids, accounts),
        ).insert(ids[i]@, account),
        balance_sum(entries_of(ids, accounts.update(i, account))) == balance_sum(
            entries_of(ids, accounts),
        ) - accounts[i].balance + account.balance,
{
    let old_entries = entries_of(ids, accounts);
    assert(entries_of(ids, accounts.update(i, account)) =~= old_entries.update(i, (ids[i]@, account)));
    lemma_entries_set(old_entries, i, account);
}

/// `m` is the account map of some well-formed ledger: its accounts can be listed sorted by id.
pub open spec fn is_ledger_state(m: Map<Seq<char>, Account>) -> bool {
    exists|e: Seq<(Seq<char>, Account)>| entries_sorted(e) && entries_map(e) == m
}

/// Conservation of supply: a transfer that is applied leaves the total supply unchanged
/// (and the result is again a ledger state).
pub proof fn lemma_transfer_conserves_supply(m: Map<Seq<char>, Account>, t: TransactionView)
    requires
        is_ledger_state(m),
        transfer(m, t) is Ok,
    ensures
        is_ledger_state(transfer(m, t)->Ok_0),
        supply_of(transfer(m, t)->Ok_0) == supply_of(m),
{
    let e = choose|e: Seq<(Seq<char>, Account)>| entries_sorted(e) && entries_map(e) == m;
    let si = choose|i: int| 0 <= i < e.len() && (#[trigger] e[i]).0 == t.sender;
    let ri = choose|i: int| 0 <= i < e.len() && (#[trigger] e[i]).0 == t.receiver;
    lemma_entries_map_at(e, si);
    lemma_entries_map_at(e, ri);
    let s = m[t.sender];
    let r = m[t.receiver];
    let debited = Account { balance: (s.balance - t.amount) as u64, nonce: (s.nonce + 1) as u64 };
    let credited = Account { balance: (r.balance + t.amount) as u64, nonce: r.nonce };
    lemma_entries_set(e, si, debited);
    let mid = e.update(si, (e[si].0, debited));
    assert(mid[ri] == e[ri]);
    lemma_entries_set(mid, ri, credited);
    let fin = mid.update(ri, (mid[ri].0, credited));
    lemma_canonical_entries(e);
    lemma_canonical_entries(fin);
}

/// A transfer that is applied debits the sender by the amount and advances its nonce by
/// exactly one, credits the receiver by the amount without touching its nonce, and leaves
/// every other account and the set of accounts as they were.
pub proof fn lemma_transfer_effects(m: Map<Seq<char>, Account>, t: TransactionView)
    requires
        transfer(m, t) is Ok,
        nonce_can_advance(m, t),
    ensures
        ({
            let after = transfer(m, t)->Ok_0;
            &&& after.dom() == m.dom()
            &&& after[t.sender].balance == m[t.sender].balance - t.amount
            &&& after[t.sender].nonce == m[t.sender].nonce + 1
            &&& after[t.receiver].balance == m[t.receiver].balance + t.amount
            &&& after[t.receiver].nonce == m[t.receiver].nonce
            &&& forall|k: Seq<char>|
                k != t.sender && k != t.receiver && m.contains_key(k) ==> after[k] == m[k]
        }),
{
    let after = transfer(m, t)->Ok_0;
    assert(transfer_check(m, t) is Ok);
    assert(t.validation() is Ok);
    assert(t.sender != t.receiver);
    assert(m.contains_key(t.sender) && m.contains_key(t.receiver));
    assert(after.dom() =~= m.dom());
}

/// A transfer is applied exactly when it moves a positive amount between two distinct
/// existing accounts, carries the sender's current nonce, is covered by the sender's balance
/// and leaves the receiver's balance within `u64`.
pub proof fn lemma_transfer_accepted_exactly(m: Map<Seq<char>, Account>, t: TransactionView)
    ensures
        transfer(m, t) is Ok <==> {
            &&& t.amount > 0
            &&& t.sender != t.receiver
            &&& m.contains_key(t.sender)
            &&& m.contains_key(t.receiver)
            &&& t.nonce == m[t.sender].nonce
            &&& t.amount <= m[t.sender].balance
            &&& m[t.receiver].balance + t.amount <= u64::MAX
        },
{
}

/// A well-formed transfer between existing accounts whose nonce is not the sender's current
/// nonce, whether stale or ahead, is refused with the nonce expected and the one received.
pub proof fn lemma_transfer_wrong_nonce_refused(m: Map<Seq<char>, Account>, t: TransactionView)
    requires
        t.amount > 0,
        t.sender != t.receiver,
        m.contains_key(t.sender),
        m.contains_key(t.receiver),
        t.nonce != m[t.sender].nonce,
    ensures
        transfer(m, t) == Err::<Map<Seq<char>, Account>, LedgerErrorView>(
            LedgerErrorView::IncorrectNonce { expected: m[t.sender].nonce, received: t.nonce },
        ),
{
}

/// Replay protection: once a transfer has been applied, the same transfer is refused on the
/// state it left, with `IncorrectNonce` expecting the sender's next nonce.
pub proof fn lemma_replay_refused(m: Map<Seq<char>, Account>, t: TransactionView)
    requires
        transfer(m, t) is Ok,
        nonce_can_advance(m, t),
    ensures
        transfer(transfer(m, t)->Ok_0, t) == Err::<Map<Seq<char>, Account>, LedgerErrorView>(
            LedgerErrorView::IncorrectNonce { expected: (t.nonce + 1) as u64, received: t.nonce },
        ),
{
    lemma_transfer_effects(m, t);
}

/// `rows` lists the accounts of `m` as `(id, balance, nonce)` rows, one per account, in
/// increasing order of id.
pub open spec fn rows_represent(rows: Seq<(Seq<char>, u64, u64)>, m: Map<Seq<char>, Account>) -> bool {
    &&& forall|i: int, j: int|
        0 <= i < j < rows.len() ==> id_lt(#[trigger] rows[i].0, #[trigger] rows[j].0)
    &&& forall|i: int|
        0 <= i < rows.len() ==> m.contains_key(#[trigger] rows[i].0) && m[rows[i].0] == Account {
            balance: rows[i].1,
            nonce: rows[i].2,
        }
    &&& forall|k: Seq<char>|
        #[trigger] m.contains_key(k) ==> exists|i: int| 0 <= i < rows.len() && (#[trigger] rows[i]).0 == k
}

proof fn lemma_entries_map_len(e: Seq<(Seq<char>, Account)>)
    requires
        entries_sorted(e),
    ensures
        entries_map(e).dom().finite(),
        entries_map(e).dom().len() == e.len(),
    decreases e.len(),
{
    if e.len() == 0 {
        assert(entries_map(e).dom() =~= Set::<Seq<char>>::empty());
    } else {
        lemma_entries_map_drop_first(e);
        lemma_entries_map_len(e.drop_first());
        lemma_entries_map_at(e, 0);
        assert(entries_map(e).dom() =~= entries_map(e.drop_first()).dom().insert(e[0].0));
    }
}

/// The state commitment hashes every account: where `rows` lists the accounts of `m`, one
/// per account in increasing order of id, the commitment is SHA-256 of the encoding of exactly
/// these rows, and there are as many rows as accounts.
pub proof fn lemma_commitment_of_rows(m: Map<Seq<char>, Account>, rows: Seq<(Seq<char>, u64, u64)>)
    requires
        rows_represent(rows, m),
    ensures
        commitment_of(m) == sha256(account_rows_encoding(rows)),
        m.dom().finite(),
        rows.len() == m.dom().len(),
{
    let e = Seq::new(
        rows.len(),
        |i: int| (rows[i].0, Account { balance: rows[i].1, nonce: rows[i].2 }),
    );
    assert(entries_sorted(e)) by {
        assert forall|i: int, j: int| 0 <= i < j < e.len() implies id_lt(
            #[trigger] e[i].0,
            #[trigger] e[j].0,
        ) by {
            assert(id_lt(rows[i].0, rows[j].0));
        }
    }
    assert forall|i: int| 0 <= i < e.len() implies m.contains_key(#[trigger] e[i].0) && m[e[i].0]
        == e[i].1 by {
        assert(m.contains_key(rows[i].0));
    }
    assert forall|k: Seq<char>| m.contains_key(k) implies entries_contain(e, k) by {
        let i = choose|i: int| 0 <= i < rows.len() && (#[trigger] rows[i]).0 == k;
        assert(e[i].0 == k);
    }
    lemma_entries_map_eq(e, m);
    lemma_canonical_entries(e);
    assert(rows_of(e) =~= rows);
    lemma_entries_map_len(e);
}

/// The accounts of every ledger state can be listed as rows, so the law above speaks of
/// every state: the rows of its canonical entries.
pub proof fn lemma_canonical_rows_represent(m: Map<Seq<char>, Account>)
    requires
        is_ledger_state(m),
    ensures
        rows_represent(rows_of(canonical_entries(m)), m),
{
    let e = choose|e: Seq<(Seq<char>, Account)>| entries_sorted(e) && entries_map(e) == m;
    lemma_canonical_entries(e);
    let rows = rows_of(e);
    assert forall|i: int| 0 <= i < rows.len() implies m.contains_key(#[trigger] rows[i].0)
        && m[rows[i].0] == Account { balance: rows[i].1, nonce: rows[i].2 } by {
        lemma_entries_map_at(e, i);
    }
    assert forall|k: Seq<char>| #[trigger] m.contains_key(k) implies exists|i: int|
        0 <= i < rows.len() && (#[trigger] rows[i]).0 == k by {
        let i = choose|i: int| 0 <= i < e.len() && (#[trigger] e[i]).0 == k;
        assert(rows[i].0 == k);
    }
}

/// Creating an account changes what the state commitment hashes: the encoded rows after list
/// one account more than those before, so the two encodings differ.
pub proof fn lemma_create_changes_committed_rows(
    m: Map<Seq<char>, Account>,
    id: Seq<char>,
    balance: u64,
    before: Seq<(Seq<char>, u64, u64)>,
    after: Seq<(Seq<char>, u64, u64)>,
)
    requires
        create_outcome(m, id, balance) is Ok,
        rows_represent(before, m),
        rows_represent(after, create_outcome(m, id, balance)->Ok_0),
        after.len() <= u64::MAX,
    ensures
        commitment_of(m) == sha256(account_rows_encoding(before)),
        commitment_of(create_outcome(m, id, balance)->Ok_0) == sha256(
            account_rows_encoding(after),
        ),
        after.len() == before.len() + 1,
        account_rows_encoding(before) != account_rows_encoding(after),
{
    let m2 = create_outcome(m, id, balance)->Ok_0;
    lemma_commitment_of_rows(m, before);
    lemma_commitment_of_rows(m2, after);
    assert(m2.dom() =~= m.dom().insert(id));
    let n1 = before.len() as u64;
    let n2 = after.len() as u64;
    lemma_varint_read(n1, rows_body_encoding(before));
    lemma_varint_read(n2, rows_body_encoding(after));
}

/// Creating two different accounts gives the same ledger state, and so the same state
/// commitment and supply, in either order.
pub proof fn lemma_creation_order_irrelevant(
    m: Map<Seq<char>, Account>,
    a: Seq<char>,
    balance_a: u64,
    b: Seq<char>,
    balance_b: u64,
)
    requires
        a != b,
        create_outcome(m, a, balance_a) is Ok,
        create_outcome(create_outcome(m, a, balance_a)->Ok_0, b, balance_b) is Ok,
    ensures
        create_outcome(m, b, balance_b) is Ok,
        create_outcome(create_outcome(m, b, balance_b)->Ok_0, a, balance_a) == create_outcome(
            create_outcome(m, a, balance_a)->Ok_0,
            b,
            balance_b,
        ),
        commitment_of(create_outcome(create_outcome(m, b, balance_b)->Ok_0, a, balance_a)->Ok_0)
            == commitment_of(create_outcome(create_outcome(m, a, balance_a)->Ok_0, b, balance_b)->Ok_0),
{
    let ab = create_outcome(create_outcome(m, a, balance_a)->Ok_0, b, balance_b)->Ok_0;
    let ba = create_outcome(create_outcome(m, b, balance_b)->Ok_0, a, balance_a)->Ok_0;
    assert(ab =~= ba);
}

/// Account balances and nonces keyed by unique account ids.
#[derive(Debug, PartialEq, Eq)]
pub struct Ledger {
    ids: Vec<String>,
    accounts: Vec<Account>,
}

impl View for Ledger {
    type V = Map<Seq<char>, Account>;

    closed spec fn view(&self) -> Map<Seq<char>, Account> {
        entries_map(self.entries())
    }
}

impl Ledger {
    /// The stored entries, in storage order.
    pub closed spec fn entries(&self) -> Seq<(Seq<char>, Account)> {
        entries_of(self.ids@, self.accounts@)
    }

    /// Well-formedness: one account per id, stored in increasing order of id.
    pub closed spec fn wf(&self) -> bool {
        &&& self.ids@.len() == self.accounts@.len()
        &&& entries_sorted(self.entries())
    }

    /// The storage of a well-formed ledger is determined by its accounts: two ledgers that
    /// hold the same accounts, however they were built, store them identically, and so have
    /// the same state commitment and total supply.
    pub proof fn lemma_storage_determined_by_accounts(l1: Ledger, l2: Ledger)
        requires
            l1.wf(),
            l2.wf(),
            l1@ == l2@,
        ensures
            l1.entries() == l2.entries(),
            commitment_of(l1@) == commitment_of(l2@),
            supply_of(l1@) == supply_of(l2@),
    {
        lemma_sorted_unique(l1.entries(), l2.entries());
    }

    /// The accounts of a well-formed ledger form a ledger state.
    pub proof fn lemma_is_ledger_state(&self)
        requires
            self.wf(),
        ensures
            is_ledger_state(self@),
    {
        assert(entries_sorted(self.entries()) && entries_map(self.entries()) == self@);
    }

    /// An empty ledger.
    pub fn new() -> (ledger: Self)
        ensures
            ledger.wf(),
            ledger@ == Map::<Seq<char>, Account>::empty(),
            supply_of(ledger@) == 0,
    {
        let ledger = Ledger { ids: Vec::new(), accounts: Vec::new() };
        assert(ledger@ =~= Map::<Seq<char>, Account>::empty());
        proof {
            lemma_canonical_entries(ledger.entries());
        }
        ledger
    }

    /// Where `id` is stored (`Ok`), or where it would be inserted (`Err`).
    fn position(&self, id: &str) -> (r: Result<usize, usize>)
        requires
            self.wf(),
        ensures
            match r {
                Ok(i) => i < self.ids@.len() && self.entries()[i as int].0 == id@,
                Err(p) => {
                    &&& p <= self.ids@.len()
                    &&& forall|j: int| 0 <= j < p ==> id_lt(#[trigger] self.entries()[j].0, id@)
                    &&& forall|j: int|
                        p <= j < self.ids@.len() ==> id_lt(id@, #[trigger] self.entries()[j].0)
                },
            },
            r is Ok <==> self@.contains_key(id@),
            r matches Ok(i) ==> self@[id@] == self.entries()[i as int].1,
    {
        let r = self.position_scan(id);
        proof {
            let e = self.entries();
            match r {
                Ok(i) => {
                    lemma_entries_map_at(e, i as int);
                },
                Err(p) => {
                    if self@.contains_key(id@) {
                        let j = choose|j: int| 0 <= j < e.len() && (#[trigger] e[j]).0 == id@;
                        lemma_id_lt_irreflexive(id@);
                        if j < p {
                            assert(id_lt(e[j].0, id@));
                        } else {
                            assert(id_lt(id@, e[j].0));
                        }
                    }
                },
            }
        }
        r
    }

    fn position_scan(&self, id: &str) -> (r: Result<usize, usize>)
        requires
            self.wf(),
        ensures
            match r {
                Ok(i) => i < self.ids@.len() && self.entries()[i as int].0 == id@,
                Err(p) => {
                    &&& p <= self.ids@.len()
                    &&& forall|j: int| 0 <= j < p ==> id_lt(#[trigger] self.entries()[j].0, id@)
                    &&& forall|j: int|
                        p <= j < self.ids@.len() ==> id_lt(id@, #[trigger] self.entries()[j].0)
                },
            },
    {
        let mut i: usize = 0;
        while i < self.ids.len()
            invariant
                self.wf(),
                i <= self.ids@.len(),
                forall|j: int| 0 <= j < i ==> id_lt(#[trigger] self.entries()[j].0, id@),
            decreases self.ids@.len() - i,
        {
            let order = compare_ids(self.ids[i].as_str(), id);
            assert(self.entries()[i as int].0 == self.ids@[i as int]@);
            match order {
                IdOrder::Less => {
                    i = i + 1;
                },
                IdOrder::Equal => {
                    return Ok(i);
                },
                IdOrder::Greater => {
                    assert forall|j: int| i <= j < self.ids@.len() implies id_lt(
                        id@,
                        #[trigger] self.entries()[j].0,
                    ) by {
                        if j > i {
                            assert(id_lt(self.entries()[i as int].0, self.entries()[j].0));
                            lemma_id_lt_transitive(id@, self.entries()[i as int].0, self.entries()[j].0);
                        }
                    }
                    return Err(i);
                },
            }
        }
        Err(i)
    }

    /// Creates account `id` with `balance` and nonce zero; fails, changing nothing, if the id
    /// is taken.
    pub fn create_account(&mut self, id: &str, balance: u64) -> (r: Result<(), LedgerError>)
        requires
            old(self).wf(),
        ensures
            final(self).wf(),
            match create_outcome(old(self)@, id@, balance) {
                Ok(m) => r is Ok && final(self)@ == m,
                Err(e) => r matches Err(err) && err@ == e && *final(self) == *old(self),
            },
            r is Ok ==> supply_of(final(self)@) == supply_of(old(self)@) + balance,
    {
        match self.position(id) {
            Ok(_) => Err(LedgerError::AccountAlreadyExists(id.to_owned())),
            Err(p) => {
                let ghost old_entries = self.entries();
                let ghost account = Account { balance, nonce: 0 };
                self.ids.insert(p, id.to_owned());
                self.accounts.insert(p, Account::new(balance));
                let ghost e = self.entries();
                assert(e =~= old_entries.insert(p as int, (id@, account)));
                proof {
                    assert forall|i: int, j: int| 0 <= i < j < e.len() implies id_lt(
                        #[trigger] e[i].0,
                        #[trigger] e[j].0,
                    ) by {
                        if j < p {
                            assert(id_lt(old_entries[i].0, old_entries[j].0));
                        } else if j == p {
                            assert(id_lt(old_entries[i].0, id@));
                        } else if i < p {
                            assert(id_lt(old_entries[i].0, id@));
                            assert(id_lt(id@, old_entries[j - 1].0));
                            lemma_id_lt_transitive(old_entries[i].0, id@, old_entries[j - 1].0);
                        } else if i == p {
                            assert(id_lt(id@, old_entries[j - 1].0));
                        } else {
                            assert(id_lt(old_entries[i - 1].0, old_entries[j - 1].0));
                        }
                    }
                    let m = old(self)@.insert(id@, account);
                    assert forall|i: int| 0 <= i < e.len() implies m.contains_key(#[trigger] e[i].0)
                        && m[e[i].0] == e[i].1 by {
                        if i < p {
                            lemma_entries_map_at(old_entries, i);
                            assert(id_lt(old_entries[i].0, id@));
                            lemma_id_lt_irreflexive(id@);
                        } else if i > p {
                            lemma_entries_map_at(old_entries, i - 1);
                            assert(id_lt(id@, old_entries[i - 1].0));
                            lemma_id_lt_irreflexive(id@);
                        }
                    }
                    assert forall|k: Seq<char>| m.contains_key(k) implies entries_contain(e, k) by {
                        if k == id@ {
                            assert(e[p as int].0 == k);
                        } else {
                            let j = choose|j: int|
                                0 <= j < old_entries.len() && (#[trigger] old_entries[j]).0 == k;
                            if j < p {
                                assert(e[j].0 == k);
                            } else {
                                assert(e[j + 1].0 == k);
                            }
                        }
                    }
                    lemma_entries_map_eq(e, m);
                    lemma_balance_sum_insert(old_entries, p as int, (id@, account));
                    lemma_canonical_entries(e);
                    lemma_canonical_entries(old_entries);
                }
                Ok(())
            },
        }
    }

    /// The account with id `id`, if there is one.
    pub fn account(&self, id: &str) -> (r: Option<&Account>)
        requires
            self.wf(),
        ensures
            r is Some <==> self@.contains_key(id@),
            r matches Some(a) ==> *a == self@[id@],
    {
        match self.position(id) {
            Ok(i) => Some(&self.accounts[i]),
            Err(_) => None,
        }
    }

    /// The account with id `id`, for changing in place, if there is one.
    pub fn account_mut(&mut self, id: &str) -> (r: Option<&mut Account>)
        requires
            old(self).wf(),
        ensures
            final(self).wf(),
            r is Some <==> old(self)@.contains_key(id@),
            r matches Some(a) ==> *a == old(self)@[id@] && final(self)@ == old(self)@.insert(
                id@,
                *final(a),
            ),
            r is None ==> *final(self) == *old(self),
    {
        match self.position(id) {
            Ok(i) => {
                let ghost old_ids = self.ids@;
                let ghost old_accounts = self.accounts@;
                let a = &mut self.accounts[i];
                proof {
                    lemma_set_account(old_ids, old_accounts, i as int, *final(a));
                }
                Some(a)
            },
            Err(_) => None,
        }
    }

    /// Applies a transfer: checks it (structure, both accounts, the sender's nonce and
    /// balance, the receiver's headroom) before changing anything, then debits the sender
    /// and advances its nonce and credits the receiver. A refused transfer changes nothing.
    pub fn apply_transaction(&mut self, transaction: Transaction) -> (r: Result<(), LedgerError>)
        requires
            old(self).wf(),
            nonce_can_advance(old(self)@, transaction@),
        ensures
            final(self).wf(),
            match transfer(old(self)@, transaction@) {
                Ok(m) => r is Ok && final(self)@ == m,
                Err(e) => r matches Err(err) && err@ == e && *final(self) == *old(self),
            },
            supply_of(final(self)@) == supply_of(old(self)@),
    {
        let ghost t = transaction@;
        match transaction.validate() {
            Err(e) => {
                return Err(LedgerError::from(e));
            },
            Ok(()) => {},
        }
        let Transaction { sender, receiver, amount, nonce } = transaction;
        let si = match self.position(sender.as_str()) {
            Ok(i) => i,
            Err(_) => {
                return Err(LedgerError::SenderNotFound(sender));
            },
        };
        let ri = match self.position(receiver.as_str()) {
            Ok(i) => i,
            Err(_) => {
                return Err(LedgerError::ReceiverNotFound(receiver));
            },
        };
        let from = self.accounts[si];
        let to = self.accounts[ri];
        if from.nonce != nonce {
            return Err(LedgerError::IncorrectNonce { expected: from.nonce, received: nonce });
        }
        if from.balance < amount {
            return Err(LedgerError::InsufficientBalance { available: from.balance, requested: amount });
        }
        if to.balance > u64::MAX - amount {
            return Err(LedgerError::BalanceOverflow);
        }
        let debited = Account { balance: from.balance - amount, nonce: from.nonce + 1 };
        let credited = Account { balance: to.balance + amount, nonce: to.nonce };
        proof {
            assert(si != ri) by {
                if si == ri {
                    assert(t.sender == t.receiver);
                }
            }
            lemma_set_account(self.ids@, self.accounts@, si as int, debited);
            lemma_set_account(self.ids@, self.accounts@.update(si as int, debited), ri as int, credited);
            lemma_canonical_entries(self.entries());
            lemma_canonical_entries(
                entries_of(self.ids@, self.accounts@.update(si as int, debited).update(ri as int, credited)),
            );
        }
        self.accounts.set(si, debited);
        self.accounts.set(ri, credited);
        Ok(())
    }

    /// Whether a transfer would pass every check that `apply_transaction` makes.
    pub fn transfer_passes(&self, transaction: &Transaction) -> (ok: bool)
        requires
            self.wf(),
        ensures
            ok == (transfer_check(self@, transaction@) is Ok),
    {
        match transaction.validate() {
            Err(_) => {
                return false;
            },
            Ok(()) => {},
        }
        let si = match self.position(transaction.sender.as_str()) {
            Ok(i) => i,
            Err(_) => {
                return false;
            },
        };
        let ri = match self.position(transaction.receiver.as_str()) {
            Ok(i) => i,
            Err(_) => {
                return false;
            },
        };
        let from = self.accounts[si];
        let to = self.accounts[ri];
        from.nonce == transaction.nonce && from.balance >= transaction.amount && to.balance
            <= u64::MAX - transaction.amount
    }

    /// The total supply: the sum of all balances (which must fit in a `u64`).
    pub fn total_supply(&self) -> (total: u64)
        requires
            self.wf(),
            supply_of(self@) <= u64::MAX,
        ensures
            total == supply_of(self@),
    {
        let ghost e = self.entries();
        proof {
            lemma_canonical_entries(e);
        }
        let mut total: u64 = 0;
        let mut i: usize = 0;
        while i < self.accounts.len()
            invariant
                self.wf(),
                e == self.entries(),
                balance_sum(e) <= u64::MAX,
                i <= e.len(),
                total == balance_sum(e.take(i as int)),
            decreases e.len() - i,
        {
            proof {
                lemma_balance_sum_prefix(e, i + 1);
                assert(e.take(i + 1).drop_last() =~= e.take(i as int));
            }
            total = total + self.accounts[i].balance;
            i = i + 1;
        }
        assert(e.take(i as int) =~= e);
        total
    }

    /// The total supply, or `None` where it does not fit in a `u64`.
    pub fn checked_total_supply(&self) -> (total: Option<u64>)
        requires
            self.wf(),
        ensures
            match total {
                Some(t) => supply_of(self@) <= u64::MAX && t == supply_of(self@),
                None => supply_of(self@) > u64::MAX,
            },
    {
        let ghost e = self.entries();
        proof {
            lemma_canonical_entries(e);
        }
        let mut total: u64 = 0;
        let mut i: usize = 0;
        while i < self.accounts.len()
            invariant
                self.wf(),
                e == self.entries(),
                i <= e.len(),
                canonical_entries(self@) == e,
                total == balance_sum(e.take(i as int)),
            decreases e.len() - i,
        {
            proof {
                lemma_balance_sum_prefix(e, i + 1);
                assert(e.take(i + 1).drop_last() =~= e.take(i as int));
            }
            match total.checked_add(self.accounts[i].balance) {
                Some(sum) => {
                    total = sum;
                },
                None => {
                    return None;
                },
            }
            i = i + 1;
        }
        assert(e.take(i as int) =~= e);
        Some(total)
    }

    /// The state commitment: SHA-256 of the canonical encoding of the `(id, balance, nonce)`
    /// rows sorted by id. It depends on the accounts alone, not on the order of creation.
    pub fn state_commitment(&self) -> (r: Result<[u8; 32], LedgerError>)
        requires
            self.wf(),
        ensures
            r is Ok,
            r matches Ok(c) ==> c@ == commitment_of(self@),
    {
        let ghost e = self.entries();
        let mut rows: Vec<(&str, u64, u64)> = Vec::new();
        let mut i: usize = 0;
        while i < self.ids.len()
            invariant
                self.wf(),
                e == self.entries(),
                i <= e.len(),
                rows@.len() == i,
                forall|j: int| 0 <= j < i ==> (#[trigger] rows@[j]).deep_view() == rows_of(e)[j],
            decreases e.len() - i,
        {
            let account = self.accounts[i];
            let id: &str = self.ids[i].as_str();
            let row = (id, account.balance, account.nonce);
            assert(id@ == e[i as int].0);
            assert(row.deep_view() == (e[i as int].0, e[i as int].1.balance, e[i as int].1.nonce));
            rows.push(row);
            i = i + 1;
        }
        assert(rows.deep_view() =~= rows_of(e));
        proof {
            lemma_canonical_entries(e);
        }
        match encode_account_rows(&rows) {
            Ok(bytes) => Ok(sha256_digest(bytes.as_slice())),
            Err(_) => Ok([0u8; 32]),
        }
    }
}

impl Clone for Ledger {
    fn clone(&self) -> (copy: Self)
        ensures
            copy@ == self@,
            self.wf() ==> copy.wf(),
            self.wf() ==> copy.entries() == self.entries(),
    {
        let ids = self.ids.clone();
        let accounts = self.accounts.clone();
        assert(ids@ =~= self.ids@);
        assert(accounts@ =~= self.accounts@);
        Ledger { ids, accounts }
    }
}

impl Default for Ledger {
    fn default() -> (ledger: Self)
        ensures
            ledger.wf(),
            ledger@ == Map::<Seq<char>, Account>::empty(),
    {
        Ledger::new()
    }
}

/// A state that advances by applying inputs, all-or-nothing.
pub trait StateTransition<Input>: Sized {
    type Error;

    /// Whether `input` may be applied to this state.
    spec fn accepts(&self, input: Input) -> bool;

    /// Applies `input`; a refused input leaves the state as it was.
    fn apply(&mut self, input: Input) -> (r: Result<(), Self::Error>)
        requires
            old(self).accepts(input),
        ensures
            r is Err ==> *final(self) == *old(self),
    ;
}

impl StateTransition<Transaction> for Ledger {
    type Error = LedgerError;

    open spec fn accepts(&self, input: Transaction) -> bool {
        self.wf() && nonce_can_advance(self@, input@)
    }

    /// Applies a transfer exactly as `apply_transaction` does.
    fn apply(&mut self, input: Transaction) -> (r: Result<(), LedgerError>)
        ensures
            final(self).wf(),
            match transfer(old(self)@, input@) {
                Ok(m) => r is Ok && final(self)@ == m,
                Err(e) => r matches Err(err) && err@ == e && *final(self) == *old(self),
            },
            supply_of(final(self)@) == supply_of(old(self)@),
    {
        self.apply_transaction(input)
    }
}

} // verus!
