//! Dispatch of transaction records onto the ledger, and the dispute
//! workflow.
//!
//! The whole effect of one record is written down as the specification
//! function [`step`] over the ledger's map view; `process_record` is proved
//! to implement it exactly. Business-rule rejections (a locked account,
//! insufficient funds, a misdirected dispute) are contained in the
//! [`Outcome`] and never stop a batch; the only escaping error,
//! [`LedgerError`], is proved unreachable on a well-formed ledger.

use vstd::prelude::*;
use crate::client::{Client, Error};
use crate::ledger::{
    accounts_map, disputed_sum, entry_hold, held_of, history_map, lemma_accounts_map_absent,
    lemma_accounts_map_index, lemma_accounts_map_update, lemma_disputed_sum_lower,
    lemma_disputed_sum_update, lemma_history_map_absent, lemma_history_map_index,
    lemma_history_map_update, unique_ids, unique_txs, DisputeState, HistoryEntry, Ledger,
    LedgerSnap, TxKind,
};
use crate::transaction::Transaction;

verus! {

/// How one record was disposed of. Everything but `Applied` leaves some or
/// all of the record's intent undone, and processing continues either way.
#[derive(Debug, Clone, Copy, PartialEq, Eq, Structural)]
pub enum Outcome {
    /// The record took full effect.
    Applied,
    /// A deposit or withdrawal moved funds, but its transaction id was
    /// already taken: the first history entry is kept, the record is not
    /// disputable.
    DuplicateTx,
    /// The account refused the fund movement; nothing changed.
    Rejected(Error),
    /// A dispute-workflow record named an absent account, a locked
    /// account, an unknown transaction, a transaction of another client,
    /// or a transaction in the wrong dispute state; nothing changed.
    Ignored,
}

/// Corruption of the ledger itself: a structurally guaranteed fund
/// movement failed. Distinct from every business-rule rejection, and
/// proved never to arise from a well-formed ledger.
#[derive(Debug, Clone, Copy, PartialEq, Eq, Structural)]
pub enum LedgerError {
    InvariantViolation,
}

/// `c` credited by `amt`: the effect of a successful `Client::add`.
pub open spec fn credited(c: Client, amt: u64) -> Client {
    Client { available: (c.available + amt) as u64, total: (c.total + amt) as u64, ..c }
}

/// `c` debited by `amt`: the effect of a successful `Client::rm`.
pub open spec fn debited(c: Client, amt: u64) -> Client {
    Client { available: (c.available - amt) as u64, total: (c.total - amt) as u64, ..c }
}

/// `amt` of `c`'s funds frozen: the effect of a successful `Client::hold`.
pub open spec fn frozen(c: Client, amt: u64) -> Client {
    Client { available: (c.available - amt) as u64, held: (c.held + amt) as u64, ..c }
}

/// `amt` of `c`'s funds released: the effect of a successful
/// `Client::unhold`.
pub open spec fn thawed(c: Client, amt: u64) -> Client {
    Client { available: (c.available + amt) as u64, held: (c.held - amt) as u64, ..c }
}

/// `e` moved to dispute state `st`; nothing else of the entry changes.
pub open spec fn entry_with_state(e: HistoryEntry, st: DisputeState) -> HistoryEntry {
    HistoryEntry { state: st, ..e }
}

/// The account the record addresses: the existing one, or a fresh
/// zero-balance account.
pub open spec fn addressed(s: LedgerSnap, client: u16) -> Client {
    if s.accounts.contains_key(client) {
        s.accounts[client]
    } else {
        Client { id: client, available: 0u64, held: 0u64, total: 0u64, locked: false }
    }
}

/// The effect and outcome of a deposit record: get or create the account;
/// credit it; on success record the history entry unless the transaction
/// id is already taken.
pub open spec fn deposit_full(s: LedgerSnap, client: u16, tx: u32, amount: u64) -> (
    LedgerSnap,
    Outcome,
) {
    let acc = addressed(s, client);
    let kept = LedgerSnap { accounts: s.accounts.insert(client, acc), history: s.history };
    if acc.locked {
        (kept, Outcome::Rejected(Error::Locked(client)))
    } else if acc.total + amount > u64::MAX {
        (kept, Outcome::Rejected(Error::Overflow(client)))
    } else {
        let moved = LedgerSnap {
            accounts: s.accounts.insert(client, credited(acc, amount)),
            history: s.history,
        };
        if s.history.contains_key(tx) {
            (moved, Outcome::DuplicateTx)
        } else {
            (
                LedgerSnap {
                    accounts: moved.accounts,
                    history: s.history.insert(
                        tx,
                        HistoryEntry {
                            kind: TxKind::Deposit,
                            client,
                            tx,
                            amount,
                            state: DisputeState::Undisputed,
                        },
                    ),
                },
                Outcome::Applied,
            )
        }
    }
}

/// The effect and outcome of a withdrawal record: symmetric to the
/// deposit, debiting the account.
pub open spec fn withdrawal_full(s: LedgerSnap, client: u16, tx: u32, amount: u64) -> (
    LedgerSnap,
    Outcome,
) {
    let acc = addressed(s, client);
    let kept = LedgerSnap { accounts: s.accounts.insert(client, acc), history: s.history };
    if acc.locked {
        (kept, Outcome::Rejected(Error::Locked(client)))
    } else if amount > acc.available {
        (kept, Outcome::Rejected(Error::InsufficientFunds(client, acc.available)))
    } else {
        let moved = LedgerSnap {
            accounts: s.accounts.insert(client, debited(acc, amount)),
            history: s.history,
        };
        if s.history.contains_key(tx) {
            (moved, Outcome::DuplicateTx)
        } else {
            (
                LedgerSnap {
                    accounts: moved.accounts,
                    history: s.history.insert(
                        tx,
                        HistoryEntry {
                            kind: TxKind::Withdrawal,
                            client,
                            tx,
                            amount,
                            state: DisputeState::Undisputed,
                        },
                    ),
                },
                Outcome::Applied,
            )
        }
    }
}

/// Whether a dispute-workflow record aimed at `client` and `tx` passes the
/// referential-integrity guards: the account and the entry exist, the
/// account is not locked, and the entry belongs to that client.
pub open spec fn workflow_reaches(s: LedgerSnap, client: u16, tx: u32) -> bool {
    &&& s.accounts.contains_key(client)
    &&& !s.accounts[client].locked
    &&& s.history.contains_key(tx)
    &&& s.history[tx].client == client
}

/// The ledger with `client`'s account replaced by `acc` and the entry of
/// `tx` replaced by `e`.
pub open spec fn settled(s: LedgerSnap, client: u16, acc: Client, tx: u32, e: HistoryEntry)
    -> LedgerSnap {
    LedgerSnap { accounts: s.accounts.insert(client, acc), history: s.history.insert(tx, e) }
}

/// The effect and outcome of a dispute record. A deposit root freezes the
/// disputed amount; a withdrawal root provisionally reverses the earlier
/// debit and freezes it. The entry turns `Disputed` only when the fund
/// movement succeeded.
pub open spec fn dispute_full(s: LedgerSnap, client: u16, tx: u32) -> (LedgerSnap, Outcome) {
    if !workflow_reaches(s, client, tx) {
        (s, Outcome::Ignored)
    } else {
        let acc = s.accounts[client];
        let e = s.history[tx];
        if !(e.state is Undisputed) {
            (s, Outcome::Ignored)
        } else {
            match e.kind {
                TxKind::Deposit => if e.amount > acc.available {
                    (s, Outcome::Rejected(Error::InsufficientFunds(client, acc.available)))
                } else {
                    (
                        settled(
                            s,
                            client,
                            frozen(acc, e.amount),
                            tx,
                            entry_with_state(e, DisputeState::Disputed),
                        ),
                        Outcome::Applied,
                    )
                },
                TxKind::Withdrawal => if acc.total + e.amount > u64::MAX {
                    (s, Outcome::Rejected(Error::Overflow(client)))
                } else {
                    (
                        settled(
                            s,
                            client,
                            frozen(credited(acc, e.amount), e.amount),
                            tx,
                            entry_with_state(e, DisputeState::Disputed),
                        ),
                        Outcome::Applied,
                    )
                },
            }
        }
    }
}

/// The effect and outcome of a resolve record: the dispute is dismissed.
/// A deposit root has its frozen funds restored to available; a
/// withdrawal root has them released and then removed, completing the
/// withdrawal that the dispute had provisionally reversed.
pub open spec fn resolve_full(s: LedgerSnap, client: u16, tx: u32) -> (LedgerSnap, Outcome) {
    if !workflow_reaches(s, client, tx) {
        (s, Outcome::Ignored)
    } else {
        let acc = s.accounts[client];
        let e = s.history[tx];
        if !(e.state is Disputed) {
            (s, Outcome::Ignored)
        } else {
            let resolved = entry_with_state(e, DisputeState::Resolved);
            match e.kind {
                TxKind::Deposit => (
                    settled(s, client, thawed(acc, e.amount), tx, resolved),
                    Outcome::Applied,
                ),
                TxKind::Withdrawal => (
                    settled(s, client, debited(thawed(acc, e.amount), e.amount), tx, resolved),
                    Outcome::Applied,
                ),
            }
        }
    }
}

/// The effect and outcome of a chargeback record: the dispute is upheld.
/// The frozen amount is released and removed — permanently reversing a
/// deposit root, or reinstating a withdrawal root — the entry turns
/// terminal, and the account is locked for good.
pub open spec fn chargeback_full(s: LedgerSnap, client: u16, tx: u32) -> (LedgerSnap, Outcome) {
    if !workflow_reaches(s, client, tx) {
        (s, Outcome::Ignored)
    } else {
        let acc = s.accounts[client];
        let e = s.history[tx];
        if !(e.state is Disputed) {
            (s, Outcome::Ignored)
        } else {
            let reversed = Client { locked: true, ..debited(thawed(acc, e.amount), e.amount) };
            (
                settled(
                    s,
                    client,
                    reversed,
                    tx,
                    entry_with_state(e, DisputeState::ChargedBack),
                ),
                Outcome::Applied,
            )
        }
    }
}

/// The full effect of one record on the ledger view, with its outcome.
pub open spec fn step_full(s: LedgerSnap, t: Transaction) -> (LedgerSnap, Outcome) {
    match t {
        Transaction::Deposit { client, tx, amount } => deposit_full(s, client, tx, amount),
        Transaction::Withdrawal { client, tx, amount } => withdrawal_full(s, client, tx, amount),
        Transaction::Dispute { client, tx } => dispute_full(s, client, tx),
        Transaction::Resolve { client, tx } => resolve_full(s, client, tx),
        Transaction::Chargeback { client, tx } => chargeback_full(s, client, tx),
    }
}

/// The ledger view after one record.
pub open spec fn step(s: LedgerSnap, t: Transaction) -> LedgerSnap {
    step_full(s, t).0
}

/// The outcome of one record.
pub open spec fn step_outcome(s: LedgerSnap, t: Transaction) -> Outcome {
    step_full(s, t).1
}

/// The ledger view after a whole batch, record by record in input order.
pub open spec fn run(s: LedgerSnap, ts: Seq<Transaction>) -> LedgerSnap
    decreases ts.len(),
{
    if ts.len() == 0 {
        s
    } else {
        run(step(s, ts[0]), ts.drop_first())
    }
}

/// Dispatch one record. The ledger moves to exactly `step` of its old
/// view, and the record's disposition is exactly `step_outcome`; the
/// fatal error is never reported on a well-formed ledger.
pub fn process_record(ledger: &mut Ledger, t: Transaction) -> (r: Result<Outcome, LedgerError>)
    requires
        old(ledger).wf(),
    ensures
        final(ledger).wf(),
        final(ledger)@ == step(old(ledger)@, t),
        r == Ok::<Outcome, LedgerError>(step_outcome(old(ledger)@, t)),
{
    match t {
        Transaction::Deposit { client, tx, amount } => process_deposit(ledger, client, tx, amount),
        Transaction::Withdrawal { client, tx, amount } => process_withdrawal(
            ledger,
            client,
            tx,
            amount,
        ),
        Transaction::Dispute { client, tx } => process_dispute(ledger, client, tx),
        Transaction::Resolve { client, tx } => process_resolve(ledger, client, tx),
        Transaction::Chargeback { client, tx } => process_chargeback(ledger, client, tx),
    }
}

fn process_deposit(ledger: &mut Ledger, client: u16, tx: u32, amount: u64) -> (r: Result<
    Outcome,
    LedgerError,
>)
    requires
        old(ledger).wf(),
    ensures
        final(ledger).wf(),
        final(ledger)@ == deposit_full(old(ledger)@, client, tx, amount).0,
        r == Ok::<Outcome, LedgerError>(deposit_full(old(ledger)@, client, tx, amount).1),
{
    let ghost s0 = old(ledger)@;
    let i = ledger.account_for(client);
    let ghost mid = ledger.accounts@;
    let acc = &mut ledger.accounts[i];
    let ghost acc0 = *acc;
    let res = acc.add(amount);
    proof {
        assert(acc0 == addressed(s0, client));
        lemma_accounts_map_update(mid, i as int, *acc);
        assert(unique_ids(ledger.accounts@));
        assert(accounts_map(ledger.accounts@) =~= s0.accounts.insert(client, *acc));
        assert forall|c: u16| #[trigger] disputed_sum(ledger.history@, c) <= held_of(
            accounts_map(ledger.accounts@),
            c,
        ) by {
            assert(disputed_sum(ledger.history@, c) <= held_of(accounts_map(mid), c));
            assert(held_of(accounts_map(ledger.accounts@), c) == held_of(accounts_map(mid), c));
        }
        assert(ledger.wf());
    }
    match res {
        Err(e) => {
            proof {
                assert(ledger@ =~= deposit_full(s0, client, tx, amount).0);
            }
            Ok(Outcome::Rejected(e))
        },
        Ok(()) => {
            let recorded = ledger.history_record(
                HistoryEntry {
                    kind: TxKind::Deposit,
                    client,
                    tx,
                    amount,
                    state: DisputeState::Undisputed,
                },
            );
            proof {
                assert(ledger@ =~= deposit_full(s0, client, tx, amount).0);
            }
            if recorded {
                Ok(Outcome::Applied)
            } else {
                Ok(Outcome::DuplicateTx)
            }
        },
    }
}

fn process_withdrawal(ledger: &mut Ledger, client: u16, tx: u32, amount: u64) -> (r: Result<
    Outcome,
    LedgerError,
>)
    requires
        old(ledger).wf(),
    ensures
        final(ledger).wf(),
        final(ledger)@ == withdrawal_full(old(ledger)@, client, tx, amount).0,
        r == Ok::<Outcome, LedgerError>(withdrawal_full(old(ledger)@, client, tx, amount).1),
{
    let ghost s0 = old(ledger)@;
    let i = ledger.account_for(client);
    let ghost mid = ledger.accounts@;
    let acc = &mut ledger.accounts[i];
    let ghost acc0 = *acc;
    let res = acc.rm(amount);
    proof {
        assert(acc0 == addressed(s0, client));
        lemma_accounts_map_update(mid, i as int, *acc);
        assert(unique_ids(ledger.accounts@));
        assert(accounts_map(ledger.accounts@) =~= s0.accounts.insert(client, *acc));
        assert forall|c: u16| #[trigger] disputed_sum(ledger.history@, c) <= held_of(
            accounts_map(ledger.accounts@),
            c,
        ) by {
            assert(disputed_sum(ledger.history@, c) <= held_of(accounts_map(mid), c));
            assert(held_of(accounts_map(ledger.accounts@), c) == held_of(accounts_map(mid), c));
        }
        assert(ledger.wf());
    }
    match res {
        Err(e) => {
            proof {
                assert(ledger@ =~= withdrawal_full(s0, client, tx, amount).0);
            }
            Ok(Outcome::Rejected(e))
        },
        Ok(()) => {
            let recorded = ledger.history_record(
                HistoryEntry {
                    kind: TxKind::Withdrawal,
                    client,
                    tx,
                    amount,
                    state: DisputeState::Undisputed,
                },
            );
            proof {
                assert(ledger@ =~= withdrawal_full(s0, client, tx, amount).0);
            }
            if recorded {
                Ok(Outcome::Applied)
            } else {
                Ok(Outcome::DuplicateTx)
            }
        },
    }
}

fn process_dispute(ledger: &mut Ledger, client: u16, tx: u32) -> (r: Result<Outcome, LedgerError>)
    requires
        old(ledger).wf(),
    ensures
        final(ledger).wf(),
        final(ledger)@ == dispute_full(old(ledger)@, client, tx).0,
        r == Ok::<Outcome, LedgerError>(dispute_full(old(ledger)@, client, tx).1),
{
    let ghost s0 = old(ledger)@;
    let i = match ledger.find_account(client) {
        None => {
            proof {
                lemma_accounts_map_absent(ledger.accounts@, client);
            }
            return Ok(Outcome::Ignored);
        },
        Some(i) => i,
    };
    proof {
        lemma_accounts_map_index(ledger.accounts@, i as int);
    }
    if ledger.accounts[i].is_locked() {
        return Ok(Outcome::Ignored);
    }
    let h = match ledger.find_history(tx) {
        None => {
            proof {
                lemma_history_map_absent(ledger.history@, tx);
            }
            return Ok(Outcome::Ignored);
        },
        Some(h) => h,
    };
    proof {
        lemma_history_map_index(ledger.history@, h as int);
    }
    let entry = ledger.history[h];
    if entry.client != client {
        return Ok(Outcome::Ignored);
    }
    if entry.state != DisputeState::Undisputed {
        return Ok(Outcome::Ignored);
    }
    let ghost acc0 = ledger.accounts@[i as int];
    match entry.kind {
        TxKind::Deposit => {
            let acc = &mut ledger.accounts[i];
            match acc.hold(entry.amount) {
                Err(e) => {
                    proof {
                        assert(ledger.accounts@ =~= old(ledger).accounts@);
                        assert(ledger@ =~= s0);
                    }
                    Ok(Outcome::Rejected(e))
                },
                Ok(()) => {
                    let settled_entry = HistoryEntry {
                        kind: entry.kind,
                        client: entry.client,
                        tx: entry.tx,
                        amount: entry.amount,
                        state: DisputeState::Disputed,
                    };
                    ledger.history[h] = settled_entry;
                    proof {
                        lemma_settle(
                            *old(ledger),
                            *ledger,
                            i as int,
                            h as int,
                            frozen(acc0, entry.amount),
                            settled_entry,
                        );
                        assert(ledger@ =~= dispute_full(s0, client, tx).0);
                    }
                    Ok(Outcome::Applied)
                },
            }
        },
        TxKind::Withdrawal => {
            let acc = &mut ledger.accounts[i];
            let r1 = acc.add(entry.amount);
            match r1 {
                Err(e) => {
                    proof {
                        assert(ledger.accounts@ =~= old(ledger).accounts@);
                        assert(ledger@ =~= s0);
                    }
                    Ok(Outcome::Rejected(e))
                },
                Ok(()) => {
                    let r2 = acc.hold(entry.amount);
                    if r2.is_err() {
                        return Err(LedgerError::InvariantViolation);
                    }
                    let settled_entry = HistoryEntry {
                        kind: entry.kind,
                        client: entry.client,
                        tx: entry.tx,
                        amount: entry.amount,
                        state: DisputeState::Disputed,
                    };
                    ledger.history[h] = settled_entry;
                    proof {
                        lemma_settle(
                            *old(ledger),
                            *ledger,
                            i as int,
                            h as int,
                            frozen(credited(acc0, entry.amount), entry.amount),
                            settled_entry,
                        );
                        assert(ledger@ =~= dispute_full(s0, client, tx).0);
                    }
                    Ok(Outcome::Applied)
                },
            }
        },
    }
}

fn process_resolve(ledger: &mut Ledger, client: u16, tx: u32) -> (r: Result<Outcome, LedgerError>)
    requires
        old(ledger).wf(),
    ensures
        final(ledger).wf(),
        final(ledger)@ == resolve_full(old(ledger)@, client, tx).0,
        r == Ok::<Outcome, LedgerError>(resolve_full(old(ledger)@, client, tx).1),
{
    let ghost s0 = old(ledger)@;
    let i = match ledger.find_account(client) {
        None => {
            proof {
                lemma_accounts_map_absent(ledger.accounts@, client);
            }
            return Ok(Outcome::Ignored);
        },
        Some(i) => i,
    };
    proof {
        lemma_accounts_map_index(ledger.accounts@, i as int);
    }
    if ledger.accounts[i].is_locked() {
        return Ok(Outcome::Ignored);
    }
    let h = match ledger.find_history(tx) {
        None => {
            proof {
                lemma_history_map_absent(ledger.history@, tx);
            }
            return Ok(Outcome::Ignored);
        },
        Some(h) => h,
    };
    proof {
        lemma_history_map_index(ledger.history@, h as int);
    }
    let entry = ledger.history[h];
    if entry.client != client {
        return Ok(Outcome::Ignored);
    }
    if entry.state != DisputeState::Disputed {
        return Ok(Outcome::Ignored);
    }
    proof {
        lemma_disputed_sum_lower(ledger.history@, h as int);
    }
    let ghost acc0 = ledger.accounts@[i as int];
    let settled_entry = HistoryEntry {
        kind: entry.kind,
        client: entry.client,
        tx: entry.tx,
        amount: entry.amount,
        state: DisputeState::Resolved,
    };
    match entry.kind {
        TxKind::Deposit => {
            let acc = &mut ledger.accounts[i];
            let r1 = acc.unhold(entry.amount);
            if r1.is_err() {
                return Err(LedgerError::InvariantViolation);
            }
            ledger.history[h] = settled_entry;
            proof {
                lemma_settle(
                    *old(ledger),
                    *ledger,
                    i as int,
                    h as int,
                    thawed(acc0, entry.amount),
                    settled_entry,
                );
                assert(ledger@ =~= resolve_full(s0, client, tx).0);
            }
            Ok(Outcome::Applied)
        },
        TxKind::Withdrawal => {
            let acc = &mut ledger.accounts[i];
            let r1 = acc.unhold(entry.amount);
            if r1.is_err() {
                return Err(LedgerError::InvariantViolation);
            }
            let r2 = acc.rm(entry.amount);
            if r2.is_err() {
                return Err(LedgerError::InvariantViolation);
            }
            ledger.history[h] = settled_entry;
            proof {
                lemma_settle(
                    *old(ledger),
                    *ledger,
                    i as int,
                    h as int,
                    debited(thawed(acc0, entry.amount), entry.amount),
                    settled_entry,
                );
                assert(ledger@ =~= resolve_full(s0, client, tx).0);
            }
            Ok(Outcome::Applied)
        },
    }
}

fn process_chargeback(ledger: &mut Ledger, client: u16, tx: u32) -> (r: Result<
    Outcome,
    LedgerError,
>)
    requires
        old(ledger).wf(),
    ensures
        final(ledger).wf(),
        final(ledger)@ == chargeback_full(old(ledger)@, client, tx).0,
        r == Ok::<Outcome, LedgerError>(chargeback_full(old(ledger)@, client, tx).1),
{
    let ghost s0 = old(ledger)@;
    let i = match ledger.find_account(client) {
        None => {
            proof {
                lemma_accounts_map_absent(ledger.accounts@, client);
            }
            return Ok(Outcome::Ignored);
        },
        Some(i) => i,
    };
    proof {
        lemma_accounts_map_index(ledger.accounts@, i as int);
    }
    if ledger.accounts[i].is_locked() {
        return Ok(Outcome::Ignored);
    }
    let h = match ledger.find_history(tx) {
        None => {
            proof {
                lemma_history_map_absent(ledger.history@, tx);
            }
            return Ok(Outcome::Ignored);
        },
        Some(h) => h,
    };
    proof {
        lemma_history_map_index(ledger.history@, h as int);
    }
    let entry = ledger.history[h];
    if entry.client != client {
        return Ok(Outcome::Ignored);
    }
    if entry.state != DisputeState::Disputed {
        return Ok(Outcome::Ignored);
    }
    proof {
        lemma_disputed_sum_lower(ledger.history@, h as int);
    }
    let ghost acc0 = ledger.accounts@[i as int];
    let settled_entry = HistoryEntry {
        kind: entry.kind,
        client: entry.client,
        tx: entry.tx,
        amount: entry.amount,
        state: DisputeState::ChargedBack,
    };
    let acc = &mut ledger.accounts[i];
    let r1 = acc.unhold(entry.amount);
    if r1.is_err() {
        return Err(LedgerError::InvariantViolation);
    }
    let r2 = acc.rm(entry.amount);
    if r2.is_err() {
        return Err(LedgerError::InvariantViolation);
    }
    acc.lock();
    ledger.history[h] = settled_entry;
    proof {
        lemma_settle(
            *old(ledger),
            *ledger,
            i as int,
            h as int,
            (Client { locked: true, ..debited(thawed(acc0, entry.amount), entry.amount) }),
            settled_entry,
        );
        assert(ledger@ =~= chargeback_full(s0, client, tx).0);
    }
    Ok(Outcome::Applied)
}

/// After a successful dispute-workflow settlement — the account at `i`
/// moved to `acc`, the entry at `h` moved to `e` — the ledger is still
/// well-formed and its view is the settled view, provided the frozen funds
/// changed in lockstep with the entry's disputed contribution.
proof fn lemma_settle(
    before: Ledger,
    after: Ledger,
    i: int,
    h: int,
    acc: Client,
    e: HistoryEntry,
)
    requires
        before.wf(),
        0 <= i < before.accounts@.len(),
        0 <= h < before.history@.len(),
        after.accounts@ == before.accounts@.update(i, acc),
        after.history@ == before.history@.update(h, e),
        acc.id == before.accounts@[i].id,
        acc.wf(),
        e.tx == before.history@[h].tx,
        before.history@[h].client == before.accounts@[i].id,
        e.client == before.history@[h].client,
        e.amount == before.history@[h].amount,
        acc.held - before.accounts@[i].held == entry_hold(e, e.client) - entry_hold(
            before.history@[h],
            e.client,
        ),
    ensures
        after.wf(),
        after@.accounts == before@.accounts.insert(acc.id, acc),
        after@.history == before@.history.insert(e.tx, e),
{
    lemma_accounts_map_update(before.accounts@, i, acc);
    lemma_history_map_update(before.history@, h, e);
    lemma_accounts_map_index(before.accounts@, i);
    assert(unique_ids(after.accounts@));
    assert(unique_txs(after.history@));
    assert forall|c: u16| #[trigger] disputed_sum(after.history@, c) <= held_of(
        accounts_map(after.accounts@),
        c,
    ) by {
        lemma_disputed_sum_update(before.history@, h, e, c);
        if c == acc.id {
            assert(held_of(accounts_map(after.accounts@), c) == acc.held as int);
        } else {
            assert(entry_hold(e, c) == 0);
            assert(entry_hold(before.history@[h], c) == 0);
            assert(held_of(accounts_map(after.accounts@), c) == held_of(
                accounts_map(before.accounts@),
                c,
            ));
        }
    }
}

/// Dispatch a whole batch in input order. On a well-formed ledger every
/// record is disposed of without a fatal error, and the final view is the
/// fold of `step` over the batch.
pub fn process_batch(ledger: &mut Ledger, ts: &Vec<Transaction>) -> (r: Result<(), LedgerError>)
    requires
        old(ledger).wf(),
    ensures
        final(ledger).wf(),
        final(ledger)@ == run(old(ledger)@, ts@),
        r == Ok::<(), LedgerError>(()),
{
    let mut i: usize = 0;
    while i < ts.len()
        invariant
            old(ledger).wf(),
            ledger.wf(),
            i <= ts@.len(),
            ledger@ == run(old(ledger)@, ts@.take(i as int)),
        decreases ts@.len() - i,
    {
        let ghost prefix = ts@.take(i as int);
        match process_record(ledger, ts[i]) {
            Ok(_) => {},
            Err(e) => {
                return Err(e);
            },
        }
        proof {
            lemma_run_snoc(old(ledger)@, prefix, ts@[i as int]);
            assert(prefix.push(ts@[i as int]) =~= ts@.take(i as int + 1));
        }
        i = i + 1;
    }
    proof {
        assert(ts@.take(ts@.len() as int) =~= ts@);
    }
    Ok(())
}

/// Law: a deposit or withdrawal that presents an already-used transaction
/// id leaves the entire history — in particular the first entry under
/// that id and its dispute state — unchanged.
pub proof fn lemma_duplicate_tx_keeps_history(s: LedgerSnap, t: Transaction)
    requires
        match t {
            Transaction::Deposit { tx, .. } => s.history.contains_key(tx),
            Transaction::Withdrawal { tx, .. } => s.history.contains_key(tx),
            _ => false,
        },
    ensures
        step(s, t).history == s.history,
{
}

/// Law: disputing a recorded deposit and then resolving that dispute
/// restores the client's available, held and total funds exactly, and
/// leaves the lock flag as it was. The dispute is assumed to take effect:
/// the account is live and still has the disputed amount available.
pub proof fn lemma_dispute_resolve_round_trip(s: LedgerSnap, client: u16, tx: u32)
    requires
        s.accounts.contains_key(client),
        s.accounts[client].wf(),
        !s.accounts[client].locked,
        s.history.contains_key(tx),
        s.history[tx].client == client,
        s.history[tx].kind is Deposit,
        s.history[tx].state is Undisputed,
        s.history[tx].amount <= s.accounts[client].available,
    ensures
        ({
            let after = step(
                step(s, Transaction::Dispute { client, tx }),
                Transaction::Resolve { client, tx },
            );
            &&& after.accounts.contains_key(client)
            &&& after.accounts[client].available == s.accounts[client].available
            &&& after.accounts[client].held == s.accounts[client].held
            &&& after.accounts[client].total == s.accounts[client].total
            &&& after.accounts[client].locked == s.accounts[client].locked
        }),
{
    let mid = step(s, Transaction::Dispute { client, tx });
    assert(mid.accounts[client] == frozen(s.accounts[client], s.history[tx].amount));
    assert(mid.history[tx] == entry_with_state(s.history[tx], DisputeState::Disputed));
}

/// The client a record names.
pub open spec fn record_client(t: Transaction) -> u16 {
    match t {
        Transaction::Deposit { client, .. } => client,
        Transaction::Withdrawal { client, .. } => client,
        Transaction::Dispute { client, .. } => client,
        Transaction::Resolve { client, .. } => client,
        Transaction::Chargeback { client, .. } => client,
    }
}

/// Law: a record naming one client never touches another client's account,
/// nor a history entry owned by another client.
pub proof fn lemma_record_is_client_local(s: LedgerSnap, t: Transaction, c: u16, tx: u32)
    requires
        record_client(t) != c,
    ensures
        step(s, t).accounts.contains_key(c) == s.accounts.contains_key(c),
        s.accounts.contains_key(c) ==> step(s, t).accounts[c] == s.accounts[c],
        s.history.contains_key(tx) && s.history[tx].client == c ==> step(
            s,
            t,
        ).history.contains_key(tx) && step(s, t).history[tx] == s.history[tx],
{
}

/// Law: the locality of single records extends to a whole batch none of
/// whose records names client `c`.
pub proof fn lemma_run_is_client_local(s: LedgerSnap, ts: Seq<Transaction>, c: u16, tx: u32)
    requires
        forall|k: int| 0 <= k < ts.len() ==> record_client(#[trigger] ts[k]) != c,
    ensures
        run(s, ts).accounts.contains_key(c) == s.accounts.contains_key(c),
        s.accounts.contains_key(c) ==> run(s, ts).accounts[c] == s.accounts[c],
        s.history.contains_key(tx) && s.history[tx].client == c ==> run(
            s,
            ts,
        ).history.contains_key(tx) && run(s, ts).history[tx] == s.history[tx],
    decreases ts.len(),
{
    if ts.len() > 0 {
        lemma_record_is_client_local(s, ts[0], c, tx);
        assert(forall|k: int|
            0 <= k < ts.drop_first().len() ==> record_client(#[trigger] ts.drop_first()[k]) != c);
        lemma_run_is_client_local(step(s, ts[0]), ts.drop_first(), c, tx);
    }
}

/// Law: disputing a recorded deposit and later resolving that dispute
/// restores the client's balances exactly, whatever batch of other
/// clients' records is processed in between.
pub proof fn lemma_round_trip_with_interleaving(
    s: LedgerSnap,
    client: u16,
    tx: u32,
    mids: Seq<Transaction>,
)
    requires
        s.accounts.contains_key(client),
        s.accounts[client].wf(),
        !s.accounts[client].locked,
        s.history.contains_key(tx),
        s.history[tx].client == client,
        s.history[tx].kind is Deposit,
        s.history[tx].state is Undisputed,
        s.history[tx].amount <= s.accounts[client].available,
        forall|k: int| 0 <= k < mids.len() ==> record_client(#[trigger] mids[k]) != client,
    ensures
        ({
            let after = step(
                run(step(s, Transaction::Dispute { client, tx }), mids),
                Transaction::Resolve { client, tx },
            );
            &&& after.accounts.contains_key(client)
            &&& after.accounts[client].available == s.accounts[client].available
            &&& after.accounts[client].held == s.accounts[client].held
            &&& after.accounts[client].total == s.accounts[client].total
            &&& after.accounts[client].locked == s.accounts[client].locked
        }),
{
    let held = step(s, Transaction::Dispute { client, tx });
    assert(held.accounts[client] == frozen(s.accounts[client], s.history[tx].amount));
    assert(held.history[tx] == entry_with_state(s.history[tx], DisputeState::Disputed));
    lemma_run_is_client_local(held, mids, client, tx);
}

/// A dispute-workflow record that names an unknown transaction, a
/// transaction owned by another client, or a transaction already in a
/// terminal dispute state.
pub open spec fn misdirected(s: LedgerSnap, client: u16, tx: u32) -> bool {
    ||| !s.history.contains_key(tx)
    ||| s.history[tx].client != client
    ||| s.history[tx].state is Resolved
    ||| s.history[tx].state is ChargedBack
}

/// Law: a dispute, resolve, or chargeback that names an unknown
/// transaction, a transaction owned by another client, or a transaction
/// already resolved or charged back changes no account and no history
/// entry, and is reported as ignored.
pub proof fn lemma_misdirected_workflow_ignored(s: LedgerSnap, t: Transaction)
    requires
        match t {
            Transaction::Dispute { client, tx } => misdirected(s, client, tx),
            Transaction::Resolve { client, tx } => misdirected(s, client, tx),
            Transaction::Chargeback { client, tx } => misdirected(s, client, tx),
            _ => false,
        },
    ensures
        step(s, t) == s,
        step_outcome(s, t) == Outcome::Ignored,
{
}

/// Appending one record to a batch runs the batch, then steps once more.
proof fn lemma_run_snoc(s: LedgerSnap, ts: Seq<Transaction>, t: Transaction)
    ensures
        run(s, ts.push(t)) == step(run(s, ts), t),
    decreases ts.len(),
{
    if ts.len() == 0 {
        assert(run(s, ts) == s);
        assert(ts.push(t)[0] == t);
        assert(ts.push(t).drop_first() =~= Seq::<Transaction>::empty());
        assert(run(s, ts.push(t)) == run(step(s, t), Seq::<Transaction>::empty()));
        assert(run(step(s, t), Seq::<Transaction>::empty()) == step(s, t));
    } else {
        assert(ts.push(t)[0] == ts[0]);
        assert(ts.push(t).drop_first() =~= ts.drop_first().push(t));
        lemma_run_snoc(step(s, ts[0]), ts.drop_first(), t);
    }
}

} // verus!
