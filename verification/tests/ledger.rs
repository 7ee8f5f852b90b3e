use floof::client::Error;
use floof::ledger::Ledger;
use floof::router::{process_batch, process_record, Outcome};
use floof::transaction::Transaction;

// Amounts are minor units: one ten-thousandth of a currency unit.
const UNIT: u64 = 10_000;

fn dep(client: u16, tx: u32, amount: u64) -> Transaction {
    Transaction::Deposit { client, tx, amount }
}

fn wd(client: u16, tx: u32, amount: u64) -> Transaction {
    Transaction::Withdrawal { client, tx, amount }
}

fn disp(client: u16, tx: u32) -> Transaction {
    Transaction::Dispute { client, tx }
}

fn res(client: u16, tx: u32) -> Transaction {
    Transaction::Resolve { client, tx }
}

fn cb(client: u16, tx: u32) -> Transaction {
    Transaction::Chargeback { client, tx }
}

#[test]
fn deposit_withdraw_dispute_resolve_leaves_net_balance() {
    let mut ledger = Ledger::new();
    assert_eq!(process_record(&mut ledger, dep(1, 1, 10 * UNIT)), Ok(Outcome::Applied));
    assert_eq!(process_record(&mut ledger, dep(2, 2, 5 * UNIT)), Ok(Outcome::Applied));
    assert_eq!(process_record(&mut ledger, wd(1, 3, 3 * UNIT)), Ok(Outcome::Applied));
    // The deposited 10.0 is no longer fully available, so the dispute's
    // hold fails and the dispute does not take effect.
    assert_eq!(
        process_record(&mut ledger, disp(1, 1)),
        Ok(Outcome::Rejected(Error::InsufficientFunds(1, 7 * UNIT)))
    );
    // With no dispute in effect, the resolve finds nothing to dismiss.
    assert_eq!(process_record(&mut ledger, res(1, 1)), Ok(Outcome::Ignored));

    let accounts = ledger.snapshot();
    assert_eq!(accounts.len(), 2);
    assert_eq!(accounts[0].id(), 1);
    assert_eq!(accounts[0].available(), 7 * UNIT);
    assert_eq!(accounts[0].held(), 0);
    assert_eq!(accounts[0].total(), 7 * UNIT);
    assert!(!accounts[0].is_locked());
    assert_eq!(accounts[1].id(), 2);
    assert_eq!(accounts[1].available(), 5 * UNIT);
    assert_eq!(accounts[1].held(), 0);
    assert_eq!(accounts[1].total(), 5 * UNIT);
    assert!(!accounts[1].is_locked());
}

#[test]
fn chargeback_reverses_deposit_and_locks() {
    let mut ledger = Ledger::new();
    assert_eq!(process_record(&mut ledger, dep(5, 10, 20 * UNIT)), Ok(Outcome::Applied));
    assert_eq!(process_record(&mut ledger, disp(5, 10)), Ok(Outcome::Applied));
    assert_eq!(process_record(&mut ledger, cb(5, 10)), Ok(Outcome::Applied));

    let accounts = ledger.snapshot();
    assert_eq!(accounts.len(), 1);
    assert_eq!(accounts[0].id(), 5);
    assert_eq!(accounts[0].available(), 0);
    assert_eq!(accounts[0].held(), 0);
    assert_eq!(accounts[0].total(), 0);
    assert!(accounts[0].is_locked());

    // The locked account accepts nothing further.
    assert_eq!(
        process_record(&mut ledger, dep(5, 11, 50 * UNIT)),
        Ok(Outcome::Rejected(Error::Locked(5)))
    );
    let accounts = ledger.snapshot();
    assert_eq!(accounts.len(), 1);
    assert_eq!(accounts[0].available(), 0);
    assert_eq!(accounts[0].total(), 0);
    assert!(accounts[0].is_locked());
}

#[test]
fn withdrawal_without_funds_is_rejected_and_not_recorded() {
    let mut ledger = Ledger::new();
    assert_eq!(
        process_record(&mut ledger, wd(1, 1, 10 * UNIT)),
        Ok(Outcome::Rejected(Error::InsufficientFunds(1, 0)))
    );
    assert_eq!(ledger.history_get(1), None);
    // The rejected withdrawal left no history entry, so a dispute of its
    // transaction id finds nothing.
    assert_eq!(process_record(&mut ledger, disp(1, 1)), Ok(Outcome::Ignored));
}

#[test]
fn duplicate_tx_keeps_the_first_entry() {
    let mut ledger = Ledger::new();
    assert_eq!(process_record(&mut ledger, dep(1, 7, 4 * UNIT)), Ok(Outcome::Applied));
    assert_eq!(process_record(&mut ledger, disp(1, 7)), Ok(Outcome::Applied));
    let before = ledger.history_get(7).unwrap();

    // A second deposit under the same id still moves funds, but the first
    // entry and its dispute state stay.
    assert_eq!(process_record(&mut ledger, dep(1, 7, 9 * UNIT)), Ok(Outcome::DuplicateTx));
    assert_eq!(ledger.history_get(7), Some(before));

    // Same for a withdrawal presenting a used id.
    assert_eq!(process_record(&mut ledger, wd(1, 7, 1 * UNIT)), Ok(Outcome::DuplicateTx));
    assert_eq!(ledger.history_get(7), Some(before));

    let accounts = ledger.snapshot();
    assert_eq!(accounts[0].available(), 8 * UNIT);
    assert_eq!(accounts[0].held(), 4 * UNIT);
    assert_eq!(accounts[0].total(), 12 * UNIT);
}

#[test]
fn dispute_resolve_round_trip_restores_balances() {
    let mut ledger = Ledger::new();
    assert_eq!(process_record(&mut ledger, dep(3, 1, 12 * UNIT)), Ok(Outcome::Applied));
    assert_eq!(process_record(&mut ledger, dep(3, 2, 5 * UNIT)), Ok(Outcome::Applied));

    assert_eq!(process_record(&mut ledger, disp(3, 1)), Ok(Outcome::Applied));
    let held = ledger.snapshot();
    assert_eq!(held[0].available(), 5 * UNIT);
    assert_eq!(held[0].held(), 12 * UNIT);
    assert_eq!(held[0].total(), 17 * UNIT);

    assert_eq!(process_record(&mut ledger, res(3, 1)), Ok(Outcome::Applied));
    let accounts = ledger.snapshot();
    assert_eq!(accounts[0].available(), 17 * UNIT);
    assert_eq!(accounts[0].held(), 0);
    assert_eq!(accounts[0].total(), 17 * UNIT);
    assert!(!accounts[0].is_locked());

    // Resolved is terminal: the transaction cannot be disputed again.
    assert_eq!(process_record(&mut ledger, disp(3, 1)), Ok(Outcome::Ignored));
}

#[test]
fn disputed_withdrawal_is_provisionally_reversed() {
    let mut ledger = Ledger::new();
    assert_eq!(process_record(&mut ledger, dep(4, 1, 10 * UNIT)), Ok(Outcome::Applied));
    assert_eq!(process_record(&mut ledger, wd(4, 2, 4 * UNIT)), Ok(Outcome::Applied));

    assert_eq!(process_record(&mut ledger, disp(4, 2)), Ok(Outcome::Applied));
    let held = ledger.snapshot();
    assert_eq!(held[0].available(), 6 * UNIT);
    assert_eq!(held[0].held(), 4 * UNIT);
    assert_eq!(held[0].total(), 10 * UNIT);

    // Resolving completes the withdrawal again.
    assert_eq!(process_record(&mut ledger, res(4, 2)), Ok(Outcome::Applied));
    let accounts = ledger.snapshot();
    assert_eq!(accounts[0].available(), 6 * UNIT);
    assert_eq!(accounts[0].held(), 0);
    assert_eq!(accounts[0].total(), 6 * UNIT);
    assert!(!accounts[0].is_locked());
}

#[test]
fn chargeback_of_withdrawal_reinstates_it_and_locks() {
    let mut ledger = Ledger::new();
    assert_eq!(process_record(&mut ledger, dep(6, 1, 8 * UNIT)), Ok(Outcome::Applied));
    assert_eq!(process_record(&mut ledger, wd(6, 2, 2 * UNIT)), Ok(Outcome::Applied));
    assert_eq!(process_record(&mut ledger, disp(6, 2)), Ok(Outcome::Applied));
    assert_eq!(process_record(&mut ledger, cb(6, 2)), Ok(Outcome::Applied));

    let accounts = ledger.snapshot();
    assert_eq!(accounts[0].available(), 6 * UNIT);
    assert_eq!(accounts[0].held(), 0);
    assert_eq!(accounts[0].total(), 6 * UNIT);
    assert!(accounts[0].is_locked());
}

#[test]
fn misdirected_workflow_records_change_nothing() {
    let mut ledger = Ledger::new();
    assert_eq!(process_record(&mut ledger, dep(1, 1, 10 * UNIT)), Ok(Outcome::Applied));
    assert_eq!(process_record(&mut ledger, dep(2, 2, 5 * UNIT)), Ok(Outcome::Applied));
    assert_eq!(process_record(&mut ledger, disp(1, 1)), Ok(Outcome::Applied));
    assert_eq!(process_record(&mut ledger, res(1, 1)), Ok(Outcome::Applied));
    let before = ledger.snapshot();

    // Unknown transaction id.
    assert_eq!(process_record(&mut ledger, disp(1, 99)), Ok(Outcome::Ignored));
    assert_eq!(process_record(&mut ledger, res(1, 99)), Ok(Outcome::Ignored));
    assert_eq!(process_record(&mut ledger, cb(1, 99)), Ok(Outcome::Ignored));
    // Transaction owned by another client.
    assert_eq!(process_record(&mut ledger, disp(2, 1)), Ok(Outcome::Ignored));
    assert_eq!(process_record(&mut ledger, res(2, 1)), Ok(Outcome::Ignored));
    assert_eq!(process_record(&mut ledger, cb(2, 1)), Ok(Outcome::Ignored));
    // Transaction already in a terminal dispute state.
    assert_eq!(process_record(&mut ledger, disp(1, 1)), Ok(Outcome::Ignored));
    assert_eq!(process_record(&mut ledger, res(1, 1)), Ok(Outcome::Ignored));
    assert_eq!(process_record(&mut ledger, cb(1, 1)), Ok(Outcome::Ignored));
    // A client with no account at all.
    assert_eq!(process_record(&mut ledger, disp(9, 1)), Ok(Outcome::Ignored));

    assert_eq!(ledger.snapshot(), before);
}

#[test]
fn snapshot_is_sorted_by_client_id() {
    let mut ledger = Ledger::new();
    for (client, tx) in [(40u16, 1u32), (7, 2), (900, 3), (1, 4), (63, 5)] {
        assert_eq!(process_record(&mut ledger, dep(client, tx, 100)), Ok(Outcome::Applied));
    }
    let accounts = ledger.snapshot();
    let ids: Vec<u16> = accounts.iter().map(|a| a.id()).collect();
    assert_eq!(ids, vec![1, 7, 40, 63, 900]);
}

#[test]
fn account_for_creates_once() {
    let mut ledger = Ledger::new();
    let i = ledger.account_for(11);
    let j = ledger.account_for(11);
    assert_eq!(i, j);
    assert_eq!(ledger.snapshot().len(), 1);
    assert_eq!(ledger.snapshot()[0].available(), 0);
}

#[test]
fn empty_batch_leaves_an_empty_ledger() {
    let mut ledger = Ledger::new();
    process_batch(&mut ledger, &Vec::new()).unwrap();
    assert_eq!(ledger.snapshot().len(), 0);
    assert_eq!(ledger.history_get(1), None);
}

#[test]
fn zero_amounts_are_accepted_and_recorded() {
    let mut ledger = Ledger::new();
    assert_eq!(process_record(&mut ledger, dep(1, 1, 0)), Ok(Outcome::Applied));
    // A zero withdrawal never exceeds the available funds, even on a
    // freshly created account.
    assert_eq!(process_record(&mut ledger, wd(2, 2, 0)), Ok(Outcome::Applied));
    assert!(ledger.history_get(1).is_some());
    assert!(ledger.history_get(2).is_some());
    let accounts = ledger.snapshot();
    assert_eq!(accounts.len(), 2);
    assert_eq!(accounts[0].total(), 0);
    assert_eq!(accounts[1].total(), 0);
}

#[test]
fn integration_test_1() {
    let mut ledger = Ledger::new();
    let batch = vec![
        dep(1, 1, 1 * UNIT),
        dep(2, 2, 8 * UNIT),
        wd(2, 3, 2 * UNIT),
        dep(3, 4, 20 * UNIT),
        disp(3, 4),
        res(3, 4),
        disp(2, 3),
        cb(2, 3),
        // Ignored stragglers: an unknown transaction, a resolve with no
        // dispute in effect, and workflow records against the now-locked
        // client 2.
        disp(1, 99),
        res(3, 4),
        disp(2, 2),
    ];
    process_batch(&mut ledger, &batch).unwrap();

    let accounts = ledger.snapshot();
    let mut lines = vec![String::from("client,available,held,total,locked")];
    for a in &accounts {
        lines.push(format!(
            "{},{:.1},{:.1},{:.1},{}",
            a.id(),
            a.available() as f64 / UNIT as f64,
            a.held() as f64 / UNIT as f64,
            a.total() as f64 / UNIT as f64,
            a.is_locked()
        ));
    }
    assert_eq!(lines[0], "client,available,held,total,locked");
    assert_eq!(lines[1], "1,1.0,0.0,1.0,false");
    assert_eq!(lines[2], "2,6.0,0.0,6.0,true");
    assert_eq!(lines[3], "3,20.0,0.0,20.0,false");
}
