use floof::transaction::{Error, RawTransaction, Transaction};

#[test]
fn test_convert_raw_tx_to_tx() {
    let rtx = RawTransaction {
        ty: String::from("deposit"),
        client: 1,
        tx: 1,
        amount: 12_345,
    };
    let rtx = Transaction::try_from(rtx).unwrap();
    match rtx {
        Transaction::Deposit { client, tx, amount } => {
            assert_eq!(client, 1);
            assert_eq!(tx, 1);
            assert_eq!(amount, 12_345);
        }
        _ => panic!("failed to be a deposit transaction"),
    }
}

#[test]
fn ty_folds_to_lower_case() {
    let rtx = RawTransaction {
        ty: String::from("DePoSiT"),
        client: 1,
        tx: 1,
        amount: 1,
    };
    assert_eq!(rtx.ty(), "deposit");
}

#[test]
fn classification_is_case_insensitive() {
    let rtx = RawTransaction {
        ty: String::from("WITHDRAWAL"),
        client: 2,
        tx: 9,
        amount: 30_000,
    };
    match Transaction::try_from(rtx).unwrap() {
        Transaction::Withdrawal { client, tx, amount } => {
            assert_eq!(client, 2);
            assert_eq!(tx, 9);
            assert_eq!(amount, 30_000);
        }
        _ => panic!("expected a withdrawal transaction"),
    }
}

#[test]
fn all_five_kinds_classify() {
    let kinds = ["deposit", "withdrawal", "dispute", "resolve", "chargeback"];
    for (n, name) in kinds.iter().enumerate() {
        let rtx = RawTransaction {
            ty: String::from(*name),
            client: 4,
            tx: n as u32,
            amount: 100,
        };
        let t = Transaction::try_from(rtx).unwrap();
        let ok = match (n, t) {
            (0, Transaction::Deposit { .. }) => true,
            (1, Transaction::Withdrawal { .. }) => true,
            (2, Transaction::Dispute { .. }) => true,
            (3, Transaction::Resolve { .. }) => true,
            (4, Transaction::Chargeback { .. }) => true,
            _ => false,
        };
        assert!(ok, "{} classified wrongly", name);
    }
}

#[test]
fn unknown_type_is_rejected_with_the_folded_field() {
    let rtx = RawTransaction {
        ty: String::from("TRANSFER"),
        client: 1,
        tx: 1,
        amount: 1,
    };
    match Transaction::try_from(rtx) {
        Err(Error::InvalidTx(s)) => assert_eq!(s, "transfer"),
        _ => panic!("expected Error::InvalidTx"),
    }
}
