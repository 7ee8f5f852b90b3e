use floof::client::{Client, Error};

#[test]
fn test_client_new() {
    let _ = Client::new(1, 34_501_230);
}

#[test]
fn test_client_id() {
    let client = Client::new(1, 34_501_230);
    assert_eq!(client.id(), 1);
}

#[test]
fn test_client_avail_add_rm_hold_unhold_lock_unlock() {
    let mut client = Client::new(1, 34_501_230);
    assert_eq!(client.available(), 34_501_230);
    client.add(100_004).unwrap();
    assert_eq!(client.available(), 34_601_234);
    client.rm(100_004).unwrap();
    assert_eq!(client.available(), 34_501_230);
    client.hold(100_030).unwrap();
    assert_eq!(client.available(), 34_401_200);

    let res = client.hold(40_000_000).unwrap_err();
    match res {
        Error::InsufficientFunds(..) => (),
        _ => panic!("expected Error::InsufficentFunds"),
    }

    assert_eq!(client.available(), 34_401_200);
    client.unhold(100_030).unwrap();
    assert_eq!(client.available(), 34_501_230);

    let res = client.unhold(40_000_000).unwrap_err();
    match res {
        Error::InsufficientFunds(..) => (),
        _ => panic!("expected Error::InsufficentFunds"),
    }

    assert_eq!(client.available(), 34_501_230);
    client.lock();
    assert!(client.add(1_000_000).is_err());
    assert_eq!(client.available(), 34_501_230);
    assert!(client.rm(1_000_000).is_err());
    assert_eq!(client.available(), 34_501_230);
    assert!(client.hold(1_000_000).is_err());
    assert_eq!(client.available(), 34_501_230);
    assert!(client.unhold(1_000_000).is_err());
    assert_eq!(client.available(), 34_501_230);
    client.unlock();
    assert_eq!(client.available(), 34_501_230);
}

#[test]
fn test_client_held_add_rm_hold_unhold_lock_unlock() {
    let mut client = Client::new(1, 34_501_230);
    assert_eq!(client.held(), 0);
    client.add(100_004).unwrap();
    assert_eq!(client.held(), 0);
    client.rm(100_004).unwrap();
    assert_eq!(client.held(), 0);
    client.hold(100_030).unwrap();
    assert_eq!(client.held(), 100_030);

    let res = client.hold(40_000_000);
    match res.unwrap_err() {
        Error::InsufficientFunds(..) => (),
        _ => panic!("expecting Error::InsufficientFunds"),
    }

    assert_eq!(client.held(), 100_030);
    client.unhold(50_030).unwrap();
    assert_eq!(client.held(), 50_000);

    let res = client.unhold(40_000_000);
    match res.unwrap_err() {
        Error::InsufficientFunds(..) => (),
        _ => panic!("expecting Error::InsufficientFunds"),
    }

    client.unhold(50_000).unwrap();
    assert_eq!(client.held(), 0);
    client.lock();
    assert_eq!(client.held(), 0);

    assert!(client.add(100_004).is_err());
    assert_eq!(client.held(), 0);
    assert!(client.rm(100_004).is_err());
    assert_eq!(client.held(), 0);
    assert!(client.hold(100_030).is_err());
    assert_eq!(client.held(), 0);
    assert!(client.unhold(1_230).is_err());
    assert_eq!(client.held(), 0);

    client.unlock();
    assert_eq!(client.held(), 0);
}

#[test]
fn test_client_total_add_rm_hold_unhold_lock_unlock() {
    let mut client = Client::new(1, 34_501_230);
    assert_eq!(client.total(), 34_501_230);
    client.add(100_004).unwrap();
    assert_eq!(client.total(), 34_601_234);
    client.rm(100_004).unwrap();
    assert_eq!(client.total(), 34_501_230);
    client.hold(100_030).unwrap();
    assert_eq!(client.total(), 34_501_230);

    let res = client.hold(40_000_000);
    match res.unwrap_err() {
        Error::InsufficientFunds(..) => (),
        _ => panic!("expecting Error::InsufficientFunds"),
    }

    assert_eq!(client.total(), 34_501_230);
    client.unhold(1_230).unwrap();
    assert_eq!(client.total(), 34_501_230);

    let res = client.unhold(40_000_000);
    match res.unwrap_err() {
        Error::InsufficientFunds(..) => (),
        _ => panic!("expecting Error::InsufficientFunds"),
    }

    assert_eq!(client.total(), 34_501_230);
    client.lock();
    assert_eq!(client.total(), 34_501_230);

    assert!(client.add(100_004).is_err());
    assert_eq!(client.total(), 34_501_230);

    assert!(client.rm(100_004).is_err());
    assert_eq!(client.total(), 34_501_230);

    assert!(client.hold(100_030).is_err());
    assert_eq!(client.total(), 34_501_230);

    assert!(client.unhold(1_230).is_err());
    assert_eq!(client.total(), 34_501_230);

    client.unlock();
    assert_eq!(client.total(), 34_501_230);
}

#[test]
fn is_locked() {
    let mut client = Client::new(1, 34_501_230);
    assert!(!client.is_locked());
    client.lock();
    assert!(client.is_locked());
    client.unlock();
    assert!(!client.is_locked());
}

#[test]
fn locked_rejections_carry_the_client_id() {
    let mut client = Client::new(7, 500);
    client.lock();
    assert_eq!(client.add(1).unwrap_err(), Error::Locked(7));
    assert_eq!(client.rm(1).unwrap_err(), Error::Locked(7));
    assert_eq!(client.hold(1).unwrap_err(), Error::Locked(7));
    assert_eq!(client.unhold(1).unwrap_err(), Error::Locked(7));
    assert_eq!(client.available(), 500);
    assert_eq!(client.held(), 0);
    assert_eq!(client.total(), 500);
}

#[test]
fn insufficient_funds_carries_the_relevant_balance() {
    let mut client = Client::new(3, 100);
    assert_eq!(client.rm(101).unwrap_err(), Error::InsufficientFunds(3, 100));
    assert_eq!(client.hold(101).unwrap_err(), Error::InsufficientFunds(3, 100));
    client.hold(40).unwrap();
    assert_eq!(client.unhold(41).unwrap_err(), Error::InsufficientFunds(3, 40));
    assert_eq!(client.available(), 60);
    assert_eq!(client.held(), 40);
    assert_eq!(client.total(), 100);
}

#[test]
fn add_past_the_largest_balance_is_rejected_whole() {
    let mut client = Client::new(9, u64::MAX - 5);
    assert_eq!(client.add(6).unwrap_err(), Error::Overflow(9));
    assert_eq!(client.available(), u64::MAX - 5);
    assert_eq!(client.total(), u64::MAX - 5);
    client.add(5).unwrap();
    assert_eq!(client.total(), u64::MAX);
}
