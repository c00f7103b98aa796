use tx_rs::{TxError, TxGuard, TxState, TxTable};

#[test]
fn test_tx_guard() {
    let mut table = TxTable::new();

    //---test single transaction---
    let tx1 = TxGuard::new(&mut table);
    assert_eq!(tx1.close(&mut table), Ok(()), "Error closing single transaction",);

    let mut tx1 = TxGuard::new(&mut table);
    tx1.clear_poisoned(&mut table);
    assert_eq!(tx1.tx_state(&table), TxState::Open,
      "`clear_poisoned` had an effect when it should do nothing",
    );
    tx1.drop(&mut table);

    let tx1 = TxGuard::new(&mut table);
    let rtx1 = tx1.tx_ref();

    tx1.poison(&mut table);
    assert_eq!(rtx1.tx_state(&table), TxState::Poisoned, "`poison` did not poison the transaction",);

    //---test transactions with dependencies---

    let mut tx1 = TxGuard::new(&mut table);
    let mut tx2 = TxGuard::new(&mut table);

    assert!(!tx1.will_wait(&table, &tx2,), "`would_wait` `true` for non dependency",);
    assert!(tx1.wait_for(&mut table, &tx2,), "Could not make `tx2` a dependency of `tx1`",);
    assert!(tx1.will_wait(&table, &tx2,), "`would_wait` `false` for dependency",);
    assert!(!tx2.wait_for(&mut table, &tx1,), "Could make `tx1` a dependency of `tx2`",);
    let closed = tx1.close(&mut table);
    assert!(closed.is_err(), "Closed `tx1` while `tx2` was still open",);
    if let Err((tx1, _)) = closed {
        tx1.drop(&mut table);
    }
    tx2.drop(&mut table);

    let mut tx1 = TxGuard::new(&mut table);
    let tx2 = tx1.sub_tx(&mut table);

    assert!(tx2.close(&mut table).is_ok(), "Error closing `tx2`",);
    assert!(tx1.close(&mut table).is_ok(), "Error closing `tx1` after `tx2` was closed",);

    let mut tx1 = TxGuard::new(&mut table);
    let tx2 = tx1.sub_tx(&mut table);

    assert!(tx2.abort(&mut table).is_ok(), "Error aborting `tx2`",);
    let closed = tx1.close(&mut table);
    assert!(closed.is_err(), "Closed `tx1` while `tx2` was aborted",);
    if let Err((tx1, _)) = closed {
        tx1.drop(&mut table);
    }

    let mut tx1 = TxGuard::new(&mut table);
    let tx2 = tx1.sub_tx(&mut table);

    tx2.abort(&mut table).ok();
    assert!(tx1.abort(&mut table).is_ok(), "Error aborting `tx1` after `tx2` was aborted",);

    let mut tx1 = TxGuard::new(&mut table);
    let tx2 = tx1.sub_tx(&mut table);

    tx2.poison(&mut table);
    let mut tx1 = match tx1.close(&mut table) {
      Ok(()) => panic!("Closed `tx1` while `tx2` was poisoned",),
      Err((tx1, _,)) => tx1,
    };
    tx1.clear_poisoned(&mut table);
    assert!(tx1.close(&mut table).is_ok(), "Error closing `tx1` after clearing the poison state",);
}

#[test]
fn tx_guard_test_dependency_cycle_behaviour() {
    let mut table = TxTable::new();
    let mut tx1 = TxGuard::new(&mut table);

    assert!(tx1.will_wait(&table, &tx1,), "`will_wait` is `false` for `self`",);

    //Create cycle
    let mut tx2 = tx1.sub_tx(&mut table);
    tx2.wait_for_unchecked(&mut table, &tx1);

    let closed = tx1.close(&mut table);
    assert!(closed.is_err(), "Closed `tx1` while `tx2` was open",);
    if let Err((tx1, _)) = closed {
        tx1.drop(&mut table);
    }
    assert!(tx2.close(&mut table).is_err(), "Closed `tx2` while `tx1` was open",);
}

#[test]
fn sub_tx_closes_after_its_dependency() {
    let mut table = TxTable::new();
    let mut tx1 = TxGuard::new(&mut table);
    let tx2 = tx1.sub_tx(&mut table);

    let (tx1, e) = tx1.close(&mut table).unwrap_err();
    assert_eq!(e, TxError::OpenDependency);

    tx2.close(&mut table).unwrap();
    tx1.close(&mut table).unwrap();
}

#[test]
fn wait_for_refuses_the_reverse_dependency() {
    let mut table = TxTable::new();
    let mut tx1 = TxGuard::new(&mut table);
    let mut tx2 = TxGuard::new(&mut table);

    assert!(tx1.wait_for(&mut table, &tx2));
    assert!(!tx2.wait_for(&mut table, &tx1));
    let r1 = tx1.tx_ref();
    assert!(!tx1.wait_for(&mut table, &r1));
}

#[test]
fn wait_for_refuses_a_longer_cycle() {
    let mut table = TxTable::new();
    let mut tx1 = TxGuard::new(&mut table);
    let mut tx2 = TxGuard::new(&mut table);
    let mut tx3 = TxGuard::new(&mut table);

    assert!(tx1.wait_for(&mut table, &tx2));
    assert!(tx2.wait_for(&mut table, &tx3));
    assert!(tx1.will_wait(&table, &tx3));
    assert!(!tx3.will_wait(&table, &tx1));
    assert!(!tx3.wait_for(&mut table, &tx1));
    // waiting twice on the same transaction is allowed
    assert!(tx1.wait_for(&mut table, &tx3));
}

#[test]
fn clear_poisoned_after_poisoned_sub_tx() {
    let mut table = TxTable::new();
    let mut tx1 = TxGuard::new(&mut table);

    tx1.sub_tx(&mut table).poison(&mut table);

    let (mut tx1, e) = tx1.close(&mut table).unwrap_err();
    assert_eq!(e, TxError::PoisonedError);
    assert_eq!(tx1.tx_state(&table), TxState::Poisoned);

    tx1.clear_poisoned(&mut table);
    assert_eq!(tx1.tx_state(&table), TxState::Open);
    tx1.close(&mut table).unwrap();
}

#[test]
fn tx_ref_sees_sub_tx_as_dependency() {
    let mut table = TxTable::new();
    let mut tx1 = TxGuard::new(&mut table);
    let tx2 = tx1.sub_tx(&mut table).tx_ref();

    assert!(tx1.will_wait(&table, &tx2));
    assert!(!tx2.will_wait(&table, &tx1));
}

#[test]
fn abort_waits_for_open_dependency() {
    let mut table = TxTable::new();
    let mut tx1 = TxGuard::new(&mut table);
    let tx2 = tx1.sub_tx(&mut table);
    let r1 = tx1.tx_ref();

    let (tx1, e) = tx1.abort(&mut table).unwrap_err();
    assert_eq!(e, TxError::OpenDependency);
    assert_eq!(r1.tx_state(&table), TxState::Open);

    assert!(tx2.abort(&mut table).is_ok());
    assert!(tx1.abort(&mut table).is_ok());
    assert_eq!(r1.tx_state(&table), TxState::Aborted);
}

#[test]
fn dropping_a_guard_aborts() {
    let mut table = TxTable::new();
    let tx1 = TxGuard::new(&mut table);
    let r1 = tx1.tx_ref();

    tx1.drop(&mut table);
    assert_eq!(r1.tx_state(&table), TxState::Aborted);
}

#[test]
fn poisoned_guard_cannot_be_closed() {
    let mut table = TxTable::new();
    let mut tx1 = TxGuard::new(&mut table);
    tx1.sub_tx(&mut table).poison(&mut table);

    let (tx1, e) = tx1.abort(&mut table).unwrap_err();
    assert_eq!(e, TxError::PoisonedError);
    let (_, e) = tx1.close(&mut table).unwrap_err();
    assert_eq!(e, TxError::PoisonedError);
}

#[test]
fn guard_and_its_reference_name_one_transaction() {
    let mut table = TxTable::new();
    let tx1 = TxGuard::new(&mut table);
    let tx2 = TxGuard::new(&mut table);

    assert!(tx1.tx_ref() == *tx1);
    assert!(tx1 == tx1.tx_ref());
    assert!(tx1.tx_ref() == tx1);
    assert!(tx2 != tx1.tx_ref());
    assert!(tx1 == tx1);
    assert!(tx1.tx_ref() != tx2.tx_ref());
    assert!(tx1 != tx2);
    assert_eq!(table.len(), 2);
}
