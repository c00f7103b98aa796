use tx_rs::{TxBox, TxError, TxState, TxTable};

#[test]
fn test_tx_box() {
    let mut table = TxTable::new();

    //---test single transaction---
    let tx1 = TxBox::new(&mut table);

    assert_eq!(tx1.close_tx(&mut table, true,), Ok(()), "Error closing single transaction",);

    tx1.clear_poisoned(&mut table);
    assert_eq!(tx1.tx_state(&table), TxState::Closed,
      "`clear_poisoned` had an effect when it should do nothing",
    );

    let tx1 = TxBox::new(&mut table);

    tx1.poison(&mut table);
    assert_eq!(tx1.tx_state(&table), TxState::Poisoned, "`poison` did not poison the transaction",);

    tx1.clear_poisoned(&mut table);
    assert_eq!(tx1.tx_state(&table), TxState::Open,
      "`clear_poisoned` did nothing when it should clear the poisoned state",
    );

    //---test transactions with dependencies---

    let tx2 = TxBox::new(&mut table);

    assert!(!tx1.will_wait(&table, &tx2,), "`would_wait` `true` for non dependency",);
    assert!(tx1.wait_for(&mut table, &tx2,), "Could not make `tx2` a dependency of `tx1`",);
    assert!(tx1.will_wait(&table, &tx2,), "`would_wait` `false` for dependency",);
    assert!(!tx2.wait_for(&mut table, &tx1,), "Could make `tx1` a dependency of `tx2`",);
    assert_eq!(tx1.close_tx(&mut table, true,), Err(TxError::OpenDependency),
      "Closed `tx1` while `tx2` was still open",
    );
    assert_eq!(tx2.close_tx(&mut table, true,), Ok(()), "Error closing `tx2`",);
    assert_eq!(tx1.close_tx(&mut table, true,), Ok(()), "Error closing `tx1` after `tx2` was closed",);

    let tx1 = TxBox::new(&mut table);
    let tx2 = TxBox::new(&mut table);

    assert!(tx1.wait_for(&mut table, &tx2,), "Could not make `tx2` a dependency of `tx1`",);
    assert_eq!(tx2.close_tx(&mut table, false,), Ok(()), "Error aborting `tx2`",);
    assert_eq!(tx1.close_tx(&mut table, true,), Err(TxError::AbortedDependency),
      "Closed `tx1` while `tx2` was aborted",
    );
    assert_eq!(tx1.close_tx(&mut table, false,), Ok(()), "Error aborting `tx1` after `tx2` was aborted",);

    let tx1 = TxBox::new(&mut table);
    let tx2 = TxBox::new(&mut table);

    tx2.poison(&mut table);
    tx1.wait_for(&mut table, &tx2,);
    assert_eq!(tx1.close_tx(&mut table, true,), Err(TxError::PoisonedError),
      "Closed `tx1` while `tx2` was poisoned",
    );
    tx1.clear_poisoned(&mut table);
    assert_eq!(tx1.close_tx(&mut table, true,), Ok(()),
      "Error closing `tx1` after clearing the poison state",
    );

    let tx1 = TxBox::new(&mut table);
    let tx2 = TxBox::new(&mut table);

    tx1.poison(&mut table);
    tx1.wait_for(&mut table, &tx2,);
    assert_eq!(tx1.close_tx(&mut table, false,), Err(TxError::PoisonedError),
      "Aborted `tx1` while `tx2` was poisoned",
    );
}

#[test]
fn test_tx_box_dependency_cleanup() {
    let mut table = TxTable::new();
    let tx1 = TxBox::new(&mut table);
    let tx2 = TxBox::new(&mut table);

    tx1.wait_for(&mut table, &tx2,);

    assert_eq!(tx1.close_tx(&mut table, true,), Err(TxError::OpenDependency),
      "Closed `tx1` while `tx2` should still be open",
    );

    if !tx1.will_wait(&table, &tx2) {
        panic!("`tx2` dropped while it was a dependeny of `tx1`")
    }
    if let Err(e) = tx2.close_tx(&mut table, true,) {
        panic!("Error closing `tx2`: {:?}", e,)
    }

    assert_eq!(tx1.close_tx(&mut table, true,), Ok(()), "Error closing `tx1`",);
    assert!(!tx1.will_wait(&table, &tx2), "`tx1` did not clean its dependencies after closing",);

    let tx1 = TxBox::new(&mut table);
    let tx2 = TxBox::new(&mut table);

    tx1.wait_for(&mut table, &tx2,);
    tx2.poison(&mut table);

    assert_eq!(tx1.close_tx(&mut table, true,), Err(TxError::PoisonedError),
      "Closed `tx1` while `tx2` was poisoned",
    );

    assert!(!tx1.will_wait(&table, &tx2), "`tx1` did not remove `tx2` after poisoning",);

    tx1.clear_poisoned(&mut table);
    assert_eq!(tx1.close_tx(&mut table, true,), Ok(()), "Closed `tx1` after clearing the poisoned state",);
}

#[test]
fn tx_box_test_dependency_cycle_behaviour() {
    let mut table = TxTable::new();
    let tx1 = TxBox::new(&mut table);

    assert!(tx1.will_wait(&table, &tx1,), "`will_wait` is `false` for `self`",);

    let tx2 = TxBox::new(&mut table);

    //Create cycle
    tx2.wait_for(&mut table, &tx1,);
    tx1.wait_for_unchecked(&mut table, &tx2,);

    assert_eq!(tx1.close_tx(&mut table, true,), Err(TxError::OpenDependency), "Closed `tx1` while `tx2` was open",);
    assert_eq!(tx2.close_tx(&mut table, true,), Err(TxError::OpenDependency), "Closed `tx2` while `tx1` was open",);
}

#[test]
fn closed_transaction_cannot_close_again() {
    let mut table = TxTable::new();
    let tx1 = TxBox::new(&mut table);
    let tx2 = TxBox::new(&mut table);

    assert_eq!(tx1.close_tx(&mut table, true), Ok(()));
    assert_eq!(tx1.close_tx(&mut table, true), Err(TxError::AlreadyClosed));
    assert_eq!(tx1.close_tx(&mut table, false), Err(TxError::AlreadyClosed));
    assert_eq!(tx2.close_tx(&mut table, false), Ok(()));
    assert_eq!(tx2.tx_state(&table), TxState::Aborted);
    assert_eq!(tx2.close_tx(&mut table, true), Err(TxError::AlreadyClosed));
}

#[test]
fn poisoned_transaction_reports_poison() {
    let mut table = TxTable::new();
    let tx1 = TxBox::new(&mut table);
    tx1.poison(&mut table);
    assert_eq!(tx1.close_tx(&mut table, true), Err(TxError::PoisonedError));
    assert_eq!(tx1.tx_state(&table), TxState::Poisoned);
}

#[test]
fn aborted_dependency_wins_over_open_one() {
    let mut table = TxTable::new();
    let tx1 = TxBox::new(&mut table);
    let open = TxBox::new(&mut table);
    let aborted = TxBox::new(&mut table);
    assert!(tx1.wait_for(&mut table, &open));
    assert!(tx1.wait_for(&mut table, &aborted));
    assert_eq!(aborted.close_tx(&mut table, false), Ok(()));

    assert_eq!(tx1.close_tx(&mut table, true), Err(TxError::AbortedDependency));
    assert_eq!(tx1.tx_state(&table), TxState::Open);
    // aborting waits for the open dependency, but not for the aborted one
    assert_eq!(tx1.close_tx(&mut table, false), Err(TxError::OpenDependency));
    assert_eq!(open.close_tx(&mut table, true), Ok(()));
    assert_eq!(tx1.close_tx(&mut table, false), Ok(()));
    assert_eq!(tx1.tx_state(&table), TxState::Aborted);
    assert!(!tx1.will_wait(&table, &open));
}

#[test]
fn each_poisoned_dependency_poisons_once() {
    let mut table = TxTable::new();
    let tx1 = TxBox::new(&mut table);
    let p1 = TxBox::new(&mut table);
    let p2 = TxBox::new(&mut table);
    let closed = TxBox::new(&mut table);
    assert!(tx1.wait_for(&mut table, &closed));
    assert!(tx1.wait_for(&mut table, &p1));
    assert!(tx1.wait_for(&mut table, &p2));
    assert_eq!(closed.close_tx(&mut table, true), Ok(()));
    p1.poison(&mut table);
    p2.poison(&mut table);

    assert_eq!(tx1.close_tx(&mut table, true), Err(TxError::PoisonedError));
    tx1.clear_poisoned(&mut table);
    assert_eq!(tx1.close_tx(&mut table, true), Err(TxError::PoisonedError));
    tx1.clear_poisoned(&mut table);
    assert_eq!(tx1.close_tx(&mut table, true), Ok(()));
    assert_eq!(tx1.tx_state(&table), TxState::Closed);
}

#[test]
fn closed_dependencies_are_dropped_on_failed_close() {
    let mut table = TxTable::new();
    let tx1 = TxBox::new(&mut table);
    let closed = TxBox::new(&mut table);
    let open = TxBox::new(&mut table);
    assert!(tx1.wait_for(&mut table, &closed));
    assert!(tx1.wait_for(&mut table, &open));
    assert_eq!(closed.close_tx(&mut table, true), Ok(()));

    assert_eq!(tx1.close_tx(&mut table, true), Err(TxError::OpenDependency));
    assert!(!tx1.will_wait(&table, &closed));
    assert!(tx1.will_wait(&table, &open));
}

#[test]
fn will_wait_follows_indirect_dependencies_through_cycles() {
    let mut table = TxTable::new();
    let a = TxBox::new(&mut table);
    let b = TxBox::new(&mut table);
    let c = TxBox::new(&mut table);
    let d = TxBox::new(&mut table);
    a.wait_for_unchecked(&mut table, &b);
    b.wait_for_unchecked(&mut table, &a);
    b.wait_for_unchecked(&mut table, &c);

    assert!(a.will_wait(&table, &c));
    assert!(!a.will_wait(&table, &d));
    assert!(!c.will_wait(&table, &a));
    assert!(!c.wait_for(&mut table, &a));
    assert!(d.wait_for(&mut table, &a));
    assert!(d.will_wait(&table, &c));
}

#[test]
fn new_transactions_get_successive_handles() {
    let mut table = TxTable::new();
    assert_eq!(table.len(), 0);
    let a = TxBox::new(&mut table);
    let b = TxBox::new(&mut table);
    assert!(a != b);
    assert_eq!(table.len(), 2);
    assert_eq!(a.tx_state(&table), TxState::Open);
}
