use tx_rs::sync::rw_lock::{reader_entered, reader_left, writer_admitted, writer_claimed};
use tx_rs::sync::RwLock;

#[test]
fn reader_enters_only_without_writer() {
    assert_eq!(reader_entered(0), Some(2));
    assert_eq!(reader_entered(6), Some(8));
    assert_eq!(reader_entered(1), None);
    assert_eq!(reader_entered(7), None);
    assert_eq!(reader_entered(usize::MAX - 1), None);
}

#[test]
fn reader_leaves_one_reader() {
    assert_eq!(reader_left(2), 0);
    assert_eq!(reader_left(7), 5);
    assert_eq!(reader_left(0), usize::MAX - 1);
}

#[test]
fn read_round_trip_restores_the_word() {
    for state in [0usize, 2, 4, 100] {
        assert_eq!(reader_left(reader_entered(state).unwrap()), state);
    }
}

#[test]
fn writer_claims_a_free_bit_only() {
    assert_eq!(writer_claimed(0), Some(1));
    assert_eq!(writer_claimed(4), Some(5));
    assert_eq!(writer_claimed(5), None);
}

#[test]
fn writer_goes_on_only_without_readers() {
    assert!(writer_admitted(1));
    assert!(!writer_admitted(3));
    assert!(!writer_admitted(0));
    assert!(!writer_admitted(2));
}

#[test]
fn lock_reads_and_writes() {
    let lock = RwLock::new(7u32);
    {
        let r1 = lock.read().unwrap();
        let r2 = lock.read().unwrap();
        assert_eq!(*r1, 7);
        assert_eq!(*r2, 7);
        assert!(r1.release().0);
        assert!(r2.release().0);
    }
    let w = lock.write().unwrap();
    assert_eq!(*w, 7);
    w.release();
    let r = lock.read().unwrap();
    assert_eq!(*r, 7);
    assert!(r.release().0);
}
