use auth_storage::result_cell::ResultCell;

#[test]
fn set_once_first_value_wins() {
    let mut c: ResultCell<i32> = ResultCell::new();
    assert!(c.set(7));
    // the second set is detected and discarded; no crash
    assert!(!c.set(8));
    assert_eq!(c.poll(), Some(7));
    // the value is observed exactly once
    assert_eq!(c.poll(), None);
}

#[test]
fn wakeup_set_before_poll() {
    let mut c: ResultCell<i32> = ResultCell::new();
    assert!(c.set(1));
    assert!(c.is_set());
    assert_eq!(c.poll(), Some(1));
    assert_eq!(c.poll(), None);
}

#[test]
fn wakeup_poll_before_set() {
    let mut c: ResultCell<i32> = ResultCell::new();
    // the consumer polls too early: it registers its waiter and gets nothing
    assert_eq!(c.poll(), None);
    // the set lands after the registration and is not lost
    assert!(c.set(2));
    assert_eq!(c.poll(), Some(2));
    assert_eq!(c.poll(), None);
}

#[test]
fn abandoned_cell_discards_late_set() {
    let mut c: ResultCell<i32> = ResultCell::new();
    c.abandon();
    // the producer's set after abandonment stores nothing and faults nothing
    assert!(!c.set(3));
    assert_eq!(c.poll(), None);
}

#[test]
fn abandon_after_set_drops_value() {
    let mut c: ResultCell<i32> = ResultCell::new();
    assert!(c.set(4));
    c.abandon();
    assert_eq!(c.poll(), None);
    assert!(!c.set(5));
}
