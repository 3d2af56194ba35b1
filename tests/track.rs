use pcp::track::TrackChange;

#[test]
fn new_cell_is_unchanged() {
    let mut c = TrackChange::new(5u64);
    assert!(!c.changed());
    assert_eq!(*c.get(), 5);
}

#[test]
fn setting_same_value_is_no_change() {
    let mut c = TrackChange::new(7u64);
    c.set(7);
    assert!(!c.changed());
    assert_eq!(*c.get(), 7);
}

#[test]
fn setting_new_value_is_reported_once() {
    let mut c = TrackChange::new(7u64);
    c.set(9);
    c.set(9);
    assert_eq!(*c.get(), 9);
    assert!(c.changed());
    assert!(!c.changed());
    c.set(9);
    assert!(!c.changed());
}
