use vicinity::recency::InsertionClock;

#[test]
fn insertion_clock_stamps_and_ages() {
    let mut clock = InsertionClock::new(2);
    assert_eq!(clock.current_time(), 0);
    clock.record_insertion(1);
    clock.record_insertion(5); // grows the table
    clock.record_insertion(0);
    assert_eq!(clock.current_time(), 3);
    assert_eq!(clock.elapsed(1), 3);
    assert_eq!(clock.elapsed(5), 2);
    assert_eq!(clock.elapsed(0), 1);
    // Never inserted: counts from time 0.
    assert_eq!(clock.elapsed(3), 3);
    assert_eq!(clock.elapsed(100), 3);
}

#[test]
fn insertion_clock_fresh_node_has_no_age() {
    let clock = InsertionClock::new(4);
    assert_eq!(clock.elapsed(2), 0);
}
