//! The turn scheduler: ordering, cancellation, ticket reuse, reset and the
//! persistable form.

use spatial_hash::{Schedule, SerializableSchedule};

#[test]
fn pops_in_time_order() {
    let mut s: Schedule<&str> = Schedule::new();
    s.insert("late", 10);
    s.insert("early", 3);
    s.insert("middle", 7);

    let e = s.next().unwrap();
    assert_eq!(e.event, "early");
    assert_eq!(e.time_delta, 3);
    assert_eq!(e.time_queued, 3);
    assert_eq!(e.absolute_time, 3);
    assert_eq!(s.time(), 3);

    let e = s.next().unwrap();
    assert_eq!(e.event, "middle");
    assert_eq!(e.time_delta, 4);
    assert_eq!(e.absolute_time, 7);

    let e = s.next().unwrap();
    assert_eq!(e.event, "late");
    assert_eq!(e.absolute_time, 10);

    assert!(s.next().is_none());
    assert_eq!(s.time(), 10);
}

#[test]
fn ties_break_by_insertion_order() {
    let mut s: Schedule<u32> = Schedule::new();
    s.insert(1, 5);
    s.insert(2, 5);
    s.insert(3, 5);
    assert_eq!(s.next().unwrap().event, 1);
    assert_eq!(s.next().unwrap().event, 2);
    assert_eq!(s.next().unwrap().event, 3);
}

#[test]
fn relative_times_accumulate() {
    let mut s: Schedule<u32> = Schedule::new();
    s.insert(1, 4);
    let e = s.next().unwrap();
    assert_eq!(e.absolute_time, 4);
    // queued after time has advanced: due at 4 + 5
    s.insert(2, 5);
    let e = s.next().unwrap();
    assert_eq!(e.absolute_time, 9);
    assert_eq!(e.time_delta, 5);
}

#[test]
fn invalidate_skips_entry() {
    let mut s: Schedule<u32> = Schedule::new();
    let _t1 = s.insert(1, 1);
    let t2 = s.insert(2, 2);
    s.insert(3, 3);
    s.invalidate(t2);

    assert_eq!(s.next().unwrap().event, 1);
    assert_eq!(s.next().unwrap().event, 3);
    assert!(s.next().is_none());
}

#[test]
fn invalidate_only_first_queued_under_seq() {
    let mut s: Schedule<u32> = Schedule::new();
    let t = s.insert(1, 1);
    // requeue under the same ticket: two entries share the sequence number
    s.insert_with_ticket(2, 5, t);
    s.invalidate(t);

    // the first entry with that sequence number is skipped, consuming the
    // marker; the second still comes due
    let e = s.next().unwrap();
    assert_eq!(e.event, 2);
    assert_eq!(e.absolute_time, 5);
    assert!(s.next().is_none());
}

#[test]
fn len_counts_queued_entries() {
    let mut s: Schedule<u32> = Schedule::new();
    assert_eq!(s.len(), 0);
    s.insert(1, 1);
    let t = s.insert(2, 2);
    assert_eq!(s.len(), 2);
    s.invalidate(t);
    // a cancelled entry still occupies the queue until popped over
    assert_eq!(s.len(), 2);
    s.next();
    assert_eq!(s.len(), 1);
}

#[test]
fn reset_rewinds_clock() {
    let mut s: Schedule<u32> = Schedule::new();
    s.insert(1, 5);
    s.next();
    assert_eq!(s.time(), 5);
    s.insert(2, 1);
    s.reset();
    assert_eq!(s.time(), 0);
    assert_eq!(s.len(), 0);
    assert!(s.next().is_none());
}

#[test]
fn serializable_round_trip() {
    let mut s: Schedule<u32> = Schedule::new();
    s.insert(1, 4);
    let t = s.insert(2, 6);
    s.insert(3, 6);
    s.invalidate(t);

    let ser: SerializableSchedule<u32> = s.into();
    let mut back: Schedule<u32> = ser.into();

    assert_eq!(back.len(), 3);
    assert_eq!(back.next().unwrap().event, 1);
    assert_eq!(back.next().unwrap().event, 3);
    assert!(back.next().is_none());
}
