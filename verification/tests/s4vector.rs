use crdt::S4Vector;
use std::collections::HashSet;

#[test]
fn test_s4vector_equality() {
    let s4_1 = S4Vector { ssn: 1, sum: 10, sid: 42, seq: 1 };
    let s4_2 = S4Vector { ssn: 1, sum: 10, sid: 42, seq: 1 };
    let s4_3 = S4Vector { ssn: 1, sum: 11, sid: 42, seq: 2 };

    assert_eq!(s4_1, s4_2);
    assert_ne!(s4_1, s4_3);
}

#[test]
fn test_s4vector_ordering() {
    let s4_1 = S4Vector { ssn: 1, sum: 10, sid: 42, seq: 1 };
    let s4_2 = S4Vector { ssn: 1, sum: 20, sid: 42, seq: 2 };

    assert!(s4_1 < s4_2);
}

#[test]
fn test_s4vector_generate_no_neighbors() {
    let current_session = 1;
    let local_site = 42;
    let mut local_sequence = 0;

    let s4 = S4Vector::generate(None, None, current_session, local_site, &mut local_sequence);
    assert_eq!(s4.ssn, current_session);
    assert_eq!(s4.sum, 1);
    assert_eq!(s4.sid, local_site);
    assert_eq!(s4.seq, 1);
}

#[test]
fn test_s4vector_generate_with_left_neighbor() {
    let current_session = 1;
    let local_site = 42;
    let mut local_sequence = 0;

    let left = S4Vector { ssn: 1, sum: 10, sid: 42, seq: 1 };

    let s4 = S4Vector::generate(
        Some(&left),
        None,
        current_session,
        local_site,
        &mut local_sequence,
    );
    assert_eq!(s4.sum, left.sum + 1);
    assert_eq!(s4.seq, 1);
}

#[test]
fn test_s4vector_generate_with_neighbors() {
    let current_session = 1;
    let local_site = 42;
    let mut local_sequence = 0;

    let left = S4Vector { ssn: 1, sum: 10, sid: 42, seq: 1 };
    let right = S4Vector { ssn: 1, sum: 20, sid: 43, seq: 2 };

    let s4 = S4Vector::generate(
        Some(&left),
        Some(&right),
        current_session,
        local_site,
        &mut local_sequence,
    );
    assert_eq!(s4.sum, (left.sum + right.sum) / 2);
}

#[test]
fn test_s4vector_hashing() {
    let s4_1 = S4Vector { ssn: 1, sum: 10, sid: 42, seq: 1 };
    let s4_2 = S4Vector { ssn: 1, sum: 10, sid: 42, seq: 1 };

    let mut set = HashSet::new();
    set.insert(s4_1);

    assert!(set.contains(&s4_2));
}

#[test]
fn test_s4vector_generate_with_right_neighbor() {
    let current_session = 1;
    let local_site = 42;
    let mut local_sequence = 0;

    let right = S4Vector { ssn: 1, sum: 20, sid: 43, seq: 2 };

    let s4 = S4Vector::generate(
        None,
        Some(&right),
        current_session,
        local_site,
        &mut local_sequence,
    );
    assert_eq!(s4.sum, right.sum / 2);
}
