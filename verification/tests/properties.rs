use std::collections::HashSet;

use crdt::rga::{OperationError, RGA};
use crdt::S4Vector;

fn id(ssn: u64, sum: u64, sid: u64, seq: u64) -> S4Vector {
    S4Vector { ssn, sum, sid, seq }
}

#[test]
fn test_read_empty_engine() {
    let rga = RGA::new(1, 1);
    assert_eq!(rga.read(), Vec::<String>::new());
    assert_eq!(rga.node_count(), 0);
    assert_eq!(rga.head(), None);
}

#[test]
fn test_identifier_uniqueness_across_replicas() {
    // Three replicas with distinct sites, each appending three elements:
    // all nine generated identifiers are pairwise distinct.
    let mut ids = HashSet::new();
    let mut total = 0;
    for site in [1u64, 2, 3] {
        let mut rga = RGA::new(7, site);
        let mut anchor = None;
        for value in ["a", "b", "c"] {
            let rec = rga.local_insert(value.to_string(), anchor, None).unwrap();
            ids.insert(rec.s4vector);
            anchor = Some(rec.s4vector);
            total += 1;
        }
    }
    assert_eq!(ids.len(), total);
}

#[test]
fn test_compare_strict_total_order() {
    let base = id(1, 10, 42, 1);
    let by_ssn = id(2, 0, 0, 0);
    let by_sum = id(1, 11, 0, 0);
    let by_sid = id(1, 10, 43, 0);
    let by_seq = id(1, 10, 42, 2);

    for bigger in [by_ssn, by_sum, by_sid, by_seq] {
        // totality and antisymmetry on each discriminating field
        assert!(base < bigger);
        assert!(!(bigger < base));
        assert_ne!(base, bigger);
    }
    // irreflexivity
    assert!(!(base < base));
    // transitivity along a chain
    assert!(id(1, 1, 1, 1) < id(1, 1, 2, 5));
    assert!(id(1, 1, 2, 5) < id(1, 2, 0, 0));
    assert!(id(1, 1, 1, 1) < id(1, 2, 0, 0));
}

#[test]
fn test_convergence_under_reordering() {
    // One replica publishes "X"; three other replicas concurrently insert
    // after it. Every delivery order of the three inserts yields the same
    // final sequence: concurrent siblings sort by descending identifier.
    let mut origin = RGA::new(1, 1);
    let x = origin.local_insert("X".to_string(), None, None).unwrap().s4vector;

    let mut records = Vec::new();
    for site in [2u64, 3, 4] {
        let mut replica = RGA::new(1, site);
        replica.remote_insert("X".to_string(), x, None, None);
        let rec = replica
            .local_insert(format!("B{}", site), Some(x), None)
            .unwrap();
        records.push((rec.value.unwrap(), rec.s4vector, rec.left, rec.right));
    }

    let expected = vec![
        "X".to_string(),
        "B4".to_string(),
        "B3".to_string(),
        "B2".to_string(),
    ];
    let permutations = [
        [0usize, 1, 2],
        [0, 2, 1],
        [1, 0, 2],
        [1, 2, 0],
        [2, 0, 1],
        [2, 1, 0],
    ];
    for perm in permutations {
        let mut replica = RGA::new(1, 9);
        replica.remote_insert("X".to_string(), x, None, None);
        for &p in perm.iter() {
            let (value, s4, left, right) = records[p].clone();
            replica.remote_insert(value, s4, left, right);
        }
        assert_eq!(replica.read(), expected);
    }
}

#[test]
fn test_convergence_at_mid_chain_anchor() {
    // The anchor already has a right neighbor: concurrent inserts at it
    // still converge under every delivery order, landing between the
    // anchor and its old neighbor in descending identifier order.
    let mut origin = RGA::new(1, 1);
    let x = origin.local_insert("X".to_string(), None, None).unwrap().s4vector;
    let y = origin.local_insert("Y".to_string(), Some(x), None).unwrap().s4vector;

    let mut records = Vec::new();
    for site in [2u64, 3, 4] {
        let mut replica = RGA::new(1, site);
        replica.remote_insert("X".to_string(), x, None, None);
        replica.remote_insert("Y".to_string(), y, Some(x), None);
        let rec = replica
            .local_insert(format!("B{}", site), Some(x), None)
            .unwrap();
        records.push((rec.value.unwrap(), rec.s4vector, rec.left, rec.right));
    }

    let expected = vec![
        "X".to_string(),
        "B4".to_string(),
        "B3".to_string(),
        "B2".to_string(),
        "Y".to_string(),
    ];
    let permutations = [
        [0usize, 1, 2],
        [0, 2, 1],
        [1, 0, 2],
        [1, 2, 0],
        [2, 0, 1],
        [2, 1, 0],
    ];
    for perm in permutations {
        let mut replica = RGA::new(1, 9);
        replica.remote_insert("X".to_string(), x, None, None);
        replica.remote_insert("Y".to_string(), y, Some(x), None);
        for &p in perm.iter() {
            let (value, s4, left, right) = records[p].clone();
            replica.remote_insert(value, s4, left, right);
        }
        assert_eq!(replica.read(), expected);
    }
}

#[test]
fn test_tombstone_idempotence() {
    let mut rga = RGA::new(1, 1);
    let a = rga.local_insert("A".to_string(), None, None).unwrap().s4vector;
    rga.local_insert("B".to_string(), Some(a), None).unwrap();

    rga.local_delete(a).unwrap();
    let after_first = rga.read();
    assert_eq!(after_first, vec!["B".to_string()]);

    // deleting the already tombstoned element neither errors nor changes
    // what read() returns
    let second = rga.local_delete(a);
    assert!(second.is_ok());
    assert_eq!(rga.read(), after_first);
}

#[test]
fn test_update_after_delete_noop() {
    let mut rga = RGA::new(1, 1);
    let a = rga.local_insert("A".to_string(), None, None).unwrap().s4vector;
    let b = rga.local_insert("B".to_string(), Some(a), None).unwrap().s4vector;
    rga.local_delete(b).unwrap();
    let before = rga.read();
    assert_eq!(before, vec!["A".to_string()]);

    // the tombstoned element's payload is frozen: the update succeeds but
    // changes nothing, and the record carries the frozen payload
    let rec = rga.local_update(b, "Z".to_string()).unwrap();
    assert_eq!(rec.value, Some("B".to_string()));
    assert_eq!(rga.read(), before);
    assert_eq!(rga.get(&b).unwrap().value, "B".to_string());
}

#[test]
fn test_dependency_buffering_remote() {
    // B arrives anchored on a not-yet-present A; once A arrives, the
    // buffered insert is applied and both appear in order.
    let a = id(1, 1, 2, 1);
    let b = id(1, 2, 2, 2);
    let mut rga = RGA::new(1, 1);

    rga.remote_insert("B".to_string(), b, Some(a), None);
    assert_eq!(rga.read(), Vec::<String>::new());
    assert_eq!(rga.node_count(), 0);

    rga.remote_insert("A".to_string(), a, None, None);
    assert_eq!(rga.read(), vec!["A".to_string(), "B".to_string()]);
}

#[test]
fn test_insert_delete_update_scenario() {
    let mut rga = RGA::new(1, 1);
    let a = rga.local_insert("A".to_string(), None, None).unwrap().s4vector;
    let b = rga.local_insert("B".to_string(), Some(a), None).unwrap().s4vector;
    rga.local_delete(a).unwrap();
    assert_eq!(rga.read(), vec!["B".to_string()]);
    rga.local_update(b, "Updated B".to_string()).unwrap();
    assert_eq!(rga.read(), vec!["Updated B".to_string()]);
}

#[test]
fn test_local_insert_missing_anchor_errors() {
    let mut rga = RGA::new(1, 1);
    // the anchor identifier that the *next* local insert will generate:
    // the failed insert below consumes sequence number 1 first
    let a = id(1, 1, 1, 2);

    let attempt = rga.local_insert("B".to_string(), Some(a), None);
    assert!(matches!(attempt, Err(OperationError::DependancyError)));
    assert_eq!(rga.read(), Vec::<String>::new());

    let generated = rga.local_insert("A".to_string(), None, None).unwrap().s4vector;
    assert_eq!(generated, a);
    assert_eq!(rga.read(), vec!["A".to_string(), "B".to_string()]);
}

#[test]
fn test_local_delete_missing_target_errors() {
    let mut rga = RGA::new(1, 1);
    let unknown = id(1, 5, 9, 3);
    assert!(matches!(
        rga.local_delete(unknown),
        Err(OperationError::DependancyError)
    ));
    // the delete waits for its target: once the element arrives it is
    // tombstoned by the sweep
    rga.remote_insert("A".to_string(), unknown, None, None);
    assert_eq!(rga.read(), Vec::<String>::new());
    assert!(rga.get(&unknown).unwrap().tombstone);
}

#[test]
fn test_local_update_missing_target_errors() {
    let mut rga = RGA::new(1, 1);
    let unknown = id(1, 5, 9, 3);
    assert!(matches!(
        rga.local_update(unknown, "Z".to_string()),
        Err(OperationError::DependancyError)
    ));
    rga.remote_insert("A".to_string(), unknown, None, None);
    assert_eq!(rga.read(), vec!["Z".to_string()]);
}

#[test]
fn test_remote_insert_idempotent() {
    let mut rga = RGA::new(1, 1);
    let a = id(1, 1, 2, 1);
    rga.remote_insert("A".to_string(), a, None, None);
    rga.remote_insert("A".to_string(), a, None, None);
    assert_eq!(rga.node_count(), 1);
    assert_eq!(rga.read(), vec!["A".to_string()]);
}

#[test]
fn test_remote_delete_unknown_dropped() {
    let mut rga = RGA::new(1, 1);
    let a = id(1, 1, 2, 1);
    // a delete for an unknown identifier is silently dropped, not buffered
    rga.remote_delete(a);
    assert_eq!(rga.node_count(), 0);
    rga.remote_insert("A".to_string(), a, None, None);
    assert_eq!(rga.read(), vec!["A".to_string()]);
    assert!(!rga.get(&a).unwrap().tombstone);
}

#[test]
fn test_remote_update_unknown_buffered() {
    let mut rga = RGA::new(1, 1);
    let a = id(1, 1, 2, 1);
    // an update for an unknown identifier is a dependency gap: buffered,
    // and applied once the element arrives
    rga.remote_update(a, "A2".to_string());
    assert_eq!(rga.node_count(), 0);
    rga.remote_insert("A".to_string(), a, None, None);
    assert_eq!(rga.read(), vec!["A2".to_string()]);
}

#[test]
fn test_remote_update_tombstoned_frozen() {
    let mut rga = RGA::new(1, 1);
    let a = rga.local_insert("A".to_string(), None, None).unwrap().s4vector;
    rga.remote_delete(a);
    rga.remote_update(a, "Z".to_string());
    assert_eq!(rga.read(), Vec::<String>::new());
    assert_eq!(rga.get(&a).unwrap().value, "A".to_string());
}

#[test]
fn test_insert_without_anchor_replaces_head() {
    let mut rga = RGA::new(1, 1);
    rga.local_insert("A".to_string(), None, None).unwrap();
    let b = rga.local_insert("B".to_string(), None, None).unwrap().s4vector;
    // an insert with no left anchor replaces the head
    assert_eq!(rga.head(), Some(b));
    assert_eq!(rga.read(), vec!["B".to_string()]);
}

#[test]
fn test_generate_sum_at_limits() {
    // appending after the largest representable position still fits
    let mut seq = 0;
    let left = id(1, u64::MAX - 1, 1, 1);
    let s4 = S4Vector::generate(Some(&left), None, 1, 2, &mut seq);
    assert_eq!(s4.sum, u64::MAX);

    // the truncated average at the top of the range
    let l2 = id(1, u64::MAX - 3, 1, 2);
    let r2 = id(1, 3, 2, 1);
    let mut seq2 = 0;
    let m = S4Vector::generate(Some(&l2), Some(&r2), 1, 2, &mut seq2);
    assert_eq!(m.sum, u64::MAX / 2);
}

#[test]
fn test_generate_sum_between_neighbors() {
    let mut seq = 0;
    let left = id(1, 10, 1, 1);
    let right = id(1, 20, 2, 1);
    let mid = S4Vector::generate(Some(&left), Some(&right), 1, 3, &mut seq);
    assert_eq!(mid.sum, 15);
    assert!(left < mid);
    assert!(mid < right);
}
