use crdt::rga::RGA;

#[test]
fn test_insert() {
    let mut rga = RGA::new(1, 1);
    let result = rga.local_insert("A".to_string(), None, None);
    assert!(result.is_ok());
    assert_eq!(rga.node_count(), 1);
}

#[test]
fn test_delete() {
    let mut rga = RGA::new(1, 1);
    let s4 = rga
        .local_insert("A".to_string(), None, None)
        .unwrap()
        .s4vector;
    let result = rga.local_delete(s4.clone());
    assert!(result.is_ok());
    assert!(rga.get(&s4).unwrap().tombstone);
}

#[test]
fn test_update() {
    let mut rga = RGA::new(1, 1);
    let s4 = rga
        .local_insert("A".to_string(), None, None)
        .unwrap()
        .s4vector;
    let result = rga.local_update(s4.clone(), "B".to_string());
    assert!(result.is_ok());
    assert_eq!(rga.get(&s4).unwrap().value, "B".to_string());
}

#[test]
fn test_read() {
    let mut rga = RGA::new(1, 1);
    rga.local_insert("A".to_string(), None, None).unwrap();
    let s4 = rga.head().unwrap();
    rga.local_insert("B".to_string(), Some(s4), None).unwrap();
    rga.local_delete(s4).unwrap();

    let result = rga.read();
    assert_eq!(result, vec!["B".to_string()]);
}
