use t3xt::registry::Registry;

#[test]
fn insert_twice_keeps_one_entry_with_second_handle() {
    let mut r: Registry<u32> = Registry::new();
    r.insert("a".to_string(), 1);
    r.insert("b".to_string(), 2);
    r.insert("a".to_string(), 3);
    assert_eq!(r.count(), 2);
    let snap = r.snapshot();
    assert_eq!(snap, vec![("a".to_string(), 3), ("b".to_string(), 2)]);
}

#[test]
fn remove_twice_is_a_no_op_the_second_time() {
    let mut r: Registry<u32> = Registry::new();
    r.insert("a".to_string(), 1);
    r.insert("b".to_string(), 2);
    r.remove(&"a".to_string());
    assert_eq!(r.count(), 1);
    r.remove(&"a".to_string());
    assert_eq!(r.count(), 1);
    assert!(!r.contains(&"a".to_string()));
    assert!(r.contains(&"b".to_string()));
    r.remove(&"zzz".to_string());
    assert_eq!(r.snapshot(), vec![("b".to_string(), 2)]);
}

#[test]
fn empty_registry() {
    let r: Registry<u32> = Registry::new();
    assert_eq!(r.count(), 0);
    assert!(r.snapshot().is_empty());
}

#[test]
fn snapshot_is_a_copy() {
    let mut r: Registry<String> = Registry::new();
    r.insert("a".to_string(), "conn-a".to_string());
    let snap = r.snapshot();
    r.remove(&"a".to_string());
    assert_eq!(snap, vec![("a".to_string(), "conn-a".to_string())]);
    assert_eq!(r.count(), 0);
}
