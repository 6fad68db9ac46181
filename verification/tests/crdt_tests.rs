use aas_deltasync::{Delta, JsonValue, LwwRegister, OrMap, Timestamp};

fn make_timestamp(physical: u64, logical: u32, actor_num: u8) -> Timestamp {
    Timestamp {
        physical_ms: physical,
        logical,
        actor_id: u128::from_be_bytes([actor_num; 16]),
    }
}

fn num(n: i64) -> JsonValue {
    JsonValue::Num(n.to_string())
}

#[test]
fn lww_register_higher_timestamp_wins() {
    let t1 = make_timestamp(1000, 0, 1);
    let t2 = make_timestamp(2000, 0, 1);

    let mut reg = LwwRegister::new(num(10), t1);
    assert_eq!(reg.value, num(10));

    reg.set(num(20), t2);
    assert_eq!(reg.value, num(20));

    // Earlier timestamp should not update
    reg.set(num(5), t1);
    assert_eq!(reg.value, num(20));
}

#[test]
fn ormap_basic_operations() {
    let t1 = make_timestamp(1000, 0, 1);
    let t2 = make_timestamp(2000, 0, 1);

    let mut map = OrMap::new();

    assert!(map.insert("a".to_string(), num(1), t1));
    assert!(!map.insert("a".to_string(), num(2), t2)); // Update, not insert

    assert_eq!(map.get("a"), Some(&num(2)));
    assert_eq!(map.len(), 1);
}

#[test]
fn ormap_remove_supersedes() {
    let t1 = make_timestamp(1000, 0, 1);
    let t2 = make_timestamp(2000, 0, 1);
    let t3 = make_timestamp(3000, 0, 1);

    let mut map = OrMap::new();

    map.insert("a".to_string(), num(1), t1);
    map.remove("a", t2);

    assert!(map.get("a").is_none());

    // Insert with earlier timestamp should be ignored (tombstone wins)
    map.insert("a".to_string(), num(2), t1);
    assert!(map.get("a").is_none());

    // Insert with later timestamp should succeed
    map.insert("a".to_string(), num(3), t3);
    assert_eq!(map.get("a"), Some(&num(3)));
}

#[test]
fn ormap_merge_convergence() {
    let t1 = make_timestamp(1000, 0, 1);
    let t2 = make_timestamp(2000, 0, 2);

    let mut map_a = OrMap::new();
    let mut map_b = OrMap::new();

    // Concurrent inserts
    map_a.insert("x".to_string(), num(10), t1);
    map_b.insert("x".to_string(), num(20), t2);

    // Merge in both directions
    let mut merged_a = OrMap::new();
    merged_a.merge(&map_a);
    merged_a.merge(&map_b);

    let mut merged_b = OrMap::new();
    merged_b.merge(&map_b);
    merged_b.merge(&map_a);

    // Should converge to same state (t2 wins)
    assert_eq!(merged_a.get("x"), Some(&num(20)));
    assert_eq!(merged_b.get("x"), Some(&num(20)));
}

#[test]
fn delta_apply() {
    let t1 = make_timestamp(1000, 0, 1);
    let t2 = make_timestamp(2000, 0, 1);

    let mut delta = Delta::new();
    delta.add_insert("a".to_string(), num(1), t1);
    delta.add_insert("b".to_string(), num(2), t1);
    delta.add_remove("a".to_string(), t2);

    let mut map = OrMap::new();
    delta.apply_to(&mut map);

    assert!(map.get("a").is_none());
    assert_eq!(map.get("b"), Some(&num(2)));
}

#[test]
fn concurrent_writers_converge_by_actor() {
    // Two actors write the same key at the same instant; the greater actor
    // id wins on both replicas once each sees the other's delta.
    let actor_a = 1u128;
    let actor_b = 2u128;
    let t_a = Timestamp { physical_ms: 1000, logical: 0, actor_id: actor_a };
    let t_b = Timestamp { physical_ms: 1000, logical: 0, actor_id: actor_b };

    let mut map_a = OrMap::new();
    let mut map_b = OrMap::new();
    map_a.insert("Temp".to_string(), num(25), t_a);
    map_b.insert("Temp".to_string(), num(30), t_b);

    // exchange
    map_a.insert("Temp".to_string(), num(30), t_b);
    map_b.insert("Temp".to_string(), num(25), t_a);

    assert_eq!(map_a.get("Temp"), Some(&num(30)));
    assert_eq!(map_b.get("Temp"), Some(&num(30)));
}

#[test]
fn delete_then_late_write_loses() {
    // A removal at t=2000 swallows a re-insert at t=1500 on both replicas.
    let t1 = make_timestamp(1000, 0, 1);
    let t15 = make_timestamp(1500, 0, 1);
    let t2 = make_timestamp(2000, 0, 2);

    let mut map_a = OrMap::new();
    map_a.insert("X".to_string(), num(1), t1);
    let mut map_b = OrMap::new();
    map_b.insert("X".to_string(), num(1), t1);

    map_b.remove("X", t2);
    map_a.remove("X", t2);

    map_a.insert("X".to_string(), num(9), t15);
    map_b.insert("X".to_string(), num(9), t15);

    assert!(map_a.get("X").is_none());
    assert!(map_b.get("X").is_none());
}

#[test]
fn delete_then_new_write_wins() {
    // A re-insert strictly after the removal resurrects the key everywhere.
    let t1 = make_timestamp(1000, 0, 1);
    let t2 = make_timestamp(2000, 0, 2);
    let t3 = make_timestamp(3000, 0, 1);

    let mut map_a = OrMap::new();
    map_a.insert("X".to_string(), num(1), t1);
    let mut map_b = OrMap::new();
    map_b.insert("X".to_string(), num(1), t1);

    map_a.remove("X", t2);
    map_b.remove("X", t2);

    map_a.insert("X".to_string(), num(9), t3);
    map_b.insert("X".to_string(), num(9), t3);

    assert_eq!(map_a.get("X"), Some(&num(9)));
    assert_eq!(map_b.get("X"), Some(&num(9)));
}

#[test]
fn merge_is_idempotent_on_state() {
    let t1 = make_timestamp(1000, 0, 1);
    let t2 = make_timestamp(2000, 0, 1);
    let mut map = OrMap::new();
    map.insert("a".to_string(), num(1), t2);
    map.remove("b", t1);

    let mut copy = OrMap::new();
    copy.merge(&map);
    let mut merged = OrMap::new();
    merged.merge(&map);
    merged.merge(&copy);

    assert_eq!(merged.get("a"), Some(&num(1)));
    assert_eq!(merged.len(), 1);
}

#[test]
fn compact_tombstones_drops_old_markers() {
    let t1 = make_timestamp(1000, 0, 1);
    let t2 = make_timestamp(2000, 0, 1);
    let t3 = make_timestamp(3000, 0, 1);
    let mut map = OrMap::new();
    map.remove("a", t1);
    map.remove("b", t2);
    map.compact_tombstones(t2);

    // the old tombstone is gone: an insert below it now lands
    map.insert("a".to_string(), num(5), make_timestamp(500, 0, 1));
    assert_eq!(map.get("a"), Some(&num(5)));
    // the kept tombstone still wins against an older insert
    map.insert("b".to_string(), num(6), t1);
    assert!(map.get("b").is_none());
    let _ = t3;
}
