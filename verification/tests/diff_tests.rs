use aas_deltasync::diff::{compute_diff, value_to_delta, FaaastPollerConfig, PollerError};
use aas_deltasync::{Hlc, JsonValue};
use uuid::Uuid;

fn num(n: i64) -> JsonValue {
    JsonValue::Num(n.to_string())
}

fn obj(members: Vec<(&str, JsonValue)>) -> JsonValue {
    JsonValue::Obj(members.into_iter().map(|(k, v)| (k.to_string(), v)).collect())
}

#[test]
fn diff_scalar_change() {
    let mut clock = Hlc::new(Uuid::new_v4().as_u128());

    let old = obj(vec![("temperature", num(25))]);
    let new = obj(vec![("temperature", num(30))]);

    let delta = compute_diff(&old, &new, &mut clock);

    assert_eq!(delta.inserts.len(), 1);
    assert_eq!(delta.inserts[0].0, "temperature");
    assert_eq!(delta.inserts[0].1, num(30));
}

#[test]
fn diff_key_removed() {
    let mut clock = Hlc::new(Uuid::new_v4().as_u128());

    let old = obj(vec![("a", num(1)), ("b", num(2))]);
    let new = obj(vec![("a", num(1))]);

    let delta = compute_diff(&old, &new, &mut clock);

    assert_eq!(delta.removes.len(), 1);
    assert_eq!(delta.removes[0].0, "b");
}

#[test]
fn diff_key_added() {
    let mut clock = Hlc::new(Uuid::new_v4().as_u128());

    let old = obj(vec![("a", num(1))]);
    let new = obj(vec![("a", num(1)), ("b", num(2))]);

    let delta = compute_diff(&old, &new, &mut clock);

    assert_eq!(delta.inserts.len(), 1);
    assert_eq!(delta.inserts[0].0, "b");
}

#[test]
fn diff_emits_minimal_delta() {
    // Snapshot0 = {"a":1,"b":2}; Snapshot1 = {"a":1,"b":3,"c":4}:
    // exactly inserts ("b",3) and ("c",4), nothing for "a", no removes.
    let mut clock = Hlc::new(Uuid::new_v4().as_u128());

    let old = obj(vec![("a", num(1)), ("b", num(2))]);
    let new = obj(vec![("a", num(1)), ("b", num(3)), ("c", num(4))]);

    let delta = compute_diff(&old, &new, &mut clock);

    assert_eq!(delta.inserts.len(), 2);
    assert_eq!(delta.inserts[0].0, "b");
    assert_eq!(delta.inserts[0].1, num(3));
    assert_eq!(delta.inserts[1].0, "c");
    assert_eq!(delta.inserts[1].1, num(4));
    assert_eq!(delta.removes.len(), 0);
}

#[test]
fn diff_recurses_into_nested_objects() {
    let mut clock = Hlc::new(Uuid::new_v4().as_u128());
    let old = obj(vec![("outer", obj(vec![("x", num(1)), ("y", num(2))]))]);
    let new = obj(vec![("outer", obj(vec![("x", num(1)), ("y", num(5))]))]);

    let delta = compute_diff(&old, &new, &mut clock);
    assert_eq!(delta.inserts.len(), 1);
    assert_eq!(delta.inserts[0].0, "outer.y");
    assert_eq!(delta.inserts[0].1, num(5));
}

#[test]
fn diff_arrays_by_position() {
    let mut clock = Hlc::new(Uuid::new_v4().as_u128());
    let old = obj(vec![("xs", JsonValue::Arr(vec![num(1), num(2), num(3)]))]);
    let new = obj(vec![("xs", JsonValue::Arr(vec![num(1), num(9)]))]);

    let delta = compute_diff(&old, &new, &mut clock);
    assert_eq!(delta.inserts.len(), 1);
    assert_eq!(delta.inserts[0].0, "xs[1]");
    assert_eq!(delta.inserts[0].1, num(9));
    assert_eq!(delta.removes.len(), 1);
    assert_eq!(delta.removes[0].0, "xs[2]");
}

#[test]
fn flatten_first_snapshot() {
    let mut clock = Hlc::new(Uuid::new_v4().as_u128());
    let snapshot = obj(vec![
        ("a", num(1)),
        ("nested", obj(vec![("b", num(2))])),
        ("xs", JsonValue::Arr(vec![num(7)])),
    ]);

    let delta = value_to_delta(&snapshot, &mut clock);
    assert_eq!(delta.removes.len(), 0);
    assert_eq!(delta.inserts.len(), 3);
    assert_eq!(delta.inserts[0].0, "a");
    assert_eq!(delta.inserts[1].0, "nested.b");
    assert_eq!(delta.inserts[2].0, "xs[0]");
    assert_eq!(delta.inserts[2].1, num(7));
}

#[test]
fn diff_stamps_are_strictly_increasing() {
    let mut clock = Hlc::new(Uuid::new_v4().as_u128());
    let old = obj(vec![]);
    let new = obj(vec![("a", num(1)), ("b", num(2)), ("c", num(3))]);
    let delta = compute_diff(&old, &new, &mut clock);
    assert_eq!(delta.inserts.len(), 3);
    assert!(delta.inserts[0].2 < delta.inserts[1].2);
    assert!(delta.inserts[1].2 < delta.inserts[2].2);
}

#[test]
fn https_is_required() {
    let config = FaaastPollerConfig {
        base_url: "http://localhost:8080".to_string(),
        ..Default::default()
    };
    assert!(matches!(config.require_https(), Err(PollerError::HttpsRequired)));

    let ok = FaaastPollerConfig::default();
    assert!(ok.require_https().is_ok());
}
