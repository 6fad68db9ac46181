use aas_deltasync::{
    AgentHello, AntiEntropyRequest, AntiEntropyResponse, Delta, DocDelta, JsonValue, LwwRegister,
    MapEntry, OrMap, Timestamp,
};
use uuid::Uuid;

fn ts(physical: u64, logical: u32, actor: u128) -> Timestamp {
    Timestamp { physical_ms: physical, logical, actor_id: actor }
}

#[test]
fn agent_hello_cbor_roundtrip() {
    let hello = AgentHello::new(
        Uuid::new_v4().as_u128(),
        vec!["SubmodelRepositoryServiceSpecification".to_string()],
    );

    let bytes = hello.to_cbor().unwrap();
    let decoded = AgentHello::from_cbor(&bytes).unwrap();

    assert_eq!(hello.agent_id, decoded.agent_id);
    assert_eq!(hello.capabilities, decoded.capabilities);
}

#[test]
fn doc_delta_cbor_roundtrip() {
    let t = ts(1704067200000, 42, Uuid::new_v4().as_u128());

    let delta = DocDelta::new("doc1".to_string(), t, vec![1, 2, 3]);

    let bytes = delta.to_cbor().unwrap();
    let decoded = DocDelta::from_cbor(&bytes).unwrap();

    assert_eq!(delta.doc_id, decoded.doc_id);
    assert_eq!(delta.delta_payload, decoded.delta_payload);
}

#[test]
fn delta_payload_cbor_roundtrip() {
    let t1 = ts(1000, 0, 1);
    let t2 = ts(2000, 3, 2);
    let mut delta = Delta::new();
    delta.add_insert(
        "TechnicalData.MaxTemperature".to_string(),
        JsonValue::Num("99.5".to_string()),
        t1,
    );
    delta.add_insert(
        "Status".to_string(),
        JsonValue::Obj(vec![
            ("mode".to_string(), JsonValue::Str("on".to_string())),
            ("ok".to_string(), JsonValue::Bool(true)),
            ("note".to_string(), JsonValue::Null),
            ("xs".to_string(), JsonValue::Arr(vec![JsonValue::Num("1".to_string())])),
        ]),
        t2,
    );
    delta.add_remove("Old.Path[e1]".to_string(), t2);

    let bytes = delta.to_cbor().unwrap();
    let decoded = Delta::from_cbor(&bytes).unwrap();
    assert_eq!(decoded, delta);
}

#[test]
fn ae_request_cbor_roundtrip() {
    let rq = AntiEntropyRequest::new("doc1".to_string(), 150u64.to_be_bytes().to_vec());
    let bytes = rq.to_cbor().unwrap();
    let decoded = AntiEntropyRequest::from_cbor(&bytes).unwrap();
    assert_eq!(decoded, rq);
}

#[test]
fn ae_response_cbor_roundtrip() {
    let t = ts(5, 0, 9);
    let inner = DocDelta::new("doc1".to_string(), t, vec![9, 9]);
    let resp = AntiEntropyResponse::with_deltas("doc1".to_string(), vec![inner]);
    let bytes = resp.to_cbor().unwrap();
    let decoded = AntiEntropyResponse::from_cbor(&bytes).unwrap();
    assert_eq!(decoded, resp);
}

#[test]
fn ae_response_snapshot_roundtrip() {
    let resp = AntiEntropyResponse::with_snapshot("doc1".to_string(), vec![1, 2, 3, 4]);
    let bytes = resp.to_cbor().unwrap();
    let decoded = AntiEntropyResponse::from_cbor(&bytes).unwrap();
    assert_eq!(decoded, resp);
}

#[test]
fn doc_delta_timestamp_recovers_stamp() {
    let t = ts(123456, 7, 42);
    let delta = DocDelta::new("d".to_string(), t, vec![]);
    assert_eq!(delta.timestamp().unwrap(), t);
}

#[test]
fn from_cbor_rejects_garbage() {
    assert!(DocDelta::from_cbor(&[0xff, 0x00, 0x12]).is_err());
    assert!(AgentHello::from_cbor(&[]).is_err());
    assert!(AntiEntropyRequest::from_cbor(&[0x00]).is_err());
    assert!(AntiEntropyResponse::from_cbor(&[0xa0]).is_err());
    assert!(Delta::from_cbor(&[0x80]).is_err());
}

#[test]
fn doc_delta_with_signature_roundtrip() {
    let t = ts(1, 2, 3);
    let mut delta = DocDelta::new("doc1".to_string(), t, vec![5]);
    delta.signature = Some(vec![7, 7, 7]);
    let bytes = delta.to_cbor().unwrap();
    let decoded = DocDelta::from_cbor(&bytes).unwrap();
    assert_eq!(decoded, delta);
}

#[test]
fn doc_delta_decodes_shortest_form_without_signature() {
    // A foreign encoder's shape: shortest-form headers and the optional
    // signature entry omitted.
    let mut b: Vec<u8> = vec![0xa3];
    b.push(0x66);
    b.extend_from_slice(b"doc_id");
    b.push(0x62);
    b.extend_from_slice(b"d1");
    b.push(0x68);
    b.extend_from_slice(b"delta_id");
    b.push(0x41);
    b.push(0x07);
    b.push(0x6d);
    b.extend_from_slice(b"delta_payload");
    b.push(0x40);
    let d = DocDelta::from_cbor(&b).unwrap();
    assert_eq!(d.doc_id, "d1");
    assert_eq!(d.delta_id, vec![7]);
    assert!(d.delta_payload.is_empty());
    assert!(d.signature.is_none());
}

#[test]
fn ae_request_decodes_without_want_range() {
    let mut b: Vec<u8> = vec![0xa2];
    b.push(0x66);
    b.extend_from_slice(b"doc_id");
    b.push(0x61);
    b.extend_from_slice(b"d");
    b.push(0x6c);
    b.extend_from_slice(b"have_summary");
    b.push(0x48);
    b.extend_from_slice(&150u64.to_be_bytes());
    let rq = AntiEntropyRequest::from_cbor(&b).unwrap();
    assert_eq!(rq.doc_id, "d");
    assert_eq!(rq.have_summary, 150u64.to_be_bytes().to_vec());
    assert!(rq.want_range.is_none());
}

#[test]
fn or_map_state_cbor_roundtrip() {
    let mut map = OrMap::new();
    map.insert("a".to_string(), JsonValue::Num("1".to_string()), ts(10, 0, 1));
    map.insert("b".to_string(), JsonValue::Str("x".to_string()), ts(20, 0, 1));
    map.remove("a", ts(30, 0, 2));

    let bytes = map.to_cbor();
    let decoded = OrMap::from_cbor(&bytes).unwrap();

    assert!(decoded.get("a").is_none());
    assert_eq!(decoded.get("b"), Some(&JsonValue::Str("x".to_string())));
    assert_eq!(decoded.entry_rows(), map.entry_rows());
    assert_eq!(decoded.tombstone_rows(), map.tombstone_rows());
}

#[test]
fn or_map_state_rejects_garbage() {
    assert!(OrMap::from_cbor(&[]).is_none());
    assert!(OrMap::from_cbor(&[0x81, 0x80]).is_none());
}

#[test]
fn or_map_from_rows_validates() {
    let entry = |p: u64| MapEntry {
        value: LwwRegister::new(JsonValue::Num("1".to_string()), ts(p, 0, 1)),
        created_at: ts(p, 0, 1),
    };
    // a live write below its own key's tombstone is refused
    let bad = OrMap::from_rows(
        vec![("a".to_string(), entry(10))],
        vec![("a".to_string(), ts(30, 0, 2))],
    );
    assert!(bad.is_none());
    // a live write at or above the tombstone reconstructs
    let good = OrMap::from_rows(
        vec![("a".to_string(), entry(40))],
        vec![("a".to_string(), ts(30, 0, 2))],
    );
    assert!(good.is_some());
    // a repeated key is refused
    let dup = OrMap::from_rows(
        vec![("a".to_string(), entry(10)), ("a".to_string(), entry(20))],
        vec![],
    );
    assert!(dup.is_none());
}
