use aas_deltasync::agent::{
    basyx_event_to_delta, delta_hash_matches, handle_ae_request, handle_ae_response,
    handle_delta_message, persist_delta, DocumentState, ProtocolError,
};
use aas_deltasync::{
    encode_id_base64url, hash_doc_id, AasClientConfig, AgentConfig, AntiEntropyRequest,
    AntiEntropyResponse, BasyxEvent, Delta, DeltaLog, DocDelta, Hlc, JsonValue, OrMap, Timestamp,
};
use uuid::Uuid;

fn num(n: i64) -> JsonValue {
    JsonValue::Num(n.to_string())
}

#[test]
fn config_default() {
    let config = AasClientConfig::default();
    assert_eq!(config.base_url, "http://localhost:8081");
    assert_eq!(config.timeout_ms, 30000);
    assert!(config.bearer_token.is_none());
    assert!(config.ca_cert_path.is_none());
    assert!(config.client_cert_path.is_none());
    assert!(config.client_key_path.is_none());
}

#[test]
fn config_with_tls_fields() {
    let config = AasClientConfig {
        base_url: "https://localhost:8443".to_string(),
        timeout_ms: 30000,
        bearer_token: None,
        ca_cert_path: Some("/tmp/ca.pem".to_string()),
        client_cert_path: Some("/tmp/client.pem".to_string()),
        client_key_path: Some("/tmp/client.key".to_string()),
    };

    assert!(config.ca_cert_path.is_some());
    assert!(config.client_cert_path.is_some());
    assert!(config.client_key_path.is_some());
}

#[test]
fn agent_config_default_is_local() {
    let config = AgentConfig::default();
    assert_eq!(config.adapter.adapter_type, "basyx");
    assert_eq!(config.replication.tenant, "default");
    assert!(!config.replication.enable_egress);
    assert!(config.subscriptions.is_empty());
}

#[test]
fn event_to_delta_update_inserts() {
    let submodel_id = "urn:example:sm:data";
    let encoded = encode_id_base64url(submodel_id);
    let topic =
        format!("sm-repository/repo1/submodels/{encoded}/submodelElements/Nested/Temp/updated");
    let event = BasyxEvent::parse(&topic, br#"{"value": 21}"#).unwrap();

    let mut clock = Hlc::new(Uuid::new_v4().as_u128());
    let delta = basyx_event_to_delta(&event, &mut clock);
    assert_eq!(delta.inserts.len(), 1);
    assert_eq!(delta.inserts[0].0, "Nested.Temp");
    assert_eq!(delta.inserts[0].1, num(21));
    assert!(delta.removes.is_empty());
}

#[test]
fn event_to_delta_delete_removes() {
    let submodel_id = "urn:example:sm:data";
    let encoded = encode_id_base64url(submodel_id);
    let topic = format!("sm-repository/repo1/submodels/{encoded}/submodelElements/Gone/deleted");
    let event = BasyxEvent::parse(&topic, b"").unwrap();

    let mut clock = Hlc::new(Uuid::new_v4().as_u128());
    let delta = basyx_event_to_delta(&event, &mut clock);
    assert!(delta.inserts.is_empty());
    assert_eq!(delta.removes.len(), 1);
    assert_eq!(delta.removes[0].0, "Gone");
}

#[test]
fn delta_message_applies_to_state() {
    let actor = Uuid::new_v4().as_u128();
    let mut source = DocumentState::new(actor);
    let mut delta = Delta::new();
    let ts = source.clock.tick();
    delta.add_insert("Temp".to_string(), num(42), ts);
    let payload = delta.to_cbor().unwrap();
    let doc_delta = DocDelta::new("doc1".to_string(), ts, payload);
    let wire = doc_delta.to_cbor().unwrap();

    let mut receiver = DocumentState::new(Uuid::new_v4().as_u128());
    let outcome = handle_delta_message(&mut receiver, &wire).unwrap();
    assert_eq!(receiver.state.get("Temp"), Some(&num(42)));
    assert_eq!(outcome.doc_delta.doc_id, "doc1");
    assert_eq!(outcome.delta.inserts.len(), 1);
}

#[test]
fn delta_message_rejects_garbage() {
    let mut receiver = DocumentState::new(1);
    let r = handle_delta_message(&mut receiver, &[1, 2, 3]);
    assert!(matches!(r, Err(ProtocolError::DecodeMessage)));
}

#[test]
fn hash_check_warns_on_mismatch() {
    let t = Timestamp { physical_ms: 1, logical: 0, actor_id: 1 };
    let doc_delta = DocDelta::new("doc1".to_string(), t, vec![]);
    assert!(delta_hash_matches(&doc_delta, &hash_doc_id("doc1")));
    assert!(!delta_hash_matches(&doc_delta, &hash_doc_id("doc2")));
}

#[test]
fn ae_catch_up_returns_missing_deltas_in_order() {
    // A holds deltas stamped 100, 200, 300; B says it has everything up to
    // 150; the response carries exactly the 200 and 300 deltas, ascending,
    // and applying them brings B level with A.
    let actor_a = 1u128;
    let mut doc_a = DocumentState::new(actor_a);
    let mut log_a = DeltaLog::in_memory();
    let doc_id = "urn:a:urn:s:$value";

    for (ms, key, val) in [(100u64, "x", 1i64), (200, "y", 2), (300, "z", 3)] {
        let ts = Timestamp { physical_ms: ms, logical: 0, actor_id: actor_a };
        let mut delta = Delta::new();
        delta.add_insert(key.to_string(), num(val), ts);
        doc_a.apply_delta(&delta);
        let env = DocDelta::new(doc_id.to_string(), ts, delta.to_cbor().unwrap());
        persist_delta(&mut log_a, &env, ts).unwrap();
    }

    // B has applied only the first delta and advertises threshold 150.
    let actor_b = 2u128;
    let mut doc_b = DocumentState::new(actor_b);
    let ts1 = Timestamp { physical_ms: 100, logical: 0, actor_id: actor_a };
    let mut first = Delta::new();
    first.add_insert("x".to_string(), num(1), ts1);
    doc_b.apply_delta(&first);

    let request = AntiEntropyRequest::new(doc_id.to_string(), 150u64.to_be_bytes().to_vec());
    let wire = request.to_cbor().unwrap();
    let response = handle_ae_request(&log_a, &wire).unwrap().unwrap();
    assert_eq!(response.doc_id, doc_id);
    assert_eq!(response.deltas.len(), 2);
    let t0 = response.deltas[0].timestamp().unwrap();
    let t1 = response.deltas[1].timestamp().unwrap();
    assert_eq!(t0.physical_ms, 200);
    assert_eq!(t1.physical_ms, 300);

    let response_wire = response.to_cbor().unwrap();
    let outcome = handle_ae_response(&mut doc_b, &response_wire).unwrap();
    assert_eq!(outcome.applied.len(), 2);
    assert!(!outcome.snapshot_present);

    for key in ["x", "y", "z"] {
        assert_eq!(doc_b.state.get(key), doc_a.state.get(key));
    }
}

#[test]
fn ae_request_with_nothing_new_yields_no_response() {
    let log = DeltaLog::in_memory();
    let request = AntiEntropyRequest::new("doc".to_string(), 0u64.to_be_bytes().to_vec());
    let wire = request.to_cbor().unwrap();
    assert!(handle_ae_request(&log, &wire).unwrap().is_none());
}

#[test]
fn delta_message_with_bad_payload_is_rejected() {
    let t = Timestamp { physical_ms: 1, logical: 0, actor_id: 1 };
    let doc_delta = DocDelta::new("doc1".to_string(), t, vec![0xff, 0x01]);
    let wire = doc_delta.to_cbor().unwrap();
    let mut receiver = DocumentState::new(1);
    let r = handle_delta_message(&mut receiver, &wire);
    assert!(matches!(r, Err(ProtocolError::DecodePayload)));
}

#[test]
fn ae_response_snapshot_replaces_state() {
    let stamp = |p: u64, a: u128| Timestamp { physical_ms: p, logical: 0, actor_id: a };

    // the peer's full state, shipped as a snapshot
    let mut peer = OrMap::new();
    peer.insert("Temp".to_string(), num(21), stamp(100, 7));
    peer.insert("Gone".to_string(), num(0), stamp(90, 7));
    peer.remove("Gone", stamp(110, 7));
    let snapshot = peer.to_cbor();

    // one delta on top of the snapshot
    let mut delta = Delta::new();
    delta.add_insert("Mode".to_string(), JsonValue::Str("on".to_string()), stamp(200, 7));
    let envelope = DocDelta::new("doc1".to_string(), stamp(200, 7), delta.to_cbor().unwrap());

    let mut response = AntiEntropyResponse::with_snapshot("doc1".to_string(), snapshot);
    response.deltas = vec![envelope];
    let bytes = response.to_cbor().unwrap();

    let mut doc = DocumentState::new(1);
    doc.state.insert("Stale".to_string(), num(9), stamp(50, 1));

    let outcome = handle_ae_response(&mut doc, &bytes).unwrap();
    assert!(outcome.snapshot_present);
    assert!(outcome.snapshot_applied);
    assert_eq!(outcome.applied.len(), 1);

    // the snapshot replaced the local state wholesale
    assert!(doc.state.get("Stale").is_none());
    assert_eq!(doc.state.get("Temp"), Some(&num(21)));
    assert!(doc.state.get("Gone").is_none());
    // and the carried delta applied on top
    assert_eq!(doc.state.get("Mode"), Some(&JsonValue::Str("on".to_string())));
}

#[test]
fn ae_response_bad_snapshot_keeps_state() {
    let stamp = |p: u64, a: u128| Timestamp { physical_ms: p, logical: 0, actor_id: a };
    let response = AntiEntropyResponse::with_snapshot("doc1".to_string(), vec![1, 2, 3]);
    let bytes = response.to_cbor().unwrap();

    let mut doc = DocumentState::new(1);
    doc.state.insert("Keep".to_string(), num(5), stamp(50, 1));

    let outcome = handle_ae_response(&mut doc, &bytes).unwrap();
    assert!(outcome.snapshot_present);
    assert!(!outcome.snapshot_applied);
    assert_eq!(doc.state.get("Keep"), Some(&num(5)));
}
