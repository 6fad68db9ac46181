use aas_deltasync::{MessageType, TopicScheme};

#[test]
fn topic_generation() {
    let scheme = TopicScheme::new("factory-a");
    let doc_hash = "abc123def456";

    assert_eq!(scheme.hello(doc_hash), "aas-deltasync/v1/factory-a/abc123def456/hello");
    assert_eq!(scheme.delta(doc_hash), "aas-deltasync/v1/factory-a/abc123def456/delta");
    assert_eq!(
        scheme.ae_request(doc_hash),
        "aas-deltasync/v1/factory-a/abc123def456/ae/request"
    );
}

#[test]
fn topic_parsing() {
    let scheme = TopicScheme::new("factory-a");

    let topic = "aas-deltasync/v1/factory-a/abc123/delta";
    let (doc_hash, msg_type) = scheme.parse(topic).unwrap();

    assert_eq!(doc_hash, "abc123");
    assert_eq!(msg_type, MessageType::Delta);
}

#[test]
fn topic_parsing_ae() {
    let scheme = TopicScheme::new("site-b");

    let topic = "aas-deltasync/v1/site-b/xyz789/ae/request";
    let (doc_hash, msg_type) = scheme.parse(topic).unwrap();

    assert_eq!(doc_hash, "xyz789");
    assert_eq!(msg_type, MessageType::AntiEntropyRequest);
}

#[test]
fn wildcard_topics() {
    let scheme = TopicScheme::new("tenant1");

    assert_eq!(scheme.doc_wildcard("doc1"), "aas-deltasync/v1/tenant1/doc1/#");
    assert_eq!(scheme.tenant_wildcard(), "aas-deltasync/v1/tenant1/#");
}

#[test]
fn topic_roundtrip_delta() {
    let scheme = TopicScheme::new("factory-a");
    let topic = scheme.delta("abc123");
    assert_eq!(topic, "aas-deltasync/v1/factory-a/abc123/delta");
    let (doc_hash, msg_type) = scheme.parse(&topic).unwrap();
    assert_eq!(doc_hash, "abc123");
    assert_eq!(msg_type, MessageType::Delta);
}

#[test]
fn topic_roundtrip_all_kinds() {
    let scheme = TopicScheme::new("t");
    let h = "0011223344556677";
    assert_eq!(scheme.parse(&scheme.hello(h)).unwrap(), (h.to_string(), MessageType::Hello));
    assert_eq!(scheme.parse(&scheme.delta(h)).unwrap(), (h.to_string(), MessageType::Delta));
    assert_eq!(
        scheme.parse(&scheme.ae_request(h)).unwrap(),
        (h.to_string(), MessageType::AntiEntropyRequest)
    );
    assert_eq!(
        scheme.parse(&scheme.ae_response(h)).unwrap(),
        (h.to_string(), MessageType::AntiEntropyResponse)
    );
}

#[test]
fn topic_parse_rejects_trailing_segments() {
    let scheme = TopicScheme::new("t");
    assert!(scheme.parse("aas-deltasync/v1/t/h/delta/extra").is_none());
    assert!(scheme.parse("aas-deltasync/v1/t/h").is_none());
    assert!(scheme.parse("other/v1/t/h/delta").is_none());
    assert!(scheme.parse("aas-deltasync/v1/other/h/delta").is_none());
}
