use aas_deltasync::{
    CanonicalPath, CrdtDocument, DocId, ElementType, Hlc, JsonValue, MergeStrategy, PathSegment,
};
use uuid::Uuid;

#[test]
fn doc_id_display() {
    let id = DocId::value_view("urn:example:aas:1", "urn:example:sm:data");
    assert_eq!(id.to_string(), "urn:example:aas:1:urn:example:sm:data:$value");
}

#[test]
fn crdt_document_set_get() {
    let id = DocId::value_view("aas1", "sm1");
    let clock = Hlc::new(Uuid::new_v4().as_u128());
    let mut doc = CrdtDocument::new(id, clock);

    let _ = doc.set("Temperature", JsonValue::Num("25.5".to_string()));
    let _ = doc.set("Status", JsonValue::Str("Running".to_string()));

    assert_eq!(doc.get("Temperature"), Some(&JsonValue::Num("25.5".to_string())));
    assert_eq!(doc.get("Status"), Some(&JsonValue::Str("Running".to_string())));
    assert_eq!(doc.len(), 2);
}

#[test]
fn crdt_document_merge_convergence() {
    let id_a = DocId::value_view("aas1", "sm1");
    let id_b = DocId::value_view("aas1", "sm1");

    let mut doc_a = CrdtDocument::new(id_a, Hlc::new(Uuid::new_v4().as_u128()));
    let mut doc_b = CrdtDocument::new(id_b, Hlc::new(Uuid::new_v4().as_u128()));

    // Concurrent updates to same path
    let delta_a = doc_a.set("X", JsonValue::Num("10".to_string()));
    let delta_b = doc_b.set("X", JsonValue::Num("20".to_string()));

    // Cross-apply deltas
    doc_a.apply_delta(&delta_b);
    doc_b.apply_delta(&delta_a);

    // Should converge (deterministic based on timestamp + actor)
    assert_eq!(doc_a.get("X"), doc_b.get("X"));
}

#[test]
fn element_type_strategies() {
    assert_eq!(ElementType::Property.merge_strategy(), MergeStrategy::Lww);
    assert_eq!(ElementType::Range.merge_strategy(), MergeStrategy::PerFieldLww);
    assert_eq!(
        ElementType::SubmodelElementCollection.merge_strategy(),
        MergeStrategy::OrMap
    );
    assert_eq!(ElementType::Blob.merge_strategy(), MergeStrategy::ContentAddressed);
}

#[test]
fn canonical_path_roundtrip() {
    let path = CanonicalPath::from_segments(vec![
        PathSegment::new("TechnicalData"),
        PathSegment::new("MaxTemperature"),
    ]);

    assert_eq!(path.to_id_short_path(), "TechnicalData.MaxTemperature");

    let parsed = CanonicalPath::from_id_short_path("TechnicalData.MaxTemperature");
    assert_eq!(path, parsed);
}

#[test]
fn canonical_path_with_list_element() {
    let path = CanonicalPath::from_segments(vec![
        PathSegment::new("Components"),
        PathSegment::list_element("Items", "item-uuid-123"),
    ]);

    assert_eq!(path.to_id_short_path(), "Components.Items[item-uuid-123]");

    let parsed = CanonicalPath::from_id_short_path("Components.Items[item-uuid-123]");
    assert_eq!(path, parsed);
}

#[test]
fn empty_path_is_root() {
    let root = CanonicalPath::root();
    assert_eq!(root.to_id_short_path(), "");
    assert_eq!(CanonicalPath::from_id_short_path(""), root);
}

#[test]
fn topic_hash_is_sixteen_lowercase_hex() {
    let id = DocId::value_view("urn:example:aas:1", "urn:example:sm:data");
    let h = id.topic_hash();
    assert_eq!(h.len(), 16);
    assert!(h.chars().all(|c| c.is_ascii_hexdigit() && !c.is_ascii_uppercase()));
    // deterministic
    assert_eq!(h, id.topic_hash());
    // and a function of the canonical string
    assert_eq!(h, aas_deltasync::hash_doc_id(&id.to_string()));
}
