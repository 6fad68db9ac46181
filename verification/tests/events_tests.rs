use aas_deltasync::{encode_id_base64url, BasyxEvent, EventParseError, EventType, JsonValue};

#[test]
fn parse_element_updated_event() {
    let submodel_id = "urn:example:sm:data";
    let encoded_sm_id = encode_id_base64url(submodel_id);

    let topic = format!(
        "sm-repository/repo1/submodels/{encoded_sm_id}/submodelElements/Temperature/updated"
    );

    let payload = br#"{"value": 25.5}"#;

    let event = BasyxEvent::parse(&topic, payload).unwrap();

    assert_eq!(event.repo_id, "repo1");
    assert_eq!(event.submodel_id, submodel_id);
    assert_eq!(event.event_type, EventType::Updated);

    let element = event.element.unwrap();
    assert_eq!(element.id_short_path, "Temperature");
    assert_eq!(element.value, Some(JsonValue::Num("25.5".to_string())));
}

#[test]
fn parse_element_deleted_event() {
    let submodel_id = "urn:example:sm:data";
    let encoded_sm_id = encode_id_base64url(submodel_id);

    let topic = format!(
        "sm-repository/repo1/submodels/{encoded_sm_id}/submodelElements/OldProperty/deleted"
    );

    let event = BasyxEvent::parse(&topic, b"").unwrap();

    assert_eq!(event.event_type, EventType::Deleted);
    let element = event.element.unwrap();
    assert_eq!(element.id_short_path, "OldProperty");
    assert!(element.value.is_none());
}

#[test]
fn parse_nested_path() {
    let submodel_id = "urn:example:sm:nested";
    let encoded_sm_id = encode_id_base64url(submodel_id);

    let topic = format!(
        "sm-repository/repo2/submodels/{encoded_sm_id}/submodelElements/Collection/SubProperty/updated"
    );

    let event = BasyxEvent::parse(&topic, b"{}").unwrap();

    let element = event.element.unwrap();
    assert_eq!(element.id_short_path, "Collection/SubProperty");
}

#[test]
fn parse_rejects_foreign_topic() {
    let r = BasyxEvent::parse("other/repo1/things/x/updated", b"{}");
    assert!(matches!(r, Err(EventParseError::InvalidTopic(_))));
}

#[test]
fn parse_rejects_unknown_kind() {
    let submodel_id = "urn:example:sm:data";
    let encoded_sm_id = encode_id_base64url(submodel_id);
    let topic =
        format!("sm-repository/repo1/submodels/{encoded_sm_id}/submodelElements/X/renamed");
    let r = BasyxEvent::parse(&topic, b"{}");
    assert!(matches!(r, Err(EventParseError::UnknownEventType(_))));
}

#[test]
fn parse_rejects_bad_payload() {
    let submodel_id = "urn:example:sm:data";
    let encoded_sm_id = encode_id_base64url(submodel_id);
    let topic =
        format!("sm-repository/repo1/submodels/{encoded_sm_id}/submodelElements/X/updated");
    let r = BasyxEvent::parse(&topic, b"{not json");
    assert!(matches!(r, Err(EventParseError::PayloadParse(_))));
}

#[test]
fn parse_rejects_bad_submodel_encoding() {
    let topic = "sm-repository/repo1/submodels/!!!/submodelElements/X/updated";
    let r = BasyxEvent::parse(topic, b"{}");
    assert!(matches!(r, Err(EventParseError::DecodeError(_))));
}

#[test]
fn scalar_payload_is_the_value() {
    let submodel_id = "urn:example:sm:data";
    let encoded_sm_id = encode_id_base64url(submodel_id);
    let topic =
        format!("sm-repository/repo1/submodels/{encoded_sm_id}/submodelElements/Speed/created");
    let event = BasyxEvent::parse(&topic, b"42").unwrap();
    let element = event.element.unwrap();
    assert_eq!(element.value, Some(JsonValue::Num("42".to_string())));
}

#[test]
fn from_topic_suffix_names_all_kinds() {
    assert_eq!(EventType::from_topic_suffix("created"), Some(EventType::Created));
    assert_eq!(EventType::from_topic_suffix("updated"), Some(EventType::Updated));
    assert_eq!(EventType::from_topic_suffix("deleted"), Some(EventType::Deleted));
    assert_eq!(EventType::from_topic_suffix("patched"), Some(EventType::Patched));
    assert_eq!(EventType::from_topic_suffix("renamed"), None);
}
