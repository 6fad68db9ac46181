use aas_deltasync::{decode_id_base64url, decode_idshort_path, encode_id_base64url, encode_idshort_path};

// Golden vectors from real-world identifiers

#[test]
fn base64url_basic() {
    let id = "urn:example:aas:asset1";
    let encoded = encode_id_base64url(id);
    let decoded = decode_id_base64url(&encoded).unwrap();
    assert_eq!(decoded, id);
}

#[test]
fn base64url_no_padding() {
    // Identifiers of various lengths should never have padding
    for id in [
        "a",
        "ab",
        "abc",
        "abcd",
        "https://example.org/aas/12345",
        "urn:zvei:de:ZVEI:IDTA:SubmodelTemplate:DigitalNameplate:1.0",
    ] {
        let encoded = encode_id_base64url(id);
        assert!(!encoded.contains('='), "Encoded '{}' should not contain padding: {}", id, encoded);
    }
}

#[test]
fn base64url_no_standard_chars() {
    // base64url must not contain + or /
    let id = "urn:example:with+plus/and/slashes";
    let encoded = encode_id_base64url(id);
    assert!(!encoded.contains('+'), "Should not contain +");
    assert!(!encoded.contains('/'), "Should not contain /");

    let decoded = decode_id_base64url(&encoded).unwrap();
    assert_eq!(decoded, id);
}

#[test]
fn base64url_unicode() {
    let id = "urn:example:aas:资产1";
    let encoded = encode_id_base64url(id);
    let decoded = decode_id_base64url(&encoded).unwrap();
    assert_eq!(decoded, id);
}

#[test]
fn idshort_path_simple() {
    let path = "TechnicalData.MaxTemperature";
    let encoded = encode_idshort_path(path);
    // Simple alphanumeric + dots should pass through unchanged
    assert_eq!(encoded, path);
}

#[test]
fn idshort_path_with_spaces() {
    let path = "Technical Data.Max Temperature";
    let encoded = encode_idshort_path(path);
    assert!(encoded.contains("%20"), "Spaces should be encoded");
    let decoded = decode_idshort_path(&encoded).unwrap();
    assert_eq!(decoded, path);
}

#[test]
fn idshort_path_with_brackets() {
    // List indices use square brackets, which should be preserved
    let path = "Components[0].SubComponents[1]";
    let encoded = encode_idshort_path(path);
    // Brackets should be preserved for list notation
    assert!(
        encoded.contains('[') && encoded.contains(']'),
        "Brackets should be preserved: {}",
        encoded
    );
}

#[test]
fn idshort_path_special_chars() {
    let path = "Path/With<Special>Chars";
    let encoded = encode_idshort_path(path);
    assert!(!encoded.contains('/'), "/ should be encoded");
    assert!(!encoded.contains('<'), "< should be encoded");
    assert!(!encoded.contains('>'), "> should be encoded");

    let decoded = decode_idshort_path(&encoded).unwrap();
    assert_eq!(decoded, path);
}

#[test]
fn golden_test_submodel_id() {
    // Encoding a typical submodel identifier
    let submodel_id = "https://admin-shell.io/zvei/nameplate/2/0/Nameplate";
    let encoded = encode_id_base64url(submodel_id);

    // Verify roundtrip
    let decoded = decode_id_base64url(&encoded).unwrap();
    assert_eq!(decoded, submodel_id);

    // Verify no forbidden characters
    assert!(!encoded.contains('='));
    assert!(!encoded.contains('+'));
    assert!(!encoded.contains('/'));
}

#[test]
fn golden_test_idshort_path_nested() {
    // Nested path with various segment types
    let path = "ContactInformation.Phone[Business].AreaCode";
    let encoded = encode_idshort_path(path);
    let decoded = decode_idshort_path(&encoded).unwrap();
    assert_eq!(decoded, path);
}

#[test]
fn idshort_path_unicode_roundtrip() {
    let path = "Geräte.Name";
    let encoded = encode_idshort_path(&path);
    assert!(encoded.contains('%'));
    let decoded = decode_idshort_path(&encoded).unwrap();
    assert_eq!(decoded, path);
}

#[test]
fn base64url_rejects_garbage() {
    assert!(decode_id_base64url("not base64!!!").is_err());
}

#[test]
fn base64url_decode_of_non_utf8_bytes_fails() {
    // "_w" is the url-safe encoding of the lone byte 0xff, which is not UTF-8
    let r = decode_id_base64url("_w");
    assert!(r.is_err());
}
