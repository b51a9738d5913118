//! The encoding of metadata.

use shardedobjstr::string_map::StringMap;
use shardedobjstr::tlv::{
    decode_metadata, encode_metadata, field_name_to_tag, tag_to_field_name, value_from_lookup,
    value_lookup, MAX_FIELD_LEN, TAG_CACHE_CONTROL, TAG_CONTENT_DISPOSITION, TAG_CONTENT_ENCODING,
    TAG_CONTENT_TYPE, TAG_CUSTOM, TAG_ETAG,
};

#[test]
fn encode_decode_roundtrip_known_fields() {
    let mut meta = StringMap::new();
    meta.insert("content-type".to_string(), "application/json".to_string());
    meta.insert("cache-control".to_string(), "no-cache".to_string());
    meta.insert("content-encoding".to_string(), "gzip".to_string());

    let encoded = encode_metadata(&meta).unwrap();
    let decoded = decode_metadata(&encoded);

    assert_eq!(decoded.len(), 3);
    assert_eq!(decoded.get("content-type").unwrap(), "application/json");
    assert_eq!(decoded.get("cache-control").unwrap(), "no-cache");
    assert_eq!(decoded.get("content-encoding").unwrap(), "gzip");
}

#[test]
fn encode_decode_roundtrip_custom_meta() {
    let mut meta = StringMap::new();
    meta.insert("x-amz-meta-foo".to_string(), "bar".to_string());
    meta.insert("x-amz-meta-baz".to_string(), "qux".to_string());

    let encoded = encode_metadata(&meta).unwrap();
    let decoded = decode_metadata(&encoded);

    assert_eq!(decoded.len(), 2);
    assert_eq!(decoded.get("x-amz-meta-foo").unwrap(), "bar");
    assert_eq!(decoded.get("x-amz-meta-baz").unwrap(), "qux");
}

#[test]
fn encode_decode_mixed_known_and_custom() {
    let mut meta = StringMap::new();
    meta.insert("content-type".to_string(), "text/plain".to_string());
    meta.insert("x-amz-meta-author".to_string(), "alice".to_string());
    meta.insert("cache-control".to_string(), "max-age=3600".to_string());
    meta.insert("x-amz-meta-version".to_string(), "42".to_string());

    let encoded = encode_metadata(&meta).unwrap();
    let decoded = decode_metadata(&encoded);

    assert_eq!(decoded.len(), 4);
    assert_eq!(decoded.get("content-type").unwrap(), "text/plain");
    assert_eq!(decoded.get("x-amz-meta-author").unwrap(), "alice");
    assert_eq!(decoded.get("cache-control").unwrap(), "max-age=3600");
    assert_eq!(decoded.get("x-amz-meta-version").unwrap(), "42");
}

#[test]
fn encode_metadata_too_large() {
    let mut meta = StringMap::new();
    // Create a value that exceeds 65535 bytes
    let huge_value: String = "x".repeat(70_000);
    meta.insert("content-type".to_string(), huge_value);

    let result = encode_metadata(&meta);
    assert!(result.is_err(), "should reject oversized field");
    let err = result.unwrap_err();
    assert_eq!(err.field, "content-type");
    assert_eq!(err.len, 70_000);
    assert_eq!(err.max, MAX_FIELD_LEN);
}

#[test]
fn encode_metadata_too_large_custom_key() {
    let mut meta = StringMap::new();
    let huge_suffix: String = "k".repeat(70_000);
    meta.insert(format!("x-amz-meta-{huge_suffix}"), "val".to_string());

    let result = encode_metadata(&meta);
    assert!(result.is_err(), "should reject oversized custom key suffix");
}

#[test]
fn decode_graceful_on_truncated() {
    // Empty input
    let decoded = decode_metadata(&[]);
    assert!(decoded.is_empty());

    // Single tag byte with no descriptor
    let decoded = decode_metadata(&[TAG_CONTENT_TYPE]);
    assert!(decoded.is_empty());

    // Tag + raw-value length but missing value bytes
    let decoded = decode_metadata(&[TAG_CONTENT_TYPE, 0x05, 0x00]);
    assert!(decoded.is_empty(), "should not panic on truncated value");

    // Custom tag with truncated suffix length
    let decoded = decode_metadata(&[TAG_CUSTOM, 0x03]);
    assert!(decoded.is_empty());

    // Valid entry followed by garbage
    let mut meta = StringMap::new();
    meta.insert("content-type".to_string(), "text/plain".to_string());
    let mut encoded = encode_metadata(&meta).unwrap();
    encoded.push(TAG_CUSTOM); // truncated custom entry at end
    let decoded = decode_metadata(&encoded);
    assert_eq!(decoded.len(), 1, "should decode the valid entry and skip truncated");
    assert_eq!(decoded.get("content-type").unwrap(), "text/plain");
}

#[test]
fn value_lookup_and_reverse() {
    // content-type: "application/json" is in the lookup table at index 5
    let idx = value_lookup(TAG_CONTENT_TYPE, "application/json");
    assert_eq!(idx, Some(5));

    let reversed = value_from_lookup(TAG_CONTENT_TYPE, 5);
    assert_eq!(reversed, Some("application/json"));

    // cache-control: "no-cache" is at index 0
    let idx = value_lookup(TAG_CACHE_CONTROL, "no-cache");
    assert_eq!(idx, Some(0));

    let reversed = value_from_lookup(TAG_CACHE_CONTROL, 0);
    assert_eq!(reversed, Some("no-cache"));

    // content-encoding: "gzip" is at index 0
    let idx = value_lookup(TAG_CONTENT_ENCODING, "gzip");
    assert_eq!(idx, Some(0));

    // Unknown value should return None
    let idx = value_lookup(TAG_CONTENT_TYPE, "application/x-custom-unknown");
    assert_eq!(idx, None);

    // Unknown tag should return None
    let idx = value_lookup(TAG_ETAG, "some-etag-value");
    assert_eq!(idx, None);

    // Out-of-range index should return None
    let val = value_from_lookup(TAG_CONTENT_TYPE, 200);
    assert_eq!(val, None);
}

#[test]
fn known_field_raw_encoding_for_unlisted_value() {
    // Use a content-type NOT in the lookup table
    let mut meta = StringMap::new();
    meta.insert(
        "content-type".to_string(),
        "application/x-custom-unknown".to_string(),
    );

    let encoded = encode_metadata(&meta).unwrap();
    let decoded = decode_metadata(&encoded);

    assert_eq!(decoded.get("content-type").unwrap(), "application/x-custom-unknown");
}

#[test]
fn field_name_tag_mapping() {
    assert_eq!(field_name_to_tag("content-type"), Some(TAG_CONTENT_TYPE));
    assert_eq!(field_name_to_tag("cache-control"), Some(TAG_CACHE_CONTROL));
    assert_eq!(field_name_to_tag("content-disposition"), Some(TAG_CONTENT_DISPOSITION));
    assert_eq!(field_name_to_tag("etag"), Some(TAG_ETAG));
    assert_eq!(field_name_to_tag("unknown-header"), None);

    assert_eq!(tag_to_field_name(TAG_CONTENT_TYPE), Some("content-type"));
    assert_eq!(tag_to_field_name(TAG_ETAG), Some("etag"));
    assert_eq!(tag_to_field_name(99), None);
}

#[test]
fn raw_value_length_ge_128_roundtrips() {
    // Regression: values whose u16 LE length has low byte >= 128
    // were previously misinterpreted as lookup hits because the
    // LOOKUP_BIT was checked on the descriptor byte (which was
    // actually the length low byte).
    let long_val: String = "x".repeat(200); // length 200 > 128
    let mut meta = StringMap::new();
    meta.insert("content-type".to_string(), long_val.clone());

    let encoded = encode_metadata(&meta).unwrap();
    let decoded = decode_metadata(&encoded);
    assert_eq!(decoded.get("content-type").unwrap(), &long_val);

    // Also test a tag without a lookup table (content-disposition)
    let mut meta2 = StringMap::new();
    meta2.insert("content-disposition".to_string(), "x".repeat(130));
    meta2.insert("etag".to_string(), "y".repeat(400)); // length 400, low byte 0x90
    let encoded2 = encode_metadata(&meta2).unwrap();
    let decoded2 = decode_metadata(&encoded2);
    assert_eq!(decoded2.get("content-disposition").unwrap().len(), 130);
    assert_eq!(decoded2.get("etag").unwrap().len(), 400);
}

#[test]
fn encode_metadata_deterministic() {
    // Regression: HashMap iteration order is non-deterministic.
    // encode_metadata must sort keys so identical metadata always
    // produces identical bytes (required for CRC stability).
    let mut meta = StringMap::new();
    meta.insert("content-type".to_string(), "text/plain".to_string());
    meta.insert("cache-control".to_string(), "no-cache".to_string());
    meta.insert("x-amz-meta-foo".to_string(), "bar".to_string());
    meta.insert("x-amz-meta-zzz".to_string(), "last".to_string());
    meta.insert("content-encoding".to_string(), "identity".to_string());

    let first = encode_metadata(&meta).unwrap();
    for _ in 0..20 {
        let again = encode_metadata(&meta).unwrap();
        assert_eq!(first, again, "encode_metadata must be deterministic");
    }
}
