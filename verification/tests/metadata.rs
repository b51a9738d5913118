//! Metadata and attributes.

use object_store::path::Path;
use object_store::{Attribute, Attributes};
use shardedobjstr::metadata::{attributes_to_meta, meta_sidecar_path, meta_to_attributes};
use shardedobjstr::string_map::StringMap;
use std::borrow::Cow;

#[test]
fn meta_to_attributes_known_fields() {
    let mut meta = StringMap::new();
    meta.insert("content-type".to_string(), "application/json".to_string());
    meta.insert("cache-control".to_string(), "max-age=3600".to_string());
    meta.insert("content-disposition".to_string(), "inline".to_string());
    meta.insert("content-encoding".to_string(), "gzip".to_string());
    meta.insert("content-language".to_string(), "en".to_string());

    let attrs = meta_to_attributes(&meta);

    assert_eq!(
        attrs.get(&Attribute::ContentType).map(|v| v.as_ref()),
        Some("application/json"),
    );
    assert_eq!(
        attrs.get(&Attribute::CacheControl).map(|v| v.as_ref()),
        Some("max-age=3600"),
    );
    assert_eq!(
        attrs.get(&Attribute::ContentDisposition).map(|v| v.as_ref()),
        Some("inline"),
    );
    assert_eq!(
        attrs.get(&Attribute::ContentEncoding).map(|v| v.as_ref()),
        Some("gzip"),
    );
    assert_eq!(
        attrs.get(&Attribute::ContentLanguage).map(|v| v.as_ref()),
        Some("en"),
    );
}

#[test]
fn meta_to_attributes_custom_amz_meta() {
    let mut meta = StringMap::new();
    meta.insert("x-amz-meta-color".to_string(), "blue".to_string());
    meta.insert("x-amz-meta-version".to_string(), "42".to_string());

    let attrs = meta_to_attributes(&meta);

    assert_eq!(
        attrs.get(&Attribute::Metadata(Cow::Borrowed("color"))).map(|v| v.as_ref()),
        Some("blue"),
    );
    assert_eq!(
        attrs.get(&Attribute::Metadata(Cow::Borrowed("version"))).map(|v| v.as_ref()),
        Some("42"),
    );
}

#[test]
fn meta_to_attributes_drops_unrecognized_keys() {
    let mut meta = StringMap::new();
    meta.insert("x-custom-header".to_string(), "value".to_string());
    meta.insert("content-type".to_string(), "text/plain".to_string());

    let attrs = meta_to_attributes(&meta);

    // Only content-type should survive; x-custom-header is dropped.
    assert_eq!(
        attrs.get(&Attribute::ContentType).map(|v| v.as_ref()),
        Some("text/plain"),
    );
    // Count attributes: should be exactly 1
    assert_eq!(attrs.iter().count(), 1);
}

#[test]
fn attributes_to_meta_known_fields() {
    let mut attrs = Attributes::new();
    attrs.insert(Attribute::ContentType, "text/html".into());
    attrs.insert(Attribute::CacheControl, "no-cache".into());
    attrs.insert(Attribute::ContentDisposition, "attachment".into());
    attrs.insert(Attribute::ContentEncoding, "br".into());
    attrs.insert(Attribute::ContentLanguage, "fr".into());

    let meta = attributes_to_meta(&attrs);

    assert_eq!(meta.get("content-type").map(|s| s.as_str()), Some("text/html"));
    assert_eq!(meta.get("cache-control").map(|s| s.as_str()), Some("no-cache"));
    assert_eq!(meta.get("content-disposition").map(|s| s.as_str()), Some("attachment"));
    assert_eq!(meta.get("content-encoding").map(|s| s.as_str()), Some("br"));
    assert_eq!(meta.get("content-language").map(|s| s.as_str()), Some("fr"));
    assert_eq!(meta.len(), 5);
}

#[test]
fn attributes_to_meta_custom_metadata() {
    let mut attrs = Attributes::new();
    attrs.insert(Attribute::Metadata(Cow::Owned("color".to_string())), "red".into());
    attrs.insert(Attribute::Metadata(Cow::Owned("size".to_string())), "large".into());

    let meta = attributes_to_meta(&attrs);

    assert_eq!(meta.get("x-amz-meta-color").map(|s| s.as_str()), Some("red"));
    assert_eq!(meta.get("x-amz-meta-size").map(|s| s.as_str()), Some("large"));
    assert_eq!(meta.len(), 2);
}

#[test]
fn roundtrip_meta_to_attributes_to_meta() {
    let mut original = StringMap::new();
    original.insert("content-type".to_string(), "image/png".to_string());
    original.insert("x-amz-meta-author".to_string(), "alice".to_string());

    let attrs = meta_to_attributes(&original);
    let roundtripped = attributes_to_meta(&attrs);

    assert_eq!(original.len(), roundtripped.len());
    for i in 0..original.len() {
        assert_eq!(original.key_at(i), roundtripped.key_at(i));
        assert_eq!(original.value_at(i), roundtripped.value_at(i));
    }
}

#[test]
fn empty_meta_to_attributes() {
    let meta: StringMap<String> = StringMap::new();
    let attrs = meta_to_attributes(&meta);
    assert_eq!(attrs.iter().count(), 0);
}

#[test]
fn empty_attributes_to_meta() {
    let attrs = Attributes::new();
    let meta = attributes_to_meta(&attrs);
    assert!(meta.is_empty());
}

#[test]
fn meta_sidecar_path_format() {
    let loc = Path::from("data/file.db");
    let sidecar = meta_sidecar_path(loc.as_ref());
    assert_eq!(sidecar, "data/file.db.__meta__");
}
