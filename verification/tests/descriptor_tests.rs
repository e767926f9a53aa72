//! Tests for the descriptor wire format.

use esta_kernel::descriptor::{parse_manifest, serialize_manifest};
use esta_kernel::runtime::ModuleManifest;

#[test]
fn descriptor_round_trip() {
    // Parsing a valid descriptor and serializing it again yields the same
    // text, so the fields are preserved exactly.
    let manifest = ModuleManifest {
        name: "m1".to_string(),
        path: "modules/m1.wasm".to_string(),
        checksum: "ab".repeat(32),
        capabilities: vec!["log".to_string(), "audit_emit".to_string()],
        signature: None,
    };
    let text = serialize_manifest(&manifest);
    let parsed = parse_manifest(&text).expect("canonical text parses");
    assert_eq!(parsed.name, manifest.name);
    assert_eq!(parsed.path, manifest.path);
    assert_eq!(parsed.checksum, manifest.checksum);
    assert_eq!(parsed.capabilities, manifest.capabilities);
    assert_eq!(parsed.signature, manifest.signature);
    let text2 = serialize_manifest(&parsed);
    assert_eq!(text, text2);
}

#[test]
fn descriptor_round_trip_with_signature_and_escapes() {
    let manifest = ModuleManifest {
        name: "m \"quoted\"\\weird\u{1}".to_string(),
        path: "p".to_string(),
        checksum: "00".repeat(32),
        capabilities: vec![],
        signature: Some("cd".repeat(64)),
    };
    let text = serialize_manifest(&manifest);
    let parsed = parse_manifest(&text).expect("canonical text parses");
    assert_eq!(parsed.name, manifest.name);
    assert_eq!(parsed.signature, manifest.signature);
    let text2 = serialize_manifest(&parsed);
    assert_eq!(text, text2);
}

#[test]
fn canonical_text_shape() {
    let manifest = ModuleManifest {
        name: "m1".to_string(),
        path: "p".to_string(),
        checksum: "aa".to_string(),
        capabilities: vec!["log".to_string()],
        signature: None,
    };
    let text = serialize_manifest(&manifest);
    let as_str = String::from_utf8(text.clone()).unwrap();
    assert_eq!(
        as_str,
        r#"{"name":"m1","path":"p","checksum":"aa","capabilities":["log"]}"#
    );
    assert!(parse_manifest(&text).is_some());
}

#[test]
fn malformed_descriptor_rejected() {
    assert!(parse_manifest(&b"".to_vec()).is_none());
    assert!(parse_manifest(&b"{}".to_vec()).is_none());
    assert!(parse_manifest(&b"{\"name\":\"m1\"}".to_vec()).is_none());
    let mut good = serialize_manifest(&ModuleManifest {
        name: "m".to_string(),
        path: "p".to_string(),
        checksum: "c".to_string(),
        capabilities: vec![],
        signature: None,
    });
    assert!(parse_manifest(&good).is_some());
    good.push(b' ');
    assert!(parse_manifest(&good).is_some(), "trailing whitespace is insignificant");
    good.push(b'x');
    assert!(parse_manifest(&good).is_none(), "trailing content is rejected");
}

#[test]
fn pretty_printed_descriptor_parses() {
    // A hand-authored, pretty-printed descriptor with whitespace between
    // tokens and a null signature loads like the canonical text.
    let text = "{\n  \"name\": \"m one\",\n  \"path\": \"modules/m1.wasm\",\n  \"checksum\": \"abcd\",\n  \"capabilities\": [ \"log\", \"audit_emit\" ],\n  \"signature\": null\n}\n";
    let parsed = parse_manifest(&text.as_bytes().to_vec()).expect("lenient text parses");
    assert_eq!(parsed.name, "m one");
    assert_eq!(parsed.path, "modules/m1.wasm");
    assert_eq!(parsed.checksum, "abcd");
    assert_eq!(parsed.capabilities, vec!["log".to_string(), "audit_emit".to_string()]);
    assert_eq!(parsed.signature, None);

    // Whitespace inside quoted values is significant and preserved.
    assert_eq!(serialize_manifest(&parsed), serialize_manifest(&ModuleManifest {
        name: "m one".to_string(),
        path: "modules/m1.wasm".to_string(),
        checksum: "abcd".to_string(),
        capabilities: vec!["log".to_string(), "audit_emit".to_string()],
        signature: None,
    }));
}

#[test]
fn pretty_printed_signed_descriptor_parses() {
    let text = "{ \"name\" : \"m1\", \"path\" : \"p\", \"checksum\" : \"aa\",\n  \"capabilities\" : [],\n  \"signature\" : \"bb\" }";
    let parsed = parse_manifest(&text.as_bytes().to_vec()).expect("lenient text parses");
    assert_eq!(parsed.signature, Some("bb".to_string()));
}
