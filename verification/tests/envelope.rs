use base64::Engine;
use blueprint_render::blueprint::{decode_envelope, BlueprintEntry, BlueprintError};
use std::io::Write;

fn wrap(json: &str) -> Vec<u8> {
    let mut encoder =
        flate2::write::GzEncoder::new(Vec::new(), flate2::Compression::default());
    encoder.write_all(json.as_bytes()).unwrap();
    let compressed = encoder.finish().unwrap();
    let b64 = base64::prelude::BASE64_STANDARD.encode(&compressed);
    format!("SHAPEZ2-1-{}$", b64).into_bytes()
}

#[test]
fn envelope_round_trip() {
    let json = "{\"V\":1122,\"BP\":{\"Entries\":[]}}";
    let data = wrap(json);
    let out = decode_envelope(&data).unwrap();
    assert_eq!(out, json.as_bytes());
}

#[test]
fn envelope_trims_whitespace() {
    let json = "{\"V\":1}";
    let mut data = b"  \n\t".to_vec();
    data.extend_from_slice(&wrap(json));
    data.extend_from_slice(b" \r\n ");
    let out = decode_envelope(&data).unwrap();
    assert_eq!(out, json.as_bytes());
}

#[test]
fn envelope_missing_prefix() {
    let data = b"XHAPEZ2-1-abcd$".to_vec();
    assert_eq!(decode_envelope(&data), Err(BlueprintError::MissingPrefix));
    let short = b"SHA".to_vec();
    assert_eq!(decode_envelope(&short), Err(BlueprintError::MissingPrefix));
}

#[test]
fn envelope_missing_suffix() {
    let data = b"SHAPEZ2-1-abcd".to_vec();
    assert_eq!(decode_envelope(&data), Err(BlueprintError::MissingSuffix));
    // The prefix alone has nowhere to carry the terminator.
    let bare = b"SHAPEZ2-1-".to_vec();
    assert_eq!(decode_envelope(&bare), Err(BlueprintError::MissingSuffix));
}

#[test]
fn envelope_rejects_bad_base64() {
    let data = b"SHAPEZ2-1-%%%%$".to_vec();
    assert_eq!(decode_envelope(&data), Err(BlueprintError::Corrupt));
}

#[test]
fn envelope_rejects_non_gzip_payload() {
    // Valid base64 whose decoded bytes are not a gzip stream.
    let b64 = base64::prelude::BASE64_STANDARD.encode(b"not gzip at all");
    let data = format!("SHAPEZ2-1-{}$", b64).into_bytes();
    assert_eq!(decode_envelope(&data), Err(BlueprintError::Corrupt));
}

#[test]
fn entry_accessors() {
    let e = BlueprintEntry::new(3, -4, 2, 1, "BeltDefaultForwardInternalVariant".to_string(), String::new());
    // The layer maps to the vertical (middle) axis of the position.
    assert_eq!(e.position(), (3, 2, -4));
    assert_eq!(e.rotation_quarter_turns(), 1);
    assert_eq!(e.internal_name(), "BeltDefaultForwardInternalVariant");
}
