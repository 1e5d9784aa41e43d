use base64::engine::general_purpose::STANDARD as BASE64;
use base64::Engine;
use diffstory::codec::extract_from_text;
use diffstory::codec::wrap;
use diffstory::codec::CodecError;
use flate2::write::GzEncoder;
use flate2::Compression;
use std::io::Write;

/// A narrative serialized, compressed and base64-encoded by hand, as the
/// encoding layer would produce it.
fn sample_encoded() -> String {
    let json = "{\"description\":\"Test story\",\"chapters\":[{\"title\":\"Chapter 1\",\
                \"hunks\":[{\"file\":\"src/main.rs\",\"hunk_index\":0,\
                \"note\":\"First change\"}]}]}";
    let mut encoder = GzEncoder::new(Vec::new(), Compression::default());
    encoder.write_all(json.as_bytes()).unwrap();
    let compressed = encoder.finish().unwrap();
    BASE64.encode(compressed)
}

#[test]
fn test_wrap_and_extract() {
    let encoded = sample_encoded();
    let wrapped = wrap(&encoded);
    let extracted = extract_from_text(&wrapped).unwrap();
    assert_eq!(encoded, extracted);
}

#[test]
fn test_wrap_format() {
    let wrapped = wrap("DATA");
    assert_eq!(
        wrapped,
        "<details><summary>diffstory</summary>\n\n<!--diffstory:DATA-->\n\n</details>"
    );
}

#[test]
fn test_extract_from_surrounding_text() {
    let body = "Intro text.\n<!--diffstory:abc123-->\nOutro.";
    assert_eq!(extract_from_text(body).unwrap(), "abc123");
}

#[test]
fn test_extract_missing_marker() {
    match extract_from_text("no markers here") {
        Err(CodecError::MarkerNotFound) => {}
        _ => panic!("expected MarkerNotFound"),
    }
    match extract_from_text("<!--diffstory:unterminated") {
        Err(CodecError::MarkerNotFound) => {}
        _ => panic!("expected MarkerNotFound"),
    }
}
