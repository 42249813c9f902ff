use aiff2mp3::encode::{encode_track, output_path, tag_fields, PipelineError};
use aiff2mp3::normalize::{normalize, DecodedSample};
use aiff2mp3::tag::Mp3Tag;

#[test]
fn normalize_handles_every_encoding() {
    let samples = vec![
        DecodedSample::U8(200),
        DecodedSample::I8(-1),
        DecodedSample::I16(-2),
        DecodedSample::I24(70000),
        DecodedSample::I32(-1),
        DecodedSample::F32Cast(123),
        DecodedSample::F64Cast(7),
    ];
    let out = normalize(&samples);
    assert_eq!(out.len(), samples.len());
    assert_eq!(out, vec![200u16, 65535, 65534, 4464, 65535, 123, 7]);
}

#[test]
fn normalize_keeps_length_for_each_single_encoding() {
    let cases = vec![
        DecodedSample::U8(1),
        DecodedSample::I8(2),
        DecodedSample::I16(3),
        DecodedSample::I24(4),
        DecodedSample::I32(5),
        DecodedSample::F32Cast(6),
        DecodedSample::F64Cast(7),
    ];
    for s in cases {
        let input = vec![s; 13];
        assert_eq!(normalize(&input).len(), 13);
    }
}

#[test]
fn normalize_empty_input() {
    let out = normalize(&Vec::new());
    assert!(out.is_empty());
}

#[test]
fn output_path_is_stem_preserving() {
    assert_eq!(output_path("R/Album/track.aiff"), "R/Album/aiff2mp3/track.mp3");
}

#[test]
fn output_path_cuts_at_first_dot() {
    assert_eq!(output_path("a/b.tar.aiff"), "a/aiff2mp3/b.mp3");
}

#[test]
fn tag_fields_default_to_empty() {
    let (artist, album, year) = tag_fields(&None);
    assert_eq!(artist, "");
    assert_eq!(album, "");
    assert_eq!(year, "");
}

#[test]
fn tag_fields_take_present_values() {
    let tag = Mp3Tag { artist: None, album: Some("Album".to_string()), year: None };
    let (artist, album, year) = tag_fields(&Some(tag));
    assert_eq!(artist, "");
    assert_eq!(album, "Album");
    assert_eq!(year, "");
}

fn contains(haystack: &[u8], needle: &[u8]) -> bool {
    haystack.windows(needle.len()).any(|w| w == needle)
}

#[test]
fn encode_track_embeds_title_and_album() {
    let tag = Mp3Tag { artist: None, album: Some("Album".to_string()), year: None };
    let samples: Vec<u16> = vec![0u16; 44_100 * 2];
    let result = encode_track("R/Album/track.aiff", &Some(tag), &samples);
    let (path, bytes) = result.expect("encoding should succeed");
    assert_eq!(path, "R/Album/aiff2mp3/track.mp3");
    assert!(!bytes.is_empty());
    // The ID3v2 header at the start of the stream carries the literal field bytes.
    assert!(contains(&bytes, b"track.aiff"));
    assert!(contains(&bytes, b"Album"));
}

#[test]
fn encode_track_drops_odd_trailing_sample() {
    let samples: Vec<u16> = vec![0u16; 44_100 + 1];
    let result = encode_track("R/Album/odd.aiff", &None, &samples);
    let (path, bytes) = result.expect("encoding should succeed");
    assert_eq!(path, "R/Album/aiff2mp3/odd.mp3");
    assert!(!bytes.is_empty());
}

#[test]
fn encode_track_empty_input_still_finalizes() {
    let samples: Vec<u16> = Vec::new();
    let result = encode_track("R/Album/silence.aiff", &None, &samples);
    let (path, bytes) = result.expect("encoding should succeed");
    assert_eq!(path, "R/Album/aiff2mp3/silence.mp3");
    assert!(!bytes.is_empty());
}

#[test]
fn pipeline_error_kinds_are_distinct() {
    assert_ne!(PipelineError::EncoderSetup, PipelineError::EncodeFailed);
    assert_ne!(PipelineError::EncodeFailed, PipelineError::FlushFailed);
}
