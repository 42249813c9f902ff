use aiff2mp3::tag::{parse_metadata, Mp3Tag};

#[test]
fn parse_duplicate_key_last_wins() {
    let tag = parse_metadata("artist: A\nartist: B\n");
    assert_eq!(tag.artist, Some("B".to_string()));
    assert_eq!(tag.album, None);
    assert_eq!(tag.year, None);
}

#[test]
fn parse_malformed_line_skipped() {
    let tag = parse_metadata("notakeyvalue\nalbum: X\n");
    assert_eq!(tag.album, Some("X".to_string()));
    assert_eq!(tag.artist, None);
    assert_eq!(tag.year, None);
}

#[test]
fn parse_unknown_key_ignored() {
    let tag = parse_metadata("composer: Z\nyear: 1999\n");
    assert_eq!(tag.year, Some("1999".to_string()));
    assert_eq!(tag.artist, None);
    assert_eq!(tag.album, None);
}

#[test]
fn parse_trims_surrounding_whitespace() {
    let tag = parse_metadata("  album  :  Spaces Inside  \n");
    assert_eq!(tag.album, Some("Spaces Inside".to_string()));
}

#[test]
fn parse_value_may_contain_colon() {
    let tag = parse_metadata("artist: A: B\n");
    assert_eq!(tag.artist, Some("A: B".to_string()));
}

#[test]
fn parse_empty_text_yields_empty_tag() {
    let tag = parse_metadata("");
    assert_eq!(tag.artist, None);
    assert_eq!(tag.album, None);
    assert_eq!(tag.year, None);
}

#[test]
fn parse_without_trailing_newline() {
    let tag = parse_metadata("year: 2001");
    assert_eq!(tag.year, Some("2001".to_string()));
}

#[test]
fn serialize_present_fields_in_fixed_order() {
    let tag = Mp3Tag {
        artist: Some("A".to_string()),
        album: Some("B".to_string()),
        year: Some("2020".to_string()),
    };
    assert_eq!(tag.to_string(), "artist: A\nalbum: B\nyear: 2020\n");
}

#[test]
fn serialize_skips_absent_fields() {
    let tag = Mp3Tag { artist: None, album: Some("B".to_string()), year: None };
    assert_eq!(tag.to_string(), "album: B\n");
}

#[test]
fn serialize_keeps_line_for_empty_value() {
    let tag = Mp3Tag { artist: Some(String::new()), album: None, year: None };
    assert_eq!(tag.to_string(), "artist: \n");
}

#[test]
fn round_trip_partial_tag() {
    let tag = Mp3Tag { artist: Some("The Band".to_string()), album: None, year: Some("1999".to_string()) };
    let back = parse_metadata(&tag.to_string());
    assert_eq!(back.artist, tag.artist);
    assert_eq!(back.album, tag.album);
    assert_eq!(back.year, tag.year);
}

#[test]
fn round_trip_full_tag() {
    let tag = Mp3Tag {
        artist: Some("A".to_string()),
        album: Some("Album: Live".to_string()),
        year: Some("2024".to_string()),
    };
    let back = parse_metadata(&tag.to_string());
    assert_eq!(back.artist, tag.artist);
    assert_eq!(back.album, tag.album);
    assert_eq!(back.year, tag.year);
}

#[test]
fn from_path_takes_final_segment_as_album() {
    let tag = Mp3Tag::from_path("/music/Album");
    assert_eq!(tag.album, Some("Album".to_string()));
    assert_eq!(tag.artist, None);
    assert_eq!(tag.year, None);
}

#[test]
fn from_path_ignores_trailing_separator() {
    let tag = Mp3Tag::from_path("music/Album/");
    assert_eq!(tag.album, Some("Album".to_string()));
}

#[test]
fn from_path_plain_name() {
    let tag = Mp3Tag::from_path("Album");
    assert_eq!(tag.album, Some("Album".to_string()));
}
