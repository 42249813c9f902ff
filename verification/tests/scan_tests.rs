use aiff2mp3::scan::{scaffold, scan, DirTree, FsEntry};

fn file(name: &str) -> FsEntry {
    FsEntry::File { name: name.to_string(), content: String::new() }
}

fn file_with(name: &str, content: &str) -> FsEntry {
    FsEntry::File { name: name.to_string(), content: content.to_string() }
}

fn dir(name: &str, entries: Vec<FsEntry>) -> DirTree {
    DirTree { name: name.to_string(), entries }
}

#[test]
fn scan_finds_folder_with_direct_audio() {
    let tree = dir("R", vec![FsEntry::Dir(dir("Album", vec![file("track.aiff")]))]);
    let found = scan(&tree, "R");
    assert_eq!(found.len(), 1);
    assert_eq!(found[0].name, "Album");
    assert_eq!(found[0].path, "R/Album");
    assert_eq!(found[0].files, vec!["R/Album/track.aiff".to_string()]);
    assert!(found[0].tag.is_none());
}

#[test]
fn scan_skips_folder_without_aiff_files() {
    let tree = dir("R", vec![file("readme.txt"), file("cover.png")]);
    let found = scan(&tree, "R");
    assert!(found.is_empty());
}

#[test]
fn scan_excludes_parent_with_only_descendant_audio() {
    let tree = dir(
        "R",
        vec![file("notes.txt"), FsEntry::Dir(dir("A", vec![file("a.aiff"), file("b.aiff")]))],
    );
    let found = scan(&tree, "R");
    assert_eq!(found.len(), 1);
    assert_eq!(found[0].path, "R/A");
    assert_eq!(
        found[0].files,
        vec!["R/A/a.aiff".to_string(), "R/A/b.aiff".to_string()]
    );
}

#[test]
fn scan_children_come_before_their_parent() {
    let tree = dir(
        "R",
        vec![file("own.aiff"), FsEntry::Dir(dir("Sub", vec![file("s.aiff")]))],
    );
    let found = scan(&tree, "R");
    assert_eq!(found.len(), 2);
    assert_eq!(found[0].path, "R/Sub");
    assert_eq!(found[1].path, "R");
}

#[test]
fn scan_attaches_sidecar_tag() {
    let tree = dir(
        "R",
        vec![file_with("mp3tag.txt", "artist: A\nalbum: X\n"), file("t.aiff")],
    );
    let found = scan(&tree, "R");
    assert_eq!(found.len(), 1);
    let tag = found[0].tag.as_ref().expect("tag should be attached");
    assert_eq!(tag.artist, Some("A".to_string()));
    assert_eq!(tag.album, Some("X".to_string()));
    assert_eq!(tag.year, None);
}

#[test]
fn scan_last_sidecar_wins() {
    let tree = dir(
        "R",
        vec![
            file_with("mp3tag.txt", "album: First\n"),
            file("t.aiff"),
            file_with("mp3tag.txt", "album: Second\n"),
        ],
    );
    let found = scan(&tree, "R");
    let tag = found[0].tag.as_ref().expect("tag should be attached");
    assert_eq!(tag.album, Some("Second".to_string()));
}

#[test]
fn scan_skips_special_entries() {
    let tree = dir("R", vec![FsEntry::Other("weird.sock".to_string()), file("t.aiff")]);
    let found = scan(&tree, "R");
    assert_eq!(found.len(), 1);
    assert_eq!(found[0].files, vec!["R/t.aiff".to_string()]);
}

#[test]
fn scaffold_seeds_missing_sidecar() {
    let tree = dir("R", vec![FsEntry::Dir(dir("Album", vec![file("track.aiff")]))]);
    let writes = scaffold(&tree, "R");
    assert_eq!(writes.len(), 1);
    assert_eq!(writes[0].path, "R/Album/mp3tag.txt");
    assert_eq!(writes[0].text, "album: Album\n");
}

#[test]
fn scaffold_leaves_existing_sidecar_alone() {
    let tree = dir(
        "R",
        vec![FsEntry::Dir(dir(
            "Album",
            vec![file("track.aiff"), file_with("mp3tag.txt", "album: Kept\n")],
        ))],
    );
    let writes = scaffold(&tree, "R");
    assert!(writes.is_empty());
}

#[test]
fn scaffold_skips_folders_without_audio() {
    let tree = dir("R", vec![FsEntry::Dir(dir("Docs", vec![file("readme.txt")]))]);
    let writes = scaffold(&tree, "R");
    assert!(writes.is_empty());
}

#[test]
fn scaffold_second_run_writes_nothing() {
    let before = dir("R", vec![FsEntry::Dir(dir("Album", vec![file("track.aiff")]))]);
    let writes = scaffold(&before, "R");
    assert_eq!(writes.len(), 1);
    // The tree as it stands after the first run: the seeded sidecar is in place.
    let after = dir(
        "R",
        vec![FsEntry::Dir(dir(
            "Album",
            vec![file("track.aiff"), file_with("mp3tag.txt", &writes[0].text)],
        ))],
    );
    assert!(scaffold(&after, "R").is_empty());
}

#[test]
fn scan_picks_up_scaffolded_tag() {
    let before = dir("R", vec![FsEntry::Dir(dir("Album", vec![file("track.aiff")]))]);
    let writes = scaffold(&before, "R");
    let after = dir(
        "R",
        vec![FsEntry::Dir(dir(
            "Album",
            vec![file("track.aiff"), file_with("mp3tag.txt", &writes[0].text)],
        ))],
    );
    let found = scan(&after, "R");
    assert_eq!(found.len(), 1);
    let tag = found[0].tag.as_ref().expect("tag should be attached");
    assert_eq!(tag.album, Some("Album".to_string()));
    assert_eq!(tag.artist, None);
    assert_eq!(tag.year, None);
}

#[test]
fn scaffold_names_deeply_nested_folder() {
    let tree = dir(
        "R",
        vec![FsEntry::Dir(dir("A", vec![FsEntry::Dir(dir("B", vec![file("x.aiff")]))]))],
    );
    let writes = scaffold(&tree, "R");
    assert_eq!(writes.len(), 1);
    assert_eq!(writes[0].path, "R/A/B/mp3tag.txt");
    assert_eq!(writes[0].text, "album: B\n");
}
