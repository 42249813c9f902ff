//! Folder classification: walking a directory tree and picking out the
//! folders that directly contain AIFF audio, each with its sidecar tag.
//!
//! The tree is handed in as a value: every directory entry with its name, a
//! file's text where the scanner may consult it (only a file named
//! `mp3tag.txt` is ever read), and subdirectories in listing order. Reading
//! the file system into this shape is the caller's concern; the
//! classification itself is verified here.

use vstd::prelude::*;

use crate::tag::{last_segment, parse_spec, serialize_spec, Mp3Tag, TagView};

verus! {

/// One directory entry, in listing order: a regular file (with the text the
/// scanner may consult; it is only ever read for a file named `mp3tag.txt`),
/// a subdirectory, or anything else (a special file), which is skipped.
pub enum FsEntry {
    File { name: String, content: String },
    Dir(DirTree),
    Other(String),
}

/// A directory with its entries in listing order.
pub struct DirTree {
    pub name: String,
    pub entries: Vec<FsEntry>,
}

/// Mathematical model of a directory entry.
pub ghost enum FsEntryV {
    File { name: Seq<char>, content: Seq<char> },
    Dir(DirTreeV),
    Other(Seq<char>),
}

/// Mathematical model of a directory tree.
pub ghost struct DirTreeV {
    pub name: Seq<char>,
    pub entries: Seq<FsEntryV>,
}

pub open spec fn entry_view(e: FsEntry) -> FsEntryV
    decreases e,
{
    match e {
        FsEntry::File { name, content } => FsEntryV::File { name: name@, content: content@ },
        FsEntry::Dir(d) => FsEntryV::Dir(tree_view(d)),
        FsEntry::Other(name) => FsEntryV::Other(name@),
    }
}

pub open spec fn tree_view(t: DirTree) -> DirTreeV
    decreases t,
{
    DirTreeV { name: t.name@, entries: entries_view(t.entries@) }
}

pub open spec fn entries_view(es: Seq<FsEntry>) -> Seq<FsEntryV>
    decreases es,
{
    if es.len() == 0 {
        Seq::<FsEntryV>::empty()
    } else {
        entries_view(es.drop_last()).push(entry_view(es.last()))
    }
}

impl View for FsEntry {
    type V = FsEntryV;

    open spec fn view(&self) -> FsEntryV {
        entry_view(*self)
    }
}

impl View for DirTree {
    type V = DirTreeV;

    open spec fn view(&self) -> DirTreeV {
        tree_view(*self)
    }
}

/// The model of a sequence of entries is the entrywise model.
pub proof fn lemma_entries_view(es: Seq<FsEntry>)
    ensures
        entries_view(es).len() == es.len(),
        forall|i: int| 0 <= i < es.len() ==> entries_view(es)[i] == entry_view(es[i]),
    decreases es.len(),
{
    if es.len() > 0 {
        lemma_entries_view(es.drop_last());
        assert forall|i: int| 0 <= i < es.len() implies entries_view(es)[i] == entry_view(
            es[i],
        ) by {
            if i < es.len() - 1 {
                assert(es.drop_last()[i] == es[i]);
                assert(entries_view(es)[i] == entries_view(es.drop_last())[i]);
            }
        }
    }
}

/// A folder that directly contains audio: its name, its path, its sidecar
/// tag if one was found, and the full paths of its audio files in listing
/// order.
pub struct AudioFolder {
    pub name: String,
    pub path: String,
    pub tag: Option<Mp3Tag>,
    pub files: Vec<String>,
}

/// Mathematical model of an [`AudioFolder`].
pub ghost struct AudioFolderV {
    pub name: Seq<char>,
    pub path: Seq<char>,
    pub tag: Option<TagView>,
    pub files: Seq<Seq<char>>,
}

impl View for AudioFolder {
    type V = AudioFolderV;

    open spec fn view(&self) -> AudioFolderV {
        AudioFolderV {
            name: self.name@,
            path: self.path@,
            tag: match self.tag {
                Option::Some(m) => Option::Some(m@),
                Option::None => Option::None,
            },
            files: strings_view(self.files@),
        }
    }
}

pub open spec fn strings_view(ss: Seq<String>) -> Seq<Seq<char>> {
    ss.map_values(|s: String| s@)
}

pub open spec fn folders_view(fs: Seq<AudioFolder>) -> Seq<AudioFolderV> {
    fs.map_values(|f: AudioFolder| f@)
}

pub open spec fn opt_tag_view(t: Option<Mp3Tag>) -> Option<TagView> {
    match t {
        Option::Some(m) => Option::Some(m@),
        Option::None => Option::None,
    }
}

/// Whether a file of this name counts as audio: the name ends in `.aiff`.
pub open spec fn is_aiff_name(name: Seq<char>) -> bool {
    name.len() >= 5 && name.subrange(name.len() - 5, name.len() as int) == ".aiff"@
}

/// Whether a file of this name is the sidecar tag file.
pub open spec fn is_tag_name(name: Seq<char>) -> bool {
    name == "mp3tag.txt"@
}

/// The path of an entry under a directory: the directory's path, a `/`
/// separator, and the entry's name.
pub open spec fn join(base: Seq<char>, name: Seq<char>) -> Seq<char> {
    base + "/"@ + name
}

/// Executable test for [`is_aiff_name`].
fn is_aiff_file(name: &str) -> (r: bool)
    ensures
        r == is_aiff_name(name@),
{
    let n = name.unicode_len();
    if n < 5 {
        return false;
    }
    str_eq_str(name.substring_char(n - 5, n), ".aiff")
}

/// Whether two string slices hold the same characters.
fn str_eq_str(a: &str, b: &str) -> (r: bool)
    ensures
        r == (a@ == b@),
{
    let n = a.unicode_len();
    if n != b.unicode_len() {
        proof {
            assert(a@ != b@) by {
                if a@ == b@ {
                    assert(a@.len() == b@.len());
                }
            }
        }
        return false;
    }
    let mut i: usize = 0;
    while i < n
        invariant
            0 <= i <= n,
            n == a@.len(),
            n == b@.len(),
            forall|k: int| 0 <= k < i ==> a@[k] == b@[k],
        decreases n - i,
    {
        if a.get_char(i) != b.get_char(i) {
            return false;
        }
        i = i + 1;
    }
    proof {
        assert(a@ =~= b@);
    }
    true
}

/// Joins a directory path and an entry name with a `/` separator.
pub fn join_path(base: &str, name: &str) -> (r: String)
    ensures
        r@ == join(base@, name@),
{
    let mut s = String::from_str(base);
    s.append("/");
    s.append(name);
    proof {
        assert(s@ =~= join(base@, name@));
    }
    s
}

/// The audio files a directory directly contains, as full paths in listing
/// order.
pub open spec fn files_of(es: Seq<FsEntryV>, path: Seq<char>) -> Seq<Seq<char>>
    decreases es,
{
    if es.len() == 0 {
        Seq::<Seq<char>>::empty()
    } else {
        match es[es.len() - 1] {
            FsEntryV::File { name, content } => {
                if is_aiff_name(name) {
                    files_of(es.drop_last(), path).push(join(path, name))
                } else {
                    files_of(es.drop_last(), path)
                }
            },
            _ => files_of(es.drop_last(), path),
        }
    }
}

/// The tag a directory's own sidecar file denotes, if the directory
/// directly contains one; when several are listed, the last one wins.
pub open spec fn tag_of(es: Seq<FsEntryV>) -> Option<TagView>
    decreases es,
{
    if es.len() == 0 {
        Option::None
    } else {
        match es[es.len() - 1] {
            FsEntryV::File { name, content } => {
                if is_tag_name(name) {
                    Option::Some(parse_spec(content))
                } else {
                    tag_of(es.drop_last())
                }
            },
            _ => tag_of(es.drop_last()),
        }
    }
}

/// The classification record of one directory.
pub open spec fn folder_of(d: DirTreeV, path: Seq<char>) -> AudioFolderV {
    AudioFolderV {
        name: d.name,
        path: path,
        tag: tag_of(d.entries),
        files: files_of(d.entries, path),
    }
}

/// The scan of one directory: depth first, every subdirectory's folders in
/// listing order, then the directory itself — kept only when it directly
/// contains at least one audio file.
pub open spec fn scan_dir(d: DirTreeV, path: Seq<char>) -> Seq<AudioFolderV>
    decreases d,
{
    let subs = scan_entries(d.entries, path);
    if files_of(d.entries, path).len() > 0 {
        subs.push(folder_of(d, path))
    } else {
        subs
    }
}

/// The folders contributed by a directory's subdirectories, in listing
/// order.
pub open spec fn scan_entries(es: Seq<FsEntryV>, path: Seq<char>) -> Seq<AudioFolderV>
    decreases es,
{
    if es.len() == 0 {
        Seq::<AudioFolderV>::empty()
    } else {
        match es[es.len() - 1] {
            FsEntryV::Dir(d) => scan_entries(es.drop_last(), path) + scan_dir(
                d,
                join(path, d.name),
            ),
            _ => scan_entries(es.drop_last(), path),
        }
    }
}

/// Scans a directory tree rooted at `path`, returning every folder that
/// directly contains at least one `.aiff` file, depth first, children
/// before their parent, each with its audio files in listing order and its
/// own sidecar tag if one is present.
pub fn scan(t: &DirTree, path: &str) -> (r: Vec<AudioFolder>)
    ensures
        folders_view(r@) == scan_dir(t@, path@),
    decreases *t,
{
    let mut result: Vec<AudioFolder> = Vec::new();
    let mut files: Vec<String> = Vec::new();
    let mut tag: Option<Mp3Tag> = None;
    let ghost vs = entries_view(t.entries@);
    let n = t.entries.len();
    proof {
        lemma_entries_view(t.entries@);
        assert(vs.take(0) =~= Seq::<FsEntryV>::empty());
        assert(folders_view(result@) =~= Seq::<AudioFolderV>::empty());
        assert(strings_view(files@) =~= Seq::<Seq<char>>::empty());
    }
    let mut i: usize = 0;
    while i < n
        invariant
            0 <= i <= n,
            n == t.entries@.len(),
            vs == entries_view(t.entries@),
            vs.len() == n,
            forall|k: int| 0 <= k < n ==> vs[k] == entry_view(t.entries@[k]),
            folders_view(result@) == scan_entries(vs.take(i as int), path@),
            strings_view(files@) == files_of(vs.take(i as int), path@),
            opt_tag_view(tag) == tag_of(vs.take(i as int)),
        decreases n - i,
    {
        proof {
            assert(vs.take(i as int + 1).drop_last() =~= vs.take(i as int));
            assert(vs.take(i as int + 1).last() == entry_view(t.entries@[i as int]));
        }
        match &t.entries[i] {
            FsEntry::File { name, content } => {
                if is_aiff_file(name.as_str()) {
                    proof {
                        lemma_tag_name_not_aiff();
                    }
                    let ghost fprev = files@;
                    let p = join_path(path, name.as_str());
                    files.push(p);
                    proof {
                        assert(strings_view(files@) =~= strings_view(fprev).push(join(
                            path@,
                            name@,
                        )));
                    }
                } else if str_eq_str(name.as_str(), "mp3tag.txt") {
                    tag = Some(crate::tag::parse_metadata(content.as_str()));
                } else {
                }
            },
            FsEntry::Dir(d) => {
                let ghost rprev = result@;
                let p2 = join_path(path, d.name.as_str());
                let mut sub = scan(d, p2.as_str());
                let ghost sv = sub@;
                result.append(&mut sub);
                proof {
                    assert(folders_view(result@) =~= folders_view(rprev) + folders_view(sv));
                }
            },
            FsEntry::Other(_) => {},
        }
        i = i + 1;
    }
    proof {
        assert(vs.take(n as int) =~= vs);
        assert(t@.entries == vs);
    }
    if files.len() > 0 {
        let ghost rprev = result@;
        let folder = AudioFolder {
            name: String::from_str(t.name.as_str()),
            path: String::from_str(path),
            tag,
            files,
        };
        let ghost fv = folder@;
        result.push(folder);
        proof {
            assert(folders_view(result@) =~= folders_view(rprev).push(fv));
            assert(fv == folder_of(t@, path@));
        }
    }
    result
}

/// A pending sidecar write: where the file goes and what it holds.
pub struct SidecarWrite {
    pub path: String,
    pub text: String,
}

/// Mathematical model of a [`SidecarWrite`].
pub ghost struct SidecarWriteV {
    pub path: Seq<char>,
    pub text: Seq<char>,
}

impl View for SidecarWrite {
    type V = SidecarWriteV;

    open spec fn view(&self) -> SidecarWriteV {
        SidecarWriteV { path: self.path@, text: self.text@ }
    }
}

pub open spec fn writes_view(ws: Seq<SidecarWrite>) -> Seq<SidecarWriteV> {
    ws.map_values(|w: SidecarWrite| w@)
}

/// The text a scaffolded sidecar carries: the folder's name (the final
/// segment of its path) as the album, no artist line and no year line.
pub open spec fn scaffold_text(path: Seq<char>) -> Seq<char> {
    serialize_spec(
        TagView {
            artist: Option::None,
            album: Option::Some(last_segment(path)),
            year: Option::None,
        },
    )
}

/// The sidecar writes scaffolding performs under one directory: depth
/// first, each subdirectory's writes in listing order, then one write for
/// the directory itself exactly when it directly contains audio but no
/// sidecar file.
pub open spec fn scaffold_dir(d: DirTreeV, path: Seq<char>) -> Seq<SidecarWriteV>
    decreases d,
{
    let subs = scaffold_entries(d.entries, path);
    if files_of(d.entries, path).len() > 0 && tag_of(d.entries) is None {
        subs.push(SidecarWriteV { path: join(path, "mp3tag.txt"@), text: scaffold_text(path) })
    } else {
        subs
    }
}

/// The writes contributed by a directory's subdirectories, in listing
/// order.
pub open spec fn scaffold_entries(es: Seq<FsEntryV>, path: Seq<char>) -> Seq<SidecarWriteV>
    decreases es,
{
    if es.len() == 0 {
        Seq::<SidecarWriteV>::empty()
    } else {
        match es[es.len() - 1] {
            FsEntryV::Dir(d) => scaffold_entries(es.drop_last(), path) + scaffold_dir(
                d,
                join(path, d.name),
            ),
            _ => scaffold_entries(es.drop_last(), path),
        }
    }
}

/// Computes the sidecar files scaffolding has to write under `path`: one
/// per directory that directly contains at least one `.aiff` file and no
/// `mp3tag.txt`, with the folder's name as its album. Directories that
/// already carry a sidecar are left untouched.
pub fn scaffold(t: &DirTree, path: &str) -> (r: Vec<SidecarWrite>)
    ensures
        writes_view(r@) == scaffold_dir(t@, path@),
    decreases *t,
{
    let mut result: Vec<SidecarWrite> = Vec::new();
    let mut has_audio = false;
    let mut has_tag = false;
    let ghost vs = entries_view(t.entries@);
    let n = t.entries.len();
    proof {
        lemma_entries_view(t.entries@);
        assert(vs.take(0) =~= Seq::<FsEntryV>::empty());
        assert(writes_view(result@) =~= Seq::<SidecarWriteV>::empty());
    }
    let mut i: usize = 0;
    while i < n
        invariant
            0 <= i <= n,
            n == t.entries@.len(),
            vs == entries_view(t.entries@),
            vs.len() == n,
            forall|k: int| 0 <= k < n ==> vs[k] == entry_view(t.entries@[k]),
            writes_view(result@) == scaffold_entries(vs.take(i as int), path@),
            has_audio == (files_of(vs.take(i as int), path@).len() > 0),
            has_tag == (tag_of(vs.take(i as int)) is Some),
        decreases n - i,
    {
        proof {
            assert(vs.take(i as int + 1).drop_last() =~= vs.take(i as int));
            assert(vs.take(i as int + 1).last() == entry_view(t.entries@[i as int]));
        }
        match &t.entries[i] {
            FsEntry::File { name, content: _ } => {
                if is_aiff_file(name.as_str()) {
                    proof {
                        lemma_tag_name_not_aiff();
                    }
                    has_audio = true;
                } else if str_eq_str(name.as_str(), "mp3tag.txt") {
                    has_tag = true;
                } else {
                }
            },
            FsEntry::Dir(d) => {
                let ghost rprev = result@;
                let p2 = join_path(path, d.name.as_str());
                let mut sub = scaffold(d, p2.as_str());
                let ghost sv = sub@;
                result.append(&mut sub);
                proof {
                    assert(writes_view(result@) =~= writes_view(rprev) + writes_view(sv));
                }
            },
            FsEntry::Other(_) => {},
        }
        i = i + 1;
    }
    proof {
        assert(vs.take(n as int) =~= vs);
        assert(t@.entries == vs);
    }
    if has_audio && !has_tag {
        let ghost rprev = result@;
        let text = Mp3Tag::from_path(path).to_string();
        let wpath = join_path(path, "mp3tag.txt");
        let w = SidecarWrite { path: wpath, text };
        let ghost wv = w@;
        result.push(w);
        proof {
            assert(writes_view(result@) =~= writes_view(rprev).push(wv));
        }
    }
    result
}

/// The directory entry a scaffolding write creates.
pub open spec fn scaffolded_entry(path: Seq<char>) -> FsEntryV {
    FsEntryV::File { name: "mp3tag.txt"@, content: scaffold_text(path) }
}

/// The tree as it stands after scaffolding: each directory that directly
/// contains audio but no sidecar gains one, everything else is unchanged.
pub open spec fn apply_scaffold_dir(d: DirTreeV, path: Seq<char>) -> DirTreeV
    decreases d,
{
    let es2 = apply_scaffold_entries(d.entries, path);
    if files_of(d.entries, path).len() > 0 && tag_of(d.entries) is None {
        DirTreeV { name: d.name, entries: es2.push(scaffolded_entry(path)) }
    } else {
        DirTreeV { name: d.name, entries: es2 }
    }
}

pub open spec fn apply_scaffold_entries(es: Seq<FsEntryV>, path: Seq<char>) -> Seq<FsEntryV>
    decreases es,
{
    if es.len() == 0 {
        Seq::<FsEntryV>::empty()
    } else {
        let prev = apply_scaffold_entries(es.drop_last(), path);
        match es[es.len() - 1] {
            FsEntryV::Dir(d) => prev.push(FsEntryV::Dir(apply_scaffold_dir(d, join(path, d.name)))),
            e => prev.push(e),
        }
    }
}

/// Scaffolding changes neither a directory's audio files nor an existing
/// sidecar tag.
proof fn lemma_apply_scaffold_preserves(es: Seq<FsEntryV>, path: Seq<char>)
    ensures
        files_of(apply_scaffold_entries(es, path), path) == files_of(es, path),
        tag_of(apply_scaffold_entries(es, path)) == tag_of(es),
    decreases es,
{
    if es.len() > 0 {
        lemma_apply_scaffold_preserves(es.drop_last(), path);
        let es2 = apply_scaffold_entries(es, path);
        assert(es2.drop_last() =~= apply_scaffold_entries(es.drop_last(), path));
    }
}

proof fn lemma_scaffold_apply_entries_empty(es: Seq<FsEntryV>, path: Seq<char>)
    ensures
        scaffold_entries(apply_scaffold_entries(es, path), path) == Seq::<SidecarWriteV>::empty(),
    decreases es,
{
    if es.len() > 0 {
        lemma_scaffold_apply_entries_empty(es.drop_last(), path);
        let es2 = apply_scaffold_entries(es, path);
        assert(es2.drop_last() =~= apply_scaffold_entries(es.drop_last(), path));
        match es[es.len() - 1] {
            FsEntryV::Dir(d) => {
                lemma_scaffold_idempotent(d, join(path, d.name));
                assert(scaffold_entries(es2, path) =~= scaffold_entries(es2.drop_last(), path)
                    + scaffold_dir(
                    apply_scaffold_dir(d, join(path, d.name)),
                    join(path, d.name),
                ));
                assert(scaffold_entries(es2, path) =~= Seq::<SidecarWriteV>::empty());
            },
            _ => {},
        }
    }
}

/// Scaffolding is idempotent: running the scaffold over a tree that a
/// scaffolding pass has already completed produces no write at all.
pub proof fn lemma_scaffold_idempotent(d: DirTreeV, path: Seq<char>)
    ensures
        scaffold_dir(apply_scaffold_dir(d, path), path) == Seq::<SidecarWriteV>::empty(),
    decreases d,
{
    lemma_apply_scaffold_preserves(d.entries, path);
    lemma_scaffold_apply_entries_empty(d.entries, path);
    let es2 = apply_scaffold_entries(d.entries, path);
    let d2 = apply_scaffold_dir(d, path);
    if files_of(d.entries, path).len() > 0 && tag_of(d.entries) is None {
        let f = scaffolded_entry(path);
        assert(d2.entries == es2.push(f));
        assert(es2.push(f).drop_last() =~= es2);
        reveal_strlit("mp3tag.txt");
        assert(is_tag_name("mp3tag.txt"@));
        assert(tag_of(d2.entries) is Some);
        assert(scaffold_entries(d2.entries, path) =~= scaffold_entries(es2, path));
        assert(scaffold_dir(d2, path) =~= Seq::<SidecarWriteV>::empty());
    } else {
        assert(scaffold_dir(d2, path) =~= Seq::<SidecarWriteV>::empty());
    }
}

/// Whether an entry is a directly contained audio file.
pub open spec fn entry_is_audio(e: FsEntryV) -> bool {
    match e {
        FsEntryV::File { name, content } => is_aiff_name(name),
        _ => false,
    }
}

/// Whether a directory directly contains at least one audio file.
pub open spec fn has_direct_audio(d: DirTreeV) -> bool {
    exists|i: int| 0 <= i < d.entries.len() && entry_is_audio(#[trigger] d.entries[i])
}

/// A directory's audio-file list is non-empty exactly when one of its
/// direct entries is an audio file.
pub proof fn lemma_files_of_nonempty(es: Seq<FsEntryV>, path: Seq<char>)
    ensures
        files_of(es, path).len() > 0 <==> exists|i: int|
            0 <= i < es.len() && entry_is_audio(#[trigger] es[i]),
    decreases es,
{
    if es.len() > 0 {
        lemma_files_of_nonempty(es.drop_last(), path);
        if entry_is_audio(es[es.len() - 1]) {
            assert(files_of(es, path).len() > 0);
        } else {
            assert forall|i: int|
                0 <= i < es.len() && entry_is_audio(#[trigger] es[i]) implies files_of(
                es,
                path,
            ).len() > 0 by {
                assert(i < es.len() - 1);
                assert(es.drop_last()[i] == es[i]);
            }
            if files_of(es, path).len() > 0 {
                let j = choose|j: int|
                    0 <= j < es.drop_last().len() && entry_is_audio(#[trigger] es.drop_last()[j]);
                assert(es[j] == es.drop_last()[j]);
            }
        }
    }
}

/// Every directory of the tree, depth first, children before the directory
/// itself, each with its classification record.
pub open spec fn all_dirs(d: DirTreeV, path: Seq<char>) -> Seq<AudioFolderV>
    decreases d,
{
    all_dirs_entries(d.entries, path).push(folder_of(d, path))
}

pub open spec fn all_dirs_entries(es: Seq<FsEntryV>, path: Seq<char>) -> Seq<AudioFolderV>
    decreases es,
{
    if es.len() == 0 {
        Seq::<AudioFolderV>::empty()
    } else {
        match es[es.len() - 1] {
            FsEntryV::Dir(d) => all_dirs_entries(es.drop_last(), path) + all_dirs(
                d,
                join(path, d.name),
            ),
            _ => all_dirs_entries(es.drop_last(), path),
        }
    }
}

/// The classification that keeps a folder: it directly contains audio.
pub open spec fn audio_filter() -> spec_fn(AudioFolderV) -> bool {
    |f: AudioFolderV| f.files.len() > 0
}

proof fn lemma_scan_entries_filter(es: Seq<FsEntryV>, path: Seq<char>)
    ensures
        scan_entries(es, path) == all_dirs_entries(es, path).filter(audio_filter()),
    decreases es,
{
    reveal(Seq::filter);
    if es.len() == 0 {
        assert(all_dirs_entries(es, path).filter(audio_filter()) =~= Seq::<AudioFolderV>::empty());
    } else {
        lemma_scan_entries_filter(es.drop_last(), path);
        match es[es.len() - 1] {
            FsEntryV::Dir(d) => {
                lemma_scan_is_filtered(d, join(path, d.name));
                Seq::<AudioFolderV>::filter_distributes_over_add(
                    all_dirs_entries(es.drop_last(), path),
                    all_dirs(d, join(path, d.name)),
                    audio_filter(),
                );
            },
            _ => {},
        }
    }
}

/// The scan returns exactly the directories of the tree that directly
/// contain at least one `.aiff` file, in traversal order, and no others.
pub proof fn lemma_scan_is_filtered(d: DirTreeV, path: Seq<char>)
    ensures
        scan_dir(d, path) == all_dirs(d, path).filter(audio_filter()),
        audio_filter()(folder_of(d, path)) == has_direct_audio(d),
    decreases d,
{
    reveal(Seq::filter);
    lemma_scan_entries_filter(d.entries, path);
    lemma_files_of_nonempty(d.entries, path);
    let s = all_dirs_entries(d.entries, path);
    let f = folder_of(d, path);
    assert(s.push(f).drop_last() =~= s);
    assert(s.push(f).last() == f);
}

/// A sidecar file named like the tag file is never itself counted as audio.
proof fn lemma_tag_name_not_aiff()
    ensures
        !is_aiff_name("mp3tag.txt"@),
{
    reveal_strlit("mp3tag.txt");
    reveal_strlit(".aiff");
    let n = "mp3tag.txt"@;
    if is_aiff_name(n) {
        assert(n.subrange(5, 10)[0] == 'g');
        assert(".aiff"@[0] == '.');
    }
}

} // verus!
