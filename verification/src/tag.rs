//! Sidecar tag codec: the `mp3tag.txt` text format.
//!
//! A tag holds up to three optional fields (artist, album, year). The text
//! form carries one `key: value` line per present field; parsing tolerates
//! unknown keys and lines without a separator, and lets the last occurrence
//! of a duplicated key win.

use vstd::prelude::*;

verus! {

/// A folder's metadata, read from or written to its sidecar file.
#[derive(Debug, Default)]
pub struct Mp3Tag {
    pub artist: Option<String>,
    pub album: Option<String>,
    pub year: Option<String>,
}

/// Mathematical model of a tag: each field as an optional character sequence.
pub ghost struct TagView {
    pub artist: Option<Seq<char>>,
    pub album: Option<Seq<char>>,
    pub year: Option<Seq<char>>,
}

impl View for Mp3Tag {
    type V = TagView;

    open spec fn view(&self) -> TagView {
        TagView {
            artist: match self.artist {
                Option::Some(s) => Option::Some(s@),
                Option::None => Option::None,
            },
            album: match self.album {
                Option::Some(s) => Option::Some(s@),
                Option::None => Option::None,
            },
            year: match self.year {
                Option::Some(s) => Option::Some(s@),
                Option::None => Option::None,
            },
        }
    }
}

/// Whether `c` has the Unicode `White_Space` property, the set of characters
/// that surrounding-whitespace trimming removes.
pub open spec fn is_space(c: char) -> bool {
    (c as u32) == 0x20 || ((c as u32) >= 0x9 && (c as u32) <= 0xD) || (c as u32) == 0x85 || (
    c as u32) == 0xA0 || (c as u32) == 0x1680 || ((c as u32) >= 0x2000 && (c as u32) <= 0x200A) || (
    c as u32) == 0x2028 || (c as u32) == 0x2029 || (c as u32) == 0x202F || (c as u32) == 0x205F || (
    c as u32) == 0x3000
}

/// Executable test for [`is_space`].
fn is_space_char(c: char) -> (r: bool)
    ensures
        r == is_space(c),
{
    let u = c as u32;
    u == 0x20 || (u >= 0x9 && u <= 0xD) || u == 0x85 || u == 0xA0 || u == 0x1680 || (u >= 0x2000
        && u <= 0x200A) || u == 0x2028 || u == 0x2029 || u == 0x202F || u == 0x205F || u == 0x3000
}

/// The sequence with its leading whitespace removed.
pub open spec fn trim_start_spec(s: Seq<char>) -> Seq<char>
    decreases s.len(),
{
    if s.len() > 0 && is_space(s[0]) {
        trim_start_spec(s.drop_first())
    } else {
        s
    }
}

/// The sequence with its trailing whitespace removed.
pub open spec fn trim_end_spec(s: Seq<char>) -> Seq<char>
    decreases s.len(),
{
    if s.len() > 0 && is_space(s.last()) {
        trim_end_spec(s.drop_last())
    } else {
        s
    }
}

/// The sequence with surrounding whitespace removed.
pub open spec fn trim_spec(s: Seq<char>) -> Seq<char> {
    trim_end_spec(trim_start_spec(s))
}

/// The index of the first occurrence of `c` in `s`, or `s.len()` when `c`
/// does not occur.
pub open spec fn first_at(s: Seq<char>, c: char) -> int
    decreases s.len(),
{
    if s.len() == 0 {
        0
    } else if s[0] == c {
        0
    } else {
        1 + first_at(s.drop_first(), c)
    }
}

pub proof fn lemma_first_at_is(s: Seq<char>, c: char, i: int)
    requires
        0 <= i <= s.len(),
        forall|k: int| 0 <= k < i ==> s[k] != c,
        i < s.len() ==> s[i] == c,
    ensures
        first_at(s, c) == i,
    decreases s.len(),
{
    if s.len() == 0 {
    } else if s[0] == c {
        assert(i == 0);
    } else {
        assert(i > 0) by {
            if i == 0 {
                assert(s[0] == c);
            }
        }
        let d = s.drop_first();
        assert forall|k: int| 0 <= k < i - 1 implies d[k] != c by {
            assert(d[k] == s[k + 1]);
        }
        if i - 1 < d.len() {
            assert(d[i - 1] == s[i]);
        }
        lemma_first_at_is(d, c, i - 1);
    }
}

/// Trimming from the front stops exactly at the first non-space character.
pub proof fn lemma_trim_start_at(s: Seq<char>, a: int)
    requires
        0 <= a <= s.len(),
        forall|k: int| 0 <= k < a ==> is_space(s[k]),
        a < s.len() ==> !is_space(s[a]),
    ensures
        trim_start_spec(s) == s.skip(a),
    decreases a,
{
    if a == 0 {
        assert(s.skip(0) =~= s);
    } else {
        let d = s.drop_first();
        assert(d =~= s.skip(1));
        assert forall|k: int| 0 <= k < a - 1 implies is_space(d[k]) by {
            assert(d[k] == s[k + 1]);
        }
        if a - 1 < d.len() {
            assert(d[a - 1] == s[a]);
        }
        lemma_trim_start_at(d, a - 1);
        assert(d.skip(a - 1) =~= s.skip(a));
    }
}

/// Trimming from the back stops exactly after the last non-space character.
pub proof fn lemma_trim_end_at(s: Seq<char>, b: int)
    requires
        0 <= b <= s.len(),
        forall|k: int| b <= k < s.len() ==> is_space(s[k]),
        b > 0 ==> !is_space(s[b - 1]),
    ensures
        trim_end_spec(s) == s.take(b),
    decreases s.len(),
{
    if s.len() == b {
        assert(s.take(b) =~= s);
    } else {
        assert(is_space(s.last()));
        let d = s.drop_last();
        assert(d =~= s.take(s.len() - 1));
        assert forall|k: int| b <= k < d.len() implies is_space(d[k]) by {
            assert(d[k] == s[k]);
        }
        lemma_trim_end_at(d, b);
        assert(d.take(b) =~= s.take(b));
    }
}

proof fn lemma_trim_start_len(s: Seq<char>)
    ensures
        trim_start_spec(s).len() <= s.len(),
    decreases s.len(),
{
    if s.len() > 0 && is_space(s[0]) {
        lemma_trim_start_len(s.drop_first());
    }
}

proof fn lemma_trim_end_len(s: Seq<char>)
    ensures
        trim_end_spec(s).len() <= s.len(),
    decreases s.len(),
{
    if s.len() > 0 && is_space(s.last()) {
        lemma_trim_end_len(s.drop_last());
    }
}

/// A sequence that trimming leaves unchanged is unchanged by each of the
/// one-sided trims as well.
pub proof fn lemma_trim_fixed_parts(v: Seq<char>)
    requires
        trim_spec(v) == v,
    ensures
        trim_start_spec(v) == v,
        trim_end_spec(v) == v,
{
    lemma_trim_start_len(v);
    lemma_trim_end_len(trim_start_spec(v));
    if v.len() > 0 && is_space(v[0]) {
        lemma_trim_start_len(v.drop_first());
        lemma_trim_end_len(trim_start_spec(v.drop_first()));
        assert(false);
    }
}

/// Prepending one space to a fully trimmed value trims back to the value.
pub proof fn lemma_trim_space_prefix(v: Seq<char>)
    requires
        trim_spec(v) == v,
    ensures
        trim_spec(" "@ + v) == v,
{
    proof_space_literal();
    let s = " "@ + v;
    assert(is_space(s[0]));
    assert(s.drop_first() =~= v);
    lemma_trim_fixed_parts(v);
}

proof fn proof_space_literal()
    ensures
        " "@.len() == 1,
        " "@[0] == ' ',
{
    reveal_strlit(" ");
}

/// One serialized line for a field: `<key>: <value>\n` when the field is
/// present, nothing when it is absent.
pub open spec fn field_line(key_prefix: Seq<char>, v: Option<Seq<char>>) -> Seq<char> {
    match v {
        Option::Some(s) => key_prefix + s + "\n"@,
        Option::None => Seq::<char>::empty(),
    }
}

/// The serialized form of a tag: present fields in fixed order
/// artist, album, year; absent fields produce no line.
pub open spec fn serialize_spec(t: TagView) -> Seq<char> {
    field_line("artist: "@, t.artist) + field_line("album: "@, t.album) + field_line(
        "year: "@,
        t.year,
    )
}

/// The tag with no field present: what parsing starts from.
pub open spec fn empty_tag() -> TagView {
    TagView { artist: Option::None, album: Option::None, year: Option::None }
}

/// The effect of one line of sidecar text on the fields accumulated so far.
/// A line without a `:` separator is skipped; otherwise the trimmed part
/// before the first `:` selects a field and the trimmed rest replaces its
/// value; unrecognized keys are ignored.
pub open spec fn apply_line(acc: TagView, line: Seq<char>) -> TagView {
    let ci = first_at(line, ':');
    if ci == line.len() {
        acc
    } else {
        let key = trim_spec(line.subrange(0, ci));
        let value = trim_spec(line.subrange(ci + 1, line.len() as int));
        if key == "artist"@ {
            TagView { artist: Option::Some(value), album: acc.album, year: acc.year }
        } else if key == "album"@ {
            TagView { artist: acc.artist, album: Option::Some(value), year: acc.year }
        } else if key == "year"@ {
            TagView { artist: acc.artist, album: acc.album, year: Option::Some(value) }
        } else {
            acc
        }
    }
}

/// Folds [`apply_line`] over the `\n`-separated lines of `text`, front to
/// back, so that the last occurrence of a key wins. A final segment after
/// the last `\n` counts as a line; an empty final segment does not.
pub open spec fn parse_lines(text: Seq<char>, acc: TagView) -> TagView
    decreases text.len(),
{
    if text.len() == 0 {
        acc
    } else {
        let nl = first_at(text, '\n');
        if 0 <= nl && nl < text.len() {
            parse_lines(
                text.subrange(nl + 1, text.len() as int),
                apply_line(acc, text.subrange(0, nl)),
            )
        } else {
            apply_line(acc, text)
        }
    }
}

/// The tag denoted by a complete sidecar text.
pub open spec fn parse_spec(text: Seq<char>) -> TagView {
    parse_lines(text, empty_tag())
}

/// Whether two string slices hold the same characters.
fn str_eq_str(a: &str, b: &str) -> (r: bool)
    ensures
        r == (a@ == b@),
{
    let n = a.unicode_len();
    if n != b.unicode_len() {
        proof {
            assert(a@ != b@) by {
                if a@ == b@ {
                    assert(a@.len() == b@.len());
                }
            }
        }
        return false;
    }
    let mut i: usize = 0;
    while i < n
        invariant
            0 <= i <= n,
            n == a@.len(),
            n == b@.len(),
            forall|k: int| 0 <= k < i ==> a@[k] == b@[k],
        decreases n - i,
    {
        if a.get_char(i) != b.get_char(i) {
            return false;
        }
        i = i + 1;
    }
    proof {
        assert(a@ =~= b@);
    }
    true
}

/// The substring `s[from..to]` with surrounding whitespace removed, as an
/// owned string.
fn trim_range(s: &str, from: usize, to: usize) -> (r: String)
    requires
        from <= to <= s@.len(),
    ensures
        r@ == trim_spec(s@.subrange(from as int, to as int)),
{
    let ghost sub = s@.subrange(from as int, to as int);
    let mut a: usize = from;
    while a < to && is_space_char(s.get_char(a))
        invariant
            from <= a <= to <= s@.len(),
            forall|k: int| from <= k < a ==> is_space(s@[k]),
        decreases to - a,
    {
        a = a + 1;
    }
    let mut b: usize = to;
    while b > a && is_space_char(s.get_char(b - 1))
        invariant
            from <= a <= b <= to <= s@.len(),
            a < to ==> !is_space(s@[a as int]),
            forall|k: int| from <= k < a ==> is_space(s@[k]),
            forall|k: int| b <= k < to ==> is_space(s@[k]),
        decreases b,
    {
        b = b - 1;
    }
    proof {
        assert forall|k: int| 0 <= k < a - from implies is_space(sub[k]) by {
            assert(sub[k] == s@[from + k]);
        }
        if a < to {
            assert(sub[a - from] == s@[a as int]);
        }
        lemma_trim_start_at(sub, a - from);
        let mid = sub.skip(a - from);
        assert forall|k: int| b - a <= k < mid.len() implies is_space(mid[k]) by {
            assert(mid[k] == s@[a + k]);
        }
        if b > a {
            assert(mid[b - a - 1] == s@[b - 1]);
        }
        lemma_trim_end_at(mid, b - a);
        assert(mid.take(b - a) =~= s@.subrange(a as int, b as int));
    }
    String::from_str(s.substring_char(a, b))
}

/// Parses sidecar tag text. Lines without a `:` separator and lines with an
/// unrecognized key are ignored; when a key repeats, the last occurrence
/// wins.
pub fn parse_metadata(content: &str) -> (r: Mp3Tag)
    ensures
        r@ == parse_spec(content@),
{
    let n = content.unicode_len();
    let mut tag = Mp3Tag { artist: None, album: None, year: None };
    let mut start: usize = 0;
    proof {
        assert(content@.skip(0) =~= content@);
    }
    while start < n
        invariant
            0 <= start <= n,
            n == content@.len(),
            parse_lines(content@.skip(start as int), tag@) == parse_spec(content@),
        decreases n - start,
    {
        let ghost suffix = content@.skip(start as int);
        let mut j = start;
        while j < n && content.get_char(j) != '\n'
            invariant
                start <= j <= n,
                n == content@.len(),
                forall|k: int| start <= k < j ==> content@[k] != '\n',
            decreases n - j,
        {
            j = j + 1;
        }
        proof {
            assert forall|k: int| 0 <= k < j - start implies suffix[k] != '\n' by {
                assert(suffix[k] == content@[start + k]);
            }
            if j < n {
                assert(suffix[j - start] == content@[j as int]);
            }
            lemma_first_at_is(suffix, '\n', j - start);
            assert(suffix.subrange(0, j - start) =~= content@.subrange(start as int, j as int));
        }
        apply_line_exec(&mut tag, content.substring_char(start, j));
        if j == n {
            proof {
                assert(suffix =~= content@.subrange(start as int, n as int));
                assert(content@.skip(n as int) =~= Seq::<char>::empty());
            }
            start = n;
        } else {
            proof {
                assert(suffix.subrange(j - start + 1, suffix.len() as int) =~= content@.skip(
                    j + 1,
                ));
            }
            start = j + 1;
        }
    }
    proof {
        assert(content@.skip(start as int) =~= Seq::<char>::empty());
    }
    tag
}

/// Applies one line of sidecar text to the tag being built.
fn apply_line_exec(tag: &mut Mp3Tag, line: &str)
    ensures
        final(tag)@ == apply_line(old(tag)@, line@),
{
    let len = line.unicode_len();
    let mut ci: usize = 0;
    while ci < len && line.get_char(ci) != ':'
        invariant
            0 <= ci <= len,
            len == line@.len(),
            forall|k: int| 0 <= k < ci ==> line@[k] != ':',
        decreases len - ci,
    {
        ci = ci + 1;
    }
    proof {
        lemma_first_at_is(line@, ':', ci as int);
    }
    if ci == len {
        return ;
    }
    let key = trim_range(line, 0, ci);
    let value = trim_range(line, ci + 1, len);
    if str_eq_str(key.as_str(), "artist") {
        tag.artist = Some(value);
    } else if str_eq_str(key.as_str(), "album") {
        tag.album = Some(value);
    } else if str_eq_str(key.as_str(), "year") {
        tag.year = Some(value);
    }
}

/// A value that survives the text form unchanged: it carries no line break
/// and no surrounding whitespace, so parsing a serialized line recovers it
/// exactly. An absent field is always clean.
pub open spec fn value_clean(v: Option<Seq<char>>) -> bool {
    match v {
        Option::Some(s) => trim_spec(s) == s && (forall|k: int| 0 <= k < s.len() ==> s[k] != '\n'),
        Option::None => true,
    }
}

/// All three fields of the tag are clean in the sense of [`value_clean`].
pub open spec fn tag_clean(t: TagView) -> bool {
    value_clean(t.artist) && value_clean(t.album) && value_clean(t.year)
}

/// Parsing consumes one leading line: a prefix without line breaks followed
/// by `\n` is applied to the accumulator, and parsing continues on the rest.
pub proof fn lemma_parse_prefix_line(l: Seq<char>, rest: Seq<char>, acc: TagView)
    requires
        forall|k: int| 0 <= k < l.len() ==> l[k] != '\n',
    ensures
        parse_lines(l + "\n"@ + rest, acc) == parse_lines(rest, apply_line(acc, l)),
{
    reveal_strlit("\n");
    let text = l + "\n"@ + rest;
    assert forall|k: int| 0 <= k < l.len() implies text[k] != '\n' by {
        assert(text[k] == l[k]);
    }
    assert(text[l.len() as int] == '\n');
    lemma_first_at_is(text, '\n', l.len() as int);
    assert(text.subrange(0, l.len() as int) =~= l);
    assert(text.subrange(l.len() as int + 1, text.len() as int) =~= rest);
}

pub proof fn lemma_apply_artist_line(acc: TagView, v: Seq<char>)
    requires
        trim_spec(v) == v,
    ensures
        apply_line(acc, "artist: "@ + v) == (TagView {
            artist: Option::Some(v),
            album: acc.album,
            year: acc.year,
        }),
{
    reveal_strlit("artist: ");
    reveal_strlit("artist");
    proof_space_literal();
    let line = "artist: "@ + v;
    assert forall|k: int| 0 <= k < 6 implies line[k] != ':' by {
        assert(line[k] == "artist: "@[k]);
    }
    assert(line[6] == ':');
    lemma_first_at_is(line, ':', 6);
    assert(line.subrange(0, 6) =~= "artist"@);
    assert(trim_spec("artist"@) == "artist"@);
    assert(line.subrange(7, line.len() as int) =~= " "@ + v);
    lemma_trim_space_prefix(v);
}

pub proof fn lemma_apply_album_line(acc: TagView, v: Seq<char>)
    requires
        trim_spec(v) == v,
    ensures
        apply_line(acc, "album: "@ + v) == (TagView {
            artist: acc.artist,
            album: Option::Some(v),
            year: acc.year,
        }),
{
    reveal_strlit("album: ");
    reveal_strlit("album");
    reveal_strlit("artist");
    proof_space_literal();
    let line = "album: "@ + v;
    assert forall|k: int| 0 <= k < 5 implies line[k] != ':' by {
        assert(line[k] == "album: "@[k]);
    }
    assert(line[5] == ':');
    lemma_first_at_is(line, ':', 5);
    assert(line.subrange(0, 5) =~= "album"@);
    assert(trim_spec("album"@) == "album"@);
    assert(line.subrange(6, line.len() as int) =~= " "@ + v);
    lemma_trim_space_prefix(v);
}

pub proof fn lemma_apply_year_line(acc: TagView, v: Seq<char>)
    requires
        trim_spec(v) == v,
    ensures
        apply_line(acc, "year: "@ + v) == (TagView {
            artist: acc.artist,
            album: acc.album,
            year: Option::Some(v),
        }),
{
    reveal_strlit("year: ");
    reveal_strlit("year");
    reveal_strlit("artist");
    reveal_strlit("album");
    proof_space_literal();
    let line = "year: "@ + v;
    assert forall|k: int| 0 <= k < 4 implies line[k] != ':' by {
        assert(line[k] == "year: "@[k]);
    }
    assert(line[4] == ':');
    lemma_first_at_is(line, ':', 4);
    assert(line.subrange(0, 4) =~= "year"@);
    assert(trim_spec("year"@) == "year"@);
    assert(line.subrange(5, line.len() as int) =~= " "@ + v);
    lemma_trim_space_prefix(v);
}

/// Round trip: serializing a tag whose present values are clean and parsing
/// the text back reconstructs exactly the fields that were present, and no
/// others.
pub proof fn lemma_serialize_parse_round_trip(t: TagView)
    requires
        tag_clean(t),
    ensures
        parse_spec(serialize_spec(t)) == t,
{
    let e = empty_tag();
    let text = serialize_spec(t);
    let rest1 = field_line("album: "@, t.album) + field_line("year: "@, t.year);
    let acc1 = TagView { artist: t.artist, album: Option::None, year: Option::None };
    match t.artist {
        Option::Some(a) => {
            reveal_strlit("artist: ");
            let l = "artist: "@ + a;
            assert(text =~= l + "\n"@ + rest1);
            assert forall|k: int| 0 <= k < l.len() implies l[k] != '\n' by {
                if k < 8 {
                    assert(l[k] == "artist: "@[k]);
                } else {
                    assert(l[k] == a[k - 8]);
                }
            }
            lemma_parse_prefix_line(l, rest1, e);
            lemma_apply_artist_line(e, a);
        },
        Option::None => {
            assert(text =~= rest1);
        },
    }
    assert(parse_lines(text, e) == parse_lines(rest1, acc1));
    let rest2 = field_line("year: "@, t.year);
    let acc2 = TagView { artist: t.artist, album: t.album, year: Option::None };
    match t.album {
        Option::Some(b) => {
            reveal_strlit("album: ");
            let l = "album: "@ + b;
            assert(rest1 =~= l + "\n"@ + rest2);
            assert forall|k: int| 0 <= k < l.len() implies l[k] != '\n' by {
                if k < 7 {
                    assert(l[k] == "album: "@[k]);
                } else {
                    assert(l[k] == b[k - 7]);
                }
            }
            lemma_parse_prefix_line(l, rest2, acc1);
            lemma_apply_album_line(acc1, b);
        },
        Option::None => {
            assert(rest1 =~= rest2);
        },
    }
    assert(parse_lines(rest1, acc1) == parse_lines(rest2, acc2));
    match t.year {
        Option::Some(y) => {
            reveal_strlit("year: ");
            let l = "year: "@ + y;
            assert(rest2 =~= l + "\n"@ + Seq::<char>::empty());
            assert forall|k: int| 0 <= k < l.len() implies l[k] != '\n' by {
                if k < 6 {
                    assert(l[k] == "year: "@[k]);
                } else {
                    assert(l[k] == y[k - 6]);
                }
            }
            lemma_parse_prefix_line(l, Seq::<char>::empty(), acc2);
            lemma_apply_year_line(acc2, y);
        },
        Option::None => {
            assert(rest2 =~= Seq::<char>::empty());
        },
    }
    assert(parse_lines(rest2, acc2) == t);
}

/// The path with any trailing `/` separators removed.
pub open spec fn strip_trailing_slashes(p: Seq<char>) -> Seq<char>
    decreases p.len(),
{
    if p.len() > 0 && p.last() == '/' {
        strip_trailing_slashes(p.drop_last())
    } else {
        p
    }
}

/// The index right after the last `/` of `q`, or 0 when `q` has none.
pub open spec fn seg_start(q: Seq<char>) -> int
    decreases q.len(),
{
    if q.len() == 0 {
        0
    } else if q.last() == '/' {
        q.len() as int
    } else {
        seg_start(q.drop_last())
    }
}

/// The final path segment: what remains after trailing separators and
/// everything up to the last remaining separator are removed.
pub open spec fn last_segment(p: Seq<char>) -> Seq<char> {
    let q = strip_trailing_slashes(p);
    q.subrange(seg_start(q), q.len() as int)
}

/// Stripping trailing slashes keeps exactly the prefix before them.
pub proof fn lemma_strip_trailing_at(p: Seq<char>, e: int)
    requires
        0 <= e <= p.len(),
        forall|k: int| e <= k < p.len() ==> p[k] == '/',
        e > 0 ==> p[e - 1] != '/',
    ensures
        strip_trailing_slashes(p) == p.take(e),
    decreases p.len(),
{
    if p.len() == e {
        assert(p.take(e) =~= p);
    } else {
        let d = p.drop_last();
        assert(d =~= p.take(p.len() - 1));
        assert forall|k: int| e <= k < d.len() implies d[k] == '/' by {
            assert(d[k] == p[k]);
        }
        lemma_strip_trailing_at(d, e);
        assert(d.take(e) =~= p.take(e));
    }
}

/// The segment start is right after the last slash.
pub proof fn lemma_seg_start_at(q: Seq<char>, a: int)
    requires
        0 <= a <= q.len(),
        forall|k: int| a <= k < q.len() ==> q[k] != '/',
        a > 0 ==> q[a - 1] == '/',
    ensures
        seg_start(q) == a,
    decreases q.len(),
{
    if q.len() == 0 {
    } else if q.last() == '/' {
        assert(a == q.len());
    } else {
        let d = q.drop_last();
        assert(a <= d.len());
        assert forall|k: int| a <= k < d.len() implies d[k] != '/' by {
            assert(d[k] == q[k]);
        }
        lemma_seg_start_at(d, a);
    }
}

impl Mp3Tag {
    /// The tag that scaffolding seeds for a folder: the folder's name (the
    /// final segment of its path) as the album, no artist and no year.
    pub fn from_path(path: &str) -> (r: Mp3Tag)
        ensures
            r@.artist == Option::<Seq<char>>::None,
            r@.album == Option::Some(last_segment(path@)),
            r@.year == Option::<Seq<char>>::None,
    {
        let n = path.unicode_len();
        let mut e: usize = n;
        while e > 0 && path.get_char(e - 1) == '/'
            invariant
                0 <= e <= n,
                n == path@.len(),
                forall|k: int| e <= k < n ==> path@[k] == '/',
            decreases e,
        {
            e = e - 1;
        }
        let mut a: usize = e;
        while a > 0 && path.get_char(a - 1) != '/'
            invariant
                0 <= a <= e <= n,
                n == path@.len(),
                e > 0 ==> path@[e - 1] != '/',
                forall|k: int| e <= k < n ==> path@[k] == '/',
                forall|k: int| a <= k < e ==> path@[k] != '/',
            decreases a,
        {
            a = a - 1;
        }
        proof {
            lemma_strip_trailing_at(path@, e as int);
            let q = path@.take(e as int);
            assert forall|k: int| a <= k < q.len() implies q[k] != '/' by {
                assert(q[k] == path@[k]);
            }
            if a > 0 {
                assert(q[a - 1] == path@[a - 1]);
            }
            lemma_seg_start_at(q, a as int);
            assert(q.subrange(a as int, e as int) =~= path@.subrange(a as int, e as int));
        }
        let album = String::from_str(path.substring_char(a, e));
        Mp3Tag { artist: None, album: Some(album), year: None }
    }

    /// Serializes the tag into sidecar text form.
    pub fn to_string(&self) -> (r: String)
        ensures
            r@ == serialize_spec(self@),
    {
        let mut content = String::new();
        if let Some(artist) = &self.artist {
            content.append("artist: ");
            content.append(artist.as_str());
            content.append("\n");
        }
        if let Some(album) = &self.album {
            content.append("album: ");
            content.append(album.as_str());
            content.append("\n");
        }
        if let Some(year) = &self.year {
            content.append("year: ");
            content.append(year.as_str());
            content.append("\n");
        }
        proof {
            assert(content@ =~= serialize_spec(self@));
        }
        content
    }
}

} // verus!
