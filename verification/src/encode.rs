//! The encode pipeline: turning one normalized sample buffer into an MP3
//! byte stream with its ID3 metadata, and deriving where the output file
//! belongs.
//!
//! The LAME encoder itself is an outside collaborator; every call into it
//! goes through a trusted wrapper whose contract states what the crate's
//! own source shows. Everything around the calls — the effective tag
//! fields, the output-buffer sizing step, the encode-then-finalize
//! protocol, and the output path — is verified.

use vstd::prelude::*;

use crate::scan::opt_tag_view;
use crate::tag::{first_at, lemma_first_at_is, seg_start, Mp3Tag, TagView};

verus! {

/// What went wrong in the pipeline; every kind aborts the run.
#[derive(Clone, Copy, Debug, PartialEq, Eq, Structural)]
pub enum PipelineError {
    /// LAME rejected a configuration step or could not be set up.
    EncoderSetup,
    /// The encode call failed.
    EncodeFailed,
    /// The finalizing flush call failed.
    FlushFailed,
}

#[verifier::external_type_specification]
#[verifier::external_body]
pub struct ExEncoder(mp3lame_encoder::Encoder);

#[verifier::external_type_specification]
#[verifier::external_body]
pub struct ExEncodeError(mp3lame_encoder::EncodeError);

/// Relies on mp3lame_encoder's Builder: allocates a LAME encoder configured
/// with the given channel count and input sample rate, 192 kbps constant
/// bitrate, best quality, and the given ID3 text fields; None when
/// allocation fails or LAME rejects a step. The bitrate and quality are the
/// crate's own enum values and so stay inside this body.
#[verifier::external_body]
fn lame_build_encoder(
    channels: u8,
    sample_rate: u32,
    title: &str,
    artist: &str,
    album: &str,
    year: &str,
    comment: &str,
) -> Option<mp3lame_encoder::Encoder> {
    let id3 = mp3lame_encoder::Id3Tag {
        title: title.as_bytes(),
        artist: artist.as_bytes(),
        album: album.as_bytes(),
        album_art: &[],
        year: year.as_bytes(),
        comment: comment.as_bytes(),
    };
    let b = mp3lame_encoder::Builder::new()?;
    let b = b.with_num_channels(channels).ok()?;
    let b = b.with_sample_rate(sample_rate).ok()?;
    let b = b.with_brate(mp3lame_encoder::Bitrate::Kbps192).ok()?;
    let b = b.with_quality(mp3lame_encoder::Quality::Best).ok()?;
    let b = b.with_id3_tag(id3).ok()?;
    b.build().ok()
}

/// Relies on mp3lame_encoder::Encoder::encode_to_vec: encodes the buffer as
/// channel-interleaved PCM into the spare capacity of `out`; on success the
/// returned count is the number of MP3 bytes appended after the bytes
/// already there, and on failure `out` is unchanged. The interleaved input
/// must pair up: the crate asserts an even sample count in debug builds, so
/// an odd-length buffer is excluded here.
#[verifier::external_body]
fn lame_encode(
    enc: &mut mp3lame_encoder::Encoder,
    samples: &[u16],
    out: &mut Vec<u8>,
) -> (r: Result<usize, mp3lame_encoder::EncodeError>)
    requires
        samples@.len() % 2 == 0,
    ensures
        match r {
            Ok(n) => final(out)@.len() == old(out)@.len() + n && final(out)@.subrange(
                0,
                old(out)@.len() as int,
            ) == old(out)@,
            Err(_) => final(out)@ == old(out)@,
        },
{
    enc.encode_to_vec(mp3lame_encoder::InterleavedPcm(samples), out)
}

/// Relies on mp3lame_encoder::Encoder::flush_to_vec with FlushNoGap: the
/// finalizing call signalling that no further audio follows; on success the
/// returned count is the number of MP3 bytes appended after the bytes
/// already there, and on failure `out` is unchanged.
#[verifier::external_body]
fn lame_flush(enc: &mut mp3lame_encoder::Encoder, out: &mut Vec<u8>) -> (r: Result<
    usize,
    mp3lame_encoder::EncodeError,
>)
    ensures
        match r {
            Ok(n) => final(out)@.len() == old(out)@.len() + n && final(out)@.subrange(
                0,
                old(out)@.len() as int,
            ) == old(out)@,
            Err(_) => final(out)@ == old(out)@,
        },
{
    enc.flush_to_vec::<mp3lame_encoder::FlushNoGap>(out)
}

/// The encoder's own worst-case output sizing contract: the sample count
/// plus a quarter of it rounded up, plus one 7200-byte frame.
pub open spec fn max_buffer_size_spec(n: int) -> int {
    n + (if n % 4 > 0 {
        n / 4 + 1
    } else {
        n / 4
    }) + 7200
}

/// Relies on mp3lame_encoder::max_required_buffer_size, whose source
/// computes exactly [`max_buffer_size_spec`] when it does not wrap.
#[verifier::external_body]
fn lame_max_buffer_size(n: usize) -> (r: usize)
    requires
        max_buffer_size_spec(n as int) <= usize::MAX,
    ensures
        r as int == max_buffer_size_spec(n as int),
{
    mp3lame_encoder::max_required_buffer_size(n)
}

/// The text a missing field contributes to the ID3 tag: nothing.
pub open spec fn field_or_empty(v: Option<Seq<char>>) -> Seq<char> {
    match v {
        Option::Some(s) => s,
        Option::None => Seq::<char>::empty(),
    }
}

/// The artist, album and year a folder's tag contributes to every track
/// encoded in it: the field's text when present, the empty string when the
/// field or the whole tag is absent.
pub open spec fn effective_fields(t: Option<TagView>) -> (Seq<char>, Seq<char>, Seq<char>) {
    match t {
        Option::Some(tv) => (
            field_or_empty(tv.artist),
            field_or_empty(tv.album),
            field_or_empty(tv.year),
        ),
        Option::None => (Seq::<char>::empty(), Seq::<char>::empty(), Seq::<char>::empty()),
    }
}

/// The ID3 text fields for a folder's tag, artist then album then year.
pub fn tag_fields(tag: &Option<Mp3Tag>) -> (r: (String, String, String))
    ensures
        (r.0@, r.1@, r.2@) == effective_fields(opt_tag_view(*tag)),
{
    match tag {
        Some(t) => {
            let artist = match &t.artist {
                Some(s) => s.clone(),
                None => String::new(),
            };
            let album = match &t.album {
                Some(s) => s.clone(),
                None => String::new(),
            };
            let year = match &t.year {
                Some(s) => s.clone(),
                None => String::new(),
            };
            (artist, album, year)
        },
        None => (String::new(), String::new(), String::new()),
    }
}

/// The per-folder output directory: an `aiff2mp3` subdirectory under the
/// folder's own path, created before any file in the folder is converted.
pub fn mp3_subdir(folder_path: &str) -> (r: String)
    ensures
        r@ == folder_path@ + "/aiff2mp3"@,
{
    let mut s = String::from_str(folder_path);
    s.append("/aiff2mp3");
    s
}

/// Where a track's MP3 belongs: the end of the stem of the file's name —
/// everything before the first `.` that does not begin the name.
pub open spec fn stem_end(name: Seq<char>) -> int {
    if name.len() == 0 {
        0
    } else {
        1 + first_at(name.skip(1), '.')
    }
}

/// The output path for a source file: an `aiff2mp3` directory beside the
/// file, holding the file's stem with an `.mp3` extension.
pub open spec fn output_path_spec(p: Seq<char>) -> Seq<char> {
    let dir = p.take(seg_start(p) - 1);
    let name = p.skip(seg_start(p));
    dir + "/aiff2mp3/"@ + name.take(stem_end(name)) + ".mp3"@
}

/// Derives the output path `<dir>/aiff2mp3/<stem>.mp3` for a source file
/// `<dir>/<name>`. The path must name a file inside a directory: it has a
/// separator, and does not end with one.
pub fn output_path(p: &str) -> (r: String)
    requires
        0 < seg_start(p@) < p@.len(),
    ensures
        r@ == output_path_spec(p@),
{
    let n = p.unicode_len();
    let mut a: usize = n;
    while a > 0 && p.get_char(a - 1) != '/'
        invariant
            0 <= a <= n,
            n == p@.len(),
            forall|k: int| a <= k < n ==> p@[k] != '/',
        decreases a,
    {
        a = a - 1;
    }
    proof {
        crate::tag::lemma_seg_start_at(p@, a as int);
    }
    let mut j = a + 1;
    while j < n && p.get_char(j) != '.'
        invariant
            a + 1 <= j <= n,
            n == p@.len(),
            forall|k: int| a + 1 <= k < j ==> p@[k] != '.',
        decreases n - j,
    {
        j = j + 1;
    }
    proof {
        let name = p@.skip(a as int);
        let tail = name.skip(1);
        assert forall|k: int| 0 <= k < j - a - 1 implies tail[k] != '.' by {
            assert(tail[k] == p@[a + 1 + k]);
        }
        if j < n {
            assert(tail[j - a - 1] == p@[j as int]);
        }
        lemma_first_at_is(tail, '.', j - a - 1);
        assert(name.take(stem_end(name)) =~= p@.subrange(a as int, j as int));
        assert(p@.take(a as int - 1) =~= p@.subrange(0, a as int - 1));
    }
    let mut out = String::from_str(p.substring_char(0, a - 1));
    out.append("/aiff2mp3/");
    out.append(p.substring_char(a, j));
    out.append(".mp3");
    proof {
        assert(out@ =~= output_path_spec(p@));
    }
    out
}

/// The file's name — the final segment of its path — which the encoder
/// embeds as the track's ID3 title.
pub fn track_title(p: &str) -> (r: String)
    requires
        0 < seg_start(p@) < p@.len(),
    ensures
        r@ == p@.skip(seg_start(p@)),
{
    let n = p.unicode_len();
    let mut a: usize = n;
    while a > 0 && p.get_char(a - 1) != '/'
        invariant
            0 <= a <= n,
            n == p@.len(),
            forall|k: int| a <= k < n ==> p@[k] != '/',
        decreases a,
    {
        a = a - 1;
    }
    proof {
        crate::tag::lemma_seg_start_at(p@, a as int);
        assert(p@.subrange(a as int, n as int) =~= p@.skip(a as int));
    }
    String::from_str(p.substring_char(a, n))
}

/// Encodes one track: builds a LAME encoder for interleaved stereo at
/// 44.1 kHz carrying the folder tag's effective fields and the file's name
/// as the title, sizes the output buffer by the encoder's own worst-case
/// formula, performs one encode call and one finalizing flush, and returns
/// the output path together with the concatenated MP3 bytes. A trailing
/// unpaired sample is dropped before the encode call, as the encoder's
/// pairwise interleaved input cannot carry it. Each failing stage reports
/// its own error kind.
pub fn encode_track(p: &str, tag: &Option<Mp3Tag>, samples: &Vec<u16>) -> (r: Result<
    (String, Vec<u8>),
    PipelineError,
>)
    requires
        0 < seg_start(p@) < p@.len(),
    ensures
        (r matches Ok(ok) ==> ok.0@ == output_path_spec(p@)),
{
    let fields = tag_fields(tag);
    let title = track_title(p);
    let mut enc = match lame_build_encoder(
        2,
        44_100,
        title.as_str(),
        fields.0.as_str(),
        fields.1.as_str(),
        fields.2.as_str(),
        "Created by aiff2mp3",
    ) {
        Some(e) => e,
        None => {
            return Err(PipelineError::EncoderSetup);
        },
    };
    let mut out: Vec<u8> = Vec::new();
    let pairs = samples.len() / 2;
    let cap = lame_max_buffer_size(pairs);
    out.reserve(cap);
    let pcm = vstd::slice::slice_subrange(samples.as_slice(), 0, pairs * 2);
    if lame_encode(&mut enc, pcm, &mut out).is_err() {
        return Err(PipelineError::EncodeFailed);
    }
    if lame_flush(&mut enc, &mut out).is_err() {
        return Err(PipelineError::FlushFailed);
    }
    let path = output_path(p);
    Ok((path, out))
}

} // verus!
