//! Sample normalization: decoded AIFF samples arrive in several native
//! numeric encodings and are bridged into the one representation the
//! encoder consumes, an unsigned 16-bit value per sample.
//!
//! The bridge is the plain numeric cast of each sample's raw value,
//! truncating — deliberately not an audio-domain rescaling across widths,
//! signedness or float range. That reproduces the conversion's observed
//! behaviour; whether it is the acoustically intended one is an open
//! question of the design, so it is pinned down here rather than corrected.

use vstd::prelude::*;

verus! {

/// One decoded sample with its native encoding. Floating-point samples
/// (32- and 64-bit) arrive with the plain numeric cast to unsigned 16-bit
/// already taken by the decoding caller, since the cast of a float value is
/// outside what is verified here; the variant records which encoding the
/// value came from.
#[derive(Clone, Copy, Debug, PartialEq, Eq)]
pub enum DecodedSample {
    U8(u8),
    I8(i8),
    I16(i16),
    I24(i32),
    I32(i32),
    F32Cast(u16),
    F64Cast(u16),
}

/// The normalized value of one sample: the truncating numeric cast of its
/// raw value to unsigned 16-bit.
pub open spec fn norm_sample(s: DecodedSample) -> u16 {
    match s {
        DecodedSample::U8(v) => v as u16,
        DecodedSample::I8(v) => v as u16,
        DecodedSample::I16(v) => v as u16,
        DecodedSample::I24(v) => v as u16,
        DecodedSample::I32(v) => v as u16,
        DecodedSample::F32Cast(v) => v,
        DecodedSample::F64Cast(v) => v,
    }
}

/// The normalized buffer: one value per input sample, in order.
pub open spec fn normalize_spec(ss: Seq<DecodedSample>) -> Seq<u16> {
    ss.map_values(|s: DecodedSample| norm_sample(s))
}

/// Normalizes a decoded sample sequence into the encoder's input
/// representation. The output holds exactly one value per input sample, in
/// input order: the samplewise truncating cast.
pub fn normalize(samples: &Vec<DecodedSample>) -> (r: Vec<u16>)
    ensures
        r@ == normalize_spec(samples@),
        r@.len() == samples@.len(),
{
    let mut out: Vec<u16> = Vec::new();
    let n = samples.len();
    let mut i: usize = 0;
    while i < n
        invariant
            0 <= i <= n,
            n == samples@.len(),
            out@.len() == i,
            forall|k: int| 0 <= k < i ==> out@[k] == norm_sample(samples@[k]),
        decreases n - i,
    {
        let v = match samples[i] {
            DecodedSample::U8(v) => v as u16,
            DecodedSample::I8(v) => #[verifier::truncate] (v as u16),
            DecodedSample::I16(v) => #[verifier::truncate] (v as u16),
            DecodedSample::I24(v) => #[verifier::truncate] (v as u16),
            DecodedSample::I32(v) => #[verifier::truncate] (v as u16),
            DecodedSample::F32Cast(v) => v,
            DecodedSample::F64Cast(v) => v,
        };
        out.push(v);
        i = i + 1;
    }
    proof {
        assert(out@ =~= normalize_spec(samples@));
    }
    out
}

} // verus!
