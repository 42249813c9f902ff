//! Batch conversion of AIFF directory trees to MP3: sidecar tag codec,
//! folder classification, sample normalization, and the encode pipeline.

pub mod encode;
pub mod normalize;
pub mod scan;
pub mod tag;

use vstd::prelude::*;

verus! {

} // verus!
