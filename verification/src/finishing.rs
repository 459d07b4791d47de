//! How the finished track is delivered.

use vstd::prelude::*;

verus! {

pub const AAC_BITRATE: &'static str = "320k";

pub const AAC_CODER: &'static str = "fast";

pub const FLAC_COMPRESSION_LEVEL: &'static str = "0";

} // verus!
