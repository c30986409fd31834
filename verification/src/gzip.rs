//! Gzip compression of finished files.
use flate2::write::GzEncoder;
use flate2::Compression;
use std::io::Write;
use vstd::prelude::*;

verus! {

/// The error of std's writers.
#[verifier::external_type_specification]
#[verifier::external_body]
pub struct ExIoError(std::io::Error);

/// What [`flate2::write::GzEncoder`] makes of `raw` at the default compression
/// level, where it succeeds.
pub uninterp spec fn gzipped(raw: Seq<u8>) -> Option<Seq<u8>>;

/// A gzip member's ten-byte header: deflate, no flags, no time, unknown system.
pub open spec fn gzip_header() -> Seq<u8> {
    seq![0x1fu8, 0x8bu8, 8u8, 0u8, 0u8, 0u8, 0u8, 0u8, 0u8, 255u8]
}

/// Compress `raw` into one gzip member with [`flate2::write::GzEncoder`].
///
/// Taken on trust: the outcome depends on `raw` alone and is called
/// [`gzipped`]; a success begins with the header that the encoder writes when it
/// is not configured further, and is followed by at least the eight bytes of its
/// trailer. How the bytes between are chosen is not stated.
#[verifier::external_body]
pub(crate) fn gzip(raw: &Vec<u8>) -> (r: Result<Vec<u8>, std::io::Error>)
    ensures
        match r {
            Ok(v) => gzipped(raw@) == Some(v@) && v@.len() >= 18 && v@.take(10) == gzip_header(),
            Err(_) => gzipped(raw@) is None,
        },
{
    let mut enc = GzEncoder::new(Vec::new(), Compression::default());
    enc.write_all(raw)?;
    enc.finish()
}

} // verus!
