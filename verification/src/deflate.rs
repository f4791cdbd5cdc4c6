//! The calls into `flate2`.
//!
//! Nothing in this module is proved.  Each function makes one call into the
//! outside crate, and its contract says of the result only that it is the
//! value that the outside function gives for these arguments.

use std::io::Read;
use std::io::Write;
use vstd::prelude::*;

verus! {

/// The highest compression level that the compressor is asked for.
pub const MAX_LEVEL: u32 = 9;

/// What `flate2::write::DeflateEncoder` writes for `data` at `level`: a raw
/// DEFLATE stream, or nothing where the encoder reports an error.
pub uninterp spec fn deflated(data: Seq<u8>, level: u32) -> Option<Seq<u8>>;

/// What `flate2::read::DeflateDecoder` reads from the raw DEFLATE stream
/// `data`, or nothing where the decoder reports an error.
pub uninterp spec fn inflated(data: Seq<u8>) -> Option<Seq<u8>>;

/// The CRC-32 checksum that `flate2::Crc` computes of `data`.
pub uninterp spec fn crc32(data: Seq<u8>) -> u32;

/// What `flate2::read::MultiGzDecoder` reads from the gzip members in
/// `data` before the data ends or the decoder reports an error, and whether
/// the decoder reported an error other than an early end of `data`.
pub uninterp spec fn gunzipped(data: Seq<u8>) -> (Seq<u8>, bool);

/// Compresses `data` with `flate2::write::DeflateEncoder` into a raw DEFLATE
/// stream, without a zlib or gzip wrapper.
///
/// Trusted: the result is what the encoder writes for these arguments, and
/// `flate2::read::DeflateDecoder` reads `data` back from it.
#[verifier::external_body]
pub(crate) fn deflate(data: &[u8], level: u32) -> (out: Option<Vec<u8>>)
    requires
        level <= MAX_LEVEL,
    ensures
        out matches Some(stream) ==> deflated(data@, level) == Some(stream@) && inflated(stream@)
            == Some(data@),
        out is None ==> deflated(data@, level) is None,
{
    let mut encoder = flate2::write::DeflateEncoder::new(
        Vec::new(),
        flate2::Compression::new(level),
    );
    match encoder.write_all(data) {
        Ok(()) => match encoder.finish() {
            Ok(stream) => Some(stream),
            Err(_) => None,
        },
        Err(_) => None,
    }
}

/// Decompresses the raw DEFLATE stream `data` with
/// `flate2::read::DeflateDecoder`.
///
/// Trusted: the result is what the decoder reads from `data`, and nothing
/// where it reports an error.
#[verifier::external_body]
pub(crate) fn inflate(data: &[u8]) -> (out: Option<Vec<u8>>)
    ensures
        out matches Some(payload) ==> inflated(data@) == Some(payload@),
        out is None ==> inflated(data@) is None,
{
    let mut payload = Vec::new();
    match flate2::read::DeflateDecoder::new(data).read_to_end(&mut payload) {
        Ok(_) => Some(payload),
        Err(_) => None,
    }
}

/// Computes the CRC-32 checksum of `data` with `flate2::Crc`.
///
/// Trusted: the result is the sum that `flate2::Crc` reports after one
/// update with `data`.
#[verifier::external_body]
pub(crate) fn checksum(data: &[u8]) -> (sum: u32)
    ensures
        sum == crc32(data@),
{
    let mut crc = flate2::Crc::new();
    crc.update(data);
    crc.sum()
}

/// Decompresses the gzip members in `data` with
/// `flate2::read::MultiGzDecoder`, keeping what was read when the decoder
/// stops at an error.
///
/// Trusted: the result holds the bytes that the decoder hands out for
/// `data` before it ends or fails, and tells whether it failed with an
/// error other than `UnexpectedEof`.
#[verifier::external_body]
pub(crate) fn gunzip(data: &[u8]) -> (out: (Vec<u8>, bool))
    ensures
        (out.0@, out.1) == gunzipped(data@),
{
    let mut plain = Vec::new();
    let corrupt = match flate2::read::MultiGzDecoder::new(data).read_to_end(&mut plain) {
        Ok(_) => false,
        Err(e) => e.kind() != std::io::ErrorKind::UnexpectedEof,
    };
    (plain, corrupt)
}

} // verus!
