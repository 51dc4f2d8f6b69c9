//! DEFLATE compression and decompression of a buffer, and the benchmark round trip that
//! checks one against the other.

use vstd::prelude::*;
use miniz_oxide::deflate::compress_to_vec;
use miniz_oxide::inflate::{decompress_to_vec, DecompressError};
use crate::bench::{verify_data, VerifyError};

verus! {

#[verifier::external_type_specification]
#[verifier::external_body]
pub struct ExDecompressError(DecompressError);

/// The compression level of the benchmark.
pub const COMPRESSION_LEVEL: u8 = 7;

/// The raw DEFLATE stream that `miniz_oxide` makes of `data` at compression `level`.
pub uninterp spec fn deflate_of(data: Seq<u8>, level: u8) -> Seq<u8>;

/// What `miniz_oxide` decompresses the raw DEFLATE stream `data` to; `None` where it
/// reports an error.
pub uninterp spec fn inflate_of(data: Seq<u8>) -> Option<Seq<u8>>;

/// Calls `miniz_oxide::deflate::compress_to_vec`. Trusted: the result is the crate's
/// DEFLATE stream of `data` at `level` (named `deflate_of`), and decompressing it gives
/// `data` back.
#[verifier::external_body]
fn deflate(data: &[u8], level: u8) -> (c: Vec<u8>)
    ensures
        c@ == deflate_of(data@, level),
        inflate_of(c@) == Some(data@),
{
    compress_to_vec(data, level)
}

/// Calls `miniz_oxide::inflate::decompress_to_vec`. Trusted: on success the result is what
/// the crate decompresses `data` to, and it fails exactly where that is `None` (named
/// `inflate_of`). What the error holds (status and partial output) is left unsaid.
#[verifier::external_body]
fn inflate(data: &[u8]) -> (res: Result<Vec<u8>, DecompressError>)
    ensures
        match res {
            Ok(v) => inflate_of(data@) == Some(v@),
            Err(_) => inflate_of(data@) is None,
        },
{
    decompress_to_vec(data)
}

/// Why a round trip through compression fails.
#[derive(Debug, Clone, Copy, PartialEq, Eq, Structural)]
pub enum RoundTripError {
    /// The compressed stream could not be decompressed.
    Corrupt,
    /// The decompressed data differs from the data that was compressed.
    Mismatch(VerifyError),
}

/// Compresses `data` at the benchmark's compression level.
pub fn compress(data: &[u8]) -> (c: Vec<u8>)
    ensures
        c@ == deflate_of(data@, COMPRESSION_LEVEL),
        inflate_of(c@) == Some(data@),
{
    deflate(data, COMPRESSION_LEVEL)
}

/// Decompresses the raw DEFLATE stream `data`.
pub fn decompress(data: &[u8]) -> (res: Result<Vec<u8>, RoundTripError>)
    ensures
        match res {
            Ok(v) => inflate_of(data@) == Some(v@),
            Err(e) => inflate_of(data@) is None && e == RoundTripError::Corrupt,
        },
{
    match inflate(data) {
        Ok(v) => Ok(v),
        Err(_) => Err(RoundTripError::Corrupt),
    }
}

/// One round of the compression benchmark: compresses `data`, decompresses the result,
/// checks it against `data`, and gives the compressed size.
pub fn compress_round_trip(data: &[u8]) -> (res: Result<usize, RoundTripError>)
    ensures
        res == Ok::<usize, RoundTripError>(deflate_of(data@, COMPRESSION_LEVEL).len() as usize),
{
    let compressed = compress(data);
    let decompressed = match decompress(compressed.as_slice()) {
        Ok(v) => v,
        Err(e) => {
            return Err(e);
        },
    };
    match verify_data(decompressed.as_slice(), data) {
        Ok(()) => Ok(compressed.len()),
        Err(e) => {
            proof {
                if let VerifyError::Mismatch { index } = e {
                    assert(decompressed@[index as int] == data@[index as int]);
                }
            }
            Err(RoundTripError::Mismatch(e))
        },
    }
}

} // verus!
