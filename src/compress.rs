use vstd::prelude::*;

use std::io::Read;

use crate::CompressionError;

verus! {

/// BZip2 compression level used for payloads.
pub const LEVEL: u32 = 9;

/// What the BZip2 encoder at `level` produces from `data`, or `None` when it fails.
pub uninterp spec fn bzip2_compressed(data: Seq<u8>, level: u32) -> Option<Seq<u8>>;

/// What the BZip2 decoder produces from the first stream in `data`, or `None` when it fails.
pub uninterp spec fn bzip2_decompressed(data: Seq<u8>) -> Option<Seq<u8>>;

/// Relies on bzip2's `read::BzEncoder` at `Compression::new(level)`, read to the end: the
/// result depends on the input bytes and level alone, is a stream that starts with the
/// header "BZh", and `read::BzDecoder` turns it back into the input.
#[verifier::external_body]
fn bzip2_encode(data: &[u8], level: u32) -> (r: Option<Vec<u8>>)
    requires
        1 <= level <= 9,
    ensures
        (match r {
            Some(v) => Some(v@),
            None => None,
        }) == bzip2_compressed(data@, level),
        r matches Some(v) ==> v@.len() > 0 && bzip2_decompressed(v@) == Some(data@),
{
    let mut out = Vec::new();
    match bzip2::read::BzEncoder::new(data, bzip2::Compression::new(level)).read_to_end(&mut out) {
        Ok(_) => Some(out),
        Err(_) => None,
    }
}

/// Relies on bzip2's `read::BzDecoder`, read to the end: the result depends on the input
/// bytes alone.
#[verifier::external_body]
fn bzip2_decode(data: &[u8]) -> (r: Option<Vec<u8>>)
    ensures
        (match r {
            Some(v) => Some(v@),
            None => None,
        }) == bzip2_decompressed(data@),
{
    let mut out = Vec::new();
    match bzip2::read::BzDecoder::new(data).read_to_end(&mut out) {
        Ok(_) => Some(out),
        Err(_) => None,
    }
}

/// The outcome of `compress` on `data`.
pub open spec fn compressed(data: Seq<u8>) -> Option<Seq<u8>> {
    if data.len() == 0 {
        None
    } else {
        bzip2_compressed(data, LEVEL)
    }
}

/// The outcome of `decompress` on `data`.
pub open spec fn decompressed(data: Seq<u8>) -> Option<Seq<u8>> {
    if data.len() == 0 {
        None
    } else {
        bzip2_decompressed(data)
    }
}

/// Compresses bytes with BZip2; empty input is refused.
pub fn compress(data: &[u8]) -> (r: Result<Vec<u8>, CompressionError>)
    ensures
        data@.len() == 0 ==> r == Err::<Vec<u8>, CompressionError>(CompressionError::EmptyData),
        data@.len() > 0 ==> match bzip2_compressed(data@, LEVEL) {
            Some(c) => r matches Ok(v) && v@ == c,
            None => r == Err::<Vec<u8>, CompressionError>(CompressionError::Compression),
        },
        (match r {
            Ok(v) => Some(v@),
            Err(_) => None,
        }) == compressed(data@),
        r matches Ok(v) ==> decompressed(v@) == Some(data@),
{
    if data.len() == 0 {
        return Err(CompressionError::EmptyData);
    }
    match bzip2_encode(data, LEVEL) {
        Some(v) => Ok(v),
        None => Err(CompressionError::Compression),
    }
}

/// Decompresses BZip2 bytes; empty input is refused.
pub fn decompress(data: &[u8]) -> (r: Result<Vec<u8>, CompressionError>)
    ensures
        data@.len() == 0 ==> r == Err::<Vec<u8>, CompressionError>(CompressionError::EmptyData),
        data@.len() > 0 ==> match bzip2_decompressed(data@) {
            Some(c) => r matches Ok(v) && v@ == c,
            None => r == Err::<Vec<u8>, CompressionError>(CompressionError::Decompression),
        },
        (match r {
            Ok(v) => Some(v@),
            Err(_) => None,
        }) == decompressed(data@),
{
    if data.len() == 0 {
        return Err(CompressionError::EmptyData);
    }
    match bzip2_decode(data) {
        Some(v) => Ok(v),
        None => Err(CompressionError::Decompression),
    }
}

} // verus!
