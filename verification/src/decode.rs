use vstd::prelude::*;
use vstd::slice::{slice_index_get, slice_to_vec};
use crate::WaveError;

verus! {

// Compression is recognized by signature sniffing alone: the leading bytes
// decide, never a file name. Two container formats are known, gzip and
// zlib; anything else is taken as already-plain text.

/// The two-byte gzip signature.
pub open spec fn is_gzip_magic(b: Seq<u8>) -> bool {
    b.len() >= 2 && b[0] == 0x1f && b[1] == 0x8b
}

/// The three common zlib header pairs: no, default and best compression.
pub open spec fn is_zlib_magic(b: Seq<u8>) -> bool {
    b.len() >= 2 && b[0] == 0x78 && (b[1] == 0x01 || b[1] == 0x9c || b[1] == 0xda)
}

/// What a full gzip decode of these bytes yields, if they form a well-formed
/// (possibly multi-member) gzip stream; the result depends on the bytes alone.
pub uninterp spec fn gzip_inflate(b: Seq<u8>) -> Option<Seq<u8>>;

/// What a full zlib decode of these bytes yields, if they form a well-formed
/// zlib stream; the result depends on the bytes alone.
pub uninterp spec fn zlib_inflate(b: Seq<u8>) -> Option<Seq<u8>>;

/// The decoded form of the bytes: inflated when a signature matches,
/// untouched otherwise; nothing when a matched stream is corrupt.
pub open spec fn decoded(b: Seq<u8>) -> Option<Seq<u8>> {
    if is_gzip_magic(b) {
        gzip_inflate(b)
    } else if is_zlib_magic(b) {
        zlib_inflate(b)
    } else {
        Some(b)
    }
}

/// Bytes that no known signature opens pass through decoding unchanged:
/// plain text is read as it stands, whatever name its file carried.
pub proof fn lemma_plain_passthrough(b: Seq<u8>)
    requires
        !is_gzip_magic(b),
        !is_zlib_magic(b),
    ensures
        decoded(b) == Some(b),
{
}

/// Relies on flate2::read::MultiGzDecoder with Read::read_to_end: it fully
/// inflates a gzip stream, concatenated members included, and fails on a
/// corrupt one; the outcome is a function of the bytes alone.
#[verifier::external_body]
fn gunzip(bytes: &[u8]) -> (r: Option<Vec<u8>>)
    ensures
        match r {
            Some(v) => gzip_inflate(bytes@) == Some(v@),
            None => gzip_inflate(bytes@) is None,
        },
{
    let mut d = flate2::read::MultiGzDecoder::new(bytes);
    let mut out = Vec::new();
    match std::io::Read::read_to_end(&mut d, &mut out) {
        Ok(_) => Some(out),
        Err(_) => None,
    }
}

/// Relies on flate2::read::ZlibDecoder with Read::read_to_end: it fully
/// inflates a zlib stream and fails on a corrupt one; the outcome is a
/// function of the bytes alone.
#[verifier::external_body]
fn zlib_decode(bytes: &[u8]) -> (r: Option<Vec<u8>>)
    ensures
        match r {
            Some(v) => zlib_inflate(bytes@) == Some(v@),
            None => zlib_inflate(bytes@) is None,
        },
{
    let mut d = flate2::read::ZlibDecoder::new(bytes);
    let mut out = Vec::new();
    match std::io::Read::read_to_end(&mut d, &mut out) {
        Ok(_) => Some(out),
        Err(_) => None,
    }
}

/// Decompress raw bytes if a known signature opens them, else pass them
/// through; a matched but corrupt stream is a hard failure, never read as
/// plain text.
pub fn decode(bytes: &[u8]) -> (r: Result<Vec<u8>, WaveError>)
    ensures
        match r {
            Ok(v) => decoded(bytes@) == Some(v@),
            Err(e) => e == WaveError::Decompression && decoded(bytes@) is None,
        },
{
    if bytes.len() >= 2 && *slice_index_get(bytes, 0) == 0x1f && *slice_index_get(bytes, 1)
        == 0x8b {
        match gunzip(bytes) {
            Some(v) => Ok(v),
            None => Err(WaveError::Decompression),
        }
    } else if bytes.len() >= 2 && *slice_index_get(bytes, 0) == 0x78 && {
        let b1 = *slice_index_get(bytes, 1);
        b1 == 0x01 || b1 == 0x9c || b1 == 0xda
    } {
        match zlib_decode(bytes) {
            Some(v) => Ok(v),
            None => Err(WaveError::Decompression),
        }
    } else {
        Ok(slice_to_vec(bytes))
    }
}

} // verus!
