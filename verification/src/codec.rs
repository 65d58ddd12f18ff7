//! Trusted boundary to the outside compression and checksum primitives the
//! container format needs: a zlib compressor and a CRC-32 checksum. Both are
//! pure functions of their arguments; their results are given names that the
//! encoder's contracts are stated over.

use vstd::prelude::*;

verus! {

/// The CRC-32 (IEEE) checksum of a byte sequence.
pub uninterp spec fn crc32_of(data: Seq<u8>) -> u32;

/// Relies on `crc32fast::hash`: the CRC-32/IEEE checksum of exactly the given
/// bytes, a pure function of them.
#[verifier::external_body]
pub(crate) fn crc32(data: &[u8]) -> (r: u32)
    ensures
        r == crc32_of(data@),
{
    crc32fast::hash(data)
}

/// The zlib stream a deflate compressor produces for a byte sequence at a
/// given compression level.
pub uninterp spec fn zlib_of(data: Seq<u8>, level: u8) -> Seq<u8>;

/// Relies on `miniz_oxide::deflate::compress_to_vec_zlib`: a zlib stream
/// computed from exactly the given bytes and compression level, a pure
/// function of the two.
#[verifier::external_body]
pub(crate) fn zlib_compress(data: &[u8], level: u8) -> (r: Vec<u8>)
    ensures
        r@ == zlib_of(data@, level),
{
    miniz_oxide::deflate::compress_to_vec_zlib(data, level)
}

} // verus!
