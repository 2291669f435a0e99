//! Gzip compression of payloads, done by the flate2 crate.
use vstd::prelude::*;
use std::io::Write;

verus! {

/// The gzip stream flate2's `GzEncoder` writes for `data` at its fast
/// compression level, with its default header (no name, no time stamp).
pub uninterp spec fn gzip_fast(data: Seq<u8>) -> Seq<u8>;

/// Compresses `data` with `flate2::write::GzEncoder` at `Compression::fast()`
/// into a fresh `Vec`.  The stream depends on the input bytes alone and is
/// named `gzip_fast`.  Writing into a `Vec` cannot fail, and flate2's encoder
/// reports errors only for misuse of the stream, which this call never
/// makes; so the contract claims that the stream is always produced.
#[verifier::external_body]
pub(crate) fn gzip_compress(data: &[u8]) -> (r: Vec<u8>)
    ensures
        r@ == gzip_fast(data@),
{
    let mut encoder = flate2::write::GzEncoder::new(Vec::new(), flate2::Compression::fast());
    encoder.write_all(data).unwrap();
    encoder.finish().unwrap()
}

} // verus!
