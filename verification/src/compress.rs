//! The byte-stream compressor behind chunk and index blobs, taken from
//! flate2 behind trusted wrappers. Decompression is a pure function of the
//! compressed bytes, named here; compression promises only that its output
//! decompresses back to its input.

use vstd::prelude::*;

verus! {

/// What DEFLATE decompression yields on a byte sequence: the decompressed
/// bytes, or nothing when the sequence is not a well-formed stream.
pub uninterp spec fn inflate_of(b: Seq<u8>) -> Option<Seq<u8>>;

/// Relies on flate2's `write::DeflateEncoder` at `Compression::best`:
/// DEFLATE is lossless, so decompressing the encoder's output yields
/// exactly the input bytes. Nothing else is assumed of the output.
#[verifier::external_body]
pub fn deflate_compress(b: &Vec<u8>) -> (r: Option<Vec<u8>>)
    ensures
        match r {
            Some(c) => inflate_of(c@) == Some(b@),
            None => true,
        },
{
    let mut enc = flate2::write::DeflateEncoder::new(Vec::new(), flate2::Compression::best());
    match std::io::Write::write_all(&mut enc, b.as_slice()) {
        Ok(()) => match enc.finish() {
            Ok(c) => Some(c),
            Err(_) => None,
        },
        Err(_) => None,
    }
}

/// Relies on flate2's `read::DeflateDecoder`: decompression reads the
/// whole stream and is deterministic in its input bytes; it fails exactly
/// on input that is not a well-formed stream.
#[verifier::external_body]
pub fn deflate_decompress(b: &Vec<u8>) -> (r: Option<Vec<u8>>)
    ensures
        match r {
            Some(v) => inflate_of(b@) == Some(v@),
            None => inflate_of(b@) is None,
        },
{
    let mut dec = flate2::read::DeflateDecoder::new(b.as_slice());
    let mut out: Vec<u8> = Vec::new();
    match std::io::Read::read_to_end(&mut dec, &mut out) {
        Ok(_) => Some(out),
        Err(_) => None,
    }
}

} // verus!
