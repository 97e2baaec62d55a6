//! The two outside computations the ZIP side needs: CRC32 digests and raw
//! DEFLATE streams.  Each is reached through one trusted wrapper whose
//! contract names its result; everything around the calls is verified.

use vstd::prelude::*;

verus! {

/// The CRC32-IEEE digest of a byte sequence.
pub uninterp spec fn crc32_of(b: Seq<u8>) -> u32;

/// The raw DEFLATE stream that compressing a byte sequence at the default
/// level produces.
pub uninterp spec fn deflate_of(b: Seq<u8>) -> Seq<u8>;

/// Whether a byte sequence is a raw DEFLATE stream the decoder accepts.
pub uninterp spec fn inflate_ok(b: Seq<u8>) -> bool;

/// The byte sequence a valid raw DEFLATE stream decodes to.
pub uninterp spec fn inflate_of(b: Seq<u8>) -> Seq<u8>;

/// Relies on crc32fast::hash: the CRC32-IEEE digest of the input, a
/// function of those bytes alone.
#[verifier::external_body]
pub fn crc32(data: &[u8]) -> (r: u32)
    ensures
        r == crc32_of(data@),
{
    crc32fast::hash(data)
}

/// Relies on flate2's DeflateEncoder at the default level: the stream it
/// writes is a function of the input bytes alone, and writing into a
/// growable in-memory sink cannot fail, so the stream is always returned.
/// DEFLATE is lossless, so the emitted stream decodes, and decodes to the
/// input.
#[verifier::external_body]
pub fn deflate_compress(data: &[u8]) -> (r: Option<Vec<u8>>)
    ensures
        r is Some,
        r->Some_0@ == deflate_of(data@),
        inflate_ok(r->Some_0@),
        inflate_of(r->Some_0@) == data@,
{
    let mut encoder = flate2::write::DeflateEncoder::new(
        Vec::new(),
        flate2::Compression::default(),
    );
    if std::io::Write::write_all(&mut encoder, data).is_err() {
        return None;
    }
    encoder.finish().ok()
}

/// Relies on flate2's DeflateDecoder: whether a stream decodes, and what
/// it decodes to, are functions of the stream alone.  `None` exactly on
/// the streams the decoder rejects.
#[verifier::external_body]
pub fn deflate_decompress(data: &[u8]) -> (r: Option<Vec<u8>>)
    ensures
        r is Some <==> inflate_ok(data@),
        r is Some ==> r->Some_0@ == inflate_of(data@),
{
    let mut out: Vec<u8> = Vec::new();
    let mut decoder = flate2::write::DeflateDecoder::new(&mut out);
    if std::io::Write::write_all(&mut decoder, data).is_err() {
        return None;
    }
    if decoder.finish().is_err() {
        return None;
    }
    Some(out)
}

} // verus!
