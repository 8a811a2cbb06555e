//! Compression of file content for transfer: raw DEFLATE at the default
//! level.

use vstd::prelude::*;

verus! {

/// What the DEFLATE encoder makes of `input` at the default level: the
/// compressed stream, or `None` where the encoder reports an error.
pub uninterp spec fn deflated(input: Seq<u8>) -> Option<Seq<u8>>;

/// What the DEFLATE decoder makes of `input`: the content that the stream
/// holds, or `None` where `input` is no complete, well-formed stream.
pub uninterp spec fn inflated(input: Seq<u8>) -> Option<Seq<u8>>;

/// The bytes of an optional buffer.
pub open spec fn bytes_of(v: Option<Vec<u8>>) -> Option<Seq<u8>> {
    match v {
        Some(b) => Some(b@),
        None => None,
    }
}

/// `flate2::write::DeflateEncoder` over a `Vec`, at `Compression::default()`:
/// all of `input` is written and the stream finished. The result depends on
/// `input` alone.
#[verifier::external_body]
fn deflate(input: &[u8]) -> (r: Option<Vec<u8>>)
    ensures
        bytes_of(r) == deflated(input@),
{
    let mut encoder = flate2::write::DeflateEncoder::new(Vec::new(), flate2::Compression::default());
    match std::io::Write::write_all(&mut encoder, input) {
        Ok(()) => encoder.finish().ok(),
        Err(_) => None,
    }
}

/// `flate2::read::DeflateDecoder` over `input`, read to its end. The result
/// depends on `input` alone; a corrupt or incomplete stream is an error.
#[verifier::external_body]
fn inflate(input: &[u8]) -> (r: Option<Vec<u8>>)
    ensures
        bytes_of(r) == inflated(input@),
{
    let mut decoder = flate2::read::DeflateDecoder::new(input);
    let mut output = Vec::new();
    match std::io::Read::read_to_end(&mut decoder, &mut output) {
        Ok(_) => Some(output),
        Err(_) => None,
    }
}

/// Compresses `input`. `None` where the encoder fails.
pub fn compress_bytes(input: &[u8]) -> (r: Option<Vec<u8>>)
    ensures
        bytes_of(r) == deflated(input@),
{
    deflate(input)
}

/// Decompresses `input`. `None` where `input` is no complete, well-formed
/// compressed stream.
pub fn decompress_bytes(input: &[u8]) -> (r: Option<Vec<u8>>)
    ensures
        bytes_of(r) == inflated(input@),
{
    inflate(input)
}

} // verus!
