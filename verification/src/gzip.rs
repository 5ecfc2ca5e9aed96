//! The gzip envelope, behind trusted wrappers around the flate2 crate.

use vstd::prelude::*;

verus! {

/// What gzip decompression yields on a byte stream: the decompressed bytes,
/// or nothing when the stream cannot be decoded.
pub uninterp spec fn gunzip_of(b: Seq<u8>) -> Option<Seq<u8>>;

/// Relies on flate2::read::GzEncoder at the fastest compression setting: the
/// output is a gzip stream — it opens with the RFC 1952 magic number — and
/// decompressing it yields exactly the input.
#[verifier::external_body]
pub(crate) fn gzip_compress(b: &[u8]) -> (r: Vec<u8>)
    ensures
        r@.len() >= 2 && r@[0] == 0x1fu8 && r@[1] == 0x8bu8,
        gunzip_of(r@) == Some(b@),
{
    let mut e = flate2::read::GzEncoder::new(b, flate2::Compression::fast());
    let mut out: Vec<u8> = Vec::new();
    // Reading from an in-memory encoder cannot fail.
    std::io::Read::read_to_end(&mut e, &mut out).unwrap();
    out
}

/// Relies on flate2::read::GzDecoder: decompression is a pure function of
/// the input bytes, and it fails exactly on the streams it cannot decode.
#[verifier::external_body]
pub(crate) fn gzip_decompress(b: &[u8]) -> (r: Option<Vec<u8>>)
    ensures
        r is Some ==> gunzip_of(b@) == Some(r.unwrap()@),
        gunzip_of(b@) is Some ==> r is Some,
{
    let mut d = flate2::read::GzDecoder::new(b);
    let mut out: Vec<u8> = Vec::new();
    match std::io::Read::read_to_end(&mut d, &mut out) {
        Ok(_) => Some(out),
        Err(_) => None,
    }
}

} // verus!
