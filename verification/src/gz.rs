//! Gzip decompression of dataset files.
//!
//! Every input file of a dataset directory may be stored either plain or
//! gzip-compressed; the gzip marker bytes decide which. Decompression itself
//! is delegated to the flate2 crate.

use vstd::prelude::*;
use std::io::Read;

verus! {

/// What flate2's gzip decoder yields for a byte stream: the decompressed
/// bytes, or nothing when the stream is not well-formed gzip.
pub uninterp spec fn gunzip_of(b: Seq<u8>) -> Option<Seq<u8>>;

/// Relies on flate2's `read::GzDecoder` together with `Read::read_to_end`:
/// the decompressed bytes are a function of the input bytes alone, and
/// decoding fails exactly on streams the decoder rejects.
#[verifier::external_body]
fn gunzip(b: &Vec<u8>) -> (r: Option<Vec<u8>>)
    ensures
        match r {
            Some(v) => gunzip_of(b@) == Some(v@),
            None => gunzip_of(b@) is None,
        },
{
    let mut out = Vec::new();
    let mut dec = flate2::read::GzDecoder::new(&b[..]);
    match dec.read_to_end(&mut out) {
        Ok(_) => Some(out),
        Err(_) => None,
    }
}

/// Whether the bytes begin with the gzip magic marker.
pub open spec fn is_gzip(b: Seq<u8>) -> bool {
    b.len() >= 2 && b[0] == 0x1f && b[1] == 0x8b
}

/// The plain text of a possibly compressed file: decompressed when the gzip
/// marker is present, the bytes themselves otherwise.
pub open spec fn plain_of(b: Seq<u8>) -> Option<Seq<u8>> {
    if is_gzip(b) {
        gunzip_of(b)
    } else {
        Some(b)
    }
}

/// Recover the plain text of a possibly compressed file.
pub fn decompress(b: &Vec<u8>) -> (r: Option<Vec<u8>>)
    ensures
        match r {
            Some(v) => plain_of(b@) == Some(v@),
            None => plain_of(b@) is None,
        },
{
    if b.len() >= 2 && b[0] == 0x1f && b[1] == 0x8b {
        gunzip(b)
    } else {
        Some(b.clone())
    }
}

} // verus!
