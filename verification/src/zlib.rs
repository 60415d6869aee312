//! Zlib compression of object files, through the `flate2` crate.
//!
//! Decompression is named (`inflate_of`), not defined: the codec's contracts
//! only need that compressing and then decompressing gives the input back,
//! and that decompression is a function of the compressed bytes.

use vstd::prelude::*;
use std::io::Read;
use std::io::Write;

verus! {

/// What `flate2`'s zlib decoder returns on a byte sequence: the decompressed
/// bytes, or nothing if the input is not a well-formed zlib stream.
pub uninterp spec fn inflate_of(z: Seq<u8>) -> Option<Seq<u8>>;

/// Relies on `flate2::write::ZlibEncoder`: it produces a well-formed zlib
/// stream that `flate2::bufread::ZlibDecoder` decompresses back to exactly
/// the input. Writing into a `Vec` sink cannot fail.
#[verifier::external_body]
pub(crate) fn zlib_compress(data: &Vec<u8>) -> (r: Vec<u8>)
    ensures
        inflate_of(r@) == Some(data@),
{
    let mut enc = flate2::write::ZlibEncoder::new(Vec::new(), flate2::Compression::default());
    enc.write_all(data.as_slice()).expect("writing to a Vec sink cannot fail");
    enc.finish().expect("writing to a Vec sink cannot fail")
}

/// Relies on `flate2::bufread::ZlibDecoder`: reading it to the end yields the
/// decompressed stream, or an error on input that is not a well-formed zlib
/// stream; the outcome depends on the input bytes alone.
#[verifier::external_body]
pub(crate) fn zlib_decompress(z: &Vec<u8>) -> (r: Option<Vec<u8>>)
    ensures
        r matches Some(v) ==> inflate_of(z@) == Some(v@),
        r is None ==> inflate_of(z@) is None,
{
    let mut out: Vec<u8> = Vec::new();
    let mut dec = flate2::bufread::ZlibDecoder::new(z.as_slice());
    match dec.read_to_end(&mut out) {
        Ok(_) => Some(out),
        Err(_) => None,
    }
}

} // verus!
