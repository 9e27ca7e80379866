//! Compression of dictionary files.
use vstd::prelude::*;

use flate2::write::{DeflateEncoder, GzEncoder, ZlibEncoder};
use flate2::Compression;
use std::io::Write;

use crate::decompress::{
    decompressed, deflate_decoded, gzip_decoded, zlib_decoded, Algorithm, CompressedData,
};
use crate::error::{error_of, LinderaErrorKind};
use crate::LinderaResult;

verus! {

/// What raw DEFLATE at the default level makes of `data`.
pub uninterp spec fn deflate_encoded(data: Seq<u8>) -> Seq<u8>;

/// What zlib at the default level makes of `data`.
pub uninterp spec fn zlib_encoded(data: Seq<u8>) -> Seq<u8>;

/// What gzip at the default level makes of `data`.
pub uninterp spec fn gzip_encoded(data: Seq<u8>) -> Seq<u8>;

/// Compresses with raw DEFLATE.
///
/// Calls `flate2::write::DeflateEncoder` (default level), `write_all` and
/// `finish`; the contract claims that writing into a `Vec` does not fail,
/// that the output depends on the input alone and that inflating it gives the input back.
#[verifier::external_body]
fn deflate(data: &[u8]) -> (r: Option<Vec<u8>>)
    ensures
        r is Some,
        r matches Some(v) ==> v@ == deflate_encoded(data@) && deflate_decoded(v@) == Some(data@),
{
    let mut e = DeflateEncoder::new(Vec::new(), Compression::default());
    match e.write_all(data) {
        Ok(()) => e.finish().ok(),
        Err(_) => None,
    }
}

/// Compresses with zlib.
///
/// Calls `flate2::write::ZlibEncoder` (default level), `write_all` and
/// `finish`; the contract claims that writing into a `Vec` does not fail,
/// that the output depends on the input alone and that decoding it gives the input back.
#[verifier::external_body]
fn zlib(data: &[u8]) -> (r: Option<Vec<u8>>)
    ensures
        r is Some,
        r matches Some(v) ==> v@ == zlib_encoded(data@) && zlib_decoded(v@) == Some(data@),
{
    let mut e = ZlibEncoder::new(Vec::new(), Compression::default());
    match e.write_all(data) {
        Ok(()) => e.finish().ok(),
        Err(_) => None,
    }
}

/// Compresses with gzip.
///
/// Calls `flate2::write::GzEncoder` (default level, no file name or
/// modification time), `write_all` and `finish`; the contract claims that
/// writing into a `Vec` does not fail, that the output depends on the input
/// alone and that decoding it gives the
/// input back.
#[verifier::external_body]
fn gzip(data: &[u8]) -> (r: Option<Vec<u8>>)
    ensures
        r is Some,
        r matches Some(v) ==> v@ == gzip_encoded(data@) && gzip_decoded(v@) == Some(data@),
{
    let mut e = GzEncoder::new(Vec::new(), Compression::default());
    match e.write_all(data) {
        Ok(()) => e.finish().ok(),
        Err(_) => None,
    }
}

/// Compresses `data` with `algorithm`; raw data is copied as it is.
/// Compressing into memory does not fail.
pub fn compress(data: &[u8], algorithm: Algorithm) -> (r: LinderaResult<CompressedData>)
    ensures
        r is Ok,
        match r {
            Ok(c) => c.algorithm == algorithm && decompressed(algorithm, c.data@) == Some(data@)
                && match algorithm {
                Algorithm::Deflate => c.data@ == deflate_encoded(data@),
                Algorithm::Zlib => c.data@ == zlib_encoded(data@),
                Algorithm::Gzip => c.data@ == gzip_encoded(data@),
                Algorithm::Raw => c.data@ == data@,
            },
            Err(e) => e.kind == LinderaErrorKind::Compress && algorithm != Algorithm::Raw,
        },
{
    let out = match algorithm {
        Algorithm::Deflate => deflate(data),
        Algorithm::Zlib => zlib(data),
        Algorithm::Gzip => gzip(data),
        Algorithm::Raw => {
            let mut v: Vec<u8> = Vec::new();
            let mut i: usize = 0;
            while i < data.len()
                invariant
                    i <= data@.len(),
                    v@ == data@.take(i as int),
                decreases data@.len() - i,
            {
                v.push(data[i]);
                i += 1;
                assert(v@ =~= data@.take(i as int));
            }
            assert(data@.take(data@.len() as int) =~= data@);
            return Ok(CompressedData::new(algorithm, v));
        },
    };
    match out {
        Some(v) => Ok(CompressedData::new(algorithm, v)),
        None => Err(error_of(LinderaErrorKind::Compress, "Failed to compress data")),
    }
}

} // verus!
