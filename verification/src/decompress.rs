//! Compression algorithms of dictionary files, and decompression.
use vstd::prelude::*;

use flate2::read::{DeflateDecoder, GzDecoder, ZlibDecoder};
use std::io::Read;

use crate::error::{error_of, LinderaError, LinderaErrorKind};
use crate::text::str_eq;
use crate::LinderaResult;

verus! {

/// A compression algorithm.
#[derive(Debug, Clone, Copy, PartialEq, Eq, Structural)]
pub enum Algorithm {
    /// Raw DEFLATE.
    Deflate,
    /// zlib-wrapped DEFLATE.
    Zlib,
    /// gzip-wrapped DEFLATE.
    Gzip,
    /// No compression.
    Raw,
}

/// The name of an algorithm.
pub open spec fn algorithm_name(a: Algorithm) -> Seq<char> {
    match a {
        Algorithm::Deflate => "deflate"@,
        Algorithm::Zlib => "zlib"@,
        Algorithm::Gzip => "gzip"@,
        Algorithm::Raw => "raw"@,
    }
}

impl Algorithm {
    /// All algorithms, in declaration order.
    pub fn variants() -> (r: Vec<Algorithm>)
        ensures
            r@ == seq![Algorithm::Deflate, Algorithm::Zlib, Algorithm::Gzip, Algorithm::Raw],
    {
        let mut v: Vec<Algorithm> = Vec::new();
        v.push(Algorithm::Deflate);
        v.push(Algorithm::Zlib);
        v.push(Algorithm::Gzip);
        v.push(Algorithm::Raw);
        assert(v@ =~= seq![Algorithm::Deflate, Algorithm::Zlib, Algorithm::Gzip, Algorithm::Raw]);
        v
    }

    /// The lowercase name of the algorithm.
    pub fn as_str(&self) -> (r: &'static str)
        ensures
            r@ == algorithm_name(*self),
    {
        match self {
            Algorithm::Deflate => "deflate",
            Algorithm::Zlib => "zlib",
            Algorithm::Gzip => "gzip",
            Algorithm::Raw => "raw",
        }
    }

    /// The algorithm called `input`; any other name is an algorithm error.
    pub fn from_name(input: &str) -> (r: LinderaResult<Algorithm>)
        ensures
            match r {
                Ok(a) => algorithm_name(a) == input@,
                Err(e) => e.kind == LinderaErrorKind::Algorithm && forall|a: Algorithm|
                    algorithm_name(a) != input@,
            },
    {
        if str_eq(input, "deflate") {
            Ok(Algorithm::Deflate)
        } else if str_eq(input, "zlib") {
            Ok(Algorithm::Zlib)
        } else if str_eq(input, "gzip") {
            Ok(Algorithm::Gzip)
        } else if str_eq(input, "raw") {
            Ok(Algorithm::Raw)
        } else {
            Err(error_of(LinderaErrorKind::Algorithm, "Invalid algorithm"))
        }
    }
}

impl std::str::FromStr for Algorithm {
    type Err = LinderaError;

    fn from_str(input: &str) -> (r: Result<Algorithm, LinderaError>)
        ensures
            match r {
                Ok(a) => algorithm_name(a) == input@,
                Err(e) => e.kind == LinderaErrorKind::Algorithm && forall|a: Algorithm|
                    algorithm_name(a) != input@,
            },
    {
        Algorithm::from_name(input)
    }
}

/// Data together with the algorithm that compressed it.
#[derive(Debug, Clone)]
pub struct CompressedData {
    /// The algorithm.
    pub algorithm: Algorithm,
    /// The compressed bytes.
    pub data: Vec<u8>,
}

impl CompressedData {
    /// Pairs compressed bytes with their algorithm.
    pub fn new(algorithm: Algorithm, data: Vec<u8>) -> (r: Self)
        ensures
            r.algorithm == algorithm,
            r.data@ == data@,
    {
        CompressedData { algorithm, data }
    }
}

/// What inflating raw DEFLATE data gives, or `None` when it is malformed.
pub uninterp spec fn deflate_decoded(data: Seq<u8>) -> Option<Seq<u8>>;

/// What decoding zlib data gives, or `None` when it is malformed.
pub uninterp spec fn zlib_decoded(data: Seq<u8>) -> Option<Seq<u8>>;

/// What decoding gzip data gives, or `None` when it is malformed.
pub uninterp spec fn gzip_decoded(data: Seq<u8>) -> Option<Seq<u8>>;

/// Inflates raw DEFLATE data.
///
/// Calls `flate2::read::DeflateDecoder` and reads it to the end; the
/// contract claims that the outcome depends on the input bytes alone.
#[verifier::external_body]
fn inflate_deflate(data: &[u8]) -> (r: Option<Vec<u8>>)
    ensures
        match r {
            Some(v) => deflate_decoded(data@) == Some(v@),
            None => deflate_decoded(data@) is None,
        },
{
    let mut out = Vec::new();
    match DeflateDecoder::new(data).read_to_end(&mut out) {
        Ok(_) => Some(out),
        Err(_) => None,
    }
}

/// Decodes zlib data.
///
/// Calls `flate2::read::ZlibDecoder` and reads it to the end; the contract
/// claims that the outcome depends on the input bytes alone.
#[verifier::external_body]
fn inflate_zlib(data: &[u8]) -> (r: Option<Vec<u8>>)
    ensures
        match r {
            Some(v) => zlib_decoded(data@) == Some(v@),
            None => zlib_decoded(data@) is None,
        },
{
    let mut out = Vec::new();
    match ZlibDecoder::new(data).read_to_end(&mut out) {
        Ok(_) => Some(out),
        Err(_) => None,
    }
}

/// Decodes gzip data.
///
/// Calls `flate2::read::GzDecoder` and reads it to the end; the contract
/// claims that the outcome depends on the input bytes alone.
#[verifier::external_body]
fn inflate_gzip(data: &[u8]) -> (r: Option<Vec<u8>>)
    ensures
        match r {
            Some(v) => gzip_decoded(data@) == Some(v@),
            None => gzip_decoded(data@) is None,
        },
{
    let mut out = Vec::new();
    match GzDecoder::new(data).read_to_end(&mut out) {
        Ok(_) => Some(out),
        Err(_) => None,
    }
}

/// What decompressing `data` with `algorithm` gives, or `None` when the data
/// is malformed.
pub open spec fn decompressed(algorithm: Algorithm, data: Seq<u8>) -> Option<Seq<u8>> {
    match algorithm {
        Algorithm::Deflate => deflate_decoded(data),
        Algorithm::Zlib => zlib_decoded(data),
        Algorithm::Gzip => gzip_decoded(data),
        Algorithm::Raw => Some(data),
    }
}

/// Decompresses data with the algorithm it was compressed with; raw data is
/// returned as it is, malformed data is a decompression error.
pub fn decompress(data: CompressedData) -> (r: LinderaResult<Vec<u8>>)
    ensures
        match r {
            Ok(v) => decompressed(data.algorithm, data.data@) == Some(v@),
            Err(e) => decompressed(data.algorithm, data.data@) is None && e.kind
                == LinderaErrorKind::Decompress,
        },
{
    let out = match data.algorithm {
        Algorithm::Deflate => inflate_deflate(data.data.as_slice()),
        Algorithm::Zlib => inflate_zlib(data.data.as_slice()),
        Algorithm::Gzip => inflate_gzip(data.data.as_slice()),
        Algorithm::Raw => {
            return Ok(data.data);
        },
    };
    match out {
        Some(v) => Ok(v),
        None => Err(error_of(LinderaErrorKind::Decompress, "Failed to decompress data")),
    }
}

} // verus!
