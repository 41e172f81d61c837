//! Deflate compression in the zlib format, by flate2 at its best level or by zopfli.

use vstd::prelude::*;
use std::io::Write;

verus! {

/// The zlib stream that flate2's encoder writes for `data` at `Compression::best()`.
pub uninterp spec fn zlib_best(data: Seq<u8>) -> Seq<u8>;

/// The zlib stream that zopfli writes for `data` with `iterations` iterations
/// and its other options at their defaults.
pub uninterp spec fn zopfli_zlib(data: Seq<u8>, iterations: u64) -> Seq<u8>;

/// Compresses `data` into a zlib stream with `flate2::write::ZlibEncoder` at
/// `Compression::best()` (writing into a `Vec` cannot fail). The contract
/// names the stream `zlib_best` of the data and says nothing of its bytes.
#[verifier::external_body]
pub fn compress_zlib(data: &[u8]) -> (out: Vec<u8>)
    ensures
        out@ == zlib_best(data@),
{
    let mut encoder = flate2::write::ZlibEncoder::new(Vec::new(), flate2::Compression::best());
    encoder.write_all(data).unwrap();
    encoder.finish().unwrap()
}

/// Compresses `data` into a zlib stream with `zopfli::compress`, `iterations`
/// iterations and the other options at their defaults (writing into a `Vec`
/// cannot fail). The contract names the stream `zopfli_zlib` of the data and
/// the count, and says nothing of its bytes.
#[verifier::external_body]
fn zopfli_compress(data: &[u8], iterations: u64) -> (out: Vec<u8>)
    requires
        iterations > 0,
    ensures
        out@ == zopfli_zlib(data@, iterations),
{
    let options = zopfli::Options {
        iteration_count: std::num::NonZeroU64::new(iterations).unwrap(),
        ..Default::default()
    };
    let mut out = Vec::new();
    zopfli::compress(options, zopfli::Format::Zlib, data, &mut out).unwrap();
    out
}

/// The iteration count that zopfli runs with: the one asked for, or 15 when 0 is asked for.
pub open spec fn zopfli_iterations(iterations: u32) -> u64 {
    if iterations == 0 { 15 } else { iterations as u64 }
}

/// Compresses `data` with zopfli into a zlib stream; 0 iterations means 15.
pub fn compress_zopfli(data: &[u8], iterations: u32) -> (out: Vec<u8>)
    ensures
        out@ == zopfli_zlib(data@, zopfli_iterations(iterations)),
{
    let count: u64 = if iterations == 0 { 15 } else { iterations as u64 };
    zopfli_compress(data, count)
}

/// The stream that `compress_data` produces: method 2 is zopfli, every other
/// method is zlib at its best level.
pub open spec fn compressed(data: Seq<u8>, method: u8, iterations: u32) -> Seq<u8> {
    if method == 2 { zopfli_zlib(data, zopfli_iterations(iterations)) } else { zlib_best(data) }
}

/// Compresses `data` with the given method: 0 zlib, 1 zlib (the 7-zip
/// deflater's stand-in), 2 zopfli with `iterations`, anything else zlib.
pub fn compress_data(data: &[u8], method: u8, iterations: u32) -> (out: Vec<u8>)
    ensures
        out@ == compressed(data@, method, iterations),
{
    match method {
        0 => compress_zlib(data),
        1 => compress_zlib(data),
        2 => compress_zopfli(data, iterations),
        _ => compress_zlib(data),
    }
}

} // verus!
