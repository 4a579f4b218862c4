//! Compression algorithms that the header can name for entry names.
//!
//! The codecs live in outside crates; each call is reached through one
//! trusted wrapper whose result is given a name, and
//! [`Compression::compress`] / [`Compression::decompress`] are specified
//! exactly in terms of those names.

use vstd::prelude::*;

verus! {

/// The `std::io::Error` the brotli and zstd codecs report failures with.
#[verifier::external_type_specification]
#[verifier::external_body]
pub struct ExIoError(std::io::Error);

/// The error `lz4_flex` block decompression reports failures with.
#[verifier::external_type_specification]
#[verifier::external_body]
pub struct ExLz4DecompressError(lz4_flex::block::DecompressError);

/// The LZ4 block encoding of a byte sequence.
pub uninterp spec fn lz4_compressed(data: Seq<u8>) -> Seq<u8>;

/// The bytes an LZ4 block decodes to, when it decodes at all.
pub uninterp spec fn lz4_decompressed(data: Seq<u8>) -> Seq<u8>;

/// The brotli encoding of a byte sequence under an explicit quality,
/// CPU-efficiency preference and window choice.
pub uninterp spec fn brotli_compressed(
    data: Seq<u8>,
    quality: i32,
    favor_cpu_efficiency: bool,
    large_window: bool,
) -> Seq<u8>;

/// The bytes a brotli stream decodes to, when it decodes at all.
pub uninterp spec fn brotli_decompressed(data: Seq<u8>) -> Seq<u8>;

/// The zstd encoding of a byte sequence at a given compression level.
pub uninterp spec fn zstd_compressed(data: Seq<u8>, level: i32) -> Seq<u8>;

/// The bytes a zstd stream decodes to, when it decodes at all.
pub uninterp spec fn zstd_decompressed(data: Seq<u8>) -> Seq<u8>;

/// Relies on `lz4_flex::compress`: the LZ4 block encoding of the bytes, a
/// function of the bytes alone.
#[verifier::external_body]
fn lz4_compress(data: &[u8]) -> (r: Vec<u8>)
    ensures
        r@ == lz4_compressed(data@),
{
    lz4_flex::compress(data)
}

/// Relies on `lz4_flex::decompress`: decodes an LZ4 block.  The size
/// argument caps the output — a stream decoding past it is rejected —
/// and a successful decode is a function of the input bytes alone.
#[verifier::external_body]
fn lz4_decompress(data: &[u8], min_uncompressed_size: usize) -> (r: Result<
    Vec<u8>,
    lz4_flex::block::DecompressError,
>)
    ensures
        r is Ok ==> r->Ok_0@ == lz4_decompressed(data@),
{
    lz4_flex::decompress(data, min_uncompressed_size)
}

/// Relies on `brotli::BrotliCompress` over a byte slice and a `Vec`
/// sink, with the remaining encoder parameters left at their defaults:
/// deterministic in the bytes and the three parameters passed here.
#[verifier::external_body]
fn brotli_compress(
    data: &[u8],
    quality: i32,
    favor_cpu_efficiency: bool,
    large_window: bool,
) -> (r: Result<Vec<u8>, std::io::Error>)
    ensures
        r is Ok ==> r->Ok_0@ == brotli_compressed(data@, quality, favor_cpu_efficiency, large_window),
{
    let mut input = data;
    let mut buf = Vec::with_capacity(data.len() >> 1);
    let mut params = brotli::enc::BrotliEncoderParams::default();
    params.quality = quality;
    params.favor_cpu_efficiency = favor_cpu_efficiency;
    params.large_window = large_window;
    match brotli::BrotliCompress(&mut input, &mut buf, &params) {
        Ok(_) => Ok(buf),
        Err(err) => Err(err),
    }
}

/// Relies on `brotli::BrotliDecompress` over a byte slice and a `Vec`
/// sink: decodes a brotli stream, deterministic in the input bytes.
#[verifier::external_body]
fn brotli_decompress(data: &[u8]) -> (r: Result<Vec<u8>, std::io::Error>)
    ensures
        r is Ok ==> r->Ok_0@ == brotli_decompressed(data@),
{
    let mut input = data;
    let mut buf = Vec::with_capacity(data.len() << 1);
    match brotli::BrotliDecompress(&mut input, &mut buf) {
        Ok(()) => Ok(buf),
        Err(err) => Err(err),
    }
}

/// Relies on `zstd::encode_all`: the zstd encoding of the bytes at the
/// given level, deterministic in both.
#[verifier::external_body]
fn zstd_compress(data: &[u8], level: i32) -> (r: Result<Vec<u8>, std::io::Error>)
    ensures
        r is Ok ==> r->Ok_0@ == zstd_compressed(data@, level),
{
    zstd::encode_all(data, level)
}

/// Relies on `zstd::decode_all`: decodes a zstd stream, deterministic in
/// the input bytes.
#[verifier::external_body]
fn zstd_decompress(data: &[u8]) -> (r: Result<Vec<u8>, std::io::Error>)
    ensures
        r is Ok ==> r->Ok_0@ == zstd_decompressed(data@),
{
    zstd::decode_all(data)
}

/// Relies on `zstd::compression_level_range`: the compression levels the
/// linked zstd library accepts, reported as `(lowest, highest)`.  The
/// bounds come from the C library, so nothing further is assumed of them.
#[verifier::external_body]
fn zstd_level_range() -> (r: (i32, i32))
{
    let range = zstd::compression_level_range();
    (*range.start(), *range.end())
}

/// Relies on `zstd::DEFAULT_COMPRESSION_LEVEL`: re-exported
/// `zstd_safe::CLEVEL_DEFAULT`, which the zstd documentation fixes at 3.
#[verifier::external_body]
fn zstd_default_level() -> (r: i32)
    ensures
        r == 3,
{
    zstd::DEFAULT_COMPRESSION_LEVEL
}

#[derive(Debug, Clone, Copy, PartialEq, Eq, Hash, Structural)]
/// How hard a compressor should try.
pub enum CompressionLevel {
    Auto,
    Fast,
    Balanced,
    Max,
}

#[derive(Debug, Clone, Copy, PartialEq, Eq, Hash, Structural)]
/// Which compressor the store applies to entry names.
pub enum Compression {
    Off,
    Lz4,
    Brotli,
    Zstd,
}

/// Raised when a compressor or decompressor rejects its input.
#[derive(Debug, Clone, Copy, PartialEq, Eq, Structural)]
pub enum CompressionError {
    /// The underlying codec reported a failure.
    Codec,
}

/// The brotli quality a [`CompressionLevel`] selects; `Auto` keeps the
/// encoder's default quality of 11.
pub open spec fn spec_brotli_quality(level: CompressionLevel) -> i32 {
    match level {
        CompressionLevel::Auto => 11i32,
        CompressionLevel::Fast => 0i32,
        CompressionLevel::Balanced => 6i32,
        CompressionLevel::Max => 11i32,
    }
}

impl Compression {
    /// Compress `data` with the selected codec.  `Compression::Off`
    /// passes the bytes through unchanged.  Whenever the codec succeeds,
    /// the result is exactly its encoding of `data`; brotli is driven at
    /// the quality [`spec_brotli_quality`] picks for `level` (CPU-thrifty
    /// for `Fast`, large-window for `Max`), and zstd at its default level
    /// for `Auto` and at points of its advertised range otherwise.
    pub fn compress(&self, data: &[u8], level: CompressionLevel) -> (r: Result<
        Vec<u8>,
        CompressionError,
    >)
        ensures
            *self == Compression::Off ==> r is Ok && r->Ok_0@ == data@,
            *self == Compression::Lz4 ==> r is Ok && r->Ok_0@ == lz4_compressed(data@),
            *self == Compression::Brotli && r is Ok ==> r->Ok_0@ == brotli_compressed(
                data@,
                spec_brotli_quality(level),
                level == CompressionLevel::Fast,
                level == CompressionLevel::Max,
            ),
            *self == Compression::Zstd && level == CompressionLevel::Auto && r is Ok
                ==> r->Ok_0@ == zstd_compressed(data@, 3),
    {
        match self {
            Compression::Off => Ok(copy_bytes(data)),
            Compression::Lz4 => Ok(lz4_compress(data)),
            Compression::Brotli => {
                let quality: i32 = match level {
                    CompressionLevel::Auto => 11,
                    CompressionLevel::Fast => 0,
                    CompressionLevel::Balanced => 6,
                    CompressionLevel::Max => 11,
                };
                let favor_cpu_efficiency = matches!(level, CompressionLevel::Fast);
                let large_window = matches!(level, CompressionLevel::Max);
                match brotli_compress(data, quality, favor_cpu_efficiency, large_window) {
                    Ok(buf) => Ok(buf),
                    Err(_) => Err(CompressionError::Codec),
                }
            },
            Compression::Zstd => {
                let (min, max) = zstd_level_range();
                let level_i32: i32 = match level {
                    CompressionLevel::Auto => zstd_default_level(),
                    CompressionLevel::Fast => min,
                    CompressionLevel::Balanced => (((min as i64) + (max as i64)) / 2) as i32,
                    CompressionLevel::Max => max,
                };
                match zstd_compress(data, level_i32) {
                    Ok(buf) => Ok(buf),
                    Err(_) => Err(CompressionError::Codec),
                }
            },
        }
    }

    /// Decompress `data` with the selected codec.  `Compression::Off`
    /// passes the bytes through unchanged; otherwise success yields
    /// exactly the codec's decoding of `data`, and rejected input yields
    /// `CompressionError::Codec`.
    pub fn decompress(&self, data: &[u8]) -> (r: Result<Vec<u8>, CompressionError>)
        ensures
            *self == Compression::Off ==> r is Ok && r->Ok_0@ == data@,
            *self == Compression::Lz4 && r is Ok ==> r->Ok_0@ == lz4_decompressed(data@),
            *self == Compression::Brotli && r is Ok ==> r->Ok_0@ == brotli_decompressed(data@),
            *self == Compression::Zstd && r is Ok ==> r->Ok_0@ == zstd_decompressed(data@),
            r is Err ==> r->Err_0 == CompressionError::Codec && *self != Compression::Off,
    {
        match self {
            Compression::Off => Ok(copy_bytes(data)),
            Compression::Lz4 => {
                match lz4_decompress(data, data.len()) {
                    Ok(buf) => Ok(buf),
                    Err(_) => Err(CompressionError::Codec),
                }
            },
            Compression::Brotli => {
                match brotli_decompress(data) {
                    Ok(buf) => Ok(buf),
                    Err(_) => Err(CompressionError::Codec),
                }
            },
            Compression::Zstd => {
                match zstd_decompress(data) {
                    Ok(buf) => Ok(buf),
                    Err(_) => Err(CompressionError::Codec),
                }
            },
        }
    }
}

/// Copy a byte slice into an owned vector.
fn copy_bytes(data: &[u8]) -> (r: Vec<u8>)
    ensures
        r@ == data@,
{
    let mut out: Vec<u8> = Vec::new();
    out.extend_from_slice(data);
    out
}

} // verus!
