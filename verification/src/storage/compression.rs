//! Compression of column payloads.

use vstd::prelude::*;

use std::io::{Read, Write};

verus! {

/// How bytes are compressed.
#[derive(Debug, Clone, Copy, PartialEq, Eq, Structural)]
pub enum CompressionCodec {
    Zstd,
    Lz4,
    Uncompressed,
}

/// Bytes could not be compressed or decompressed, and why.
#[derive(Debug, PartialEq, Eq)]
pub struct CompressionError(pub String);

/// What the Zstandard frames `data` decompress to, where they can be.
pub uninterp spec fn zstd_plain(data: Seq<u8>) -> Option<Seq<u8>>;

/// What the LZ4 frames `data` decompress to, where they can be.
pub uninterp spec fn lz4_plain(data: Seq<u8>) -> Option<Seq<u8>>;

/// What `data` decompresses to with a codec, where it can be.
pub open spec fn plain(data: Seq<u8>, codec: CompressionCodec) -> Option<Seq<u8>> {
    match codec {
        CompressionCodec::Zstd => zstd_plain(data),
        CompressionCodec::Lz4 => lz4_plain(data),
        CompressionCodec::Uncompressed => Some(data),
    }
}

/// `zstd::stream::write::Encoder` at level 3: the frame that it writes
/// decompresses to the bytes that were put in. Which frame that is, and whether
/// the encoder gets the memory it needs, is left open.
#[verifier::external_body]
fn zstd_compress(data: &[u8]) -> (r: Result<Vec<u8>, String>)
    ensures
        r matches Ok(v) ==> zstd_plain(v@) == Some(data@),
{
    let mut encoder =
        zstd::stream::write::Encoder::new(Vec::new(), 3).map_err(|e| e.to_string())?;
    encoder.write_all(data).map_err(|e| e.to_string())?;
    encoder.finish().map_err(|e| e.to_string())
}

/// `zstd::stream::read::Decoder`, read to its end: what comes out is a function
/// of the bytes alone, and an error comes where they are no whole frames.
#[verifier::external_body]
fn zstd_decompress(data: &[u8]) -> (r: Result<Vec<u8>, String>)
    ensures
        match r {
            Ok(v) => zstd_plain(data@) == Some(v@),
            Err(_) => zstd_plain(data@) is None,
        },
{
    let mut decoder = zstd::stream::read::Decoder::new(data).map_err(|e| e.to_string())?;
    let mut result = Vec::new();
    decoder.read_to_end(&mut result).map_err(|e| e.to_string())?;
    Ok(result)
}

/// `lz4_flex::frame::FrameEncoder` with its default settings, into a vector: the
/// frame that it writes decompresses to the bytes that were put in, and nothing
/// that it can fail on, a writer or a declared length, is there. Which frame it is
/// is left open.
#[verifier::external_body]
fn lz4_compress(data: &[u8]) -> (r: Result<Vec<u8>, String>)
    ensures
        r is Ok,
        r matches Ok(v) ==> lz4_plain(v@) == Some(data@),
{
    let mut encoder = lz4_flex::frame::FrameEncoder::new(Vec::new());
    encoder.write_all(data).map_err(|e| e.to_string())?;
    encoder.finish().map_err(|e| e.to_string())
}

/// `lz4_flex::frame::FrameDecoder`, read until it gives nothing more: whether it
/// fails, and what comes out, is a function of the bytes alone. It reads the first
/// frame and nothing behind it. Where the bytes end before a frame has begun, as
/// where there are none or only four, or between two blocks, it does not fail: what
/// it has read so far comes out.
#[verifier::external_body]
fn lz4_decompress(data: &[u8]) -> (r: Result<Vec<u8>, String>)
    ensures
        match r {
            Ok(v) => lz4_plain(data@) == Some(v@),
            Err(_) => lz4_plain(data@) is None,
        },
{
    let mut decoder = lz4_flex::frame::FrameDecoder::new(data);
    let mut result = Vec::new();
    decoder.read_to_end(&mut result).map_err(|e| e.to_string())?;
    Ok(result)
}

fn copied(data: &[u8]) -> (r: Vec<u8>)
    ensures
        r@ == data@,
{
    let mut out: Vec<u8> = Vec::new();
    for i in 0..data.len()
        invariant
            out@ == data@.take(i as int),
    {
        out.push(data[i]);
        assert(out@ =~= data@.take(i + 1));
    }
    assert(data@.take(data@.len() as int) =~= data@);
    out
}

fn mapped(r: Result<Vec<u8>, String>) -> (out: Result<Vec<u8>, CompressionError>)
    ensures
        match (r, out) {
            (Ok(v), Ok(w)) => w@ == v@,
            (Err(e), Err(f)) => f.0@ == e@,
            _ => false,
        },
{
    match r {
        Ok(v) => Ok(v),
        Err(e) => Err(CompressionError(e)),
    }
}

/// Compresses bytes. Whatever comes out, decompressing it gives them back;
/// without compression they come out as they are. Only the Zstandard encoder can
/// fail, for want of memory.
pub fn compress(data: &[u8], codec: CompressionCodec) -> (r: Result<Vec<u8>, CompressionError>)
    ensures
        r matches Ok(v) ==> plain(v@, codec) == Some(data@),
        codec != CompressionCodec::Zstd ==> r is Ok,
{
    match codec {
        CompressionCodec::Zstd => mapped(zstd_compress(data)),
        CompressionCodec::Lz4 => mapped(lz4_compress(data)),
        CompressionCodec::Uncompressed => Ok(copied(data)),
    }
}

/// Decompresses bytes.
pub fn decompress(data: &[u8], codec: CompressionCodec) -> (r: Result<Vec<u8>, CompressionError>)
    ensures
        match r {
            Ok(v) => plain(data@, codec) == Some(v@),
            Err(_) => plain(data@, codec) is None,
        },
{
    match codec {
        CompressionCodec::Zstd => mapped(zstd_decompress(data)),
        CompressionCodec::Lz4 => mapped(lz4_decompress(data)),
        CompressionCodec::Uncompressed => Ok(copied(data)),
    }
}

/// Bytes that are not compressed are what they are.
pub proof fn law_uncompressed_bytes(data: Seq<u8>)
    ensures
        plain(data, CompressionCodec::Uncompressed) == Some(data),
        plain(data, CompressionCodec::Zstd) == zstd_plain(data),
        plain(data, CompressionCodec::Lz4) == lz4_plain(data),
{
}

} // verus!
