//! The columnar file format of raw segments.
//!
//! ```text
//!   header:
//!     magic:        b"UDBRAW1\n"  (8 bytes)
//!     version:      u8 = 1
//!     row_count:    u32 LE
//!     num_columns:  u16 LE
//!
//!   per column (repeated num_columns times):
//!     name_len:         u16 LE
//!     name:             utf-8 bytes
//!     encoding:         u8 (see `Encoding`; every column can be plain)
//!     codec:            u8 (0 = uncompressed, 1 = Zstd, 2 = Lz4)
//!     compressed_len:   u32 LE
//!     compressed_bytes: bytes
//!
//!   footer:
//!     checksum:   u64 LE  (low 8 bytes of blake3 over everything above)
//!     magic_end:  b"UDBEND01"  (8 bytes)
//! ```
//!
//! A file must start with the magic, end with the end magic, and hold the checksum
//! of what stands before it. Any deviation is corruption.

use vstd::prelude::*;

use crate::bytes;
use crate::bytes::{blake3_of, read_le};
use crate::storage::compression::CompressionCodec;

pub mod col;
pub mod frame;

verus! {

/// "UDBRAW1\n"
pub const MAGIC: [u8; 8] = [0x55, 0x44, 0x42, 0x52, 0x41, 0x57, 0x31, 0x0a];

/// "UDBEND01"
pub const MAGIC_END: [u8; 8] = [0x55, 0x44, 0x42, 0x45, 0x4e, 0x44, 0x30, 0x31];

pub const VERSION: u8 = 1;

/// How the values of a column become bytes.
#[derive(Debug, Clone, Copy, PartialEq, Eq, Structural)]
pub enum Encoding {
    /// The `bincode` layout of the list of the column's values.
    Plain,
    /// A number for each row, and the list of the texts that the numbers stand for.
    Dictionary,
    /// The differences between neighbours.
    Delta,
    /// Folded numbers with seven bits a byte.
    ZigzagVarint,
    /// Runs of equal values.
    Rle,
}

/// The number of an encoding.
pub open spec fn encoding_byte(e: Encoding) -> u8 {
    match e {
        Encoding::Plain => 0,
        Encoding::Dictionary => 1,
        Encoding::Delta => 2,
        Encoding::ZigzagVarint => 3,
        Encoding::Rle => 4,
    }
}

/// The encoding with that number.
pub open spec fn encoding_of(b: u8) -> Option<Encoding> {
    if b == 0 {
        Some(Encoding::Plain)
    } else if b == 1 {
        Some(Encoding::Dictionary)
    } else if b == 2 {
        Some(Encoding::Delta)
    } else if b == 3 {
        Some(Encoding::ZigzagVarint)
    } else if b == 4 {
        Some(Encoding::Rle)
    } else {
        None
    }
}

impl Encoding {
    /// The encoding with that number.
    pub fn from_byte(b: u8) -> (r: Option<Self>)
        ensures
            r == encoding_of(b),
    {
        match b {
            0 => Some(Encoding::Plain),
            1 => Some(Encoding::Dictionary),
            2 => Some(Encoding::Delta),
            3 => Some(Encoding::ZigzagVarint),
            4 => Some(Encoding::Rle),
            _ => None,
        }
    }

    /// The number of the encoding; `from_byte` leads back.
    pub fn to_byte(self) -> (r: u8)
        ensures
            r == encoding_byte(self),
            encoding_of(r) == Some(self),
    {
        match self {
            Encoding::Plain => 0,
            Encoding::Dictionary => 1,
            Encoding::Delta => 2,
            Encoding::ZigzagVarint => 3,
            Encoding::Rle => 4,
        }
    }
}

/// How the bytes of a column are compressed.
#[derive(Debug, Clone, Copy, PartialEq, Eq, Structural)]
pub enum Codec {
    Uncompressed,
    Zstd,
    Lz4,
}

/// The number of a codec.
pub open spec fn codec_byte(c: Codec) -> u8 {
    match c {
        Codec::Uncompressed => 0,
        Codec::Zstd => 1,
        Codec::Lz4 => 2,
    }
}

/// The codec with that number.
pub open spec fn codec_of(b: u8) -> Option<Codec> {
    if b == 0 {
        Some(Codec::Uncompressed)
    } else if b == 1 {
        Some(Codec::Zstd)
    } else if b == 2 {
        Some(Codec::Lz4)
    } else {
        None
    }
}

/// The compression that a codec stands for.
pub open spec fn compression_of(c: Codec) -> CompressionCodec {
    match c {
        Codec::Uncompressed => CompressionCodec::Uncompressed,
        Codec::Zstd => CompressionCodec::Zstd,
        Codec::Lz4 => CompressionCodec::Lz4,
    }
}

impl Codec {
    /// The codec with that number.
    pub fn from_byte(b: u8) -> (r: Option<Self>)
        ensures
            r == codec_of(b),
    {
        match b {
            0 => Some(Codec::Uncompressed),
            1 => Some(Codec::Zstd),
            2 => Some(Codec::Lz4),
            _ => None,
        }
    }

    /// The number of the codec; `from_byte` leads back.
    pub fn to_byte(self) -> (r: u8)
        ensures
            r == codec_byte(self),
            codec_of(r) == Some(self),
    {
        match self {
            Codec::Uncompressed => 0,
            Codec::Zstd => 1,
            Codec::Lz4 => 2,
        }
    }

    /// The compression that the codec stands for.
    pub fn compression(self) -> (r: CompressionCodec)
        ensures
            r == compression_of(self),
    {
        match self {
            Codec::Uncompressed => CompressionCodec::Uncompressed,
            Codec::Zstd => CompressionCodec::Zstd,
            Codec::Lz4 => CompressionCodec::Lz4,
        }
    }
}

/// The low eight bytes of the BLAKE3 digest of `data`, as a number.
pub open spec fn checksum_of(data: Seq<u8>) -> int {
    bytes::le_value(bytes::blake3_digest(data).subrange(0, 8))
}

/// The checksum of bytes, which stands in a file's footer.
pub fn checksum(data: &[u8]) -> (r: u64)
    ensures
        r == checksum_of(data@),
{
    let digest = blake3_of(data);
    let v: u128 = read_le(digest.as_slice(), 0, 8);
    proof {
        bytes::lemma_pow256_values();
    }
    v as u64
}

/// The checksum is the number that the first eight bytes of the digest denote, the lowest
/// first.
pub proof fn law_checksums(data: Seq<u8>)
    requires
        bytes::blake3_digest(data).len() >= 8,
    ensures
        bytes::le_bytes(checksum_of(data), 8) == bytes::blake3_digest(data).take(8),
{
    let first = bytes::blake3_digest(data).subrange(0, 8);
    assert(first =~= bytes::blake3_digest(data).take(8));
    bytes::lemma_le_value_bytes(first);
}

/// The numbers of encodings and codecs lead back to them, and no others do.
pub proof fn law_numbers_of_codings(e: Encoding, c: Codec, b: u8)
    ensures
        encoding_of(encoding_byte(e)) == Some(e),
        codec_of(codec_byte(c)) == Some(c),
        encoding_of(b) == Some(e) ==> b == encoding_byte(e),
        codec_of(b) == Some(c) ==> b == codec_byte(c),
        compression_of(Codec::Uncompressed) == CompressionCodec::Uncompressed,
        compression_of(Codec::Zstd) == CompressionCodec::Zstd,
        compression_of(Codec::Lz4) == CompressionCodec::Lz4,
{
}

} // verus!
