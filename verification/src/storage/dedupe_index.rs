//! The dedupe index beside a raw segment.
//!
//! Beside the segment file `raw_<id>.seg` stands `raw_<id>.idx`, which holds the
//! hashes of each event in the order of the rows. With it the dedupe cache can be
//! rebuilt without decoding the segment. Where it is missing or corrupt, the
//! segment is scanned instead.
//!
//! The whole file:
//!   - magic       b"UDBIDX01"  (8 bytes)
//!   - count       u32 LE       (number of entries)
//!   - entries     the `bincode` layout of the list of entries
//!   - checksum    u64 LE       (low 8 bytes of blake3 over the above)

use vstd::prelude::*;
use vstd::slice::slice_subrange;

use crate::bytes;
use crate::bytes::{push_le, read_le};
use crate::ingest::dedupe::EventHash;
use crate::storage::segment_format;
use crate::storage::segment_format::checksum;
use crate::storage::wire;
use crate::text;

verus! {

/// "UDBIDX01"
pub const MAGIC: [u8; 8] = [0x55, 0x44, 0x42, 0x49, 0x44, 0x58, 0x30, 0x31];

/// The hash of the event id, that of the payload, and when the event was ingested.
pub type DedupeEntry = (EventHash, EventHash, i64);

/// Why an index cannot be read.
#[derive(Debug, Clone, Copy, PartialEq, Eq, Structural)]
pub enum IndexFault {
    TooSmall,
    MissingMagic,
    ChecksumMismatch { stored: u64, computed: u64 },
    Undecodable,
    CountMismatch { header: u32, decoded: u64 },
}

/// A fault in words.
pub open spec fn fault_text(f: IndexFault) -> Seq<char> {
    "corrupt dedupe index: "@ + match f {
        IndexFault::TooSmall => "file too small"@,
        IndexFault::MissingMagic => "missing magic"@,
        IndexFault::ChecksumMismatch { stored, computed } => "checksum mismatch (stored 0x"@
            + text::hexadecimal(stored as int) + ", computed 0x"@ + text::hexadecimal(
            computed as int,
        ) + ")"@,
        IndexFault::Undecodable => "entries cannot be decoded"@,
        IndexFault::CountMismatch { header, decoded } => "entry count mismatch (header="@
            + text::decimal(header as int) + ", decoded="@ + text::decimal(decoded as int) + ")"@,
    }
}

impl IndexFault {
    /// The fault in words.
    pub fn message(&self) -> (r: String)
        ensures
            r@ == fault_text(*self),
    {
        let reason: String = match *self {
            IndexFault::TooSmall => "file too small".to_owned(),
            IndexFault::MissingMagic => "missing magic".to_owned(),
            IndexFault::ChecksumMismatch { stored, computed } => {
                let a = text::hexadecimal_of(stored);
                let b = text::hexadecimal_of(computed);
                let head = text::join3("checksum mismatch (stored 0x", a.as_str(), ", computed 0x");
                text::join3(head.as_str(), b.as_str(), ")")
            },
            IndexFault::Undecodable => "entries cannot be decoded".to_owned(),
            IndexFault::CountMismatch { header, decoded } => {
                let a = text::decimal_of(header as u128);
                let b = text::decimal_of(decoded as u128);
                let head = text::join3("entry count mismatch (header=", a.as_str(), ", decoded=");
                text::join3(head.as_str(), b.as_str(), ")")
            },
        };
        text::join2("corrupt dedupe index: ", reason.as_str())
    }
}

/// The file name of the index of a segment.
pub fn index_path(segment_id: &str) -> (r: String)
    ensures
        r@ == segment_id@ + ".idx"@,
{
    text::join2(segment_id, ".idx")
}

/// What stands before the checksum.
pub open spec fn body_bytes(entries: Seq<DedupeEntry>) -> Seq<u8> {
    MAGIC@ + bytes::le_bytes(entries.len() as int, 4) + wire::entries_wire(entries)
}

/// A whole index file.
pub open spec fn index_bytes(entries: Seq<DedupeEntry>) -> Seq<u8> {
    body_bytes(entries) + bytes::le_bytes(
        segment_format::checksum_of(body_bytes(entries)),
        8,
    )
}

/// The entries of an index file.
pub open spec fn index_entries(data: Seq<u8>) -> Result<Seq<DedupeEntry>, IndexFault> {
    let len = data.len() as int;
    let stored = bytes::le_value(data.skip(len - 8));
    let computed = segment_format::checksum_of(data.take(len - 8));
    let header = bytes::le_value(data.subrange(8, 12));
    if len < 20 {
        Err(IndexFault::TooSmall)
    } else if data.take(8) != MAGIC@ {
        Err(IndexFault::MissingMagic)
    } else if stored != computed {
        Err(IndexFault::ChecksumMismatch { stored: stored as u64, computed: computed as u64 })
    } else {
        match wire::entries_at(data.subrange(12, len - 8)) {
            None => Err(IndexFault::Undecodable),
            Some(v) => if v.len() != header {
                Err(IndexFault::CountMismatch { header: header as u32, decoded: v.len() as u64 })
            } else {
                Ok(v)
            },
        }
    }
}

/// Writes an index. Reading it gives the entries back, as long as the header can
/// count them.
pub fn write_dedupe_index(entries: &[DedupeEntry]) -> (r: Vec<u8>)
    ensures
        r@ == index_bytes(entries@),
        entries@.len() <= u32::MAX ==> index_entries(r@) == Ok::<_, IndexFault>(entries@),
{
    let mut out: Vec<u8> = Vec::new();
    for i in 0..8usize
        invariant
            out@ == MAGIC@.take(i as int),
    {
        out.push(MAGIC[i]);
        assert(out@ =~= MAGIC@.take(i + 1));
    }
    assert(MAGIC@.take(8) =~= MAGIC@);
    push_le(&mut out, entries.len() as u128, 4);
    let mut body = wire::write_entries(entries);
    let ghost list = body@;
    assert(body@.len() == body.len());
    out.append(&mut body);
    assert(out@ =~= body_bytes(entries@));
    let ghost head = out@;
    let sum: u64 = checksum(out.as_slice());
    push_le(&mut out, sum as u128, 8);
    proof {
        if entries@.len() <= u32::MAX {
            let data = out@;
            let len = data.len() as int;
            bytes::lemma_pow256_values();
            bytes::lemma_le_round_trip(entries@.len() as int, 4);
            bytes::lemma_le_round_trip(sum as int, 8);
            bytes::lemma_le_bytes_len(entries@.len() as int, 8);
            wire::lemma_entries_round_trip(entries@);
            assert(data.take(len - 8) =~= head);
            assert(data.skip(len - 8) =~= bytes::le_bytes(sum as int, 8));
            assert(data.take(8) =~= MAGIC@);
            assert(data.subrange(8, 12) =~= bytes::le_bytes(entries@.len() as int, 4));
            assert(data.subrange(12, len - 8) =~= list);
        }
    }
    out
}

/// Reads an index: nothing where there is no file, and a fault where it is
/// corrupt.
pub fn read_dedupe_index(file: Option<&[u8]>) -> (r: Result<
    Option<Vec<DedupeEntry>>,
    IndexFault,
>)
    ensures
        match file {
            None => r == Ok::<_, IndexFault>(None::<Vec<DedupeEntry>>),
            Some(data) => match r {
                Ok(v) => v is Some && index_entries(data@) == Ok::<_, IndexFault>(v->0@),
                Err(f) => index_entries(data@) == Err::<Seq<DedupeEntry>, _>(f),
            },
        },
{
    let data = match file {
        None => {
            return Ok(None);
        },
        Some(d) => d,
    };
    assert(data@.len() == data.len());
    let len: usize = data.len();
    if len < 20 {
        return Err(IndexFault::TooSmall);
    }
    let ghost front = data@.take(8);
    for i in 0..8usize
        invariant
            len == data@.len(),
            len == data.len(),
            len >= 20,
            file == Some(data),
            front == data@.take(8),
            forall|k: int| 0 <= k < i ==> front[k] == MAGIC@[k],
    {
        if data[i] != MAGIC[i] {
            assert(front[i as int] != MAGIC@[i as int]);
            return Err(IndexFault::MissingMagic);
        }
    }
    assert(front =~= MAGIC@);
    proof {
        bytes::lemma_pow256_values();
        assert(data@.skip(len - 8) =~= data@.subrange(len - 8, len as int));
    }
    let stored: u64 = read_le(data, len - 8, 8) as u64;
    let body = slice_subrange(data, 0, len - 8);
    assert(body@ =~= data@.take(len - 8));
    let computed: u64 = checksum(body);
    if stored != computed {
        return Err(IndexFault::ChecksumMismatch { stored, computed });
    }
    let header: u32 = read_le(data, 8, 4) as u32;
    let list = slice_subrange(data, 12, len - 8);
    match wire::read_entries(list) {
        None => Err(IndexFault::Undecodable),
        Some(v) => if v.len() as u64 != header as u64 {
            Err(IndexFault::CountMismatch { header, decoded: v.len() as u64 })
        } else {
            Ok(Some(v))
        },
    }
}

/// An index is read only where it begins with `UDBIDX01`, ends with the first eight bytes
/// of the digest of all that stands before them, and says how many entries it has.
pub proof fn law_indexes_are_checked(data: Seq<u8>)
    ensures
        ({
            let len = data.len() as int;
            let head = seq![0x55u8, 0x44, 0x42, 0x49, 0x44, 0x58, 0x30, 0x31];
            let stored = bytes::le_value(data.skip(len - 8));
            let digest = bytes::blake3_digest(data.take(len - 8));
            let computed = bytes::le_value(digest.subrange(0, 8));
            match index_entries(data) {
                Ok(entries) => {
                    &&& len >= 20
                    &&& data.take(8) == head
                    &&& stored == computed
                    &&& bytes::le_value(data.subrange(8, 12)) == entries.len()
                    &&& wire::entries_at(data.subrange(12, len - 8)) == Some(entries)
                },
                Err(f) => {
                    &&& len < 20 <==> f is TooSmall
                    &&& len >= 20 && data.take(8) != head <==> f is MissingMagic
                    &&& len >= 20 && data.take(8) == head && stored != computed
                        <==> f is ChecksumMismatch
                },
            }
        }),
{
    assert(MAGIC@ =~= seq![0x55u8, 0x44, 0x42, 0x49, 0x44, 0x58, 0x30, 0x31]);
}

} // verus!
