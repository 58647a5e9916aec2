//! The layout of rollup segments: one row after the other, each behind its length.

use vstd::prelude::*;

use crate::bytes;
use crate::rollup::hourly::RecordModel;
use crate::storage::segment_format;
use crate::storage::wire;
use crate::text;

verus! {

/// Why a rollup segment cannot be read.
#[derive(Debug, Clone, Copy, PartialEq, Eq, Structural)]
pub enum RollupFault {
    ChecksumMismatch { stored: u64, computed: u64 },
    TruncatedHeader,
    TruncatedPayload,
    Undecodable,
}

/// A fault in words.
pub open spec fn fault_text(f: RollupFault) -> Seq<char> {
    match f {
        RollupFault::ChecksumMismatch { stored, computed } =>
            "rollup segment checksum mismatch (stored 0x"@ + text::hexadecimal(stored as int)
            + ", computed 0x"@ + text::hexadecimal(computed as int) + ")"@,
        RollupFault::TruncatedHeader => "rollup segment: truncated length header"@,
        RollupFault::TruncatedPayload => "rollup segment: truncated record payload"@,
        RollupFault::Undecodable => "rollup segment: record cannot be decoded"@,
    }
}

impl RollupFault {
    /// The fault in words.
    pub fn message(&self) -> (r: String)
        ensures
            r@ == fault_text(*self),
    {
        match *self {
            RollupFault::ChecksumMismatch { stored, computed } => {
                let a = text::hexadecimal_of(stored);
                let b = text::hexadecimal_of(computed);
                let head = text::join3(
                    "rollup segment checksum mismatch (stored 0x",
                    a.as_str(),
                    ", computed 0x",
                );
                text::join3(head.as_str(), b.as_str(), ")")
            },
            RollupFault::TruncatedHeader => "rollup segment: truncated length header".to_owned(),
            RollupFault::TruncatedPayload => "rollup segment: truncated record payload".to_owned(),
            RollupFault::Undecodable => "rollup segment: record cannot be decoded".to_owned(),
        }
    }
}

/// A row behind its length, of which the low four bytes are written.
pub open spec fn row_frame(r: RecordModel) -> Seq<u8> {
    bytes::le_bytes(wire::record_wire(r).len() as int % 0x1_0000_0000, 4) + wire::record_wire(r)
}

/// Rows, one after the other.
pub open spec fn frames(records: Seq<RecordModel>) -> Seq<u8>
    decreases records.len(),
{
    if records.len() == 0 {
        Seq::empty()
    } else {
        frames(records.drop_last()) + row_frame(records.last())
    }
}

/// The rows that bytes hold.
pub open spec fn records_in(data: Seq<u8>) -> Result<Seq<RecordModel>, RollupFault>
    decreases data.len(),
{
    if data.len() == 0 {
        Ok(Seq::empty())
    } else if data.len() < 4 {
        Err(RollupFault::TruncatedHeader)
    } else {
        let n = bytes::le_value(data.take(4));
        if n < 0 || 4 + n > data.len() {
            Err(RollupFault::TruncatedPayload)
        } else {
            match wire::record_at(data.subrange(4, 4 + n)) {
                None => Err(RollupFault::Undecodable),
                Some(r) => match records_in(data.skip(4 + n)) {
                    Ok(rest) => Ok(seq![r] + rest),
                    Err(f) => Err(f),
                },
            }
        }
    }
}

/// The rows of a segment whose checksum is to be `expected`.
pub open spec fn segment_records(data: Seq<u8>, expected: u64) -> Result<
    Seq<RecordModel>,
    RollupFault,
> {
    if segment_format::checksum_of(data) != expected {
        Err(
            RollupFault::ChecksumMismatch {
                stored: expected,
                computed: segment_format::checksum_of(data) as u64,
            },
        )
    } else {
        records_in(data)
    }
}

/// Rows before those that are read from further bytes.
pub open spec fn behind(
    before: Seq<RecordModel>,
    rest: Result<Seq<RecordModel>, RollupFault>,
) -> Result<Seq<RecordModel>, RollupFault> {
    match rest {
        Ok(v) => Ok(before + v),
        Err(f) => Err(f),
    }
}

/// Every row's length can be written.
pub open spec fn countable(records: Seq<RecordModel>) -> bool {
    forall|i: int|
        0 <= i < records.len() ==> wire::record_wire(#[trigger] records[i]).len() <= u32::MAX
}

proof fn lemma_frames_read(records: Seq<RecordModel>, rest: Seq<u8>)
    requires
        countable(records),
    ensures
        records_in(frames(records) + rest) == behind(records, records_in(rest)),
    decreases records.len(),
{
    if records.len() == 0 {
        assert(frames(records) + rest =~= rest);
        match records_in(rest) {
            Ok(v) => {
                assert(records + v =~= v);
            },
            Err(_) => {},
        }
    } else {
        let init = records.drop_last();
        let r = records.last();
        let w = wire::record_wire(r);
        let row = row_frame(r);
        let tail = row + rest;
        assert(w.len() <= u32::MAX) by {
            assert(records[records.len() - 1] == r);
        }
        assert(countable(init)) by {
            assert forall|i: int| 0 <= i < init.len() implies wire::record_wire(
                #[trigger] init[i],
            ).len() <= u32::MAX by {
                assert(init[i] == records[i]);
            }
        }
        lemma_frames_read(init, tail);
        assert(frames(records) + rest =~= frames(init) + tail);
        bytes::lemma_pow256_values();
        let n = w.len() as int;
        assert(n % 0x1_0000_0000 == n);
        bytes::lemma_le_bytes_len(n, 4);
        bytes::lemma_le_round_trip(n, 4);
        assert(tail.take(4) =~= bytes::le_bytes(n, 4));
        assert(tail.subrange(4, 4 + n) =~= w);
        assert(tail.skip(4 + n) =~= rest);
        wire::lemma_record_round_trip(r);
        match records_in(rest) {
            Ok(v) => {
                assert(init + (seq![r] + v) =~= records + v);
            },
            Err(_) => {},
        }
    }
}

/// A rollup segment gives back the rows that were written, where the format can
/// count their bytes.
pub proof fn law_rows_round_trip(records: Seq<RecordModel>)
    requires
        countable(records),
    ensures
        records_in(frames(records)) == Ok::<_, RollupFault>(records),
{
    lemma_frames_read(records, Seq::empty());
    assert(frames(records) + Seq::<u8>::empty() =~= frames(records));
    assert(records + Seq::<RecordModel>::empty() =~= records);
}

/// The rows of a segment are read only where its checksum, the first eight bytes of its
/// digest, is the expected one; else both are told.
pub proof fn law_segments_are_checked(data: Seq<u8>, expected: u64)
    ensures
        ({
            let computed = bytes::le_value(bytes::blake3_digest(data).subrange(0, 8));
            &&& computed == expected ==> segment_records(data, expected) == records_in(data)
            &&& computed != expected ==> segment_records(data, expected) == Err::<
                Seq<RecordModel>,
                RollupFault,
            >(RollupFault::ChecksumMismatch { stored: expected, computed: computed as u64 })
        }),
{
}

/// A row stands behind its length in four bytes.
pub proof fn law_layout_of_rows(r: RecordModel)
    requires
        wire::record_wire(r).len() <= u32::MAX,
    ensures
        row_frame(r).len() == 4 + wire::record_wire(r).len(),
        bytes::le_value(row_frame(r).take(4)) == wire::record_wire(r).len(),
        row_frame(r).skip(4) == wire::record_wire(r),
{
    let n = wire::record_wire(r).len() as int;
    reveal_with_fuel(bytes::pow256, 5);
    bytes::lemma_le_round_trip(n, 4);
    assert(row_frame(r).take(4) =~= bytes::le_bytes(n, 4));
    assert(row_frame(r).skip(4) =~= wire::record_wire(r));
}

} // verus!
