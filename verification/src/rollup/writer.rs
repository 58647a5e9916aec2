//! Writing rollup segments.

use vstd::prelude::*;

use crate::bytes;
use crate::bytes::push_le;
use crate::rollup::hourly;
use crate::rollup::hourly::{HourlyRollupRecord, RecordModel};
use crate::rollup::segment;
use crate::rollup::segment::RollupFault;
use crate::storage::segment_format;
use crate::storage::segment_format::checksum;
use crate::storage::segment_writer::SegmentFile;
use crate::storage::wire;
use crate::storage::wire::write_record;

verus! {

/// Writes the rows of a rollup segment.
pub struct RollupSegmentWriter {
    bytes: Vec<u8>,
    row_count: u64,
    records: Ghost<Seq<RecordModel>>,
}

impl View for RollupSegmentWriter {
    type V = Seq<RecordModel>;

    closed spec fn view(&self) -> Seq<RecordModel> {
        self.records@
    }
}

/// What a rollup segment's file is, for the rows `records`.
pub open spec fn is_segment(f: SegmentFile, records: Seq<RecordModel>) -> bool {
    &&& f.bytes@ == segment::frames(records)
    &&& f.row_count == records.len()
    &&& f.checksum == segment_format::checksum_of(f.bytes@)
}

impl RollupSegmentWriter {
    #[verifier::type_invariant]
    spec fn wf(self) -> bool {
        self.bytes@ == segment::frames(self.records@) && self.row_count == self.records@.len()
            && 4 * self.records@.len() <= self.bytes@.len()
    }

    /// A segment without rows.
    pub fn new() -> (r: Self)
        ensures
            r@ == Seq::<RecordModel>::empty(),
    {
        RollupSegmentWriter { bytes: Vec::new(), row_count: 0, records: Ghost(Seq::empty()) }
    }

    /// Adds a row.
    pub fn write_record(&mut self, record: &HourlyRollupRecord)
        ensures
            final(self)@ == old(self)@.push(record@),
    {
        let mut taken = RollupSegmentWriter::new();
        std::mem::swap(self, &mut taken);
        *self = taken.with_row(record);
    }

    fn with_row(self, record: &HourlyRollupRecord) -> (r: Self)
        ensures
            r@ == self@.push(record@),
    {
        proof {
            use_type_invariant(&self);
        }
        let ghost before = self.records@;
        let mut out = self.bytes;
        let data = write_record(record);
        let n: u128 = data.len() as u128 % 0x1_0000_0000;
        push_le(&mut out, n, 4);
        proof {
            bytes::lemma_le_bytes_len(n as int, 4);
            assert(before.push(record@).drop_last() =~= before);
        }
        let mut rest = data;
        out.append(&mut rest);
        proof {
            assert(out@ =~= segment::frames(before) + segment::row_frame(record@));
        }
        assert(out@.len() == out.len());
        RollupSegmentWriter {
            bytes: out,
            row_count: self.row_count + 1,
            records: Ghost(before.push(record@)),
        }
    }

    /// Closes the segment, whose bytes, number of rows and checksum come back.
    pub fn finish(self) -> (r: SegmentFile)
        ensures
            is_segment(r, self@),
            segment::countable(self@) ==> segment::segment_records(r.bytes@, r.checksum) == Ok::<
                _,
                RollupFault,
            >(self@),
    {
        proof {
            use_type_invariant(&self);
            if segment::countable(self@) {
                segment::law_rows_round_trip(self@);
            }
        }
        let sum: u64 = checksum(self.bytes.as_slice());
        SegmentFile { bytes: self.bytes, row_count: self.row_count, checksum: sum }
    }
}

/// The file of a rollup segment with these rows.
pub fn write_rollup_segment(records: &Vec<HourlyRollupRecord>) -> (r: SegmentFile)
    ensures
        is_segment(r, hourly::record_views(records@)),
        segment::countable(hourly::record_views(records@)) ==> segment::segment_records(
            r.bytes@,
            r.checksum,
        ) == Ok::<_, RollupFault>(hourly::record_views(records@)),
{
    let ghost all = hourly::record_views(records@);
    let mut writer = RollupSegmentWriter::new();
    for i in 0..records.len()
        invariant
            all == hourly::record_views(records@),
            writer@ == all.take(i as int),
    {
        writer.write_record(&records[i]);
        assert(all.take(i + 1) =~= all.take(i as int).push(records@[i as int]@));
    }
    assert(all.take(all.len() as int) =~= all);
    writer.finish()
}

} // verus!
