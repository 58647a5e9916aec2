//! Reading rollup segments.

use vstd::prelude::*;

use crate::bytes;
use crate::bytes::read_le;
use crate::rollup::hourly;
use crate::rollup::hourly::{HourlyRollupRecord, RecordModel};
use crate::rollup::segment;
use crate::rollup::segment::RollupFault;
use crate::storage::segment_format::checksum;
use crate::storage::wire;
use crate::storage::wire::read_record;

verus! {

/// The rows of a rollup segment, handed out one by one.
pub struct RollupSegmentReader {
    records: Vec<HourlyRollupRecord>,
    cursor: usize,
}

fn read_rows(data: &[u8]) -> (r: Result<Vec<HourlyRollupRecord>, RollupFault>)
    ensures
        match r {
            Ok(v) => segment::records_in(data@) == Ok::<_, RollupFault>(hourly::record_views(v@)),
            Err(f) => segment::records_in(data@) == Err::<Seq<RecordModel>, _>(f),
        },
{
    assert(data@.len() == data.len());
    let len: usize = data.len();
    let mut out: Vec<HourlyRollupRecord> = Vec::new();
    let mut off: usize = 0;
    let ghost wanted = segment::records_in(data@);
    proof {
        assert(data@.skip(0) =~= data@);
        assert(hourly::record_views(out@) =~= Seq::empty());
        match wanted {
            Ok(v) => {
                assert(Seq::<RecordModel>::empty() + v =~= v);
            },
            Err(_) => {},
        }
        bytes::lemma_pow256_values();
    }
    while off < len
        invariant
            len == data@.len(),
            off <= len,
            bytes::pow256(4) == 0x1_0000_0000,
            wanted == segment::records_in(data@),
            wanted == segment::behind(
                hourly::record_views(out@),
                segment::records_in(data@.skip(off as int)),
            ),
        decreases len - off,
    {
        let ghost rest = data@.skip(off as int);
        if len - off < 4 {
            return Err(RollupFault::TruncatedHeader);
        }
        let n: u128 = read_le(data, off, 4);
        assert(rest.take(4) =~= data@.subrange(off as int, off + 4));
        if n > (len - off - 4) as u128 {
            return Err(RollupFault::TruncatedPayload);
        }
        let size: usize = n as usize;
        let part = vstd::slice::slice_subrange(data, off + 4, off + 4 + size);
        assert(rest.subrange(4, 4 + n) =~= part@);
        match read_record(part) {
            None => return Err(RollupFault::Undecodable),
            Some(record) => {
                let ghost before = hourly::record_views(out@);
                proof {
                    hourly::lemma_records_push(out@, record);
                    assert(rest.skip(4 + n) =~= data@.skip(off + 4 + size));
                    match segment::records_in(data@.skip(off + 4 + size)) {
                        Ok(v) => {
                            assert(before + (seq![record@] + v) =~= before.push(record@) + v);
                        },
                        Err(_) => {},
                    }
                }
                out.push(record);
            },
        }
        off = off + 4 + size;
    }
    proof {
        assert(data@.skip(off as int) =~= Seq::empty());
        assert(hourly::record_views(out@) + Seq::<RecordModel>::empty() =~= hourly::record_views(
            out@,
        ));
    }
    Ok(out)
}

impl RollupSegmentReader {
    /// All rows of the segment.
    pub closed spec fn records(self) -> Seq<RecordModel> {
        hourly::record_views(self.records@)
    }

    /// How many rows have been handed out.
    pub closed spec fn position(self) -> nat {
        self.cursor as nat
    }

    #[verifier::type_invariant]
    spec fn wf(self) -> bool {
        self.cursor <= self.records@.len()
    }

    /// Opens a segment, whose checksum has to be the one that the manifest holds.
    pub fn open(data: &[u8], expected_checksum: u64) -> (r: Result<Self, RollupFault>)
        ensures
            match r {
                Ok(reader) => segment::segment_records(data@, expected_checksum) == Ok::<
                    _,
                    RollupFault,
                >(reader.records()) && reader.position() == 0,
                Err(f) => segment::segment_records(data@, expected_checksum) == Err::<
                    Seq<RecordModel>,
                    _,
                >(f),
            },
    {
        let computed: u64 = checksum(data);
        if computed != expected_checksum {
            return Err(RollupFault::ChecksumMismatch { stored: expected_checksum, computed });
        }
        match read_rows(data) {
            Ok(records) => Ok(RollupSegmentReader { records, cursor: 0 }),
            Err(f) => Err(f),
        }
    }

    pub fn row_count(&self) -> (n: usize)
        ensures
            n == self.records().len(),
    {
        self.records.len()
    }

    /// The next row, in the order of the file.
    pub fn read_next(&mut self) -> (r: Option<HourlyRollupRecord>)
        ensures
            final(self).records() == old(self).records(),
            if old(self).position() < old(self).records().len() {
                r matches Some(v) && v@ == old(self).records()[old(self).position() as int]
                    && final(self).position() == old(self).position() + 1
            } else {
                r is None && final(self).position() == old(self).position()
            },
    {
        proof {
            use_type_invariant(&*self);
        }
        if self.cursor >= self.records.len() {
            return None;
        }
        let r = self.records[self.cursor].clone();
        self.cursor = self.cursor + 1;
        Some(r)
    }

    /// All rows, in the order of the file.
    pub fn into_records(self) -> (r: Vec<HourlyRollupRecord>)
        ensures
            hourly::record_views(r@) == self.records(),
    {
        self.records
    }
}

} // verus!
