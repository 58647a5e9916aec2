//! Watermarks by partition.

use vstd::prelude::*;

use crate::textmap;
use crate::textmap::TextMap;

verus! {

/// Up to where each partition has been rolled up.
#[derive(Debug)]
pub struct WatermarkTracker {
    watermarks: TextMap<i64>,
}

impl View for WatermarkTracker {
    type V = Map<Seq<char>, i64>;

    closed spec fn view(&self) -> Map<Seq<char>, i64> {
        Map::new(
            |k: Seq<char>| textmap::lookup(self.watermarks@, k) is Some,
            |k: Seq<char>| textmap::lookup(self.watermarks@, k)->0,
        )
    }
}

impl WatermarkTracker {
    /// A tracker that knows no partition.
    pub fn new() -> (r: Self)
        ensures
            r@ == Map::<Seq<char>, i64>::empty(),
    {
        let r = WatermarkTracker { watermarks: TextMap::new() };
        assert(r@ =~= Map::<Seq<char>, i64>::empty());
        r
    }

    /// Sets the watermark of a partition.
    pub fn update_watermark(&mut self, partition: &str, watermark_ms: i64)
        ensures
            final(self)@ == old(self)@.insert(partition@, watermark_ms),
    {
        let ghost before = self.watermarks@;
        self.watermarks.insert(partition.to_owned(), watermark_ms);
        assert(self@ =~= old(self)@.insert(partition@, watermark_ms));
    }

    /// The watermark of a partition.
    pub fn get_watermark(&self, partition: &str) -> (r: Option<i64>)
        ensures
            r == if self@.dom().contains(partition@) {
                Some(self@[partition@])
            } else {
                None
            },
    {
        match self.watermarks.get(partition) {
            Some(w) => Some(*w),
            None => None,
        }
    }
}

impl Default for WatermarkTracker {
    fn default() -> (r: Self)
        ensures
            r@ == Map::<Seq<char>, i64>::empty(),
    {
        WatermarkTracker::new()
    }
}

} // verus!
