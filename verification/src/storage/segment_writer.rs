//! Writing raw segments.

use vstd::prelude::*;

use crate::model::event;
use crate::model::event::{EventKind, EventModel, UsageEvent};
use crate::storage::compression;
use crate::storage::compression::{compress, CompressionError};
use crate::storage::encoding;
use crate::storage::payload;
use crate::storage::payload::Label;
use crate::storage::segment_format;
use crate::storage::segment_format::col;
use crate::storage::segment_format::frame;
use crate::storage::segment_format::frame::{write_contents, Column, ColumnModel, SegmentFault};
use crate::storage::segment_format::{Codec, Encoding};
use crate::storage::segment_reader;
use crate::storage::wire;

verus! {

/// Gathers events, and writes them as one file.
#[derive(Debug)]
pub struct RawSegmentWriter {
    events: Vec<UsageEvent>,
}

/// A segment file.
#[derive(Debug, PartialEq, Eq)]
pub struct SegmentFile {
    pub bytes: Vec<u8>,
    pub row_count: u64,
    pub checksum: u64,
}

impl View for RawSegmentWriter {
    type V = Seq<EventModel>;

    closed spec fn view(&self) -> Seq<EventModel> {
        event::event_views(self.events@)
    }
}

fn name_bytes(name: &'static str) -> (r: Vec<u8>)
    ensures
        r@ == vstd::utf8::encode_utf8(name@),
{
    let utf8 = name.as_bytes();
    let mut out: Vec<u8> = Vec::new();
    for i in 0..utf8.len()
        invariant
            out@ == utf8@.take(i as int),
    {
        out.push(utf8[i]);
        assert(out@ =~= utf8@.take(i + 1));
    }
    assert(utf8@.take(utf8@.len() as int) =~= utf8@);
    out
}

/// A column whose payload has been compressed. It cannot be written where that
/// failed, or gave more bytes than the format counts.
pub open spec fn packed_column(
    name: Seq<char>,
    encoding: Encoding,
    codec: Codec,
    compressed: Result<Seq<u8>, CompressionError>,
) -> Result<ColumnModel, SegmentFault> {
    match compressed {
        Err(e) => Err(SegmentFault::Compression(e)),
        Ok(payload) => if payload.len() > u32::MAX {
            Err(SegmentFault::TooLarge)
        } else {
            Ok(ColumnModel { name: vstd::utf8::encode_utf8(name), encoding, codec, payload })
        },
    }
}

/// Makes a column of its compressed payload.
pub fn pack_column(
    name: &'static str,
    encoding: Encoding,
    codec: Codec,
    compressed: Result<Vec<u8>, CompressionError>,
) -> (r: Result<Column, SegmentFault>)
    ensures
        match r {
            Ok(c) => packed_column(name@, encoding, codec, bytes_of(compressed)) == Ok::<
                _,
                SegmentFault,
            >(c@),
            Err(f) => packed_column(name@, encoding, codec, bytes_of(compressed)) == Err::<
                ColumnModel,
                _,
            >(f),
        },
{
    match compressed {
        Err(e) => Err(SegmentFault::Compression(e)),
        Ok(payload) => {
            if payload.len() as u64 > 0xffff_ffff {
                return Err(SegmentFault::TooLarge);
            }
            Ok(Column { name: name_bytes(name), encoding, codec, payload })
        },
    }
}

/// What compressing gave, by its contents.
pub open spec fn bytes_of(r: Result<Vec<u8>, CompressionError>) -> Result<
    Seq<u8>,
    CompressionError,
> {
    match r {
        Ok(v) => Ok(v@),
        Err(e) => Err(e),
    }
}

/// A payload gives too long a column with a codec.
pub open spec fn oversized(p: Seq<u8>, codec: Codec) -> bool {
    exists|v: Seq<u8>| #[trigger]
        compression::plain(v, segment_format::compression_of(codec)) == Some(p) && v.len()
            > u32::MAX
}

fn column(name: &'static str, encoding: Encoding, codec: Codec, p: Vec<u8>) -> (r: Result<
    Column,
    SegmentFault,
>)
    ensures
        match r {
            Ok(c) => c@.name == vstd::utf8::encode_utf8(name@) && c.encoding == encoding && c.codec
                == codec && c@.payload.len() <= u32::MAX && compression::plain(
                c@.payload,
                segment_format::compression_of(codec),
            ) == Some(p@),
            Err(f) => f is TooLarge && oversized(p@, codec) || f is Compression && codec
                == Codec::Zstd,
        },
{
    pack_column(name, encoding, codec, compress(p.as_slice(), codec.compression()))
}

fn kinds_of(events: &Vec<UsageEvent>) -> (r: Vec<EventKind>)
    ensures
        r@ == event::event_views(events@).map_values(|e: EventModel| e.kind),
{
    let ghost all = event::event_views(events@).map_values(|e: EventModel| e.kind);
    let mut out: Vec<EventKind> = Vec::new();
    for i in 0..events.len()
        invariant
            all == event::event_views(events@).map_values(|e: EventModel| e.kind),
            out@ == all.take(i as int),
    {
        out.push(events[i].kind);
        assert(all[i as int] == events@[i as int]@.kind);
        assert(out@ =~= all.take(i + 1));
    }
    assert(all.take(all.len() as int) =~= all);
    out
}

fn times_of(events: &Vec<UsageEvent>) -> (r: Vec<i64>)
    ensures
        r@ == event::event_views(events@).map_values(|e: EventModel| e.timestamp_ms),
{
    let ghost all = event::event_views(events@).map_values(|e: EventModel| e.timestamp_ms);
    let mut out: Vec<i64> = Vec::new();
    for i in 0..events.len()
        invariant
            all == event::event_views(events@).map_values(|e: EventModel| e.timestamp_ms),
            out@ == all.take(i as int),
    {
        out.push(events[i].timestamp_ms);
        assert(all[i as int] == events@[i as int]@.timestamp_ms);
        assert(out@ =~= all.take(i + 1));
    }
    assert(all.take(all.len() as int) =~= all);
    out
}

fn ingest_times_of(events: &Vec<UsageEvent>) -> (r: Vec<i64>)
    ensures
        r@ == event::event_views(events@).map_values(|e: EventModel| e.ingested_at_ms),
{
    let ghost all = event::event_views(events@).map_values(|e: EventModel| e.ingested_at_ms);
    let mut out: Vec<i64> = Vec::new();
    for i in 0..events.len()
        invariant
            all == event::event_views(events@).map_values(|e: EventModel| e.ingested_at_ms),
            out@ == all.take(i as int),
    {
        out.push(events[i].ingested_at_ms);
        assert(all[i as int] == events@[i as int]@.ingested_at_ms);
        assert(out@ =~= all.take(i + 1));
    }
    assert(all.take(all.len() as int) =~= all);
    out
}

fn quantities_of(events: &Vec<UsageEvent>) -> (r: Vec<i128>)
    ensures
        r@ == event::event_views(events@).map_values(|e: EventModel| e.quantity),
{
    let ghost all = event::event_views(events@).map_values(|e: EventModel| e.quantity);
    let mut out: Vec<i128> = Vec::new();
    for i in 0..events.len()
        invariant
            all == event::event_views(events@).map_values(|e: EventModel| e.quantity),
            out@ == all.take(i as int),
    {
        out.push(events[i].quantity);
        assert(all[i as int] == events@[i as int]@.quantity);
        assert(out@ =~= all.take(i + 1));
    }
    assert(all.take(all.len() as int) =~= all);
    out
}

// ---------------------------------------------------------------------------
// The columns of events
// ---------------------------------------------------------------------------

/// The encoding of the `k`-th of the columns that are written.
pub open spec fn column_encoding(k: int) -> Encoding {
    if k == 0 || k == 2 || k == 12 {
        Encoding::Plain
    } else if k == 1 {
        Encoding::Rle
    } else if k == 7 || k == 13 {
        Encoding::Delta
    } else if k == 8 {
        Encoding::ZigzagVarint
    } else {
        Encoding::Dictionary
    }
}

/// The payload of the `k`-th column of events.
pub open spec fn column_payload(events: Seq<EventModel>, k: int) -> Seq<u8> {
    if k == 0 {
        wire::texts_wire(payload::event_ids(events))
    } else if k == 1 {
        payload::run_bytes(encoding::runs(events.map_values(|e: EventModel| e.kind)))
    } else if k == 2 {
        wire::corrections_wire(payload::corrections_of(events))
    } else if k == 7 {
        payload::delta_bytes(events.map_values(|e: EventModel| e.timestamp_ms))
    } else if k == 8 {
        encoding::packed(events.map_values(|e: EventModel| e.quantity))
    } else if k == 12 {
        wire::dimensions_wire(payload::dimensions_of(events))
    } else if k == 13 {
        payload::delta_bytes(events.map_values(|e: EventModel| e.ingested_at_ms))
    } else {
        payload::dictionary_bytes(payload::labels_of(events, column_label(k)))
    }
}

/// The field of the `k`-th column, where it has a dictionary.
pub open spec fn column_label(k: int) -> Label {
    if k == 3 {
        Label::Account
    } else if k == 4 {
        Label::Subscription
    } else if k == 5 {
        Label::Product
    } else if k == 6 {
        Label::Meter
    } else if k == 9 {
        Label::Unit
    } else if k == 10 {
        Label::Source
    } else {
        Label::Model
    }
}

/// `c` is the `k`-th column of events, compressed with `codec`.
pub open spec fn is_column(c: ColumnModel, k: int, events: Seq<EventModel>, codec: Codec) -> bool {
    &&& c.name == vstd::utf8::encode_utf8(col::ORDER@[k]@)
    &&& c.encoding == column_encoding(k)
    &&& c.codec == codec
    &&& compression::plain(c.payload, segment_format::compression_of(codec)) == Some(
        column_payload(events, k),
    )
}

/// `cols` are the columns of events, compressed with `codec`.
pub open spec fn are_columns(
    cols: Seq<ColumnModel>,
    events: Seq<EventModel>,
    codec: Codec,
) -> bool {
    &&& cols.len() == 14
    &&& forall|k: int| 0 <= k < 14 ==> is_column(#[trigger] cols[k], k, events, codec)
}

/// The column `c` gives back what the events hold in the `k`-th of the columns
/// that are written.
spec fn holds_nth(c: ColumnModel, k: int, events: Seq<EventModel>) -> bool {
    let rows = events.len();
    let p = compression::plain(c.payload, segment_format::compression_of(c.codec));
    &&& 0 <= k < 14
    &&& is_column(c, k, events, c.codec)
    &&& frame::countable(c)
    &&& p is Some
    &&& k == 0 ==> payload::plain_texts(p->0, rows) == Some(payload::event_ids(events))
    &&& k == 1 ==> payload::kind_values(p->0, rows) == Some(
        events.map_values(|e: EventModel| e.kind),
    )
    &&& k == 2 ==> payload::correction_values(p->0, rows) == Some(payload::corrections_of(events))
    &&& k == 3 ==> payload::dictionary_values(p->0, rows) == Some(
        payload::labels_of(events, Label::Account),
    )
    &&& k == 4 ==> payload::dictionary_values(p->0, rows) == Some(
        payload::labels_of(events, Label::Subscription),
    )
    &&& k == 5 ==> payload::dictionary_values(p->0, rows) == Some(
        payload::labels_of(events, Label::Product),
    )
    &&& k == 6 ==> payload::dictionary_values(p->0, rows) == Some(
        payload::labels_of(events, Label::Meter),
    )
    &&& k == 7 ==> payload::delta_values(p->0, rows) == Some(
        events.map_values(|e: EventModel| e.timestamp_ms),
    )
    &&& k == 8 ==> payload::packed_values(p->0, rows) == Some(
        events.map_values(|e: EventModel| e.quantity),
    )
    &&& k == 9 ==> payload::dictionary_values(p->0, rows) == Some(
        payload::labels_of(events, Label::Unit),
    )
    &&& k == 10 ==> payload::dictionary_values(p->0, rows) == Some(
        payload::labels_of(events, Label::Source),
    )
    &&& k == 11 ==> payload::dictionary_values(p->0, rows) == Some(
        payload::labels_of(events, Label::Model),
    )
    &&& k == 12 ==> payload::dimension_values(p->0, rows) == Some(payload::dimensions_of(events))
    &&& k == 13 ==> payload::delta_values(p->0, rows) == Some(
        events.map_values(|e: EventModel| e.ingested_at_ms),
    )
}

/// The `k`-th column of events, in the order in which they are written.
fn nth_column(events: &Vec<UsageEvent>, k: usize, codec: Codec) -> (r: Result<
    Column,
    SegmentFault,
>)
    requires
        k < 14,
        events@.len() <= u32::MAX,
    ensures
        match r {
            Ok(c) => holds_nth(c@, k as int, event::event_views(events@)) && c.codec == codec,
            Err(f) => f is TooLarge && oversized(
                column_payload(event::event_views(events@), k as int),
                codec,
            ) || f is Compression && codec == Codec::Zstd,
        },
{
    proof {
        col::lemma_name_short(k as int);
    }
    if k == 0 {
        column(col::EVENT_ID, Encoding::Plain, codec, payload::write_event_ids(events))
    } else if k == 1 {
        let kinds = kinds_of(events);
        column(col::KIND, Encoding::Rle, codec, payload::write_kinds(&kinds))
    } else if k == 2 {
        column(col::CORRECTION_REF, Encoding::Plain, codec, payload::write_correction_refs(events))
    } else if k == 3 {
        let p = payload::write_labels(events, Label::Account);
        column(col::ACCOUNT_ID, Encoding::Dictionary, codec, p)
    } else if k == 4 {
        let p = payload::write_labels(events, Label::Subscription);
        column(col::SUBSCRIPTION_ID, Encoding::Dictionary, codec, p)
    } else if k == 5 {
        let p = payload::write_labels(events, Label::Product);
        column(col::PRODUCT_ID, Encoding::Dictionary, codec, p)
    } else if k == 6 {
        let p = payload::write_labels(events, Label::Meter);
        column(col::METER_ID, Encoding::Dictionary, codec, p)
    } else if k == 7 {
        let times = times_of(events);
        column(col::TIMESTAMP_MS, Encoding::Delta, codec, payload::write_times(&times))
    } else if k == 8 {
        let quantities = quantities_of(events);
        column(col::QUANTITY, Encoding::ZigzagVarint, codec, payload::write_quantities(&quantities))
    } else if k == 9 {
        let p = payload::write_labels(events, Label::Unit);
        column(col::UNIT, Encoding::Dictionary, codec, p)
    } else if k == 10 {
        let p = payload::write_labels(events, Label::Source);
        column(col::SOURCE, Encoding::Dictionary, codec, p)
    } else if k == 11 {
        let p = payload::write_labels(events, Label::Model);
        column(col::MODEL_ID, Encoding::Dictionary, codec, p)
    } else if k == 12 {
        column(col::DIMENSIONS, Encoding::Plain, codec, payload::write_event_dimensions(events))
    } else {
        let times = ingest_times_of(events);
        column(col::INGESTED_AT_MS, Encoding::Delta, codec, payload::write_times(&times))
    }
}

spec fn holds_all(cols: Seq<ColumnModel>, events: Seq<EventModel>) -> bool {
    forall|k: int| 0 <= k < cols.len() ==> holds_nth(#[trigger] cols[k], k, events)
}

/// In the columns that are written each is found by its name.
proof fn lemma_found(cols: Seq<ColumnModel>, events: Seq<EventModel>, k: int, n: int)
    requires
        holds_all(cols, events),
        cols.len() == 14,
        0 <= k < n <= 14,
    ensures
        segment_reader::found(cols.take(n), vstd::utf8::encode_utf8(col::ORDER@[k]@)) == Some(
            cols[k],
        ),
    decreases n,
{
    let part = cols.take(n);
    assert(part.last() == cols[n - 1]);
    assert(holds_nth(cols[n - 1], n - 1, events));
    if k < n - 1 {
        lemma_found(cols, events, k, n - 1);
        assert(part.drop_last() =~= cols.take(n - 1));
        col::lemma_names_differ();
        assert(col::ORDER@[k]@ != col::ORDER@[n - 1]@);
        vstd::utf8::encode_utf8_decode_utf8(col::ORDER@[k]@);
        vstd::utf8::encode_utf8_decode_utf8(col::ORDER@[n - 1]@);
    } else {
        assert(holds_nth(cols[k], k, events));
    }
}

proof fn lemma_required(values: Seq<Option<Seq<char>>>, texts: Seq<Seq<char>>)
    requires
        values.len() == texts.len(),
        forall|i: int| 0 <= i < values.len() ==> #[trigger] values[i] == Some(texts[i]),
    ensures
        segment_reader::required(Some(values)) == Some(texts),
{
    assert(values.map_values(|s: Option<Seq<char>>| s->0) =~= texts);
}

/// The columns that are written for events give them back.
proof fn lemma_events_in(cols: Seq<ColumnModel>, events: Seq<EventModel>)
    requires
        holds_all(cols, events),
        cols.len() == 14,
    ensures
        segment_reader::events_in(cols, events.len()) == Ok::<_, SegmentFault>(events),
{
    assert(cols.take(14) =~= cols);
    assert forall|k: int| 0 <= k < 14 implies #[trigger] segment_reader::found(
        cols,
        vstd::utf8::encode_utf8(col::ORDER@[k]@),
    ) == Some(cols[k]) && holds_nth(cols[k], k, events) by {
        lemma_found(cols, events, k, 14);
        assert(holds_nth(cols[k], k, events));
    }
    let rows = events.len();
    assert(segment_reader::found(cols, vstd::utf8::encode_utf8(col::ORDER@[0]@)) is Some);
    assert(segment_reader::found(cols, vstd::utf8::encode_utf8(col::ORDER@[1]@)) is Some);
    assert(segment_reader::found(cols, vstd::utf8::encode_utf8(col::ORDER@[2]@)) is Some);
    assert(segment_reader::found(cols, vstd::utf8::encode_utf8(col::ORDER@[3]@)) is Some);
    assert(segment_reader::found(cols, vstd::utf8::encode_utf8(col::ORDER@[4]@)) is Some);
    assert(segment_reader::found(cols, vstd::utf8::encode_utf8(col::ORDER@[5]@)) is Some);
    assert(segment_reader::found(cols, vstd::utf8::encode_utf8(col::ORDER@[6]@)) is Some);
    assert(segment_reader::found(cols, vstd::utf8::encode_utf8(col::ORDER@[7]@)) is Some);
    assert(segment_reader::found(cols, vstd::utf8::encode_utf8(col::ORDER@[8]@)) is Some);
    assert(segment_reader::found(cols, vstd::utf8::encode_utf8(col::ORDER@[9]@)) is Some);
    assert(segment_reader::found(cols, vstd::utf8::encode_utf8(col::ORDER@[10]@)) is Some);
    assert(segment_reader::found(cols, vstd::utf8::encode_utf8(col::ORDER@[11]@)) is Some);
    assert(segment_reader::found(cols, vstd::utf8::encode_utf8(col::ORDER@[12]@)) is Some);
    assert(segment_reader::found(cols, vstd::utf8::encode_utf8(col::ORDER@[13]@)) is Some);
    lemma_required(
        payload::labels_of(events, Label::Account),
        events.map_values(|e: EventModel| e.account_id),
    );
    lemma_required(
        payload::labels_of(events, Label::Product),
        events.map_values(|e: EventModel| e.product_id),
    );
    lemma_required(
        payload::labels_of(events, Label::Meter),
        events.map_values(|e: EventModel| e.meter_id),
    );
    lemma_required(
        payload::labels_of(events, Label::Unit),
        events.map_values(|e: EventModel| e.unit),
    );
    lemma_required(
        payload::labels_of(events, Label::Source),
        events.map_values(|e: EventModel| e.source),
    );
    let read = segment_reader::events_in(cols, rows);
    assert(read is Ok);
    assert(read->Ok_0 =~= events);
}

/// What writing `events` gave: a file of their columns, which reads back as those
/// events, in their order, with their number and its checksum; or none. There is
/// none where there are more rows than the format counts, or a column is longer
/// than that, or the Zstandard encoder has failed.
pub open spec fn written(
    events: Seq<EventModel>,
    codec: Codec,
    r: Result<SegmentFile, SegmentFault>,
) -> bool {
    match r {
        Ok(file) => {
            &&& events.len() <= u32::MAX
            &&& segment_reader::segment_events(file.bytes@) == Ok::<_, SegmentFault>(events)
            &&& file.row_count == events.len()
            &&& exists|cols: Seq<ColumnModel>| #[trigger]
                are_columns(cols, events, codec) && file.bytes@ == frame::file_bytes(
                    events.len(),
                    cols,
                ) && file.checksum == segment_format::checksum_of(
                    frame::body_bytes(events.len(), cols),
                )
        },
        Err(f) => {
            ||| f is TooLarge && events.len() > u32::MAX
            ||| f is TooLarge && exists|k: int|
                0 <= k < 14 && #[trigger] oversized(column_payload(events, k), codec)
            ||| f is Compression && codec == Codec::Zstd && events.len() <= u32::MAX
        },
    }
}

impl RawSegmentWriter {
    /// A writer without events.
    pub fn new() -> (r: Self)
        ensures
            r@ == Seq::<EventModel>::empty(),
    {
        let r = RawSegmentWriter { events: Vec::new() };
        assert(r@ =~= Seq::<EventModel>::empty());
        r
    }

    /// Adds an event.
    pub fn write_event(&mut self, event: &UsageEvent)
        ensures
            final(self)@ == old(self)@.push(event@),
    {
        let e = event.clone();
        proof {
            event::lemma_views_push(self.events@, e);
        }
        self.events.push(e);
    }

    /// Writes the file, its columns compressed with Zstandard.
    pub fn finish(self) -> (r: Result<SegmentFile, SegmentFault>)
        ensures
            written(self@, Codec::Zstd, r),
    {
        self.finish_with(Codec::Zstd)
    }

    /// Writes the file, its columns compressed with `codec`. It fails where the
    /// format cannot count the rows or the bytes of a column, or where a column
    /// cannot be compressed.
    pub fn finish_with(self, codec: Codec) -> (r: Result<SegmentFile, SegmentFault>)
        ensures
            written(self@, codec, r),
    {
        let rows: usize = self.events.len();
        if rows as u64 > 0xffff_ffff {
            return Err(SegmentFault::TooLarge);
        }
        let ghost events = self@;
        let mut cols: Vec<Column> = Vec::new();
        for k in 0..14usize
            invariant
                rows == self.events@.len(),
                rows <= u32::MAX,
                events == event::event_views(self.events@),
                events == self@,
                cols@.len() == k,
                holds_all(frame::column_views(cols@), events),
                forall|j: int| 0 <= j < k ==> (#[trigger] cols@[j]).codec == codec,
        {
            match nth_column(&self.events, k, codec) {
                Err(f) => {
                    return Err(f);
                },
                Ok(c) => {
                    let ghost before = cols@;
                    cols.push(c);
                    proof {
                        let views = frame::column_views(cols@);
                        assert forall|j: int| 0 <= j < views.len() implies holds_nth(
                            #[trigger] views[j],
                            j,
                            events,
                        ) by {
                            if j < k {
                                assert(views[j] == frame::column_views(before)[j]);
                            }
                        }
                    }
                },
            }
        }
        let ghost views = frame::column_views(cols@);
        assert forall|i: int| 0 <= i < cols@.len() implies frame::countable(
            (#[trigger] cols@[i])@,
        ) by {
            assert(views[i] == cols@[i]@);
            assert(holds_nth(views[i], i, events));
        }
        let (bytes, checksum) = write_contents(rows, &cols);
        proof {
            assert forall|i: int| 0 <= i < views.len() implies frame::countable(
                #[trigger] views[i],
            ) by {
                assert(views[i] == cols@[i]@);
            }
            frame::lemma_contents(rows as nat, views);
            lemma_events_in(views, events);
            assert forall|k: int| 0 <= k < 14 implies is_column(
                #[trigger] views[k],
                k,
                events,
                codec,
            ) by {
                assert(holds_nth(views[k], k, events));
                assert(views[k] == cols@[k]@);
            }
            assert(are_columns(views, events, codec));
        }
        Ok(SegmentFile { bytes, row_count: rows as u64, checksum })
    }
}

impl Default for RawSegmentWriter {
    fn default() -> (r: Self)
        ensures
            r@ == Seq::<EventModel>::empty(),
    {
        RawSegmentWriter::new()
    }
}

/// The columns of a segment, by their names: how each is encoded, and of which field it
/// holds the values.
pub proof fn law_columns_of_segments(events: Seq<EventModel>)
    ensures
        col::ORDER@.len() == 14,
        col::ORDER@[0]@ == "event_id"@ && column_encoding(0) == Encoding::Plain && column_payload(
            events,
            0,
        ) == wire::texts_wire(events.map_values(|e: EventModel| e.event_id)),
        col::ORDER@[1]@ == "kind"@ && column_encoding(1) == Encoding::Rle && column_payload(
            events,
            1,
        ) == payload::run_bytes(encoding::runs(events.map_values(|e: EventModel| e.kind))),
        col::ORDER@[2]@ == "correction_ref"@ && column_encoding(2) == Encoding::Plain
            && column_payload(events, 2) == wire::corrections_wire(
            events.map_values(|e: EventModel| e.correction_ref),
        ),
        col::ORDER@[3]@ == "account_id"@ && column_encoding(3) == Encoding::Dictionary
            && column_payload(events, 3) == payload::dictionary_bytes(
            events.map_values(|e: EventModel| Some(e.account_id)),
        ),
        col::ORDER@[4]@ == "subscription_id"@ && column_encoding(4) == Encoding::Dictionary
            && column_payload(events, 4) == payload::dictionary_bytes(
            events.map_values(|e: EventModel| e.subscription_id),
        ),
        col::ORDER@[5]@ == "product_id"@ && column_encoding(5) == Encoding::Dictionary
            && column_payload(events, 5) == payload::dictionary_bytes(
            events.map_values(|e: EventModel| Some(e.product_id)),
        ),
        col::ORDER@[6]@ == "meter_id"@ && column_encoding(6) == Encoding::Dictionary
            && column_payload(events, 6) == payload::dictionary_bytes(
            events.map_values(|e: EventModel| Some(e.meter_id)),
        ),
        col::ORDER@[7]@ == "timestamp_ms"@ && column_encoding(7) == Encoding::Delta
            && column_payload(events, 7) == payload::delta_bytes(
            events.map_values(|e: EventModel| e.timestamp_ms),
        ),
        col::ORDER@[8]@ == "quantity"@ && column_encoding(8) == Encoding::ZigzagVarint
            && column_payload(events, 8) == encoding::packed(
            events.map_values(|e: EventModel| e.quantity),
        ),
        col::ORDER@[9]@ == "unit"@ && column_encoding(9) == Encoding::Dictionary && column_payload(
            events,
            9,
        ) == payload::dictionary_bytes(events.map_values(|e: EventModel| Some(e.unit))),
        col::ORDER@[10]@ == "source"@ && column_encoding(10) == Encoding::Dictionary
            && column_payload(events, 10) == payload::dictionary_bytes(
            events.map_values(|e: EventModel| Some(e.source)),
        ),
        col::ORDER@[11]@ == "model_id"@ && column_encoding(11) == Encoding::Dictionary
            && column_payload(events, 11) == payload::dictionary_bytes(
            events.map_values(|e: EventModel| e.model_id),
        ),
        col::ORDER@[12]@ == "dimensions"@ && column_encoding(12) == Encoding::Plain
            && column_payload(events, 12) == wire::dimensions_wire(
            events.map_values(|e: EventModel| e.dimensions),
        ),
        col::ORDER@[13]@ == "ingested_at_ms"@ && column_encoding(13) == Encoding::Delta
            && column_payload(events, 13) == payload::delta_bytes(
            events.map_values(|e: EventModel| e.ingested_at_ms),
        ),
{
    assert(payload::event_ids(events) =~= events.map_values(|e: EventModel| e.event_id));
    assert(payload::corrections_of(events) =~= events.map_values(|e: EventModel| e.correction_ref));
    assert(payload::dimensions_of(events) =~= events.map_values(|e: EventModel| e.dimensions));
    assert(payload::labels_of(events, Label::Account) =~= events.map_values(
        |e: EventModel| Some(e.account_id),
    ));
    assert(payload::labels_of(events, Label::Subscription) =~= events.map_values(
        |e: EventModel| e.subscription_id,
    ));
    assert(payload::labels_of(events, Label::Product) =~= events.map_values(
        |e: EventModel| Some(e.product_id),
    ));
    assert(payload::labels_of(events, Label::Meter) =~= events.map_values(
        |e: EventModel| Some(e.meter_id),
    ));
    assert(payload::labels_of(events, Label::Unit) =~= events.map_values(
        |e: EventModel| Some(e.unit),
    ));
    assert(payload::labels_of(events, Label::Source) =~= events.map_values(
        |e: EventModel| Some(e.source),
    ));
    assert(payload::labels_of(events, Label::Model) =~= events.map_values(
        |e: EventModel| e.model_id,
    ));
}

/// A segment that was written reads back as the events that were put in, each as it was
/// and in their order.
pub proof fn law_segments_read_back(
    events: Seq<EventModel>,
    codec: Codec,
    file: SegmentFile,
    i: int,
)
    requires
        written(events, codec, Ok(file)),
        0 <= i < events.len(),
    ensures
        segment_reader::segment_events(file.bytes@) matches Ok(read) && read.len() == events.len()
            && read[i] == events[i],
        file.row_count == events.len(),
{
}

} // verus!
