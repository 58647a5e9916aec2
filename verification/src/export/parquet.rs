//! Events as a flat table, for Apache Parquet. No column nests another: what a
//! correction refers to stands in two columns, and the dimensions are one text.

use vstd::prelude::*;

use crate::export::file;
use crate::export::file::CellsModel;
use crate::model::dimensions;
use crate::model::dimensions::canonical_text;
use crate::model::event;
use crate::model::event::{EventKind, EventModel, UsageEvent};
use crate::storage::segment_format::frame::SegmentFault;
use crate::storage::segment_reader;
use crate::storage::segment_reader::RawSegmentReader;
use crate::text;

pub use crate::export::file::write_parquet;

verus! {

/// What an export has done.
#[derive(Debug, Clone, Copy, PartialEq, Eq, Structural)]
pub struct ExportStats {
    pub events_exported: u64,
    pub segments_read: usize,
}

impl Default for ExportStats {
    fn default() -> (r: Self)
        ensures
            r == (ExportStats { events_exported: 0, segments_read: 0 }),
    {
        ExportStats { events_exported: 0, segments_read: 0 }
    }
}

// ---------------------------------------------------------------------------
// What is exported
// ---------------------------------------------------------------------------

/// The events of segments' files, one segment after the other; a file that is
/// missing is passed over, and the first that cannot be read decides.
pub open spec fn exported(files: Seq<Option<Vec<u8>>>) -> Result<Seq<EventModel>, SegmentFault>
    decreases files.len(),
{
    if files.len() == 0 {
        Ok(Seq::empty())
    } else {
        match exported(files.drop_last()) {
            Err(f) => Err(f),
            Ok(before) => match files.last() {
                None => Ok(before),
                Some(data) => match segment_reader::segment_events(data@) {
                    Err(f) => Err(f),
                    Ok(events) => Ok(before + events),
                },
            },
        }
    }
}

/// How many files there are.
pub open spec fn present(files: Seq<Option<Vec<u8>>>) -> nat
    decreases files.len(),
{
    if files.len() == 0 {
        0
    } else {
        present(files.drop_last()) + if files.last() is Some {
            1nat
        } else {
            0nat
        }
    }
}

proof fn lemma_first_fault(files: Seq<Option<Vec<u8>>>, n: int, f: SegmentFault)
    requires
        0 <= n <= files.len(),
        exported(files.take(n)) == Err::<Seq<EventModel>, _>(f),
    ensures
        exported(files) == Err::<Seq<EventModel>, _>(f),
    decreases files.len() - n,
{
    if n < files.len() {
        assert(files.take(n + 1).drop_last() =~= files.take(n));
        lemma_first_fault(files, n + 1, f);
    } else {
        assert(files.take(n) =~= files);
    }
}

/// The events of segments' files, and how many there are of both.
pub fn collect_events(files: &Vec<Option<Vec<u8>>>) -> (r: Result<
    (Vec<UsageEvent>, ExportStats),
    SegmentFault,
>)
    ensures
        match r {
            Ok((events, stats)) => {
                &&& exported(files@) == Ok::<_, SegmentFault>(event::event_views(events@))
                &&& stats.events_exported == events@.len()
                &&& stats.segments_read == present(files@)
            },
            Err(f) => exported(files@) == Err::<Seq<EventModel>, _>(f),
        },
{
    let mut all: Vec<UsageEvent> = Vec::new();
    let mut segments_read: usize = 0;
    let total: usize = files.len();
    assert(event::event_views(all@) =~= Seq::empty());
    for i in 0..total
        invariant
            total == files@.len(),
            exported(files@.take(i as int)) == Ok::<_, SegmentFault>(event::event_views(all@)),
            segments_read == present(files@.take(i as int)),
            segments_read <= i,
    {
        assert(files@.take(i + 1).drop_last() =~= files@.take(i as int));
        assert(files@.take(i + 1).last() == files@[i as int]);
        if let Some(data) = &files[i] {
            match RawSegmentReader::new(data.as_slice()) {
                Err(f) => {
                    proof {
                        lemma_first_fault(files@, i + 1, f);
                    }
                    return Err(f);
                },
                Ok(reader) => {
                    let mut events = reader.into_events();
                    let ghost was = all@;
                    let ghost added = events@;
                    all.append(&mut events);
                    segments_read = segments_read + 1;
                    assert(event::event_views(all@) =~= event::event_views(was)
                        + event::event_views(added));
                },
            }
        }
    }
    assert(files@.take(files@.len() as int) =~= files@);
    let events_exported: u64 = all.len() as u64;
    Ok((all, ExportStats { events_exported, segments_read }))
}

// ---------------------------------------------------------------------------
// The table
// ---------------------------------------------------------------------------

/// What a column holds.
#[derive(Debug, Clone, Copy, PartialEq, Eq, Structural)]
pub enum ColumnKind {
    Utf8,
    Int64,
    /// Decimal numbers by how many digits they have, and how many of them stand
    /// behind the point.
    Decimal128(u8, i8),
}

/// The digits of a quantity: all that fit.
pub const QUANTITY_PRECISION: u8 = 38;

/// A quantity is whole.
pub const QUANTITY_SCALE: i8 = 0;

/// A column of the table.
#[derive(Debug, Clone, Copy, PartialEq, Eq)]
pub struct ColumnSpec {
    pub name: &'static str,
    pub kind: ColumnKind,
    pub nullable: bool,
}

fn column(name: &'static str, kind: ColumnKind, nullable: bool) -> (r: ColumnSpec)
    ensures
        r.name == name,
        r.kind == kind,
        r.nullable == nullable,
{
    ColumnSpec { name, kind, nullable }
}

/// A column, by its contents.
pub type ColumnModel = (Seq<char>, ColumnKind, bool);

pub open spec fn column_views(columns: Seq<ColumnSpec>) -> Seq<ColumnModel> {
    columns.map_values(|c: ColumnSpec| (c.name@, c.kind, c.nullable))
}

/// The columns of the table, in their order.
pub open spec fn table_columns() -> Seq<ColumnModel> {
    seq![
        ("event_id"@, ColumnKind::Utf8, false),
        ("kind"@, ColumnKind::Utf8, false),
        ("correction_original_event_id"@, ColumnKind::Utf8, true),
        ("correction_reason"@, ColumnKind::Utf8, true),
        ("account_id"@, ColumnKind::Utf8, false),
        ("subscription_id"@, ColumnKind::Utf8, true),
        ("product_id"@, ColumnKind::Utf8, false),
        ("meter_id"@, ColumnKind::Utf8, false),
        ("model_id"@, ColumnKind::Utf8, true),
        ("timestamp_ms"@, ColumnKind::Int64, false),
        ("quantity"@, ColumnKind::Decimal128(QUANTITY_PRECISION, QUANTITY_SCALE), false),
        ("unit"@, ColumnKind::Utf8, false),
        ("source"@, ColumnKind::Utf8, false),
        ("dimensions_canonical"@, ColumnKind::Utf8, false),
        ("ingested_at_ms"@, ColumnKind::Int64, false),
    ]
}

/// The columns of the table, in their order.
pub fn parquet_schema() -> (r: Vec<ColumnSpec>)
    ensures
        column_views(r@) == table_columns(),
{
    let mut out: Vec<ColumnSpec> = Vec::new();
    out.push(column("event_id", ColumnKind::Utf8, false));
    out.push(column("kind", ColumnKind::Utf8, false));
    out.push(column("correction_original_event_id", ColumnKind::Utf8, true));
    out.push(column("correction_reason", ColumnKind::Utf8, true));
    out.push(column("account_id", ColumnKind::Utf8, false));
    out.push(column("subscription_id", ColumnKind::Utf8, true));
    out.push(column("product_id", ColumnKind::Utf8, false));
    out.push(column("meter_id", ColumnKind::Utf8, false));
    out.push(column("model_id", ColumnKind::Utf8, true));
    out.push(column("timestamp_ms", ColumnKind::Int64, false));
    out.push(
        column("quantity", ColumnKind::Decimal128(QUANTITY_PRECISION, QUANTITY_SCALE), false),
    );
    out.push(column("unit", ColumnKind::Utf8, false));
    out.push(column("source", ColumnKind::Utf8, false));
    out.push(column("dimensions_canonical", ColumnKind::Utf8, false));
    out.push(column("ingested_at_ms", ColumnKind::Int64, false));
    assert(column_views(out@) =~= table_columns());
    out
}

/// The table's columns with their values, one for each event.
#[derive(Debug)]
pub struct ParquetColumns {
    pub event_id: Vec<String>,
    pub kind: Vec<String>,
    pub correction_original: Vec<Option<String>>,
    pub correction_reason: Vec<Option<String>>,
    pub account_id: Vec<String>,
    pub subscription_id: Vec<Option<String>>,
    pub product_id: Vec<String>,
    pub meter_id: Vec<String>,
    pub model_id: Vec<Option<String>>,
    pub timestamp_ms: Vec<i64>,
    pub quantity: Vec<i128>,
    pub unit: Vec<String>,
    pub source: Vec<String>,
    pub dimensions_canonical: Vec<String>,
    pub ingested_at_ms: Vec<i64>,
}

/// A row of the table.
#[verifier::ext_equal]
pub struct TableRow {
    pub event_id: Seq<char>,
    pub kind: Seq<char>,
    pub correction_original: Option<Seq<char>>,
    pub correction_reason: Option<Seq<char>>,
    pub account_id: Seq<char>,
    pub subscription_id: Option<Seq<char>>,
    pub product_id: Seq<char>,
    pub meter_id: Seq<char>,
    pub model_id: Option<Seq<char>>,
    pub timestamp_ms: i64,
    pub quantity: i128,
    pub unit: Seq<char>,
    pub source: Seq<char>,
    pub dimensions_canonical: Seq<char>,
    pub ingested_at_ms: i64,
}

/// The row of an event.
pub open spec fn row_of(e: EventModel) -> TableRow {
    TableRow {
        event_id: e.event_id,
        kind: event::kind_text(e.kind),
        correction_original: match e.correction_ref {
            Some(c) => Some(c.0),
            None => None,
        },
        correction_reason: match e.correction_ref {
            Some(c) => Some(c.1),
            None => None,
        },
        account_id: e.account_id,
        subscription_id: e.subscription_id,
        product_id: e.product_id,
        meter_id: e.meter_id,
        model_id: e.model_id,
        timestamp_ms: e.timestamp_ms,
        quantity: e.quantity,
        unit: e.unit,
        source: e.source,
        dimensions_canonical: dimensions::dimension_text(e.dimensions),
        ingested_at_ms: e.ingested_at_ms,
    }
}

impl ParquetColumns {
    /// Every column has `n` values.
    pub open spec fn has_rows(self, n: nat) -> bool {
        &&& self.event_id@.len() == n
        &&& self.kind@.len() == n
        &&& self.correction_original@.len() == n
        &&& self.correction_reason@.len() == n
        &&& self.account_id@.len() == n
        &&& self.subscription_id@.len() == n
        &&& self.product_id@.len() == n
        &&& self.meter_id@.len() == n
        &&& self.model_id@.len() == n
        &&& self.timestamp_ms@.len() == n
        &&& self.quantity@.len() == n
        &&& self.unit@.len() == n
        &&& self.source@.len() == n
        &&& self.dimensions_canonical@.len() == n
        &&& self.ingested_at_ms@.len() == n
    }

    /// The values of row `i`.
    pub open spec fn row(self, i: int) -> TableRow {
        TableRow {
            event_id: self.event_id@[i]@,
            kind: self.kind@[i]@,
            correction_original: text::option_view(self.correction_original@[i]),
            correction_reason: text::option_view(self.correction_reason@[i]),
            account_id: self.account_id@[i]@,
            subscription_id: text::option_view(self.subscription_id@[i]),
            product_id: self.product_id@[i]@,
            meter_id: self.meter_id@[i]@,
            model_id: text::option_view(self.model_id@[i]),
            timestamp_ms: self.timestamp_ms@[i],
            quantity: self.quantity@[i],
            unit: self.unit@[i]@,
            source: self.source@[i]@,
            dimensions_canonical: self.dimensions_canonical@[i]@,
            ingested_at_ms: self.ingested_at_ms@[i],
        }
    }

    fn push(&mut self, e: &UsageEvent)
        requires
            exists|n: nat| old(self).has_rows(n),
        ensures
            forall|n: nat| #[trigger]
                old(self).has_rows(n) ==> {
                    &&& final(self).has_rows(n + 1)
                    &&& final(self).row(n as int) == row_of(e@)
                    &&& forall|i: int| 0 <= i < n ==> #[trigger] final(self).row(i) == old(self).row(i)
                },
    {
        let (original, reason): (Option<String>, Option<String>) = match &e.correction_ref {
            Some(c) => (Some(c.original_event_id.0.clone()), Some(c.reason.clone())),
            None => (None, None),
        };
        self.event_id.push(e.event_id.0.clone());
        self.kind.push(e.kind.as_text().to_owned());
        self.correction_original.push(original);
        self.correction_reason.push(reason);
        self.account_id.push(e.account_id.0.clone());
        self.subscription_id.push(
            match &e.subscription_id {
                Some(s) => Some(s.0.clone()),
                None => None,
            },
        );
        self.product_id.push(e.product_id.0.clone());
        self.meter_id.push(e.meter_id.0.clone());
        self.model_id.push(
            match &e.model_id {
                Some(m) => Some(m.0.clone()),
                None => None,
            },
        );
        self.timestamp_ms.push(e.timestamp_ms);
        self.quantity.push(e.quantity);
        self.unit.push(e.unit.0.clone());
        self.source.push(e.source.0.clone());
        self.dimensions_canonical.push(canonical_text(&e.dimensions));
        self.ingested_at_ms.push(e.ingested_at_ms);
    }
}

/// The table of events: one row for each, in their order.
pub fn table_of(events: &[UsageEvent]) -> (r: ParquetColumns)
    ensures
        r.has_rows(events@.len()),
        forall|i: int| 0 <= i < events@.len() ==> #[trigger] r.row(i) == row_of(events@[i]@),
{
    let mut out = ParquetColumns {
        event_id: Vec::new(),
        kind: Vec::new(),
        correction_original: Vec::new(),
        correction_reason: Vec::new(),
        account_id: Vec::new(),
        subscription_id: Vec::new(),
        product_id: Vec::new(),
        meter_id: Vec::new(),
        model_id: Vec::new(),
        timestamp_ms: Vec::new(),
        quantity: Vec::new(),
        unit: Vec::new(),
        source: Vec::new(),
        dimensions_canonical: Vec::new(),
        ingested_at_ms: Vec::new(),
    };
    for i in 0..events.len()
        invariant
            out.has_rows(i as nat),
            forall|k: int| 0 <= k < i ==> #[trigger] out.row(k) == row_of(events@[k]@),
    {
        let ghost before = out;
        assert(before.has_rows(i as nat));
        out.push(&events[i]);
        assert(out.has_rows((i + 1) as nat));
        assert forall|k: int| 0 <= k < i + 1 implies #[trigger] out.row(k) == row_of(
            events@[k]@,
        ) by {
            if k < i {
                assert(out.row(k) == before.row(k));
            }
        }
    }
    out
}

/// The table loses nothing: two events with the same row are the same, where the
/// text of their dimensions gives the dimensions back.
pub proof fn law_rows_tell_events_apart(a: EventModel, b: EventModel)
    requires
        row_of(a) == row_of(b),
        dimensions::dimensions_of_text(dimensions::dimension_text(a.dimensions)) == Some(
            a.dimensions,
        ),
        dimensions::dimensions_of_text(dimensions::dimension_text(b.dimensions)) == Some(
            b.dimensions,
        ),
    ensures
        a == b,
{
    reveal_strlit("Usage");
    reveal_strlit("Correction");
    reveal_strlit("Retraction");
    assert(event::kind_text(a.kind) == event::kind_text(b.kind));
    assert("Usage"@.len() == 5 && "Correction"@.len() == 10 && "Retraction"@.len() == 10);
    assert("Correction"@[0] == 'C' && "Retraction"@[0] == 'R');
    assert(a.kind == b.kind);
}

/// An export holds the events of the files that are there, one file after the other. It
/// fails where one of them cannot be read, for the first that cannot.
pub proof fn law_files_of_exports(files: Seq<Option<Vec<u8>>>, data: Vec<u8>)
    ensures
        exported(Seq::empty()) == Ok::<_, SegmentFault>(Seq::<EventModel>::empty()),
        exported(files.push(None)) == exported(files),
        exported(files) is Err ==> exported(files.push(Some(data))) == exported(files),
        exported(files) matches Ok(before) ==> match segment_reader::segment_events(data@) {
            Ok(events) => exported(files.push(Some(data))) == Ok::<_, SegmentFault>(
                before + events,
            ),
            Err(f) => exported(files.push(Some(data))) == Err::<Seq<EventModel>, _>(f),
        },
        present(files) == files.filter(|f: Option<Vec<u8>>| f is Some).len(),
    decreases files.len(),
{
    assert(files.push(None).drop_last() =~= files);
    assert(files.push(Some(data)).drop_last() =~= files);
    reveal(Seq::filter);
    if files.len() > 0 {
        law_files_of_exports(files.drop_last(), data);
    }
}

/// Every column of the table has the name of what it holds of the events: the value in
/// row `i` is that of event `i`. Only what an event may lack may be missing.
pub proof fn law_columns_of_the_table(events: Seq<EventModel>)
    ensures
        ({
            let columns = table_columns();
            let cells = file::row_cells(file::event_rows(events));
            let text = ColumnKind::Utf8;
            &&& columns.len() == 15 && cells.len() == 15
            &&& columns[0] == ("event_id"@, text, false) && cells[0] == CellsModel::Texts(
                events.map_values(|e: EventModel| e.event_id),
            )
            &&& columns[1] == ("kind"@, text, false) && cells[1] == CellsModel::Texts(
                events.map_values(
                    |e: EventModel|
                        match e.kind {
                            EventKind::Usage => "Usage"@,
                            EventKind::Correction => "Correction"@,
                            EventKind::Retraction => "Retraction"@,
                        },
                ),
            )
            &&& columns[2] == ("correction_original_event_id"@, text, true) && cells[2]
                == CellsModel::OptionalTexts(
                events.map_values(
                    |e: EventModel|
                        match e.correction_ref {
                            Some((original, _)) => Some(original),
                            None => None,
                        },
                ),
            )
            &&& columns[3] == ("correction_reason"@, text, true) && cells[3]
                == CellsModel::OptionalTexts(
                events.map_values(
                    |e: EventModel|
                        match e.correction_ref {
                            Some((_, reason)) => Some(reason),
                            None => None,
                        },
                ),
            )
            &&& columns[4] == ("account_id"@, text, false) && cells[4] == CellsModel::Texts(
                events.map_values(|e: EventModel| e.account_id),
            )
            &&& columns[5] == ("subscription_id"@, text, true) && cells[5]
                == CellsModel::OptionalTexts(
                events.map_values(|e: EventModel| e.subscription_id),
            )
            &&& columns[6] == ("product_id"@, text, false) && cells[6] == CellsModel::Texts(
                events.map_values(|e: EventModel| e.product_id),
            )
            &&& columns[7] == ("meter_id"@, text, false) && cells[7] == CellsModel::Texts(
                events.map_values(|e: EventModel| e.meter_id),
            )
            &&& columns[8] == ("model_id"@, text, true) && cells[8] == CellsModel::OptionalTexts(
                events.map_values(|e: EventModel| e.model_id),
            )
            &&& columns[9] == ("timestamp_ms"@, ColumnKind::Int64, false) && cells[9]
                == CellsModel::Integers(events.map_values(|e: EventModel| e.timestamp_ms))
            &&& columns[10] == ("quantity"@, ColumnKind::Decimal128(38, 0), false) && cells[10]
                == CellsModel::Decimals(events.map_values(|e: EventModel| e.quantity), 38, 0)
            &&& columns[11] == ("unit"@, text, false) && cells[11] == CellsModel::Texts(
                events.map_values(|e: EventModel| e.unit),
            )
            &&& columns[12] == ("source"@, text, false) && cells[12] == CellsModel::Texts(
                events.map_values(|e: EventModel| e.source),
            )
            &&& columns[13] == ("dimensions_canonical"@, text, false) && cells[13]
                == CellsModel::Texts(
                events.map_values(|e: EventModel| dimensions::dimension_text(e.dimensions)),
            )
            &&& columns[14] == ("ingested_at_ms"@, ColumnKind::Int64, false) && cells[14]
                == CellsModel::Integers(events.map_values(|e: EventModel| e.ingested_at_ms))
        }),
{
    let rows = file::event_rows(events);
    assert(rows.map_values(|r: TableRow| r.event_id) =~= events.map_values(
        |e: EventModel| e.event_id,
    ));
    assert(rows.map_values(|r: TableRow| r.kind) =~= events.map_values(
        |e: EventModel|
            match e.kind {
                EventKind::Usage => "Usage"@,
                EventKind::Correction => "Correction"@,
                EventKind::Retraction => "Retraction"@,
            },
    ));
    assert(rows.map_values(|r: TableRow| r.correction_original) =~= events.map_values(
        |e: EventModel|
            match e.correction_ref {
                Some((original, _)) => Some(original),
                None => None,
            },
    ));
    assert(rows.map_values(|r: TableRow| r.correction_reason) =~= events.map_values(
        |e: EventModel|
            match e.correction_ref {
                Some((_, reason)) => Some(reason),
                None => None,
            },
    ));
    assert(rows.map_values(|r: TableRow| r.account_id) =~= events.map_values(
        |e: EventModel| e.account_id,
    ));
    assert(rows.map_values(|r: TableRow| r.subscription_id) =~= events.map_values(
        |e: EventModel| e.subscription_id,
    ));
    assert(rows.map_values(|r: TableRow| r.product_id) =~= events.map_values(
        |e: EventModel| e.product_id,
    ));
    assert(rows.map_values(|r: TableRow| r.meter_id) =~= events.map_values(
        |e: EventModel| e.meter_id,
    ));
    assert(rows.map_values(|r: TableRow| r.model_id) =~= events.map_values(
        |e: EventModel| e.model_id,
    ));
    assert(rows.map_values(|r: TableRow| r.timestamp_ms) =~= events.map_values(
        |e: EventModel| e.timestamp_ms,
    ));
    assert(rows.map_values(|r: TableRow| r.quantity) =~= events.map_values(
        |e: EventModel| e.quantity,
    ));
    assert(rows.map_values(|r: TableRow| r.unit) =~= events.map_values(|e: EventModel| e.unit));
    assert(rows.map_values(|r: TableRow| r.source) =~= events.map_values(
        |e: EventModel| e.source,
    ));
    assert(rows.map_values(|r: TableRow| r.dimensions_canonical) =~= events.map_values(
        |e: EventModel| dimensions::dimension_text(e.dimensions),
    ));
    assert(rows.map_values(|r: TableRow| r.ingested_at_ms) =~= events.map_values(
        |e: EventModel| e.ingested_at_ms,
    ));
}

} // verus!
