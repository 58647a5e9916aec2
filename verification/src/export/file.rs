//! The table of events as an Apache Parquet file.

use arrow::array::{
    make_array, Array, ArrayData, Decimal128Array, Int64Array, RecordBatch, StringArray,
};
use arrow::datatypes::{DataType, Field, Schema};
use ::parquet::arrow::ArrowWriter;
use ::parquet::basic::{Compression, ZstdLevel};
use ::parquet::file::properties::WriterProperties;
use std::sync::Arc;
use vstd::prelude::*;

use crate::export::parquet as table;
use crate::export::parquet::{
    parquet_schema, table_of, ColumnKind, ColumnModel, ColumnSpec, ParquetColumns, TableRow,
    QUANTITY_PRECISION, QUANTITY_SCALE,
};
use crate::model::event;
use crate::model::event::UsageEvent;
use crate::text;

verus! {

// ---------------------------------------------------------------------------
// Columns of any kind
// ---------------------------------------------------------------------------

/// The values of one column.
#[derive(Debug)]
pub enum Cells {
    Texts(Vec<String>),
    OptionalTexts(Vec<Option<String>>),
    Integers(Vec<i64>),
    /// Whole numbers, with the digits of the column and those behind the point.
    Decimals(Vec<i128>, u8, i8),
}

/// The values of one column, by their contents.
#[verifier::ext_equal]
pub enum CellsModel {
    Texts(Seq<Seq<char>>),
    OptionalTexts(Seq<Option<Seq<char>>>),
    Integers(Seq<i64>),
    Decimals(Seq<i128>, u8, i8),
}

/// Texts that may be missing, by their contents.
pub open spec fn option_views(texts: Seq<Option<String>>) -> Seq<Option<Seq<char>>> {
    texts.map_values(|t: Option<String>| text::option_view(t))
}

impl View for Cells {
    type V = CellsModel;

    open spec fn view(&self) -> CellsModel {
        match *self {
            Cells::Texts(v) => CellsModel::Texts(text::text_views(v@)),
            Cells::OptionalTexts(v) => CellsModel::OptionalTexts(option_views(v@)),
            Cells::Integers(v) => CellsModel::Integers(v@),
            Cells::Decimals(v, precision, scale) => CellsModel::Decimals(v@, precision, scale),
        }
    }
}

pub open spec fn cells_views(cells: Seq<Cells>) -> Seq<CellsModel> {
    cells.map_values(|c: Cells| c@)
}

/// How many bytes a text takes that may be missing.
pub open spec fn option_bytes(t: Option<Seq<char>>) -> nat {
    match t {
        Some(s) => vstd::utf8::encode_utf8(s).len(),
        None => 0,
    }
}

/// How many bytes texts take together.
pub open spec fn total_bytes(texts: Seq<Option<Seq<char>>>) -> nat
    decreases texts.len(),
{
    if texts.len() == 0 {
        0
    } else {
        total_bytes(texts.drop_last()) + option_bytes(texts.last())
    }
}

/// The texts of a column, as if each could be missing.
pub open spec fn texts_of(c: CellsModel) -> Seq<Option<Seq<char>>> {
    match c {
        CellsModel::Texts(v) => v.map_values(|t: Seq<char>| Some(t)),
        CellsModel::OptionalTexts(v) => v,
        _ => Seq::empty(),
    }
}

/// The places of the texts in a column are numbers of 32 bits with a sign: the
/// texts together have to end before the greatest of them.
pub open spec fn column_fits(c: CellsModel) -> bool {
    total_bytes(texts_of(c)) <= i32::MAX
}

/// Every column fits.
pub open spec fn cells_fit(cells: Seq<CellsModel>) -> bool {
    forall|k: int| 0 <= k < cells.len() ==> column_fits(#[trigger] cells[k])
}

proof fn lemma_total_grows(texts: Seq<Option<Seq<char>>>, n: int)
    requires
        0 <= n <= texts.len(),
    ensures
        total_bytes(texts.take(n)) <= total_bytes(texts),
    decreases texts.len() - n,
{
    if n < texts.len() {
        assert(texts.take(n + 1).drop_last() =~= texts.take(n));
        lemma_total_grows(texts, n + 1);
    } else {
        assert(texts.take(n) =~= texts);
    }
}

/// One more text, as long as all of them fit.
fn add_bytes(total: u64, s: &String) -> (r: Option<u64>)
    requires
        total <= i32::MAX,
    ensures
        match r {
            Some(t) => t == total + option_bytes(Some(s@)) && t <= i32::MAX,
            None => total + option_bytes(Some(s@)) > i32::MAX,
        },
{
    let n: usize = s.as_str().as_bytes().len();
    if n > 0x7fff_ffff {
        return None;
    }
    let t: u64 = total + n as u64;
    if t > 0x7fff_ffff {
        None
    } else {
        Some(t)
    }
}

fn texts_fit(texts: &Vec<String>) -> (r: bool)
    ensures
        r == column_fits(CellsModel::Texts(text::text_views(texts@))),
{
    let ghost all = texts_of(CellsModel::Texts(text::text_views(texts@)));
    let mut total: u64 = 0;
    for i in 0..texts.len()
        invariant
            all == texts_of(CellsModel::Texts(text::text_views(texts@))),
            all.len() == texts@.len(),
            total == total_bytes(all.take(i as int)),
            total <= i32::MAX,
    {
        assert(all.take(i + 1).drop_last() =~= all.take(i as int));
        assert(all.take(i + 1).last() == Some(texts@[i as int]@));
        match add_bytes(total, &texts[i]) {
            Some(t) => {
                total = t;
            },
            None => {
                proof {
                    lemma_total_grows(all, i + 1);
                }
                return false;
            },
        }
    }
    assert(all.take(all.len() as int) =~= all);
    true
}

fn optional_texts_fit(texts: &Vec<Option<String>>) -> (r: bool)
    ensures
        r == column_fits(CellsModel::OptionalTexts(option_views(texts@))),
{
    let ghost all = option_views(texts@);
    let mut total: u64 = 0;
    for i in 0..texts.len()
        invariant
            all == option_views(texts@),
            total == total_bytes(all.take(i as int)),
            total <= i32::MAX,
    {
        assert(all.take(i + 1).drop_last() =~= all.take(i as int));
        assert(all.take(i + 1).last() == text::option_view(texts@[i as int]));
        if let Some(s) = &texts[i] {
            match add_bytes(total, s) {
                Some(t) => {
                    total = t;
                },
                None => {
                    proof {
                        lemma_total_grows(all, i + 1);
                    }
                    return false;
                },
            }
        }
    }
    assert(all.take(all.len() as int) =~= all);
    true
}

/// Whether every column fits.
pub fn columns_fit(cells: &Vec<Cells>) -> (r: bool)
    ensures
        r == cells_fit(cells_views(cells@)),
{
    for i in 0..cells.len()
        invariant
            forall|k: int| 0 <= k < i ==> column_fits(#[trigger] cells_views(cells@)[k]),
    {
        let fits = match &cells[i] {
            Cells::Texts(v) => texts_fit(v),
            Cells::OptionalTexts(v) => optional_texts_fit(v),
            Cells::Integers(_) => true,
            Cells::Decimals(..) => true,
        };
        assert(cells_views(cells@)[i as int] == cells@[i as int]@);
        assert(fits == column_fits(cells@[i as int]@));
        if !fits {
            return false;
        }
    }
    true
}

// ---------------------------------------------------------------------------
// The file
// ---------------------------------------------------------------------------

/// What `parquet` makes of a table: the bytes of the file, or what it says of a
/// table that is none.
pub uninterp spec fn parquet_file(
    columns: Seq<ColumnModel>,
    cells: Seq<CellsModel>,
) -> Result<Seq<u8>, Seq<char>>;

#[verifier::external_type_specification]
#[verifier::external_body]
pub struct ExDataType(arrow::datatypes::DataType);

#[verifier::external_type_specification]
#[verifier::external_body]
pub struct ExArrayData(arrow::array::ArrayData);

#[verifier::external_type_specification]
#[verifier::external_body]
pub struct ExSchema(arrow::datatypes::Schema);

/// `arrow::datatypes::DataType`, variant by variant.
#[verifier::external_body]
fn data_type_of(kind: ColumnKind) -> (r: DataType) {
    match kind {
        ColumnKind::Utf8 => DataType::Utf8,
        ColumnKind::Int64 => DataType::Int64,
        ColumnKind::Decimal128(precision, scale) => DataType::Decimal128(precision, scale),
    }
}

/// `arrow`'s arrays from lists: each value in its place. A list of texts whose
/// bytes are too many makes `StringArray::from` panic.
#[verifier::external_body]
fn array_of(cells: Cells) -> (r: Result<ArrayData, String>)
    requires
        column_fits(cells@),
{
    match cells {
        Cells::Texts(v) => Ok(StringArray::from(v).into_data()),
        Cells::OptionalTexts(v) => Ok(StringArray::from(v).into_data()),
        Cells::Integers(v) => Ok(Int64Array::from(v).into_data()),
        Cells::Decimals(v, precision, scale) => Decimal128Array::from(v)
            .with_precision_and_scale(precision, scale)
            .map(|a| a.into_data())
            .map_err(|e| format!("decimal precision: {}", e)),
    }
}

/// `array_of` for each column.
#[verifier::external_body]
fn arrays_of(cells: Vec<Cells>) -> (r: Result<Vec<ArrayData>, String>)
    requires
        cells_fit(cells_views(cells@)),
{
    cells.into_iter().map(array_of).collect()
}

/// `arrow::datatypes::Schema::new` with a field for each column: its name, its
/// kind, and whether a value may be missing.
#[verifier::external_body]
fn schema_of(columns: Vec<ColumnSpec>) -> (r: Schema) {
    let fields = columns.iter().map(|c| Field::new(c.name, data_type_of(c.kind), c.nullable));
    Schema::new(fields.collect::<Vec<Field>>())
}

/// `parquet::arrow::ArrowWriter` into memory, on one `arrow::array::RecordBatch`
/// with these columns, compressed with Zstandard at the level that
/// `ZstdLevel::default` gives: the bytes of the file, or the error, are a function
/// of the columns and their values alone. What the bytes are is not stated further.
#[verifier::external_body]
fn encode_table(columns: Vec<ColumnSpec>, cells: Vec<Cells>) -> (r: Result<Vec<u8>, String>)
    requires
        cells_fit(cells_views(cells@)),
    ensures
        parquet_file(table::column_views(columns@), cells_views(cells@)) == (match r {
            Ok(bytes) => Ok::<Seq<u8>, Seq<char>>(bytes@),
            Err(e) => Err::<Seq<u8>, Seq<char>>(e@),
        }),
{
    let arrays = arrays_of(cells)?.into_iter().map(make_array).collect();
    let batch = RecordBatch::try_new(Arc::new(schema_of(columns)), arrays);
    let batch = batch.map_err(|e| format!("RecordBatch::try_new: {}", e))?;
    let zstd = Compression::ZSTD(ZstdLevel::default());
    let props = WriterProperties::builder().set_compression(zstd).build();
    let writer = ArrowWriter::try_new(Vec::new(), batch.schema(), Some(props));
    let mut writer = writer.map_err(|e| format!("ArrowWriter::try_new: {}", e))?;
    writer.write(&batch).map_err(|e| format!("ArrowWriter::write: {}", e))?;
    writer.into_inner().map_err(|e| format!("ArrowWriter::close: {}", e))
}

/// The values of the columns of a table with these rows, in the order of the
/// columns.
pub open spec fn row_cells(rows: Seq<TableRow>) -> Seq<CellsModel> {
    seq![
        CellsModel::Texts(rows.map_values(|r: TableRow| r.event_id)),
        CellsModel::Texts(rows.map_values(|r: TableRow| r.kind)),
        CellsModel::OptionalTexts(rows.map_values(|r: TableRow| r.correction_original)),
        CellsModel::OptionalTexts(rows.map_values(|r: TableRow| r.correction_reason)),
        CellsModel::Texts(rows.map_values(|r: TableRow| r.account_id)),
        CellsModel::OptionalTexts(rows.map_values(|r: TableRow| r.subscription_id)),
        CellsModel::Texts(rows.map_values(|r: TableRow| r.product_id)),
        CellsModel::Texts(rows.map_values(|r: TableRow| r.meter_id)),
        CellsModel::OptionalTexts(rows.map_values(|r: TableRow| r.model_id)),
        CellsModel::Integers(rows.map_values(|r: TableRow| r.timestamp_ms)),
        CellsModel::Decimals(
            rows.map_values(|r: TableRow| r.quantity),
            QUANTITY_PRECISION,
            QUANTITY_SCALE,
        ),
        CellsModel::Texts(rows.map_values(|r: TableRow| r.unit)),
        CellsModel::Texts(rows.map_values(|r: TableRow| r.source)),
        CellsModel::Texts(rows.map_values(|r: TableRow| r.dimensions_canonical)),
        CellsModel::Integers(rows.map_values(|r: TableRow| r.ingested_at_ms)),
    ]
}

/// The rows of events.
pub open spec fn event_rows(events: Seq<event::EventModel>) -> Seq<TableRow> {
    events.map_values(|e: event::EventModel| table::row_of(e))
}

/// The columns of a table, in the order of the schema.
fn cells_of(from: ParquetColumns, Ghost(rows): Ghost<Seq<TableRow>>) -> (r: Vec<Cells>)
    requires
        from.has_rows(rows.len()),
        forall|i: int| 0 <= i < rows.len() ==> #[trigger] from.row(i) == rows[i],
    ensures
        cells_views(r@) == row_cells(rows),
{
    let ghost t = from;
    let mut out: Vec<Cells> = Vec::new();
    out.push(Cells::Texts(from.event_id));
    out.push(Cells::Texts(from.kind));
    out.push(Cells::OptionalTexts(from.correction_original));
    out.push(Cells::OptionalTexts(from.correction_reason));
    out.push(Cells::Texts(from.account_id));
    out.push(Cells::OptionalTexts(from.subscription_id));
    out.push(Cells::Texts(from.product_id));
    out.push(Cells::Texts(from.meter_id));
    out.push(Cells::OptionalTexts(from.model_id));
    out.push(Cells::Integers(from.timestamp_ms));
    out.push(Cells::Decimals(from.quantity, QUANTITY_PRECISION, QUANTITY_SCALE));
    out.push(Cells::Texts(from.unit));
    out.push(Cells::Texts(from.source));
    out.push(Cells::Texts(from.dimensions_canonical));
    out.push(Cells::Integers(from.ingested_at_ms));
    proof {
        lemma_columns(t, rows);
        assert(cells_views(out@) =~= row_cells(rows));
    }
    out
}

proof fn lemma_columns(t: ParquetColumns, rows: Seq<TableRow>)
    requires
        t.has_rows(rows.len()),
        forall|i: int| 0 <= i < rows.len() ==> #[trigger] t.row(i) == rows[i],
    ensures
        text::text_views(t.event_id@) == rows.map_values(|r: TableRow| r.event_id),
        text::text_views(t.kind@) == rows.map_values(|r: TableRow| r.kind),
        option_views(t.correction_original@) == rows.map_values(
            |r: TableRow| r.correction_original,
        ),
        option_views(t.correction_reason@) == rows.map_values(|r: TableRow| r.correction_reason),
        text::text_views(t.account_id@) == rows.map_values(|r: TableRow| r.account_id),
        option_views(t.subscription_id@) == rows.map_values(|r: TableRow| r.subscription_id),
        text::text_views(t.product_id@) == rows.map_values(|r: TableRow| r.product_id),
        text::text_views(t.meter_id@) == rows.map_values(|r: TableRow| r.meter_id),
        option_views(t.model_id@) == rows.map_values(|r: TableRow| r.model_id),
        t.timestamp_ms@ == rows.map_values(|r: TableRow| r.timestamp_ms),
        t.quantity@ == rows.map_values(|r: TableRow| r.quantity),
        text::text_views(t.unit@) == rows.map_values(|r: TableRow| r.unit),
        text::text_views(t.source@) == rows.map_values(|r: TableRow| r.source),
        text::text_views(t.dimensions_canonical@) == rows.map_values(
            |r: TableRow| r.dimensions_canonical,
        ),
        t.ingested_at_ms@ == rows.map_values(|r: TableRow| r.ingested_at_ms),
{
    assert forall|i: int| 0 <= i < rows.len() implies {
        let r = #[trigger] rows[i];
        &&& r.event_id == t.event_id@[i]@
        &&& r.kind == t.kind@[i]@
        &&& r.account_id == t.account_id@[i]@
        &&& r.product_id == t.product_id@[i]@
        &&& r.meter_id == t.meter_id@[i]@
        &&& r.unit == t.unit@[i]@
        &&& r.source == t.source@[i]@
        &&& r.dimensions_canonical == t.dimensions_canonical@[i]@
        &&& r.correction_original == text::option_view(t.correction_original@[i])
        &&& r.correction_reason == text::option_view(t.correction_reason@[i])
        &&& r.subscription_id == text::option_view(t.subscription_id@[i])
        &&& r.model_id == text::option_view(t.model_id@[i])
        &&& r.timestamp_ms == t.timestamp_ms@[i]
        &&& r.quantity == t.quantity@[i]
        &&& r.ingested_at_ms == t.ingested_at_ms@[i]
    } by {
        assert(t.row(i) == rows[i]);
    }
    assert(text::text_views(t.event_id@) =~= rows.map_values(|r: TableRow| r.event_id));
    assert(text::text_views(t.kind@) =~= rows.map_values(|r: TableRow| r.kind));
    assert(text::text_views(t.account_id@) =~= rows.map_values(|r: TableRow| r.account_id));
    assert(text::text_views(t.product_id@) =~= rows.map_values(|r: TableRow| r.product_id));
    assert(text::text_views(t.meter_id@) =~= rows.map_values(|r: TableRow| r.meter_id));
    assert(text::text_views(t.unit@) =~= rows.map_values(|r: TableRow| r.unit));
    assert(text::text_views(t.source@) =~= rows.map_values(|r: TableRow| r.source));
    assert(text::text_views(t.dimensions_canonical@) =~= rows.map_values(|r: TableRow| r.dimensions_canonical));
    assert(option_views(t.correction_original@) =~= rows.map_values(|r: TableRow| r.correction_original));
    assert(option_views(t.correction_reason@) =~= rows.map_values(|r: TableRow| r.correction_reason));
    assert(option_views(t.subscription_id@) =~= rows.map_values(|r: TableRow| r.subscription_id));
    assert(option_views(t.model_id@) =~= rows.map_values(|r: TableRow| r.model_id));
    assert(t.timestamp_ms@ =~= rows.map_values(|r: TableRow| r.timestamp_ms));
    assert(t.quantity@ =~= rows.map_values(|r: TableRow| r.quantity));
    assert(t.ingested_at_ms@ =~= rows.map_values(|r: TableRow| r.ingested_at_ms));
}

/// Writes the table of events, compressed with Zstandard, where every column fits.
pub fn write_parquet(events: &[UsageEvent]) -> (r: Option<Result<Vec<u8>, String>>)
    ensures
        match r {
            None => !cells_fit(row_cells(event_rows(event::event_views(events@)))),
            Some(written) => {
                &&& cells_fit(row_cells(event_rows(event::event_views(events@))))
                &&& parquet_file(
                    table::table_columns(),
                    row_cells(event_rows(event::event_views(events@))),
                ) == (match written {
                    Ok(bytes) => Ok::<Seq<u8>, Seq<char>>(bytes@),
                    Err(e) => Err::<Seq<u8>, Seq<char>>(e@),
                })
            },
        },
{
    let columns = table_of(events);
    let ghost rows = event_rows(event::event_views(events@));
    let cells = cells_of(columns, Ghost(rows));
    if columns_fit(&cells) {
        Some(encode_table(parquet_schema(), cells))
    } else {
        None
    }
}

/// The texts of a column fit where together they take less than two gibibytes; one that
/// is missing takes none.
pub proof fn law_sizes_of_columns(texts: Seq<Option<Seq<char>>>, t: Seq<char>)
    ensures
        column_fits(CellsModel::OptionalTexts(texts)) <==> total_bytes(texts) <= 0x7fff_ffff,
        total_bytes(Seq::empty()) == 0,
        total_bytes(texts.push(None)) == total_bytes(texts),
        total_bytes(texts.push(Some(t))) == total_bytes(texts) + vstd::utf8::encode_utf8(t).len(),
        forall|numbers: Seq<i64>| #[trigger] column_fits(CellsModel::Integers(numbers)),
{
    assert(texts.push(None).drop_last() =~= texts);
    assert(texts.push(Some(t)).drop_last() =~= texts);
}

} // verus!
