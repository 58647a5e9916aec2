//! The table of events and its Parquet file.

use arrow::array::{Array, Decimal128Array, Int64Array, StringArray};
use axum::body::Bytes;
use parquet::arrow::arrow_reader::ParquetRecordBatchReaderBuilder;

use usagedb::export::parquet::{
    collect_events, parquet_schema, table_of, write_parquet, ColumnKind, ExportStats,
};
use usagedb::model::dimensions::SmallDimensions;
use usagedb::model::event::{CorrectionRef, EventKind, UsageEvent};
use usagedb::model::ids::{
    AccountId, EventId, MeterId, ModelId, ProductId, SourceId, SubscriptionId, Unit,
};
use usagedb::storage::segment_writer::RawSegmentWriter;

fn rich_event(id: &str, account: &str, ts: i64, qty: i128) -> UsageEvent {
    let mut dims = SmallDimensions::default();
    dims.inner.insert("provider".into(), "anthropic".into());
    UsageEvent {
        event_id: EventId(id.to_string()),
        kind: EventKind::Usage,
        correction_ref: None,
        account_id: AccountId(account.to_string()),
        subscription_id: Some(SubscriptionId("sub_1".into())),
        product_id: ProductId("ai_gateway".into()),
        meter_id: MeterId("tokens.input".into()),
        timestamp_ms: ts,
        quantity: qty,
        unit: Unit("token".into()),
        source: SourceId("agentcore".into()),
        model_id: Some(ModelId("sonnet-4".into())),
        dimensions: dims,
        ingested_at_ms: ts + 5,
    }
}

fn segment(events: &[UsageEvent]) -> Vec<u8> {
    let mut writer = RawSegmentWriter::new();
    for e in events {
        writer.write_event(e);
    }
    writer.finish().unwrap().bytes
}

fn file_of(events: &[UsageEvent]) -> Vec<u8> {
    write_parquet(events).expect("the columns fit").unwrap()
}

/// The rows of a file: `(event_id, kind, account_id, quantity)`.
fn read_parquet_minimal(file: Vec<u8>) -> Vec<(String, String, String, i128)> {
    let reader =
        ParquetRecordBatchReaderBuilder::try_new(Bytes::from(file)).unwrap().build().unwrap();
    let mut out = Vec::new();
    for batch in reader {
        let batch = batch.unwrap();
        let event_id = batch.column(0).as_any().downcast_ref::<StringArray>().unwrap();
        let kind = batch.column(1).as_any().downcast_ref::<StringArray>().unwrap();
        let account_id = batch.column(4).as_any().downcast_ref::<StringArray>().unwrap();
        let quantity = batch.column(10).as_any().downcast_ref::<Decimal128Array>().unwrap();
        for i in 0..batch.num_rows() {
            out.push((
                event_id.value(i).to_string(),
                kind.value(i).to_string(),
                account_id.value(i).to_string(),
                quantity.value(i),
            ));
        }
    }
    out
}

#[test]
fn write_parquet_round_trips_event_fields() {
    let events = vec![
        rich_event("evt_a", "acc_1", 1_000, 100),
        rich_event("evt_b", "acc_2", 2_000, i128::MAX / 4),
        UsageEvent {
            kind: EventKind::Correction,
            correction_ref: Some(CorrectionRef {
                original_event_id: EventId("evt_a".into()),
                reason: "overcount".into(),
            }),
            ..rich_event("evt_c", "acc_1", 3_000, -100)
        },
    ];
    let rows = read_parquet_minimal(file_of(&events));
    assert_eq!(rows.len(), 3);

    assert_eq!(rows[0].0, "evt_a");
    assert_eq!(rows[0].1, "Usage");
    assert_eq!(rows[0].2, "acc_1");
    assert_eq!(rows[0].3, 100);

    assert_eq!(rows[1].0, "evt_b");
    assert_eq!(rows[1].3, i128::MAX / 4);

    assert_eq!(rows[2].0, "evt_c");
    assert_eq!(rows[2].1, "Correction");
    assert_eq!(rows[2].3, -100);
}

#[test]
fn schema_matches_canonical_shape() {
    let schema = parquet_schema();
    let expected_columns: &[(&str, bool)] = &[
        ("event_id", false),
        ("kind", false),
        ("correction_original_event_id", true),
        ("correction_reason", true),
        ("account_id", false),
        ("subscription_id", true),
        ("product_id", false),
        ("meter_id", false),
        ("model_id", true),
        ("timestamp_ms", false),
        ("quantity", false),
        ("unit", false),
        ("source", false),
        ("dimensions_canonical", false),
        ("ingested_at_ms", false),
    ];
    assert_eq!(schema.len(), expected_columns.len());
    for (i, (name, nullable)) in expected_columns.iter().enumerate() {
        assert_eq!(schema[i].name, *name, "column {} name", i);
        assert_eq!(schema[i].nullable, *nullable, "column {} nullability", name);
    }
    assert_eq!(schema[10].kind, ColumnKind::Decimal128(38, 0));

    // The file has the same shape.
    let file = Bytes::from(file_of(&[]));
    let builder = ParquetRecordBatchReaderBuilder::try_new(file).unwrap();
    let written = builder.schema();
    assert_eq!(written.fields().len(), schema.len());
    for (field, column) in written.fields().iter().zip(schema.iter()) {
        assert_eq!(field.name(), column.name);
        assert_eq!(field.is_nullable(), column.nullable);
    }
    let decimal = arrow::datatypes::DataType::Decimal128(38, 0);
    assert_eq!(written.field(10).data_type(), &decimal);
}

#[test]
fn empty_input_writes_valid_zero_row_parquet() {
    let file = file_of(&[]);
    assert!(!file.is_empty());
    assert!(read_parquet_minimal(file).is_empty());
}

#[test]
fn export_raw_segments_round_trips_through_manifest() {
    let events_a = vec![
        rich_event("a1", "acc_x", 1_000, 10),
        rich_event("a2", "acc_x", 1_500, 20),
    ];
    let events_b = vec![rich_event("b1", "acc_y", 2_000, 30)];
    let files = vec![Some(segment(&events_a)), Some(segment(&events_b))];
    let (events, stats) = collect_events(&files).unwrap();
    assert_eq!(stats.events_exported, 3);
    assert_eq!(stats.segments_read, 2);

    let rows = read_parquet_minimal(file_of(&events));
    let mut ids: Vec<String> = rows.iter().map(|r| r.0.clone()).collect();
    ids.sort();
    assert_eq!(ids, vec!["a1".to_string(), "a2".to_string(), "b1".to_string()]);
}

#[test]
fn export_empty_manifest_produces_zero_row_file() {
    let (events, stats) = collect_events(&vec![]).unwrap();
    assert_eq!(stats, ExportStats::default());
    assert_eq!(stats.events_exported, 0);
    assert_eq!(stats.segments_read, 0);
    assert!(read_parquet_minimal(file_of(&events)).is_empty());
}

/// Every column of the file holds what the table holds.
#[test]
fn every_column_is_written() {
    let mut e = rich_event("evt", "acc", 7, -3);
    e.kind = EventKind::Retraction;
    e.correction_ref =
        Some(CorrectionRef { original_event_id: EventId("o".into()), reason: "why".into() });
    let bare = UsageEvent { subscription_id: None, model_id: None, ..rich_event("x", "y", 8, 1) };
    let events = vec![e, bare];
    let table = table_of(&events);
    assert_eq!(table.correction_original, vec![Some("o".to_string()), None]);
    assert_eq!(table.subscription_id, vec![Some("sub_1".to_string()), None]);
    let file = Bytes::from(file_of(&events));
    let mut reader = ParquetRecordBatchReaderBuilder::try_new(file).unwrap().build().unwrap();
    let batch = reader.next().unwrap().unwrap();
    let text = |column: usize, row: usize| {
        let a = batch.column(column).as_any().downcast_ref::<StringArray>().unwrap();
        if a.is_null(row) { None } else { Some(a.value(row).to_string()) }
    };
    let number = |column: usize, row: usize| {
        batch.column(column).as_any().downcast_ref::<Int64Array>().unwrap().value(row)
    };
    let of_row: Vec<Option<String>> = [0, 1, 2, 3, 4, 5, 6, 7, 8, 11, 12, 13]
        .iter()
        .map(|c| text(*c, 0))
        .collect();
    let expected = [
        "evt",
        "Retraction",
        "o",
        "why",
        "acc",
        "sub_1",
        "ai_gateway",
        "tokens.input",
        "sonnet-4",
        "token",
        "agentcore",
        "{\"inner\":{\"provider\":\"anthropic\"}}",
    ];
    assert_eq!(of_row, expected.iter().map(|t| Some(t.to_string())).collect::<Vec<_>>());
    assert_eq!((text(2, 1), text(5, 1), text(8, 1)), (None, None, None));
    assert_eq!((number(9, 0), number(14, 0), number(9, 1)), (7, 12, 8));
}
