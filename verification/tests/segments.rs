//! Segment files, their columns, and the index beside them.

use usagedb::ingest::dedupe::EventHash;
use usagedb::ingest::flusher::{build_segment_meta, sort_events_canonical};
use usagedb::model::dimensions::{dimension_from_text, SmallDimensions};
use usagedb::model::event::{CorrectionRef, EventKind, UsageEvent};
use usagedb::model::ids::{
    AccountId, EventId, MeterId, ModelId, ProductId, SourceId, SubscriptionId, Unit,
};
use usagedb::rollup::builder::RollupBuilder;
use usagedb::rollup::reader::RollupSegmentReader;
use usagedb::rollup::segment::RollupFault;
use usagedb::rollup::writer::RollupSegmentWriter;
use usagedb::storage::columns::BlockMeta;
use usagedb::storage::compression::{compress, decompress, CompressionCodec, CompressionError};
use usagedb::storage::dedupe_index::{
    index_path, read_dedupe_index, write_dedupe_index, DedupeEntry, IndexFault,
};
use usagedb::storage::encoding::{
    byte_of, decode_deltas, encode_deltas, kind_from, pack_quantities, push_varint, rle_decode,
    rle_encode, unpack_quantities, zigzag_decode, zigzag_encode, DictionaryEncoder,
};
use usagedb::storage::segment_format::frame::SegmentFault;
use usagedb::storage::segment_format::{checksum, Codec, Encoding};
use usagedb::storage::segment_reader::RawSegmentReader;
use usagedb::storage::segment_writer::{pack_column, RawSegmentWriter};
use usagedb::storage::wire::{read_corrections, read_dimensions, read_entries, read_texts};
use usagedb::textset::TextSet;

fn event_with(id: &str, account: &str, ts: i64, qty: i128) -> UsageEvent {
    UsageEvent {
        event_id: EventId(id.to_string()),
        kind: EventKind::Usage,
        correction_ref: None,
        account_id: AccountId(account.to_string()),
        subscription_id: Some(SubscriptionId("sub_1".into())),
        product_id: ProductId("ai_gateway".into()),
        meter_id: MeterId("tokens.input".into()),
        timestamp_ms: ts,
        quantity: qty,
        unit: Unit("token".into()),
        source: SourceId("agentcore".into()),
        model_id: Some(ModelId("sonnet-4".into())),
        dimensions: SmallDimensions::default(),
        ingested_at_ms: ts,
    }
}

fn rich_event(id: &str, account: &str, ts: i64, qty: i128) -> UsageEvent {
    let mut dims = SmallDimensions::default();
    dims.inner.insert("provider".into(), "anthropic".into());
    dims.inner.insert("agent".into(), "support".into());
    UsageEvent {
        subscription_id: Some(SubscriptionId("sub_42".into())),
        dimensions: dims,
        ingested_at_ms: ts + 5,
        ..event_with(id, account, ts, qty)
    }
}

fn make_event(id: &str, account: &str, ts: i64, qty: i128) -> UsageEvent {
    UsageEvent {
        subscription_id: Some(SubscriptionId("sub".into())),
        product_id: ProductId("prod".into()),
        meter_id: MeterId("meter".into()),
        source: SourceId("test".into()),
        model_id: Some(ModelId("m1".into())),
        ..event_with(id, account, ts, qty)
    }
}

fn correction_of(original: &str, reason: &str) -> Option<CorrectionRef> {
    Some(CorrectionRef { original_event_id: EventId(original.into()), reason: reason.into() })
}

fn written(events: &[UsageEvent]) -> Vec<u8> {
    let mut writer = RawSegmentWriter::new();
    for e in events {
        writer.write_event(e);
    }
    writer.finish().unwrap().bytes
}

fn read_back(bytes: &[u8]) -> Vec<UsageEvent> {
    let mut reader = RawSegmentReader::new(bytes).unwrap();
    let mut out = Vec::new();
    while let Some(e) = reader.read_next().unwrap() {
        out.push(e);
    }
    out
}

/// The bytes with their checksum put right.
fn resealed(mut bytes: Vec<u8>) -> Vec<u8> {
    let n = bytes.len();
    let sum = checksum(&bytes[..n - 16]).to_le_bytes();
    bytes[n - 16..n - 8].copy_from_slice(&sum);
    bytes
}

// ---------------------------------------------------------------------------
// Encodings
// ---------------------------------------------------------------------------

#[test]
fn test_dictionary_encoder() {
    let mut encoder = DictionaryEncoder::new();
    let id1 = encoder.encode("apple");
    let id2 = encoder.encode("banana");
    let id3 = encoder.encode("apple");
    assert_eq!(id1, 0);
    assert_eq!(id2, 1);
    assert_eq!(id3, 0);
    assert_eq!(encoder.get_dictionary(), &["apple".to_string(), "banana".to_string()]);
}

#[test]
fn test_zigzag() {
    assert_eq!(zigzag_decode(zigzag_encode(0)), 0);
    assert_eq!(zigzag_decode(zigzag_encode(-1)), -1);
    assert_eq!(zigzag_decode(zigzag_encode(1)), 1);
    assert_eq!(zigzag_decode(zigzag_encode(i128::MAX)), i128::MAX);
    assert_eq!(zigzag_decode(zigzag_encode(i128::MIN)), i128::MIN);
}

#[test]
fn test_deltas() {
    let values = vec![1000, 1005, 1010, 1012, 1050];
    let deltas = encode_deltas(&values);
    let decoded = decode_deltas(&deltas);
    assert_eq!(values, decoded);
}

#[test]
fn zigzag_numbers_are_small_for_small_quantities() {
    assert_eq!(zigzag_encode(0), 0);
    assert_eq!(zigzag_encode(-1), 1);
    assert_eq!(zigzag_encode(1), 2);
    assert_eq!(zigzag_encode(-2), 3);
    assert_eq!(zigzag_encode(i128::MAX), u128::MAX - 1);
    assert_eq!(zigzag_encode(i128::MIN), u128::MAX);
}

#[test]
fn deltas_hold_the_first_value_and_the_steps() {
    assert_eq!(encode_deltas(&[1000, 1005, 999]), vec![1000, 5, -6]);
    let wide = [i64::MIN, i64::MAX, 0, i64::MIN];
    assert_eq!(decode_deltas(&encode_deltas(&wide)), wide);
    assert!(encode_deltas(&[]).is_empty());
}

#[test]
fn varints_take_seven_bits_a_byte() {
    let mut out = Vec::new();
    push_varint(&mut out, 0);
    push_varint(&mut out, 127);
    push_varint(&mut out, 128);
    push_varint(&mut out, 300);
    assert_eq!(out, vec![0x00, 0x7f, 0x80, 0x01, 0xac, 0x02]);
    assert_eq!(pack_quantities(&[-1, 64]), vec![0x01, 0x80, 0x01]);
    assert_eq!(unpack_quantities(&[0x01, 0x80, 0x01]), Some(vec![-1, 64]));
    assert_eq!(unpack_quantities(&[0x80]), None);
    let edges = vec![i128::MIN, i128::MAX, 0];
    assert_eq!(unpack_quantities(&pack_quantities(&edges)), Some(edges));
}

#[test]
fn runs_of_kinds_are_counted() {
    let kinds =
        [EventKind::Usage, EventKind::Usage, EventKind::Correction, EventKind::Usage];
    let runs = rle_encode(&kinds);
    assert_eq!(
        runs,
        vec![(EventKind::Usage, 2), (EventKind::Correction, 1), (EventKind::Usage, 1)]
    );
    assert_eq!(rle_decode(&runs, 4), Some(kinds.to_vec()));
    assert_eq!(rle_decode(&runs, 3), None);
    assert_eq!((byte_of(EventKind::Usage), byte_of(EventKind::Retraction)), (0, 2));
    assert_eq!(kind_from(1), Some(EventKind::Correction));
    assert_eq!(kind_from(3), None);
}

#[test]
fn codecs_and_encodings_have_numbers() {
    for b in 0..=255u8 {
        assert_eq!(Encoding::from_byte(b).map(|e| e.to_byte()), if b < 5 { Some(b) } else { None });
        assert_eq!(Codec::from_byte(b).map(|c| c.to_byte()), if b < 3 { Some(b) } else { None });
    }
    assert_eq!(Codec::Lz4.compression(), CompressionCodec::Lz4);
}

#[test]
fn codecs_give_the_bytes_back() {
    let data = vec![7u8; 10_000];
    for codec in [CompressionCodec::Zstd, CompressionCodec::Lz4] {
        let packed = compress(&data, codec).unwrap();
        assert!(packed.len() < 200);
        assert_eq!(decompress(&packed, codec).unwrap(), data);
        assert!(decompress(&[1, 2, 3], codec).is_err());
    }
    let packed = compress(&data, CompressionCodec::Uncompressed).unwrap();
    assert_eq!(packed, data);
    assert_eq!(decompress(&packed, CompressionCodec::Uncompressed).unwrap(), data);
}

#[test]
fn checksum_is_the_head_of_the_digest() {
    let digest = blake3::hash(b"abc");
    let mut head = [0u8; 8];
    head.copy_from_slice(&digest.as_bytes()[..8]);
    assert_eq!(checksum(b"abc"), u64::from_le_bytes(head));
    assert_eq!(&digest.as_bytes()[..4], &[0x64, 0x37, 0xb3, 0xac]);
}

#[test]
fn lists_are_read_from_their_layout() {
    let one_text = [1, 0, 0, 0, 0, 0, 0, 0, 2, 0, 0, 0, 0, 0, 0, 0, b'h', b'i'];
    assert_eq!(read_texts(&one_text), Some(vec!["hi".to_string()]));
    assert_eq!(read_texts(&one_text[..17]), None);
    assert_eq!(read_corrections(&[1, 0, 0, 0, 0, 0, 0, 0, 0]), Some(vec![None]));
    assert_eq!(read_corrections(&[1, 0, 0, 0, 0, 0, 0, 0, 9]), None);
    assert_eq!(read_dimensions(&[0; 8]), Some(vec![]));
    assert_eq!(read_entries(&[0; 7]), None);
    let mut entry = vec![1, 0, 0, 0, 0, 0, 0, 0];
    entry.extend(5u128.to_le_bytes());
    entry.extend(6u128.to_le_bytes());
    entry.extend((-7i64).to_le_bytes());
    assert_eq!(read_entries(&entry), Some(vec![(5, 6, -7)]));
}

// ---------------------------------------------------------------------------
// Segments
// ---------------------------------------------------------------------------

#[test]
fn round_trip_preserves_all_fields() {
    let events = vec![
        rich_event("evt_a", "acc_1", 1_000, 100),
        UsageEvent {
            kind: EventKind::Correction,
            correction_ref: correction_of("evt_a", "double-counted"),
            subscription_id: None,
            model_id: None,
            ..rich_event("evt_b", "acc_2", 2_000, -50)
        },
        rich_event("evt_c", "acc_1", 3_000, i128::MAX / 2),
    ];
    let mut writer = RawSegmentWriter::new();
    for e in &events {
        writer.write_event(e);
    }
    let file = writer.finish().unwrap();
    assert_eq!(file.row_count, events.len() as u64);

    let reader = RawSegmentReader::new(&file.bytes).unwrap();
    assert_eq!(reader.row_count(), events.len());
    let back = read_back(&file.bytes);
    assert_eq!(back.len(), events.len());
    for (orig, got) in events.iter().zip(back.iter()) {
        assert_eq!(orig, got, "round-trip event must equal original");
    }
}

#[test]
fn empty_segment_is_valid() {
    let file = RawSegmentWriter::new().finish().unwrap();
    assert_eq!(file.row_count, 0);
    let mut reader = RawSegmentReader::new(&file.bytes).unwrap();
    assert_eq!(reader.row_count(), 0);
    assert!(reader.read_next().unwrap().is_none());
}

fn texts(values: &[&str]) -> Vec<u8> {
    let mut out = (values.len() as u64).to_le_bytes().to_vec();
    for v in values {
        out.extend((v.len() as u64).to_le_bytes());
        out.extend(v.as_bytes());
    }
    out
}

fn dictionary(numbers: [u32; 3], values: &[&str]) -> Vec<u8> {
    let mut out: Vec<u8> = numbers.iter().flat_map(|n| n.to_le_bytes()).collect();
    out.extend(texts(values));
    out
}

fn words(values: [i64; 3]) -> Vec<u8> {
    values.iter().flat_map(|n| n.to_le_bytes()).collect()
}

/// Without compression the whole file is known, byte for byte.
#[test]
fn uncompressed_segment_has_its_layout() {
    let events = vec![
        make_event("e1", "a", 100, 3),
        make_event("e2", "b", 90, -1),
        UsageEvent {
            kind: EventKind::Correction,
            correction_ref: correction_of("e1", "no"),
            subscription_id: None,
            model_id: None,
            ..make_event("e3", "a", 120, 64)
        },
    ];
    let mut writer = RawSegmentWriter::new();
    for e in &events {
        writer.write_event(e);
    }
    let file = writer.finish_with(Codec::Uncompressed).unwrap();

    let mut refs = 3u64.to_le_bytes().to_vec();
    refs.extend([0, 0, 1]);
    refs.extend(&texts(&["e1", "no"])[8..]);
    let columns: Vec<(&str, u8, Vec<u8>)> = vec![
        ("event_id", 0, texts(&["e1", "e2", "e3"])),
        ("kind", 4, vec![0, 2, 0, 0, 0, 1, 1, 0, 0, 0]),
        ("correction_ref", 0, refs),
        ("account_id", 1, dictionary([1, 2, 1], &["a", "b"])),
        ("subscription_id", 1, dictionary([1, 1, 0], &["sub"])),
        ("product_id", 1, dictionary([1, 1, 1], &["prod"])),
        ("meter_id", 1, dictionary([1, 1, 1], &["meter"])),
        ("timestamp_ms", 2, words([100, -10, 30])),
        ("quantity", 3, vec![6, 1, 0x80, 1]),
        ("unit", 1, dictionary([1, 1, 1], &["token"])),
        ("source", 1, dictionary([1, 1, 1], &["test"])),
        ("model_id", 1, dictionary([1, 1, 0], &["m1"])),
        ("dimensions", 0, [3u64, 0, 0, 0].iter().flat_map(|n| n.to_le_bytes()).collect()),
        ("ingested_at_ms", 2, words([100, -10, 30])),
    ];
    let expected = file_of(3, &columns);
    let sum = checksum(&expected[..expected.len() - 16]);
    assert_eq!(file.bytes, expected);
    assert_eq!((file.row_count, file.checksum), (3, sum));
    assert_eq!(read_back(&file.bytes), events);
}

/// A file of uncompressed columns.
fn file_of(rows: u32, columns: &[(&str, u8, Vec<u8>)]) -> Vec<u8> {
    let mut out = b"UDBRAW1\n".to_vec();
    out.push(1);
    out.extend(rows.to_le_bytes());
    out.extend((columns.len() as u16).to_le_bytes());
    for (name, encoding, payload) in columns {
        out.extend((name.len() as u16).to_le_bytes());
        out.extend(name.as_bytes());
        out.extend([*encoding, 0]);
        out.extend((payload.len() as u32).to_le_bytes());
        out.extend(payload);
    }
    let sum = checksum(&out);
    out.extend(sum.to_le_bytes());
    out.extend(b"UDBEND01");
    out
}

/// The columns of `events`, each as the list of its values.
fn plain_columns(events: &[UsageEvent]) -> Vec<(&'static str, u8, Vec<u8>)> {
    let list = |f: fn(&UsageEvent) -> String| {
        bincode::serialize(&events.iter().map(f).collect::<Vec<_>>()).unwrap()
    };
    let options = |f: fn(&UsageEvent) -> Option<String>| {
        bincode::serialize(&events.iter().map(f).collect::<Vec<_>>()).unwrap()
    };
    let kinds: Vec<u32> = events.iter().map(|e| byte_of(e.kind) as u32).collect();
    let refs: Vec<Option<(String, String)>> = events
        .iter()
        .map(|e| e.correction_ref.as_ref().map(|c| (c.original_event_id.0.clone(), c.reason.clone())))
        .collect();
    let dimensions: Vec<Vec<(String, String)>> =
        events.iter().map(|e| e.dimensions.to_pairs()).collect();
    let times: Vec<i64> = events.iter().map(|e| e.timestamp_ms).collect();
    let ingested: Vec<i64> = events.iter().map(|e| e.ingested_at_ms).collect();
    let quantities: Vec<i128> = events.iter().map(|e| e.quantity).collect();
    vec![
        ("event_id", 0, list(|e| e.event_id.0.clone())),
        ("kind", 0, bincode::serialize(&kinds).unwrap()),
        ("correction_ref", 0, bincode::serialize(&refs).unwrap()),
        ("account_id", 0, list(|e| e.account_id.0.clone())),
        ("subscription_id", 0, options(|e| e.subscription_id.as_ref().map(|s| s.0.clone()))),
        ("product_id", 0, list(|e| e.product_id.0.clone())),
        ("meter_id", 0, list(|e| e.meter_id.0.clone())),
        ("timestamp_ms", 0, bincode::serialize(&times).unwrap()),
        ("quantity", 0, bincode::serialize(&quantities).unwrap()),
        ("unit", 0, list(|e| e.unit.0.clone())),
        ("source", 0, list(|e| e.source.0.clone())),
        ("model_id", 0, options(|e| e.model_id.as_ref().map(|m| m.0.clone()))),
        ("dimensions", 0, bincode::serialize(&dimensions).unwrap()),
        ("ingested_at_ms", 0, bincode::serialize(&ingested).unwrap()),
    ]
}

#[test]
fn plain_columns_are_read() {
    let events = vec![
        rich_event("e1", "a", 100, i128::MIN),
        UsageEvent {
            kind: EventKind::Retraction,
            correction_ref: correction_of("e1", "no"),
            subscription_id: None,
            model_id: None,
            ..rich_event("e2", "b", -7, i128::MAX)
        },
    ];
    let columns = plain_columns(&events);
    assert_eq!(read_back(&file_of(2, &columns)), events);

    // Each value has to be there, and an encoding has to be one of the column's.
    for (i, c) in columns.iter().enumerate() {
        let name = c.0;
        let mut short = columns.clone();
        short[i].2.pop();
        let r = RawSegmentReader::new(&file_of(2, &short));
        assert!(matches!(r, Err(SegmentFault::CorruptColumn(n)) if n == name), "{}", name);
        let mut other = columns.clone();
        other[i].1 = if name == "kind" { 1 } else { 4 };
        let r = RawSegmentReader::new(&file_of(2, &other));
        assert!(matches!(r, Err(SegmentFault::CorruptColumn(n)) if n == name), "{}", name);
    }
    let mut unknown = columns.clone();
    unknown[1].2 = bincode::serialize(&vec![0u32, 3]).unwrap();
    let r = RawSegmentReader::new(&file_of(2, &unknown));
    assert!(matches!(r, Err(SegmentFault::CorruptColumn("kind"))));
}

#[test]
fn column_needs_its_payload() {
    let c = pack_column("kind", Encoding::Rle, Codec::Lz4, Ok(vec![7, 8])).unwrap();
    assert_eq!((c.name.as_slice(), c.payload.as_slice()), (&b"kind"[..], &[7u8, 8][..]));
    assert_eq!((c.encoding, c.codec), (Encoding::Rle, Codec::Lz4));
    let e = CompressionError("no memory".into());
    let r = pack_column("kind", Encoding::Rle, Codec::Zstd, Err(e));
    assert_eq!(r.unwrap_err().message(), "segment: no memory");
}

#[test]
fn checksum_mismatch_is_rejected() {
    let mut bytes = written(&[rich_event("evt_a", "acc_1", 1_000, 100)]);
    let tamper_off = 64.min(bytes.len() / 2);
    bytes[tamper_off] ^= 0xFF;
    let result = RawSegmentReader::new(&bytes);
    assert!(result.is_err(), "tampered segment must be rejected");
    assert!(matches!(result, Err(SegmentFault::ChecksumMismatch { .. })));
}

#[test]
fn missing_end_magic_is_rejected() {
    let bytes = written(&[rich_event("evt", "acc", 1, 1)]);
    let result = RawSegmentReader::new(&bytes[..bytes.len() - 4]);
    assert!(result.is_err(), "truncated segment must be rejected");
    assert!(matches!(result, Err(SegmentFault::MissingEndMagic)));
}

#[test]
fn compression_reduces_size_on_repetitive_data() {
    let events: Vec<UsageEvent> = (0..10_000)
        .map(|i| rich_event(&format!("evt_{i}"), "acc_constant", 1_000 + i, 100))
        .collect();
    let on_disk = written(&events).len();
    assert!(
        on_disk < 500_000,
        "expected zstd to compress 10k repetitive events under 500 KB, got {} bytes",
        on_disk
    );
}

#[test]
fn dictionary_encoding_shrinks_repetitive_id_columns() {
    let events: Vec<UsageEvent> = (0..10_000)
        .map(|i| event_with(&format!("evt_{i}"), "acc_constant", 1_000 + i, 100))
        .collect();
    let on_disk = written(&events).len();
    assert!(
        on_disk < 250_000,
        "expected dictionary-encoded 10k repetitive events < 250 KB, got {} bytes",
        on_disk
    );
}

#[test]
fn dictionary_round_trip_with_many_distinct_values() {
    let mut originals = Vec::new();
    for i in 0..200 {
        let acc = format!("acc_{}", i % 17);
        let meter = format!("meter_{}", i % 13);
        let mut e = event_with(&format!("evt_{i}"), &acc, 1_000 + i, i as i128);
        e.meter_id = MeterId(meter);
        if i % 5 == 0 {
            e.subscription_id = None;
            e.model_id = None;
        }
        originals.push(e);
    }
    let back = read_back(&written(&originals));
    assert_eq!(back.len(), originals.len());
    for (orig, got) in originals.iter().zip(back.iter()) {
        assert_eq!(orig, got);
    }
}

#[test]
fn delta_encoding_handles_out_of_order_timestamps() {
    let timestamps = vec![1000, 999, 5000, 4999, 1_000_000, i64::MAX / 2, 0, -100];
    let events: Vec<UsageEvent> = timestamps
        .iter()
        .enumerate()
        .map(|(i, &ts)| event_with(&format!("e{i}"), "a", ts, 1))
        .collect();
    let got: Vec<i64> = read_back(&written(&events)).iter().map(|e| e.timestamp_ms).collect();
    assert_eq!(got, timestamps);
}

#[test]
fn zigzag_varint_round_trips_edge_cases() {
    let quantities: Vec<i128> = vec![
        0,
        1,
        -1,
        127,
        128,
        -128,
        i128::MAX / 2,
        i128::MIN / 2,
        i128::MAX,
        i128::MIN,
        42_000_000_000,
        -42_000_000_000,
    ];
    let events: Vec<UsageEvent> = quantities
        .iter()
        .enumerate()
        .map(|(i, &q)| event_with(&format!("e{i}"), "a", 1000 + i as i64, q))
        .collect();
    let got: Vec<i128> = read_back(&written(&events)).iter().map(|e| e.quantity).collect();
    assert_eq!(got, quantities);
}

#[test]
fn zigzag_varint_packs_small_quantities_tight() {
    let events: Vec<UsageEvent> = (0..1_000)
        .map(|i| event_with(&format!("e{i}"), "a", 1000 + i, (i % 100) as i128))
        .collect();
    let size = written(&events).len();
    assert!(
        size < 8_000,
        "1000 events with small quantities should pack tight; got {} bytes",
        size
    );
}

#[test]
fn rle_encoding_round_trips_mixed_kinds() {
    let mut events = Vec::new();
    for i in 0..100 {
        events.push(make_event(&format!("u1_{i}"), "acc", i, 10));
    }
    for i in 0..50 {
        let mut e = make_event(&format!("c_{i}"), "acc", 1000 + i, -1);
        e.kind = EventKind::Correction;
        e.correction_ref = correction_of(&format!("u1_{}", i), "test");
        events.push(e);
    }
    for i in 0..100 {
        events.push(make_event(&format!("u2_{i}"), "acc", 2000 + i, 10));
    }
    let mut last = make_event("r", "acc", 5000, 0);
    last.kind = EventKind::Retraction;
    last.correction_ref = correction_of("u2_0", "retract");
    events.push(last);

    let back = read_back(&written(&events));
    for (idx, e) in back.iter().enumerate() {
        assert_eq!(e.kind, events[idx].kind, "row {}", idx);
        assert_eq!(e.event_id, events[idx].event_id);
    }
    assert_eq!(back.len(), events.len());
}

#[test]
fn rle_kind_round_trips_all_usage() {
    let events: Vec<UsageEvent> =
        (0..1000).map(|i| make_event(&format!("u_{i}"), "acc", i, 1)).collect();
    let back = read_back(&written(&events));
    assert!(back.iter().all(|e| e.kind == EventKind::Usage));
    assert_eq!(back.len(), 1000);
}

#[test]
fn rle_kind_round_trips_all_corrections() {
    let events: Vec<UsageEvent> = (0..100)
        .map(|i| UsageEvent {
            kind: EventKind::Correction,
            correction_ref: correction_of(&format!("o_{}", i), "x"),
            ..make_event(&format!("c_{i}"), "acc", i, -1)
        })
        .collect();
    let back = read_back(&written(&events));
    assert!(back.iter().all(|e| e.kind == EventKind::Correction));
    assert_eq!(back.len(), 100);
}

/// A segment reads back the same with every codec, and an account's events are
/// those with its id.
#[test]
fn every_codec_reads_back() {
    let events: Vec<UsageEvent> =
        (0..9).map(|i| rich_event(&format!("e{i}"), &format!("acc_{}", i % 3), i, 1)).collect();
    for codec in [Codec::Uncompressed, Codec::Zstd, Codec::Lz4] {
        let mut writer = RawSegmentWriter::new();
        for e in &events {
            writer.write_event(e);
        }
        let file = writer.finish_with(codec).unwrap();
        assert_eq!(read_back(&file.bytes), events);
        let reader = RawSegmentReader::new(&file.bytes).unwrap();
        let of_account = reader.scan_by_account(&AccountId("acc_1".into())).unwrap();
        let ids: Vec<&str> = of_account.iter().map(|e| e.event_id.0.as_str()).collect();
        assert_eq!(ids, vec!["e1", "e4", "e7"]);
    }
}

#[test]
fn damaged_segments_say_what_is_wrong() {
    let bytes = written(&[event_with("a", "acc", 1, 1)]);
    let fault = |b: &[u8]| match RawSegmentReader::new(b) {
        Ok(_) => panic!("the segment is damaged"),
        Err(f) => f,
    };
    assert_eq!(fault(&[]), SegmentFault::TooSmall);
    assert_eq!(fault(&[]).message(), "segment: file too small");
    let mut no_magic = bytes.clone();
    no_magic[0] ^= 1;
    assert_eq!(fault(&resealed(no_magic)), SegmentFault::MissingMagic);
    let mut version = bytes.clone();
    version[8] = 99;
    assert_eq!(fault(&resealed(version)), SegmentFault::UnsupportedVersion(99));
    let message = SegmentFault::UnsupportedVersion(99).message();
    assert_eq!(message, "segment: unsupported version 99");
    let mismatch = SegmentFault::ChecksumMismatch { stored: 1, computed: 2 };
    assert_eq!(mismatch.message(), "segment: checksum mismatch (stored 1, computed 2)");
    assert_eq!(SegmentFault::MissingColumn("kind").message(), "segment: missing column kind");
    assert_eq!(SegmentFault::CorruptColumn("kind").message(), "segment: corrupt column kind");
    assert_eq!(SegmentFault::UnknownCodec(7).message(), "segment: unknown codec 7");
}

// ---------------------------------------------------------------------------
// Order and bounds
// ---------------------------------------------------------------------------

#[test]
fn sort_events_canonical_orders_by_billing_dimensions() {
    let mut events = vec![
        make_event("e1", "acc_b", 100, 1),
        make_event("e2", "acc_a", 200, 1),
        make_event("e3", "acc_a", 100, 1),
        make_event("e4", "acc_b", 50, 1),
    ];
    sort_events_canonical(&mut events);
    let order: Vec<(String, i64)> =
        events.iter().map(|e| (e.account_id.0.clone(), e.timestamp_ms)).collect();
    assert_eq!(
        order,
        vec![
            ("acc_a".to_string(), 100),
            ("acc_a".to_string(), 200),
            ("acc_b".to_string(), 50),
            ("acc_b".to_string(), 100),
        ],
    );
}

#[test]
fn sort_events_canonical_breaks_ties_by_meter_then_model() {
    let mut events = vec![
        UsageEvent { meter_id: MeterId("z".into()), ..make_event("a", "acc", 100, 1) },
        UsageEvent { meter_id: MeterId("a".into()), ..make_event("b", "acc", 100, 1) },
        UsageEvent {
            meter_id: MeterId("a".into()),
            model_id: Some(ModelId("z_model".into())),
            ..make_event("c", "acc", 100, 1)
        },
    ];
    sort_events_canonical(&mut events);
    let order: Vec<&str> = events.iter().map(|e| e.event_id.0.as_str()).collect();
    assert_eq!(order, vec!["b", "c", "a"]);
}

#[test]
fn writer_round_trip_preserves_sorted_order() {
    let mut events = vec![
        make_event("e1", "acc_b", 100, 1),
        make_event("e2", "acc_a", 200, 1),
        make_event("e3", "acc_a", 100, 1),
    ];
    sort_events_canonical(&mut events);
    let back: Vec<(String, i64)> = read_back(&written(&events))
        .into_iter()
        .map(|e| (e.account_id.0, e.timestamp_ms))
        .collect();
    assert_eq!(
        back,
        vec![
            ("acc_a".to_string(), 100),
            ("acc_a".to_string(), 200),
            ("acc_b".to_string(), 100),
        ],
    );
}

#[test]
fn build_segment_meta_unchanged_by_failure_refactor() {
    let events = vec![make_event("e1", "acc", 1000, 10), make_event("e2", "acc", 2000, 20)];
    let meta = build_segment_meta("test_seg", &events, 5, 0xCAFEBABE);
    assert_eq!(meta.bucket, 5);
    assert_eq!(meta.row_count, 2);
    assert_eq!(meta.min_timestamp_ms, 1000);
    assert_eq!(meta.max_timestamp_ms, 2000);
    assert_eq!(meta.checksum, 0xCAFEBABE);
    assert_eq!(meta.quantity_sum, Some(30));
}

#[test]
fn blocks_are_skipped_by_their_bounds() {
    let mut product_ids = TextSet::new();
    product_ids.insert("p".into());
    let block = BlockMeta {
        row_start: 0,
        row_count: 3,
        min_timestamp_ms: 10,
        max_timestamp_ms: 20,
        min_account_id: AccountId("b".into()),
        max_account_id: AccountId("d".into()),
        product_ids,
        meter_ids: TextSet::new(),
        offset: 0,
        len: 0,
    };
    let account = |a: &str| AccountId(a.into());
    assert!(block.might_contain(None, None, 20, 30));
    assert!(!block.might_contain(None, None, 21, 30));
    assert!(!block.might_contain(None, None, 0, 9));
    assert!(block.might_contain(Some(&account("c")), None, 0, 30));
    assert!(!block.might_contain(Some(&account("a")), None, 0, 30));
    assert!(!block.might_contain(Some(&account("e")), None, 0, 30));
    assert!(!block.might_contain(None, Some(&ProductId("q".into())), 0, 30));
}

// ---------------------------------------------------------------------------
// Rollup segments
// ---------------------------------------------------------------------------

/// Rows add up to their events, lie in their hours, and do not depend on the order.
#[test]
fn rollup_rows_add_up() {
    let events: Vec<UsageEvent> = (0..12i64)
        .map(|i| make_event(&format!("e{i}"), ["a", "b"][i as usize % 2], i * 1_000_000, i as i128 - 4))
        .collect();
    let rows_of = |events: Vec<&UsageEvent>| {
        let mut builder = RollupBuilder::new();
        for e in events {
            builder.process_event(e);
        }
        let mut rows = builder.finalize();
        rows.sort_by_key(|r| (r.account_id.0.clone(), r.hour_start_ms));
        rows
    };
    let rows = rows_of(events.iter().collect());
    assert_eq!(rows.len(), 7);
    assert_eq!(rows.iter().map(|r| r.event_count).sum::<u64>(), 12);
    assert_eq!(rows.iter().map(|r| r.quantity_sum).sum::<i128>(), 18);
    for r in &rows {
        assert!(r.event_count > 0 && r.hour_start_ms % 3_600_000 == 0);
        assert!(r.hour_start_ms <= r.first_event_ms && r.first_event_ms <= r.last_event_ms);
        assert!(r.last_event_ms < r.hour_start_ms + 3_600_000);
    }
    assert_eq!(rows_of(events.iter().rev().collect()), rows);
}

#[test]
fn rollup_rows_round_trip() {
    let mut builder = RollupBuilder::new();
    let mut other = rich_event("c", "acc_2", 7_200_001, i128::MAX);
    other.model_id = None;
    for e in [rich_event("a", "acc_1", 10, 5), rich_event("b", "acc_1", 20, 6), other.clone()] {
        builder.process_event(&e);
    }
    other.quantity = 1;
    builder.process_event(&other);
    let records = builder.finalize();
    assert_eq!(records.len(), 2);
    assert_eq!((records[0].quantity_sum, records[0].event_count), (11, 2));
    assert_eq!((records[0].first_event_ms, records[0].last_event_ms), (10, 20));
    assert_eq!(records[1].hour_start_ms, 7_200_000);
    assert_eq!(records[1].quantity_sum, i128::MAX, "sums stay at the greatest number");
    let text = &records[0].dimensions_canonical;
    assert_eq!(text, "{\"inner\":{\"agent\":\"support\",\"provider\":\"anthropic\"}}");
    assert_eq!(dimension_from_text(text, "agent"), Some("support".to_string()));
    assert_eq!(dimension_from_text(text, "none"), None);

    let mut writer = RollupSegmentWriter::new();
    for r in &records {
        writer.write_record(r);
    }
    let file = writer.finish();
    assert_eq!(file.row_count, 2);
    let mut reader = RollupSegmentReader::open(&file.bytes, file.checksum).unwrap();
    assert_eq!(reader.row_count(), 2);
    assert_eq!(reader.read_next().as_ref(), Some(&records[0]));
    assert_eq!(reader.read_next().as_ref(), Some(&records[1]));
    assert!(reader.read_next().is_none());

    let fault = |data: &[u8], sum: u64| match RollupSegmentReader::open(data, sum) {
        Ok(_) => panic!("the segment is damaged"),
        Err(f) => f,
    };
    let wrong = RollupFault::ChecksumMismatch { stored: 0, computed: file.checksum };
    assert_eq!(fault(&file.bytes, 0), wrong);
    let head = &file.bytes[..3];
    assert_eq!(fault(head, checksum(head)), RollupFault::TruncatedHeader);
    let part = &file.bytes[..20];
    assert_eq!(fault(part, checksum(part)), RollupFault::TruncatedPayload);
    let empty_row = [0, 0, 0, 0];
    assert_eq!(fault(&empty_row, checksum(&empty_row)), RollupFault::Undecodable);
    let message = RollupFault::TruncatedHeader.message();
    assert_eq!(message, "rollup segment: truncated length header");
}

// ---------------------------------------------------------------------------
// The index of a segment
// ---------------------------------------------------------------------------

#[test]
fn write_then_read_round_trips_entries() {
    let entries: Vec<DedupeEntry> = vec![
        (1u128, 100u128, 1000),
        (2u128, 200u128, 1001),
        (u128::MAX, 0u128, i64::MAX),
    ];
    let bytes = write_dedupe_index(&entries);
    let read = read_dedupe_index(Some(&bytes)).unwrap().expect("sidecar present");
    assert_eq!(read, entries);
}

#[test]
fn missing_sidecar_returns_ok_none() {
    let result = read_dedupe_index(None).unwrap();
    assert!(result.is_none());
}

#[test]
fn corrupt_checksum_is_rejected() {
    let mut bytes = write_dedupe_index(&[(1u128, 2u128, 3i64)]);
    let pos = 8 + 4 + 4;
    bytes[pos] ^= 0xFF;
    let err = read_dedupe_index(Some(&bytes)).unwrap_err().message();
    assert!(err.contains("checksum mismatch") || err.contains("corrupt dedupe index"), "{}", err);
    assert!(err.starts_with("corrupt dedupe index: checksum mismatch (stored 0x"), "{}", err);
}

#[test]
fn truncated_sidecar_is_rejected() {
    let bytes = write_dedupe_index(&[(1u128, 2u128, 3i64)]);
    let err = read_dedupe_index(Some(&bytes[..bytes.len() - 4])).unwrap_err().message();
    assert!(err.contains("corrupt dedupe index"), "{}", err);
}

#[test]
fn missing_magic_is_rejected() {
    let err = read_dedupe_index(Some(b"not the right header at all")).unwrap_err().message();
    assert!(err.contains("magic"), "{}", err);
}

#[test]
fn dedupe_entry_uses_event_hash_type() {
    let _entry: DedupeEntry = (0u128 as EventHash, 0u128 as EventHash, 0i64);
}

#[test]
fn damaged_indexes_say_what_is_wrong() {
    assert_eq!(read_dedupe_index(Some(&[])), Err(IndexFault::TooSmall));
    let good = write_dedupe_index(&[(1, 2, 3)]);
    let reseal = |mut b: Vec<u8>| {
        let n = b.len();
        let sum = checksum(&b[..n - 8]).to_le_bytes();
        b[n - 8..].copy_from_slice(&sum);
        b
    };
    let mut count = good.clone();
    count[8] = 2;
    let fault = read_dedupe_index(Some(&reseal(count))).unwrap_err();
    assert_eq!(fault, IndexFault::CountMismatch { header: 2, decoded: 1 });
    let words = "corrupt dedupe index: entry count mismatch (header=2, decoded=1)";
    assert_eq!(fault.message(), words);
    let mut list = good.clone();
    list[12] = 9;
    assert_eq!(read_dedupe_index(Some(&reseal(list))), Err(IndexFault::Undecodable));
    assert_eq!(index_path("raw_1"), "raw_1.idx");
}
