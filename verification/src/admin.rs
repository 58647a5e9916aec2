//! What the administration commands print.

use vstd::prelude::*;

use crate::api::reports;
use crate::api::reports::{verify_account, VerifyReport};
use crate::calendar;
use crate::calendar::{format_ms, parse_rfc3339};
use crate::model::event;
use crate::model::event::{EventKind, EventModel, UsageEvent};
use crate::query::plan::QuerySource;
use crate::rollup::hourly;
use crate::rollup::hourly::{HourlyRollupRecord, RecordModel};
use crate::rollup::reader::RollupSegmentReader;
use crate::rollup::segment;
use crate::rollup::worker;
use crate::rollup::worker::rebuild_rollups;
use crate::storage::manifest;
use crate::storage::manifest::{Manifest, ManifestModel, MetaModel, SegmentKind, SegmentMeta};
use crate::storage::segment_format::frame;
use crate::storage::segment_reader;
use crate::storage::segment_reader::RawSegmentReader;
use crate::text;
use crate::text::{decimal_of, join2, join3, low_hex_of, same_text, signed_decimal_of};
use crate::textset;
use crate::textset::TextSet;

verus! {

/// A text with its error as text, by its contents.
pub open spec fn outcome(r: Result<String, String>) -> Result<Seq<char>, Seq<char>> {
    match r {
        Ok(t) => Ok(t@),
        Err(e) => Err(e@),
    }
}

/// A line: a label, a value and the end.
pub open spec fn line(label: Seq<char>, value: Seq<char>) -> Seq<char> {
    label + value + "\n"@
}

/// Adds a line.
fn put_line(out: &mut String, label: &str, value: &str)
    ensures
        final(out)@ == old(out)@ + line(label@, value@),
{
    let one = join3(label, value, "\n");
    out.append(one.as_str());
}

// ---------------------------------------------------------------------------
// Checking a database
// ---------------------------------------------------------------------------

/// A watermark for a reader, as a number and as a date.
pub open spec fn shown_watermark(ms: i64, unit: Seq<char>) -> Seq<char> {
    text::signed_decimal(ms as int) + unit + "("@ + calendar::shown_time(ms) + ")"@
}

fn watermark_text(ms: i64, unit: &str) -> (r: String)
    ensures
        r@ == shown_watermark(ms, unit@),
{
    let number = signed_decimal_of(ms as i128);
    let date = format_ms(ms);
    let mut out = join3(number.as_str(), unit, "(");
    out.append(date.as_str());
    out.append(")");
    out
}

/// What is said of a database by its manifest, `root` being its place.
pub open spec fn summary_of(root: Seq<char>, m: ManifestModel) -> Seq<char> {
    line("Database root:        "@, root) + line(
        "Manifest generation:  "@,
        text::decimal(m.current_generation as int),
    ) + line("Bucket count:         "@, text::decimal(m.bucket_count as int)) + line(
        "Raw segments:         "@,
        text::decimal(m.raw_segments.len() as int),
    ) + line("Rollup segments:      "@, text::decimal(m.rollup_segments.len() as int)) + line(
        "Watermark:            "@,
        shown_watermark(m.watermark_ms, " ms "@),
    ) + line("Last sealed WAL:      "@, text::decimal(m.last_sealed_wal_id as int)) + line(
        "Pending replacements: "@,
        text::decimal(m.compacted_replacements.len() as int),
    )
}

/// Says what a database's manifest holds. `shown_root` is the database's place, for
/// a reader.
pub fn check_summary(shown_root: &str, manifest: &Manifest) -> (r: String)
    ensures
        r@ == summary_of(shown_root@, manifest@),
{
    let mut out = join3("Database root:        ", shown_root, "\n");
    let generation = decimal_of(manifest.current_generation as u128);
    put_line(&mut out, "Manifest generation:  ", generation.as_str());
    let buckets = decimal_of(manifest.bucket_count as u128);
    put_line(&mut out, "Bucket count:         ", buckets.as_str());
    let raws = decimal_of(manifest.raw_segments.len() as u128);
    put_line(&mut out, "Raw segments:         ", raws.as_str());
    let rollups = decimal_of(manifest.rollup_segments.len() as u128);
    put_line(&mut out, "Rollup segments:      ", rollups.as_str());
    let watermark = watermark_text(manifest.watermarks.hourly_rollup_ms, " ms ");
    put_line(&mut out, "Watermark:            ", watermark.as_str());
    let sealed = decimal_of(manifest.last_sealed_wal_id as u128);
    put_line(&mut out, "Last sealed WAL:      ", sealed.as_str());
    let pending = decimal_of(manifest.compacted_replacements.len() as u128);
    put_line(&mut out, "Pending replacements: ", pending.as_str());
    out
}

/// The name of a segment's file.
pub open spec fn file_name_of(id: Seq<char>, kind: SegmentKind) -> Seq<char> {
    match kind {
        SegmentKind::Raw => id + ".seg"@,
        SegmentKind::Rollup => id + ".rseg"@,
    }
}

/// The name of a segment's file.
pub fn segment_file_name(segment_id: &str, kind: SegmentKind) -> (r: String)
    ensures
        r@ == file_name_of(segment_id@, kind),
{
    match kind {
        SegmentKind::Raw => join2(segment_id, ".seg"),
        SegmentKind::Rollup => join2(segment_id, ".rseg"),
    }
}

/// What is wrong with a segment's file.
pub open spec fn file_fault(m: MetaModel, data: Seq<u8>) -> Option<Seq<char>> {
    match m.kind {
        SegmentKind::Raw => match segment_reader::segment_events(data) {
            Ok(_) => None,
            Err(f) => Some(frame::fault_text(f)),
        },
        SegmentKind::Rollup => match segment::segment_records(data, m.checksum) {
            Ok(_) => None,
            Err(f) => Some(segment::fault_text(f)),
        },
    }
}

/// Reads a segment's file through, and says what is wrong with it.
pub fn verify_segment(meta: &SegmentMeta, data: &[u8]) -> (r: Option<String>)
    ensures
        text::option_view(r) == file_fault(meta@, data@),
{
    match meta.kind {
        SegmentKind::Raw => match RawSegmentReader::new(data) {
            Ok(_) => None,
            Err(f) => Some(f.message()),
        },
        SegmentKind::Rollup => match RollupSegmentReader::open(data, meta.checksum) {
            Ok(_) => None,
            Err(f) => Some(f.message()),
        },
    }
}

/// A segment, and what is wrong with its file.
#[derive(Debug)]
pub struct CheckedSegment {
    pub segment_id: String,
    pub fault: Option<String>,
}

/// How many segments have something wrong.
pub open spec fn failures(checked: Seq<CheckedSegment>) -> nat
    decreases checked.len(),
{
    if checked.len() == 0 {
        0
    } else {
        failures(checked.drop_last()) + if checked.last().fault is Some {
            1nat
        } else {
            0nat
        }
    }
}

/// A line for each segment.
pub open spec fn passed_lines(checked: Seq<CheckedSegment>) -> Seq<char>
    decreases checked.len(),
{
    if checked.len() == 0 {
        Seq::empty()
    } else {
        passed_lines(checked.drop_last()) + ("  "@ + checked.last().segment_id@ + " OK\n"@)
    }
}

/// What is said of a database whose segments were read through. One that fails
/// makes the check fail.
pub open spec fn deep_check(summary: Seq<char>, checked: Seq<CheckedSegment>) -> Result<
    Seq<char>,
    Seq<char>,
> {
    if failures(checked) > 0 {
        Err(text::decimal(failures(checked) as int) + " segment(s) failed verification"@)
    } else {
        Ok(
            summary + "\nVerifying segment files...\n"@ + passed_lines(checked)
                + "\nAll segments verified.\n"@,
        )
    }
}

/// Says what came of reading every segment through.
pub fn check_deep(summary: &str, checked: &Vec<CheckedSegment>) -> (r: Result<String, String>)
    ensures
        outcome(r) == deep_check(summary@, checked@),
{
    let mut errors: u64 = 0;
    let mut lines = String::new();
    let total: usize = checked.len();
    assert(lines@ =~= Seq::empty());
    for i in 0..total
        invariant
            total == checked@.len(),
            errors == failures(checked@.take(i as int)),
            errors <= i,
            errors == 0 ==> lines@ == passed_lines(checked@.take(i as int)),
    {
        assert(checked@.take(i + 1).drop_last() =~= checked@.take(i as int));
        if checked[i].fault.is_some() {
            errors = errors + 1;
        } else {
            let one = join3("  ", checked[i].segment_id.as_str(), " OK\n");
            lines.append(one.as_str());
        }
    }
    assert(checked@.take(checked@.len() as int) =~= checked@);
    if errors > 0 {
        let n = decimal_of(errors as u128);
        return Err(join2(n.as_str(), " segment(s) failed verification"));
    }
    let mut out = join3(summary, "\nVerifying segment files...\n", lines.as_str());
    out.append("\nAll segments verified.\n");
    Ok(out)
}

// ---------------------------------------------------------------------------
// Times
// ---------------------------------------------------------------------------

/// The time that an argument gives, where `parsed` is what its text is found to
/// be.
pub open spec fn argument_time(field: Seq<char>, parsed: Result<i64, Seq<char>>) -> Result<
    i64,
    Seq<char>,
> {
    match parsed {
        Ok(t) => Ok(t),
        Err(e) => Err("invalid `"@ + field + "` (not RFC 3339): "@ + e),
    }
}

/// Says which argument it was, where a time could not be read.
pub fn name_argument(field: &str, parsed: Result<i64, String>) -> (r: Result<i64, String>)
    ensures
        calendar::time_view(r) == argument_time(field@, calendar::time_view(parsed)),
{
    match parsed {
        Ok(t) => Ok(t),
        Err(e) => {
            let head = join3("invalid `", field, "` (not RFC 3339): ");
            Err(join2(head.as_str(), e.as_str()))
        },
    }
}

/// The time range that two arguments give.
pub open spec fn argument_range(
    from: Result<i64, Seq<char>>,
    to: Result<i64, Seq<char>>,
) -> Result<(i64, i64), Seq<char>> {
    match argument_time("from"@, from) {
        Err(e) => Err(e),
        Ok(f) => match argument_time("to"@, to) {
            Err(e) => Err(e),
            Ok(t) => Ok((f, t)),
        },
    }
}

/// Reads the time range that two arguments give.
pub fn parse_argument_range(from: &str, to: &str) -> (r: Result<(i64, i64), String>)
    ensures
        match r {
            Ok(p) => argument_range(calendar::rfc3339_time(from@), calendar::rfc3339_time(to@))
                == Ok::<_, Seq<char>>(p),
            Err(e) => argument_range(calendar::rfc3339_time(from@), calendar::rfc3339_time(to@))
                == Err::<(i64, i64), _>(e@),
        },
{
    match name_argument("from", parse_rfc3339(from)) {
        Err(e) => Err(e),
        Ok(f) => match name_argument("to", parse_rfc3339(to)) {
            Err(e) => Err(e),
            Ok(t) => Ok((f, t)),
        },
    }
}

// ---------------------------------------------------------------------------
// Rebuilding rollups
// ---------------------------------------------------------------------------

/// What is said of dropped rollups.
pub open spec fn rebuild_text(dropped: int, from: Seq<char>, to: Seq<char>) -> Seq<char> {
    "Dropped "@ + text::decimal(dropped) + " rollup segment(s) overlapping ["@ + from + ", "@ + to
        + ").\nWatermark rewound to "@ + from
        + ".\nRun the server (or wait for its rollup worker) to refill the gap from raw segments.\n"@
}

/// Says which rollups were dropped.
pub fn rebuild_report(dropped: usize, from: &str, to: &str) -> (r: String)
    ensures
        r@ == rebuild_text(dropped as int, from@, to@),
{
    let n = decimal_of(dropped as u128);
    let mut out = join3("Dropped ", n.as_str(), " rollup segment(s) overlapping [");
    out.append(from);
    out.append(", ");
    out.append(to);
    out.append(").\nWatermark rewound to ");
    out.append(from);
    out.append(
        ".\nRun the server (or wait for its rollup worker) to refill the gap from raw segments.\n",
    );
    out
}

/// Drops the rollups of a time range, and says so. The names of the dropped
/// segments come back with the text.
pub fn rebuild_range(manifest: &mut Manifest, from: &str, to: &str) -> (r: Result<
    (Vec<String>, String),
    String,
>)
    ensures
        match argument_range(calendar::rfc3339_time(from@), calendar::rfc3339_time(to@)) {
            Ok((f, t)) => {
                &&& r matches Ok((dropped, report))
                &&& final(manifest)@ == worker::rewound_manifest(
                    old(manifest)@,
                    f as int,
                    t as int,
                )
                &&& text::text_views(dropped@) == worker::overlapping_ids(
                    old(manifest)@.rollup_segments,
                    f as int,
                    t as int,
                )
                &&& report@ == rebuild_text(dropped@.len() as int, from@, to@)
            },
            Err(e) => r matches Err(m) && m@ == e && *final(manifest) == *old(manifest),
        },
{
    match parse_argument_range(from, to) {
        Err(e) => Err(e),
        Ok((from_ms, to_ms)) => {
            let dropped = rebuild_rollups(manifest, from_ms, to_ms);
            let report = rebuild_report(dropped.len(), from, to);
            Ok((dropped, report))
        },
    }
}

// ---------------------------------------------------------------------------
// Inspecting a segment
// ---------------------------------------------------------------------------

/// The first segment with that name.
pub open spec fn named(metas: Seq<MetaModel>, id: Seq<char>) -> Option<MetaModel>
    decreases metas.len(),
{
    if metas.len() == 0 {
        None
    } else if metas[0].segment_id == id {
        Some(metas[0])
    } else {
        named(metas.drop_first(), id)
    }
}

/// The segment with that name, raw ones first.
pub open spec fn segment_named(m: ManifestModel, id: Seq<char>) -> Option<MetaModel> {
    match named(m.raw_segments, id) {
        Some(s) => Some(s),
        None => named(m.rollup_segments, id),
    }
}

fn find_named<'a>(metas: &'a Vec<SegmentMeta>, id: &str) -> (r: Option<&'a SegmentMeta>)
    ensures
        r is Some <==> named(manifest::meta_views(metas@), id@) is Some,
        r matches Some(m) ==> named(manifest::meta_views(metas@), id@) == Some(m@),
{
    let ghost all = manifest::meta_views(metas@);
    assert(all.skip(0) =~= all);
    for i in 0..metas.len()
        invariant
            all == manifest::meta_views(metas@),
            named(all, id@) == named(all.skip(i as int), id@),
    {
        assert(all.skip(i as int)[0] == metas@[i as int]@);
        if same_text(metas[i].segment_id.as_str(), id) {
            return Some(&metas[i]);
        }
        assert(all.skip(i as int).drop_first() =~= all.skip(i + 1));
    }
    None
}

/// The segment with that name, raw ones first.
pub fn find_segment<'a>(manifest: &'a Manifest, segment_id: &str) -> (r: Option<&'a SegmentMeta>)
    ensures
        r is Some <==> segment_named(manifest@, segment_id@) is Some,
        r matches Some(m) ==> segment_named(manifest@, segment_id@) == Some(m@),
{
    match find_named(&manifest.raw_segments, segment_id) {
        Some(m) => Some(m),
        None => find_named(&manifest.rollup_segments, segment_id),
    }
}

/// Texts with a separator between.
pub open spec fn joined(texts: Seq<Seq<char>>, separator: Seq<char>) -> Seq<char>
    decreases texts.len(),
{
    if texts.len() == 0 {
        Seq::empty()
    } else if texts.len() == 1 {
        texts[0]
    } else {
        joined(texts.drop_last(), separator) + separator + texts.last()
    }
}

fn join_set(set: &TextSet) -> (r: String)
    ensures
        r@ == joined(textset::listing(set@), ", "@),
{
    let n: usize = set.len();
    let ghost list = set.ordered();
    let mut out = String::new();
    assert(out@ =~= Seq::empty());
    assert(list.take(0) =~= Seq::empty());
    for i in 0..n
        invariant
            n == list.len(),
            list == set.ordered(),
            out@ == joined(list.take(i as int), ", "@),
    {
        let ghost part = list.take(i + 1);
        assert(part.drop_last() =~= list.take(i as int));
        assert(part.last() == list[i as int]);
        if i > 0 {
            out.append(", ");
        } else {
            assert(Seq::<char>::empty() + part[0] =~= part[0]);
        }
        out.append(set.at(i).as_str());
    }
    assert(list.take(n as int) =~= list);
    out
}

/// A segment's kind in words.
pub open spec fn kind_name(kind: SegmentKind) -> Seq<char> {
    match kind {
        SegmentKind::Raw => "Raw"@,
        SegmentKind::Rollup => "Rollup"@,
    }
}

/// The range of a segment's accounts.
pub open spec fn account_line(m: MetaModel) -> Seq<char> {
    match m.min_account_id {
        Some(a) => "  Account range: "@ + a + match m.max_account_id {
            Some(b) => " .. "@ + b,
            None => Seq::empty(),
        } + "\n"@,
        None => Seq::empty(),
    }
}

/// A line for each raw segment that went into a rollup.
pub open spec fn input_lines(ids: Seq<Seq<char>>) -> Seq<char>
    decreases ids.len(),
{
    if ids.len() == 0 {
        Seq::empty()
    } else {
        input_lines(ids.drop_last()) + line("    - "@, ids.last())
    }
}

/// What went into a rollup.
pub open spec fn provenance(ids: Seq<Seq<char>>) -> Seq<char> {
    if ids.len() == 0 {
        Seq::empty()
    } else {
        "  Input segments (rollup provenance):\n"@ + input_lines(ids)
    }
}

/// What is said of a segment by its description.
pub open spec fn description_of(m: MetaModel) -> Seq<char> {
    line("Segment: "@, m.segment_id) + line("  Kind: "@, kind_name(m.kind)) + line(
        "  Bucket: "@,
        text::decimal(m.bucket as int),
    ) + line("  Rows: "@, text::decimal(m.row_count as int)) + line(
        "  Timestamp range: "@,
        "["@ + calendar::shown_time(m.min_timestamp_ms) + ", "@ + calendar::shown_time(
            m.max_timestamp_ms,
        ) + "]"@,
    ) + account_line(m) + line("  Products: "@, joined(textset::listing(m.product_ids), ", "@))
        + line("  Meters: "@, joined(textset::listing(m.meter_ids), ", "@)) + line(
        "  Models: "@,
        joined(textset::listing(m.model_ids), ", "@),
    ) + line(
        "  Quantity sum: "@,
        match m.quantity_sum {
            Some(q) => text::signed_decimal(q as int),
            None => "(none)"@,
        },
    ) + line("  Checksum: "@, "0x"@ + text::low_hex(m.checksum as int, 16)) + provenance(
        m.input_segment_ids,
    )
}

fn account_text(meta: &SegmentMeta) -> (r: String)
    ensures
        r@ == account_line(meta@),
{
    match &meta.min_account_id {
        Some(a) => {
            let mut out = join2("  Account range: ", a.0.as_str());
            if let Some(b) = &meta.max_account_id {
                let rest = join2(" .. ", b.0.as_str());
                out.append(rest.as_str());
            } else {
                assert(out@ + Seq::<char>::empty() =~= out@);
            }
            out.append("\n");
            out
        },
        None => {
            let out = String::new();
            assert(out@ =~= Seq::empty());
            out
        },
    }
}

fn provenance_text(ids: &Vec<String>) -> (r: String)
    ensures
        r@ == provenance(text::text_views(ids@)),
{
    let ghost all = text::text_views(ids@);
    let mut lines = String::new();
    assert(lines@ =~= Seq::empty());
    for i in 0..ids.len()
        invariant
            all == text::text_views(ids@),
            lines@ == input_lines(all.take(i as int)),
    {
        assert(all.take(i + 1).drop_last() =~= all.take(i as int));
        assert(all.take(i + 1).last() == ids@[i as int]@);
        put_line(&mut lines, "    - ", ids[i].as_str());
    }
    assert(all.take(all.len() as int) =~= all);
    if ids.len() == 0 {
        lines
    } else {
        join2("  Input segments (rollup provenance):\n", lines.as_str())
    }
}

/// Says what a segment's description holds.
pub fn describe_segment(meta: &SegmentMeta) -> (r: String)
    ensures
        r@ == description_of(meta@),
{
    let mut out = join3("Segment: ", meta.segment_id.as_str(), "\n");
    let kind: &str = match meta.kind {
        SegmentKind::Raw => "Raw",
        SegmentKind::Rollup => "Rollup",
    };
    put_line(&mut out, "  Kind: ", kind);
    let bucket = decimal_of(meta.bucket as u128);
    put_line(&mut out, "  Bucket: ", bucket.as_str());
    let rows = decimal_of(meta.row_count as u128);
    put_line(&mut out, "  Rows: ", rows.as_str());
    let first = format_ms(meta.min_timestamp_ms);
    let last = format_ms(meta.max_timestamp_ms);
    let mut range = join3("[", first.as_str(), ", ");
    range.append(last.as_str());
    range.append("]");
    put_line(&mut out, "  Timestamp range: ", range.as_str());
    let accounts = account_text(meta);
    out.append(accounts.as_str());
    let products = join_set(&meta.product_ids);
    put_line(&mut out, "  Products: ", products.as_str());
    let meters = join_set(&meta.meter_ids);
    put_line(&mut out, "  Meters: ", meters.as_str());
    let models = join_set(&meta.model_ids);
    put_line(&mut out, "  Models: ", models.as_str());
    let sum: String = match meta.quantity_sum {
        Some(q) => signed_decimal_of(q),
        None => "(none)".to_owned(),
    };
    put_line(&mut out, "  Quantity sum: ", sum.as_str());
    let digits = low_hex_of(meta.checksum, 16);
    let shown = join2("0x", digits.as_str());
    put_line(&mut out, "  Checksum: ", shown.as_str());
    let inputs = provenance_text(&meta.input_segment_ids);
    out.append(inputs.as_str());
    out
}

/// A text in quotes, as it would stand in source code.
pub uninterp spec fn quoted(s: Seq<char>) -> Seq<char>;

/// A character that needs no escape between quotes.
pub open spec fn is_plain(c: char) -> bool {
    0x20 <= c as int <= 0x7e && c != '"' && c != '\\'
}

/// `core::fmt::Debug` of `str`: a function of the text alone, which puts a text of
/// printable ASCII without quotes and backslashes between quotes.
#[verifier::external_body]
fn quote(s: &str) -> (r: String)
    ensures
        r@ == quoted(s@),
        (forall|i: int| 0 <= i < s@.len() ==> is_plain(#[trigger] s@[i])) ==> r@ == seq!['"'] + s@
            + seq!['"'],
{
    format!("{:?}", s)
}

/// A model for a reader.
pub open spec fn shown_model(model: Option<Seq<char>>) -> Seq<char> {
    match model {
        Some(m) => "Some("@ + quoted(m) + ")"@,
        None => "None"@,
    }
}

/// A line for an event.
pub open spec fn row_line(e: EventModel) -> Seq<char> {
    "    "@ + e.event_id + " "@ + event::kind_text(e.kind) + " acc="@ + e.account_id + " product="@
        + e.product_id + " meter="@ + e.meter_id + " model="@ + shown_model(e.model_id) + " ts="@
        + text::signed_decimal(e.timestamp_ms as int) + " qty="@ + text::signed_decimal(
        e.quantity as int,
    ) + "\n"@
}

/// How many rows are shown.
pub const SHOWN_ROWS: usize = 5;

/// Lines for the first `n` events.
pub open spec fn row_lines(events: Seq<EventModel>, n: nat) -> Seq<char>
    decreases n,
{
    if n == 0 || n > events.len() {
        Seq::empty()
    } else {
        row_lines(events, (n - 1) as nat) + row_line(events[n - 1])
    }
}

/// What is shown of a segment's events.
pub open spec fn sample_of(events: Seq<EventModel>) -> Seq<char> {
    let n = if events.len() < SHOWN_ROWS {
        events.len()
    } else {
        SHOWN_ROWS as nat
    };
    "\n  First few rows:\n"@ + if n == 0 {
        "    (empty segment)\n"@
    } else {
        row_lines(events, n)
    }
}

fn row_text(e: &UsageEvent) -> (r: String)
    ensures
        r@ == row_line(e@),
{
    let mut out = join3("    ", e.event_id.0.as_str(), " ");
    out.append(e.kind.as_text());
    out.append(" acc=");
    out.append(e.account_id.0.as_str());
    out.append(" product=");
    out.append(e.product_id.0.as_str());
    out.append(" meter=");
    out.append(e.meter_id.0.as_str());
    out.append(" model=");
    let model: String = match &e.model_id {
        Some(m) => {
            let q = quote(m.0.as_str());
            join3("Some(", q.as_str(), ")")
        },
        None => "None".to_owned(),
    };
    out.append(model.as_str());
    out.append(" ts=");
    let ts = signed_decimal_of(e.timestamp_ms as i128);
    out.append(ts.as_str());
    out.append(" qty=");
    let qty = signed_decimal_of(e.quantity);
    out.append(qty.as_str());
    out.append("\n");
    out
}

/// Shows the first few events of a segment.
pub fn show_rows(events: &Vec<UsageEvent>) -> (r: String)
    ensures
        r@ == sample_of(event::event_views(events@)),
{
    let ghost all = event::event_views(events@);
    let n: usize = if events.len() < SHOWN_ROWS {
        events.len()
    } else {
        SHOWN_ROWS
    };
    if n == 0 {
        return join2("\n  First few rows:\n", "    (empty segment)\n");
    }
    let mut lines = String::new();
    assert(lines@ =~= Seq::empty());
    for i in 0..n
        invariant
            n <= events@.len(),
            all == event::event_views(events@),
            lines@ == row_lines(all, i as nat),
    {
        let one = row_text(&events[i]);
        assert(all[i as int] == events@[i as int]@);
        lines.append(one.as_str());
    }
    join2("\n  First few rows:\n", lines.as_str())
}

/// What is said of the segment with that name, `data` being its file.
pub open spec fn inspection(m: ManifestModel, id: Seq<char>, data: Seq<u8>) -> Result<
    Seq<char>,
    Seq<char>,
> {
    match segment_named(m, id) {
        None => Err("segment "@ + id + " not found in manifest"@),
        Some(s) => match s.kind {
            SegmentKind::Rollup => Ok(description_of(s)),
            SegmentKind::Raw => match segment_reader::segment_events(data) {
                Err(f) => Err(frame::fault_text(f)),
                Ok(events) => Ok(description_of(s) + sample_of(events)),
            },
        },
    }
}

/// Says what a segment is and, of a raw one, shows its first few events. `data` is
/// the segment's file; of a rollup it is not read.
pub fn inspect_segment(manifest: &Manifest, segment_id: &str, data: &[u8]) -> (r: Result<
    String,
    String,
>)
    ensures
        outcome(r) == inspection(manifest@, segment_id@, data@),
{
    match find_segment(manifest, segment_id) {
        None => Err(join3("segment ", segment_id, " not found in manifest")),
        Some(meta) => {
            let description = describe_segment(meta);
            match meta.kind {
                SegmentKind::Rollup => Ok(description),
                SegmentKind::Raw => match RawSegmentReader::new(data) {
                    Err(f) => Err(f.message()),
                    Ok(reader) => {
                        let events = reader.into_events();
                        let rows = show_rows(&events);
                        Ok(join2(description.as_str(), rows.as_str()))
                    },
                },
            }
        },
    }
}

// ---------------------------------------------------------------------------
// Verifying a period
// ---------------------------------------------------------------------------

/// Yes or no.
pub open spec fn truth(b: bool) -> Seq<char> {
    if b {
        "true"@
    } else {
        "false"@
    }
}

/// What is said of an account's totals.
pub open spec fn verify_text(account: Seq<char>, from: Seq<char>, to: Seq<char>, v: VerifyReport) -> Seq<char> {
    line("Account:        "@, account) + line(
        "Range:          "@,
        "["@ + from + ", "@ + to + ")"@,
    ) + line("Watermark:      "@, shown_watermark(v.watermark_ms, " "@)) + line(
        "Period sealed:  "@,
        truth(v.period_sealed),
    ) + line("Raw total:      "@, text::signed_decimal(v.raw_total as int)) + line(
        "Rollup total:   "@,
        text::signed_decimal(v.rollup_total as int),
    ) + line(
        "Drift:          "@,
        text::signed_decimal(v.drift as int) + if v.drift == 0 {
            " (OK)"@
        } else {
            " (MISMATCH)"@
        },
    )
}

/// Says how an account's totals compare.
pub fn verify_report(account: &str, from: &str, to: &str, v: &VerifyReport) -> (r: String)
    ensures
        r@ == verify_text(account@, from@, to@, *v),
{
    let mut out = join3("Account:        ", account, "\n");
    let mut range = join3("[", from, ", ");
    range.append(to);
    range.append(")");
    put_line(&mut out, "Range:          ", range.as_str());
    let watermark = watermark_text(v.watermark_ms, " ");
    put_line(&mut out, "Watermark:      ", watermark.as_str());
    let sealed: &str = if v.period_sealed {
        "true"
    } else {
        "false"
    };
    put_line(&mut out, "Period sealed:  ", sealed);
    let raw = signed_decimal_of(v.raw_total);
    put_line(&mut out, "Raw total:      ", raw.as_str());
    let rollup = signed_decimal_of(v.rollup_total);
    put_line(&mut out, "Rollup total:   ", rollup.as_str());
    let drift = signed_decimal_of(v.drift);
    let verdict: &str = if v.drift == 0 {
        " (OK)"
    } else {
        " (MISMATCH)"
    };
    let shown = join2(drift.as_str(), verdict);
    put_line(&mut out, "Drift:          ", shown.as_str());
    out
}

/// What is said of an account's totals between two arguments.
pub open spec fn verified_period(
    account: Seq<char>,
    from: Seq<char>,
    to: Seq<char>,
    range: Result<(i64, i64), Seq<char>>,
    watermark: i64,
    records: Seq<RecordModel>,
    events: Seq<EventModel>,
) -> Result<Seq<char>, Seq<char>> {
    match range {
        Err(e) => Err(e),
        Ok((f, t)) => {
            let raw = reports::total_from(
                QuerySource::RawEvents,
                account,
                f,
                t,
                watermark,
                records,
                events,
            );
            let rollup = reports::total_from(
                QuerySource::RollupHourly,
                account,
                f,
                t,
                watermark,
                records,
                events,
            );
            Ok(
                verify_text(
                    account,
                    from,
                    to,
                    reports::compared(raw as i128, rollup as i128, t, watermark),
                ),
            )
        },
    }
}

/// Compares an account's totals between two arguments, and says what comes of it.
pub fn verify_period(
    account: &str,
    from: &str,
    to: &str,
    watermark_ms: i64,
    records: &Vec<HourlyRollupRecord>,
    events: &Vec<UsageEvent>,
) -> (r: Result<String, String>)
    ensures
        outcome(r) == verified_period(
            account@,
            from@,
            to@,
            argument_range(calendar::rfc3339_time(from@), calendar::rfc3339_time(to@)),
            watermark_ms,
            hourly::record_views(records@),
            event::event_views(events@),
        ),
{
    match parse_argument_range(from, to) {
        Err(e) => Err(e),
        Ok((from_ms, to_ms)) => {
            let v = verify_account(account, from_ms, to_ms, watermark_ms, records, events);
            Ok(verify_report(account, from, to, &v))
        },
    }
}

// ---------------------------------------------------------------------------
// Exporting
// ---------------------------------------------------------------------------

/// What is said of an export.
pub open spec fn export_text(events: int, segments: int, output: Seq<char>) -> Seq<char> {
    "Exported "@ + text::decimal(events) + " events from "@ + text::decimal(segments)
        + " segment(s) to "@ + output + "\n"@
}

/// Says what was exported. `shown_output` is the file's place, for a reader.
pub fn export_report(events: u64, segments: usize, shown_output: &str) -> (r: String)
    ensures
        r@ == export_text(events as int, segments as int, shown_output@),
{
    let n = decimal_of(events as u128);
    let mut out = join3("Exported ", n.as_str(), " events from ");
    let m = decimal_of(segments as u128);
    out.append(m.as_str());
    out.append(" segment(s) to ");
    out.append(shown_output);
    out.append("\n");
    out
}

/// A text holds another one.
pub open spec fn holds_part(whole: Seq<char>, part: Seq<char>) -> bool {
    exists|at: int|
        0 <= at && at + part.len() <= whole.len() && #[trigger] whole.subrange(
            at,
            at + part.len(),
        ) == part
}

spec fn holds_parts(whole: Seq<char>, parts: Seq<Seq<char>>) -> bool {
    forall|i: int| 0 <= i < parts.len() ==> holds_part(whole, #[trigger] parts[i])
}

proof fn lemma_one_more_part(whole: Seq<char>, parts: Seq<Seq<char>>, part: Seq<char>)
    requires
        holds_parts(whole, parts),
    ensures
        holds_parts(whole + part, parts.push(part)),
{
    let more = whole + part;
    let all = parts.push(part);
    assert forall|i: int| 0 <= i < all.len() implies holds_part(more, #[trigger] all[i]) by {
        if i < parts.len() {
            let p = parts[i];
            assert(holds_part(whole, p));
            let at = choose|at: int|
                0 <= at && at + p.len() <= whole.len() && #[trigger] whole.subrange(
                    at,
                    at + p.len(),
                ) == p;
            assert(more.subrange(at, at + p.len()) =~= p);
        } else {
            let at = whole.len() as int;
            assert(more.subrange(at, at + part.len()) =~= part);
        }
    }
}

proof fn lemma_first_part(part: Seq<char>)
    ensures
        holds_parts(part, seq![part]),
{
    assert(part.subrange(0, 0 + part.len() as int) =~= part);
}

/// The summary of a database has a line for each thing that its manifest says: where it
/// is, its generation, its buckets, how many segments of either kind and how many
/// replacements there are, its watermark and its last sealed log.
pub proof fn law_summaries(root: Seq<char>, m: ManifestModel)
    ensures
        ({
            let t = summary_of(root, m);
            &&& holds_part(t, "Database root:        "@ + root + "\n"@)
            &&& holds_part(
                t,
                "Manifest generation:  "@ + text::decimal(m.current_generation as int) + "\n"@,
            )
            &&& holds_part(
                t,
                "Bucket count:         "@ + text::decimal(m.bucket_count as int) + "\n"@,
            )
            &&& holds_part(
                t,
                "Raw segments:         "@ + text::decimal(m.raw_segments.len() as int) + "\n"@,
            )
            &&& holds_part(
                t,
                "Rollup segments:      "@ + text::decimal(m.rollup_segments.len() as int) + "\n"@,
            )
            &&& holds_part(
                t,
                "Watermark:            "@ + (text::signed_decimal(m.watermark_ms as int) + " ms "@
                    + "("@ + calendar::shown_time(m.watermark_ms) + ")"@) + "\n"@,
            )
            &&& holds_part(
                t,
                "Last sealed WAL:      "@ + text::decimal(m.last_sealed_wal_id as int) + "\n"@,
            )
            &&& holds_part(
                t,
                "Pending replacements: "@ + text::decimal(m.compacted_replacements.len() as int)
                    + "\n"@,
            )
        }),
{
    let a = line("Database root:        "@, root);
    let b = line("Manifest generation:  "@, text::decimal(m.current_generation as int));
    let c = line("Bucket count:         "@, text::decimal(m.bucket_count as int));
    let d = line("Raw segments:         "@, text::decimal(m.raw_segments.len() as int));
    let e = line("Rollup segments:      "@, text::decimal(m.rollup_segments.len() as int));
    let f = line("Watermark:            "@, shown_watermark(m.watermark_ms, " ms "@));
    let g = line("Last sealed WAL:      "@, text::decimal(m.last_sealed_wal_id as int));
    let h = line("Pending replacements: "@, text::decimal(m.compacted_replacements.len() as int));
    lemma_first_part(a);
    lemma_one_more_part(a, seq![a], b);
    lemma_one_more_part(a + b, seq![a].push(b), c);
    lemma_one_more_part(a + b + c, seq![a].push(b).push(c), d);
    lemma_one_more_part(a + b + c + d, seq![a].push(b).push(c).push(d), e);
    lemma_one_more_part(a + b + c + d + e, seq![a].push(b).push(c).push(d).push(e), f);
    lemma_one_more_part(a + b + c + d + e + f, seq![a].push(b).push(c).push(d).push(e).push(f), g);
    lemma_one_more_part(
        a + b + c + d + e + f + g,
        seq![a].push(b).push(c).push(d).push(e).push(f).push(g),
        h,
    );
    let parts = seq![a].push(b).push(c).push(d).push(e).push(f).push(g).push(h);
    assert(holds_parts(summary_of(root, m), parts));
    assert(parts[0] == a && parts[1] == b && parts[2] == c && parts[3] == d);
    assert(parts[4] == e && parts[5] == f && parts[6] == g && parts[7] == h);
}

/// The description of a segment has a line for each thing that is known of it.
pub proof fn law_descriptions(m: MetaModel)
    ensures
        ({
            let t = description_of(m);
            &&& holds_part(t, "Segment: "@ + m.segment_id + "\n"@)
            &&& m.kind is Raw ==> holds_part(t, "  Kind: "@ + "Raw"@ + "\n"@)
            &&& m.kind is Rollup ==> holds_part(t, "  Kind: "@ + "Rollup"@ + "\n"@)
            &&& holds_part(t, "  Bucket: "@ + text::decimal(m.bucket as int) + "\n"@)
            &&& holds_part(t, "  Rows: "@ + text::decimal(m.row_count as int) + "\n"@)
            &&& holds_part(
                t,
                "  Timestamp range: "@ + ("["@ + calendar::shown_time(m.min_timestamp_ms) + ", "@
                    + calendar::shown_time(m.max_timestamp_ms) + "]"@) + "\n"@,
            )
            &&& m.min_account_id is Some && m.max_account_id is Some ==> holds_part(
                t,
                "  Account range: "@ + m.min_account_id->0 + (" .. "@ + m.max_account_id->0) + "\n"@,
            )
            &&& holds_part(
                t,
                "  Products: "@ + joined(textset::listing(m.product_ids), ", "@) + "\n"@,
            )
            &&& holds_part(
                t,
                "  Meters: "@ + joined(textset::listing(m.meter_ids), ", "@) + "\n"@,
            )
            &&& holds_part(
                t,
                "  Models: "@ + joined(textset::listing(m.model_ids), ", "@) + "\n"@,
            )
            &&& m.quantity_sum matches Some(q) ==> holds_part(
                t,
                "  Quantity sum: "@ + text::signed_decimal(q as int) + "\n"@,
            )
            &&& m.quantity_sum is None ==> holds_part(t, "  Quantity sum: "@ + "(none)"@ + "\n"@)
            &&& holds_part(
                t,
                "  Checksum: "@ + ("0x"@ + text::low_hex(m.checksum as int, 16)) + "\n"@,
            )
            &&& m.input_segment_ids.len() > 0 ==> holds_part(
                t,
                "  Input segments (rollup provenance):\n"@ + input_lines(m.input_segment_ids),
            )
        }),
{
    let a = line("Segment: "@, m.segment_id);
    let b = line("  Kind: "@, kind_name(m.kind));
    let c = line("  Bucket: "@, text::decimal(m.bucket as int));
    let d = line("  Rows: "@, text::decimal(m.row_count as int));
    let e = line(
        "  Timestamp range: "@,
        "["@ + calendar::shown_time(m.min_timestamp_ms) + ", "@ + calendar::shown_time(
            m.max_timestamp_ms,
        ) + "]"@,
    );
    let f = account_line(m);
    let g = line("  Products: "@, joined(textset::listing(m.product_ids), ", "@));
    let h = line("  Meters: "@, joined(textset::listing(m.meter_ids), ", "@));
    let i = line("  Models: "@, joined(textset::listing(m.model_ids), ", "@));
    let j = line(
        "  Quantity sum: "@,
        match m.quantity_sum {
            Some(q) => text::signed_decimal(q as int),
            None => "(none)"@,
        },
    );
    let k = line("  Checksum: "@, "0x"@ + text::low_hex(m.checksum as int, 16));
    let l = provenance(m.input_segment_ids);
    let p1 = seq![a];
    let p2 = p1.push(b);
    let p3 = p2.push(c);
    let p4 = p3.push(d);
    let p5 = p4.push(e);
    let p6 = p5.push(f);
    let p7 = p6.push(g);
    let p8 = p7.push(h);
    let p9 = p8.push(i);
    let p10 = p9.push(j);
    let p11 = p10.push(k);
    lemma_first_part(a);
    lemma_one_more_part(a, p1, b);
    lemma_one_more_part(a + b, p2, c);
    lemma_one_more_part(a + b + c, p3, d);
    lemma_one_more_part(a + b + c + d, p4, e);
    lemma_one_more_part(a + b + c + d + e, p5, f);
    lemma_one_more_part(a + b + c + d + e + f, p6, g);
    lemma_one_more_part(a + b + c + d + e + f + g, p7, h);
    lemma_one_more_part(a + b + c + d + e + f + g + h, p8, i);
    lemma_one_more_part(a + b + c + d + e + f + g + h + i, p9, j);
    lemma_one_more_part(a + b + c + d + e + f + g + h + i + j, p10, k);
    lemma_one_more_part(a + b + c + d + e + f + g + h + i + j + k, p11, l);
    let parts = p11.push(l);
    assert(holds_parts(description_of(m), parts));
    assert(parts[0] == a && parts[1] == b && parts[2] == c && parts[3] == d);
    assert(parts[4] == e && parts[5] == f && parts[6] == g && parts[7] == h);
    assert(parts[8] == i && parts[9] == j && parts[10] == k && parts[11] == l);
}

/// The report on an account's totals has a line for each of them, and says `OK` exactly
/// where they do not drift apart.
pub proof fn law_reports_on_totals(
    account: Seq<char>,
    from: Seq<char>,
    to: Seq<char>,
    v: VerifyReport,
)
    ensures
        ({
            let t = verify_text(account, from, to, v);
            &&& holds_part(t, "Account:        "@ + account + "\n"@)
            &&& holds_part(t, "Range:          "@ + ("["@ + from + ", "@ + to + ")"@) + "\n"@)
            &&& holds_part(
                t,
                "Watermark:      "@ + (text::signed_decimal(v.watermark_ms as int) + " "@ + "("@
                    + calendar::shown_time(v.watermark_ms) + ")"@) + "\n"@,
            )
            &&& v.period_sealed ==> holds_part(t, "Period sealed:  "@ + "true"@ + "\n"@)
            &&& !v.period_sealed ==> holds_part(t, "Period sealed:  "@ + "false"@ + "\n"@)
            &&& holds_part(
                t,
                "Raw total:      "@ + text::signed_decimal(v.raw_total as int) + "\n"@,
            )
            &&& holds_part(
                t,
                "Rollup total:   "@ + text::signed_decimal(v.rollup_total as int) + "\n"@,
            )
            &&& v.drift == 0 ==> holds_part(
                t,
                "Drift:          "@ + (text::signed_decimal(0) + " (OK)"@) + "\n"@,
            )
            &&& v.drift != 0 ==> holds_part(
                t,
                "Drift:          "@ + (text::signed_decimal(v.drift as int) + " (MISMATCH)"@)
                    + "\n"@,
            )
        }),
{
    let a = line("Account:        "@, account);
    let b = line("Range:          "@, "["@ + from + ", "@ + to + ")"@);
    let c = line("Watermark:      "@, shown_watermark(v.watermark_ms, " "@));
    let d = line("Period sealed:  "@, truth(v.period_sealed));
    let e = line("Raw total:      "@, text::signed_decimal(v.raw_total as int));
    let f = line("Rollup total:   "@, text::signed_decimal(v.rollup_total as int));
    let g = line(
        "Drift:          "@,
        text::signed_decimal(v.drift as int) + if v.drift == 0 {
            " (OK)"@
        } else {
            " (MISMATCH)"@
        },
    );
    let p1 = seq![a];
    let p2 = p1.push(b);
    let p3 = p2.push(c);
    let p4 = p3.push(d);
    let p5 = p4.push(e);
    let p6 = p5.push(f);
    lemma_first_part(a);
    lemma_one_more_part(a, p1, b);
    lemma_one_more_part(a + b, p2, c);
    lemma_one_more_part(a + b + c, p3, d);
    lemma_one_more_part(a + b + c + d, p4, e);
    lemma_one_more_part(a + b + c + d + e, p5, f);
    lemma_one_more_part(a + b + c + d + e + f, p6, g);
    let parts = p6.push(g);
    assert(holds_parts(verify_text(account, from, to, v), parts));
    assert(parts[0] == a && parts[1] == b && parts[2] == c && parts[3] == d);
    assert(parts[4] == e && parts[5] == f && parts[6] == g);
}

/// Reading a database through succeeds exactly where nothing is wrong with any segment;
/// else it says how many failed.
pub proof fn law_reading_through(summary: Seq<char>, checked: Seq<CheckedSegment>)
    ensures
        deep_check(summary, checked) is Ok <==> forall|i: int|
            0 <= i < checked.len() ==> (#[trigger] checked[i]).fault is None,
        deep_check(summary, checked) matches Err(e) ==> e == text::decimal(
            checked.filter(|c: CheckedSegment| c.fault is Some).len() as int,
        ) + " segment(s) failed verification"@,
        deep_check(summary, checked) matches Ok(t) ==> summary.is_prefix_of(t),
{
    lemma_failures(checked);
    let head = "\nVerifying segment files...\n"@;
    let end = "\nAll segments verified.\n"@;
    lemma_prefix(summary, head + passed_lines(checked) + end);
    assert(summary + head + passed_lines(checked) + end =~= summary + (head + passed_lines(checked)
        + end));
}

proof fn lemma_failures(checked: Seq<CheckedSegment>)
    ensures
        failures(checked) == checked.filter(|c: CheckedSegment| c.fault is Some).len(),
        failures(checked) == 0 <==> forall|i: int|
            0 <= i < checked.len() ==> (#[trigger] checked[i]).fault is None,
    decreases checked.len(),
{
    reveal(Seq::filter);
    if checked.len() > 0 {
        let rest = checked.drop_last();
        lemma_failures(rest);
        if failures(checked) == 0 {
            assert forall|i: int| 0 <= i < checked.len() implies (
            #[trigger] checked[i]).fault is None by {
                if i < rest.len() {
                    assert(checked[i] == rest[i]);
                }
            }
        }
        if forall|i: int| 0 <= i < checked.len() ==> (#[trigger] checked[i]).fault is None {
            assert forall|i: int| 0 <= i < rest.len() implies (#[trigger] rest[i]).fault is None by {
                assert(rest[i] == checked[i]);
            }
            assert(checked[checked.len() - 1].fault is None);
        }
    }
}

/// A segment is found by its name: the first of that name among the raw ones, else among
/// the rollups. Nothing is found exactly where none has the name.
pub proof fn law_segments_by_name(m: ManifestModel, id: Seq<char>, i: int)
    ensures
        0 <= i < m.raw_segments.len() && m.raw_segments[i].segment_id == id && (forall|k: int|
            0 <= k < i ==> (#[trigger] m.raw_segments[k]).segment_id != id) ==> segment_named(m, id)
            == Some(m.raw_segments[i]),
        (forall|k: int|
            0 <= k < m.raw_segments.len() ==> (#[trigger] m.raw_segments[k]).segment_id != id) ==> {
            &&& 0 <= i < m.rollup_segments.len() && m.rollup_segments[i].segment_id == id && (
            forall|k: int|
                0 <= k < i ==> (#[trigger] m.rollup_segments[k]).segment_id != id)
                ==> segment_named(m, id) == Some(m.rollup_segments[i])
            &&& (forall|k: int|
                0 <= k < m.rollup_segments.len() ==> (#[trigger] m.rollup_segments[k]).segment_id
                    != id) ==> segment_named(m, id) is None
        },
{
    lemma_named(m.raw_segments, id, i);
    lemma_named(m.rollup_segments, id, i);
}

proof fn lemma_named(metas: Seq<MetaModel>, id: Seq<char>, i: int)
    ensures
        0 <= i < metas.len() && metas[i].segment_id == id && (forall|k: int|
            0 <= k < i ==> (#[trigger] metas[k]).segment_id != id) ==> named(metas, id) == Some(
            metas[i],
        ),
        (forall|k: int| 0 <= k < metas.len() ==> (#[trigger] metas[k]).segment_id != id)
            ==> named(metas, id) is None,
    decreases metas.len(),
{
    if metas.len() > 0 {
        let rest = metas.drop_first();
        lemma_named(rest, id, i - 1);
        if forall|k: int| 0 <= k < metas.len() ==> (#[trigger] metas[k]).segment_id != id {
            assert(metas[0].segment_id != id);
            assert forall|k: int| 0 <= k < rest.len() implies (#[trigger] rest[k]).segment_id
                != id by {
                assert(rest[k] == metas[k + 1]);
            }
        }
        if 0 < i < metas.len() && metas[i].segment_id == id && (forall|k: int|
            0 <= k < i ==> (#[trigger] metas[k]).segment_id != id) {
            assert(metas[0].segment_id != id);
            assert(rest[i - 1] == metas[i]);
            assert forall|k: int| 0 <= k < i - 1 implies (#[trigger] rest[k]).segment_id != id by {
                assert(rest[k] == metas[k + 1]);
            }
        }
    }
}

/// A segment is shown by its description, and a raw one by its first events as well; what
/// is not there, or cannot be read, is an error.
pub proof fn law_inspections(m: ManifestModel, id: Seq<char>, data: Seq<u8>)
    ensures
        segment_named(m, id) is None ==> inspection(m, id, data) == Err::<Seq<char>, _>(
            "segment "@ + id + " not found in manifest"@,
        ),
        segment_named(m, id) matches Some(s) ==> {
            &&& s.kind is Rollup ==> inspection(m, id, data) == Ok::<_, Seq<char>>(
                description_of(s),
            )
            &&& s.kind is Raw ==> (inspection(m, id, data) is Ok
                <==> segment_reader::segment_events(data) is Ok)
            &&& s.kind is Raw ==> (inspection(m, id, data) matches Ok(t)
                ==> description_of(s).is_prefix_of(t))
        },
{
    if let Some(s) = segment_named(m, id) {
        if let Ok(events) = segment_reader::segment_events(data) {
            lemma_prefix(description_of(s), sample_of(events));
        }
    }
}

proof fn lemma_prefix(front: Seq<char>, back: Seq<char>)
    ensures
        front.is_prefix_of(front + back),
{
    assert((front + back).subrange(0, front.len() as int) =~= front);
}

/// The sample of a segment's events has a line for each of the first five, and for no
/// other.
pub proof fn law_samples(events: Seq<EventModel>, e: EventModel)
    ensures
        events.len() == 0 ==> sample_of(events) == "\n  First few rows:\n"@
            + "    (empty segment)\n"@,
        0 < events.len() < 5 ==> sample_of(events.push(e)) == sample_of(events)
            + row_line(e),
        events.len() >= 5 ==> sample_of(events.push(e)) == sample_of(events),
        sample_of(seq![e]) == "\n  First few rows:\n"@ + row_line(e),
{
    let n = if events.len() < SHOWN_ROWS {
        events.len()
    } else {
        SHOWN_ROWS as nat
    };
    lemma_same_rows(events, events.push(e), n);
    reveal_with_fuel(row_lines, 2);
    assert(events.push(e)[events.len() as int] == e);
    if 0 < events.len() < SHOWN_ROWS {
        assert(sample_of(events.push(e)) =~= sample_of(events) + row_line(e));
    }
    assert(row_lines(seq![e], 1) =~= row_line(e));
}

proof fn lemma_same_rows(a: Seq<EventModel>, b: Seq<EventModel>, n: nat)
    requires
        n <= a.len() <= b.len(),
        forall|i: int| 0 <= i < n ==> a[i] == b[i],
    ensures
        row_lines(a, n) == row_lines(b, n),
    decreases n,
{
    if n > 0 {
        lemma_same_rows(a, b, (n - 1) as nat);
    }
}

/// Two arguments give a range exactly where both give a time. Where the first gives none,
/// the error is about it, and else about the second.
pub proof fn law_ranges_of_arguments(from: Result<i64, Seq<char>>, to: Result<i64, Seq<char>>)
    ensures
        argument_range(from, to) is Ok <==> from is Ok && to is Ok,
        argument_range(from, to) matches Ok(r) ==> from == Ok::<_, Seq<char>>(r.0) && to == Ok::<
            _,
            Seq<char>,
        >(r.1),
        from matches Err(e) ==> argument_range(from, to) == Err::<(i64, i64), _>(
            "invalid `"@ + "from"@ + "` (not RFC 3339): "@ + e,
        ),
        from is Ok ==> (to matches Err(e) ==> argument_range(from, to) == Err::<(i64, i64), _>(
            "invalid `"@ + "to"@ + "` (not RFC 3339): "@ + e,
        )),
{
}

/// The report on a range compares the total of the events with that of the rollups.
pub proof fn law_verified_periods(
    account: Seq<char>,
    from: Seq<char>,
    to: Seq<char>,
    f: i64,
    t: i64,
    watermark: i64,
    records: Seq<RecordModel>,
    events: Seq<EventModel>,
)
    ensures
        ({
            let raw = reports::total_from(
                QuerySource::RawEvents,
                account,
                f,
                t,
                watermark,
                records,
                events,
            ) as i128;
            let rollup = reports::total_from(
                QuerySource::RollupHourly,
                account,
                f,
                t,
                watermark,
                records,
                events,
            ) as i128;
            let said = verified_period(
                account,
                from,
                to,
                Ok((f, t)),
                watermark,
                records,
                events,
            );
            &&& said is Ok
            &&& holds_part(
                said->Ok_0,
                "Raw total:      "@ + text::signed_decimal(raw as int) + "\n"@,
            )
            &&& holds_part(
                said->Ok_0,
                "Rollup total:   "@ + text::signed_decimal(rollup as int) + "\n"@,
            )
            &&& raw == rollup ==> holds_part(
                said->Ok_0,
                "Drift:          "@ + (text::signed_decimal(0) + " (OK)"@) + "\n"@,
            )
            &&& t <= watermark ==> holds_part(said->Ok_0, "Period sealed:  "@ + "true"@ + "\n"@)
            &&& t > watermark ==> holds_part(said->Ok_0, "Period sealed:  "@ + "false"@ + "\n"@)
        }),
        forall|e: Seq<char>| #[trigger]
            verified_period(account, from, to, Err(e), watermark, records, events) == Err::<
                Seq<char>,
                _,
            >(e),
{
    let raw = reports::total_from(
        QuerySource::RawEvents,
        account,
        f,
        t,
        watermark,
        records,
        events,
    ) as i128;
    let rollup = reports::total_from(
        QuerySource::RollupHourly,
        account,
        f,
        t,
        watermark,
        records,
        events,
    ) as i128;
    law_reports_on_totals(account, from, to, reports::compared(raw, rollup, t, watermark));
}

/// What a file is called, and when something is wrong with it.
pub proof fn law_files_of_segments(m: MetaModel, data: Seq<u8>)
    ensures
        m.kind is Raw ==> file_name_of(m.segment_id, m.kind) == m.segment_id + ".seg"@,
        m.kind is Rollup ==> file_name_of(m.segment_id, m.kind) == m.segment_id + ".rseg"@,
        m.kind is Raw ==> (file_fault(m, data) is None <==> segment_reader::segment_events(
            data,
        ) is Ok),
        m.kind is Rollup ==> (file_fault(m, data) is None <==> segment::segment_records(
            data,
            m.checksum,
        ) is Ok),
{
}

/// Texts are joined with the separator between each two.
pub proof fn law_joining(texts: Seq<Seq<char>>, t: Seq<char>, separator: Seq<char>)
    ensures
        joined(Seq::empty(), separator) == Seq::<char>::empty(),
        joined(seq![t], separator) == t,
        texts.len() > 0 ==> joined(texts.push(t), separator) == joined(texts, separator) + separator
            + t,
{
    assert(texts.push(t).drop_last() =~= texts);
}

/// What is said of dropped rollups: how many, in which range, and that the watermark is
/// back at the range's beginning.
pub proof fn law_texts_of_rebuilds(dropped: int, from: Seq<char>, to: Seq<char>)
    ensures
        ({
            let head = "Dropped "@ + text::decimal(dropped) + " rollup segment(s) overlapping ["@;
            let range = from + ", "@ + to + ").\nWatermark rewound to "@;
            (head + range + from).is_prefix_of(rebuild_text(dropped, from, to))
        }),
{
    let head = "Dropped "@ + text::decimal(dropped) + " rollup segment(s) overlapping ["@;
    let range = from + ", "@ + to + ").\nWatermark rewound to "@;
    let all = head + range + from;
    let t = rebuild_text(dropped, from, to);
    assert(head + from + ", "@ + to + ").\nWatermark rewound to "@ =~= head + range);
    assert(t.subrange(0, all.len() as int) =~= all);
}

/// What is said of an export: how many events went from how many segments to which place.
pub proof fn law_texts_of_exports(events: int, segments: int, place: Seq<char>)
    ensures
        ({
            let what = "Exported "@ + text::decimal(events) + " events from "@;
            let whence = text::decimal(segments) + " segment(s) to "@;
            export_text(events, segments, place) == what + whence + (place + "\n"@)
        }),
{
    let what = "Exported "@ + text::decimal(events) + " events from "@;
    let whence = text::decimal(segments) + " segment(s) to "@;
    assert(what + text::decimal(segments) + " segment(s) to "@ =~= what + whence);
    assert(export_text(events, segments, place) =~= what + whence + (place + "\n"@));
}

/// The line of an event says who it is, what it is about, and how much it counts when.
pub proof fn law_lines_of_events(e: EventModel)
    ensures
        ({
            let kind = match e.kind {
                EventKind::Usage => "Usage"@,
                EventKind::Correction => "Correction"@,
                EventKind::Retraction => "Retraction"@,
            };
            let model = match e.model_id {
                Some(m) => "Some("@ + quoted(m) + ")"@,
                None => "None"@,
            };
            let who = "    "@ + e.event_id + " "@ + kind + " acc="@ + e.account_id;
            let what = " product="@ + e.product_id + " meter="@ + e.meter_id + " model="@ + model;
            let when = " ts="@ + text::signed_decimal(e.timestamp_ms as int);
            let much = " qty="@ + text::signed_decimal(e.quantity as int) + "\n"@;
            row_line(e) == who + what + when + much
        }),
{
    let kind = event::kind_text(e.kind);
    let model = shown_model(e.model_id);
    let who = "    "@ + e.event_id + " "@ + kind + " acc="@ + e.account_id;
    let what = " product="@ + e.product_id + " meter="@ + e.meter_id + " model="@ + model;
    let when = " ts="@ + text::signed_decimal(e.timestamp_ms as int);
    let much = " qty="@ + text::signed_decimal(e.quantity as int) + "\n"@;
    assert(who + " product="@ + e.product_id + " meter="@ + e.meter_id + " model="@ + model =~= who
        + what);
    assert(who + what + " ts="@ + text::signed_decimal(e.timestamp_ms as int) =~= who + what
        + when);
    assert(row_line(e) =~= who + what + when + much);
}

} // verus!
