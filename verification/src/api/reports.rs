//! What is made of answers: an account's total explained and verified, and how its
//! months stand.

use vstd::prelude::*;

use crate::api::queries;
use crate::api::queries::{breakdown_plan, corrections_plan, period_plan, sum_plan};
use crate::calendar;
use crate::calendar::month_bounds;
use crate::model::event;
use crate::model::event::{EventKind, EventModel, UsageEvent};
use crate::model::ids;
use crate::period;
use crate::period::{report_period, PeriodReport};
use crate::quantity;
use crate::quantity::saturating_minus;
use crate::query::executor;
use crate::query::executor::{execute_plan, AnswerModel, CellModel, CellValue, GroupModel, QueryRow, RowModel};
use crate::query::meaning;
use crate::query::plan::{AggregationFunction, PlanModel, QueryPlan, QuerySource};
use crate::query::pruning;
use crate::query::pruning::account_bucket_of;
use crate::query::reconcile;
use crate::rollup::builder;
use crate::rollup::hourly;
use crate::rollup::hourly::{HourlyRollupRecord, RecordModel};
use crate::rollup::totals;
use crate::rollup::worker;
use crate::storage::manifest;
use crate::storage::manifest::{ClosedPeriod, Manifest, MetaModel, SegmentMeta};
use crate::text;
use crate::text::parse_int;
use crate::textmap;

verus! {

// ---------------------------------------------------------------------------
// Totals out of answers
// ---------------------------------------------------------------------------

/// The quantity that a row gives.
pub open spec fn row_quantity(row: AnswerModel) -> Option<int> {
    match row {
        AnswerModel::Event(_) => None,
        AnswerModel::Values(cells) => match textmap::lookup(cells, "quantity"@) {
            Some(CellModel::Text(t)) => match text::int_value(
                t,
                i128::MIN as int,
                i128::MAX as int,
            ) {
                Ok(n) => Some(n),
                Err(_) => None,
            },
            _ => None,
        },
    }
}

/// The number of events that a row gives.
pub open spec fn row_count(row: AnswerModel) -> Option<int> {
    match row {
        AnswerModel::Event(_) => None,
        AnswerModel::Values(cells) => match textmap::lookup(cells, "count"@) {
            Some(CellModel::Count(n)) => Some(n),
            _ => None,
        },
    }
}

/// The first quantity that rows give, or zero.
pub open spec fn quantity_in(rows: Seq<AnswerModel>) -> int
    decreases rows.len(),
{
    if rows.len() == 0 {
        0
    } else {
        match row_quantity(rows[0]) {
            Some(n) => n,
            None => quantity_in(rows.drop_first()),
        }
    }
}

/// The first number of events that rows give, or zero.
pub open spec fn count_in(rows: Seq<AnswerModel>) -> int
    decreases rows.len(),
{
    if rows.len() == 0 {
        0
    } else {
        match row_count(rows[0]) {
            Some(n) => n,
            None => count_in(rows.drop_first()),
        }
    }
}

proof fn lemma_cell_lookup(cells: Seq<(Seq<char>, CellValue)>, key: Seq<char>)
    requires
        textmap::keys_ascend(cells),
    ensures
        textmap::lookup(executor::cell_views(cells), key) == (match textmap::lookup(cells, key) {
            Some(v) => Some(v@),
            None => None,
        }),
{
    let views = executor::cell_views(cells);
    assert(textmap::keys_ascend(views)) by {
        assert forall|i: int, j: int| 0 <= i < j < views.len() implies text::text_lt(
            #[trigger] views[i].0,
            #[trigger] views[j].0,
        ) by {
            assert(text::text_lt(cells[i].0, cells[j].0));
        }
    }
    if textmap::has_key(cells, key) {
        let i = choose|i: int| 0 <= i < cells.len() && #[trigger] cells[i].0 == key;
        textmap::lemma_lookup_at(cells, i);
        textmap::lemma_lookup_at(views, i);
        assert(views[i].0 == key);
    } else if textmap::has_key(views, key) {
        let i = choose|i: int| 0 <= i < views.len() && #[trigger] views[i].0 == key;
        assert(cells[i].0 == key);
    }
}

fn quantity_of_row(row: &QueryRow) -> (r: Option<i128>)
    ensures
        r is Some == row_quantity(row@) is Some,
        r matches Some(n) ==> row_quantity(row@) == Some(n as int),
{
    match row {
        QueryRow::Event(_) => None,
        QueryRow::Values(cells) => {
            let _ = cells.len();
            proof {
                lemma_cell_lookup(cells@, "quantity"@);
            }
            match cells.get("quantity") {
                Some(CellValue::Text(t)) => match parse_int(t.as_str(), i128::MIN, i128::MAX) {
                    Ok(n) => Some(n),
                    Err(_) => None,
                },
                _ => None,
            }
        },
    }
}

fn count_of_row(row: &QueryRow) -> (r: Option<u64>)
    ensures
        r is Some == row_count(row@) is Some,
        r matches Some(n) ==> row_count(row@) == Some(n as int),
{
    match row {
        QueryRow::Event(_) => None,
        QueryRow::Values(cells) => {
            let _ = cells.len();
            proof {
                lemma_cell_lookup(cells@, "count"@);
            }
            match cells.get("count") {
                Some(CellValue::Count(n)) => Some(*n),
                _ => None,
            }
        },
    }
}

/// The quantity that an answer gives, and zero where it gives none.
pub fn extract_quantity_sum(rows: &Vec<QueryRow>) -> (r: i128)
    ensures
        r == quantity_in(executor::answer_views(rows@)),
{
    let ghost all = executor::answer_views(rows@);
    assert(all.skip(0) =~= all);
    for i in 0..rows.len()
        invariant
            all == executor::answer_views(rows@),
            quantity_in(all) == quantity_in(all.skip(i as int)),
    {
        assert(all.skip(i as int)[0] == rows@[i as int]@);
        if let Some(n) = quantity_of_row(&rows[i]) {
            return n;
        }
        assert(all.skip(i as int).drop_first() =~= all.skip(i + 1));
    }
    0
}

/// The number of events that an answer gives, and zero where it gives none.
pub fn extract_event_count(rows: &Vec<QueryRow>) -> (r: u64)
    ensures
        r == count_in(executor::answer_views(rows@)),
{
    let ghost all = executor::answer_views(rows@);
    assert(all.skip(0) =~= all);
    for i in 0..rows.len()
        invariant
            all == executor::answer_views(rows@),
            count_in(all) == count_in(all.skip(i as int)),
    {
        assert(all.skip(i as int)[0] == rows@[i as int]@);
        if let Some(n) = count_of_row(&rows[i]) {
            return n;
        }
        assert(all.skip(i as int).drop_first() =~= all.skip(i + 1));
    }
    0
}

/// Without grouping columns there is one group at most.
proof fn lemma_one_group(groups: Seq<GroupModel>, rows: Seq<RowModel>)
    requires
        executor::is_grouping(groups, rows),
        forall|i: int| 0 <= i < rows.len() ==> (#[trigger] rows[i]).key.len() == 0,
    ensures
        groups.len() <= 1,
        groups.len() == 1 ==> groups[0].key.len() == 0,
        groups.len() == 0 ==> rows.len() == 0,
{
    let keys = executor::keys_of(groups);
    assert forall|i: int| 0 <= i < groups.len() implies (#[trigger] groups[i]).key.len() == 0 by {
        assert(keys[i] == groups[i].key);
        assert(keys.contains(groups[i].key));
        assert(executor::some_row_has(rows, groups[i].key));
        let k = choose|k: int| 0 <= k < rows.len() && (#[trigger] rows[k]).key == groups[i].key;
    }
    if groups.len() > 1 {
        assert(executor::key_lt(keys[0], keys[1]));
        assert(keys[0] =~= keys[1]);
        executor::lemma_key_lt_irreflexive(keys[0]);
    }
    if groups.len() == 0 && rows.len() > 0 {
        assert(rows[0].key == rows[0].key);
        assert(executor::some_row_has(rows, rows[0].key));
        assert(keys.contains(rows[0].key));
    }
}

proof fn lemma_keyless(p: PlanModel, records: Seq<RecordModel>, events: Seq<EventModel>)
    requires
        p.group_by.len() == 0,
    ensures
        forall|i: int|
            0 <= i < executor::plan_rows(p, records, events).len() ==> (#[trigger] executor::plan_rows(
                p,
                records,
                events,
            )[i]).key.len() == 0,
{
    executor::lemma_row_keys(p, records, events);
    let of_records = executor::record_rows(p, records);
    let of_events = executor::event_rows(p, events);
    let all = executor::plan_rows(p, records, events);
    assert forall|i: int| 0 <= i < all.len() implies (#[trigger] all[i]).key.len() == 0 by {
        if i < of_records.len() {
            assert(all[i] == of_records[i]);
        } else {
            assert(all[i] == of_events[i - of_records.len()]);
        }
    }
}

proof fn lemma_sum_bounds(rows: Seq<RowModel>, key: Seq<Seq<char>>)
    ensures
        i128::MIN <= executor::quantity_of(rows, key) <= i128::MAX,
    decreases rows.len(),
{
    if rows.len() > 0 {
        lemma_sum_bounds(rows.drop_last(), key);
    }
}

/// The answer to a plan for a total gives the total.
pub proof fn law_answers_give_totals(
    p: PlanModel,
    records: Seq<RecordModel>,
    events: Seq<EventModel>,
)
    requires
        p.group_by.len() == 0,
        p.metrics == queries::sum_only() || p.metrics == queries::sum_and_count(),
    ensures
        quantity_in(executor::answer(p, records, events)) == executor::quantity_of(
            executor::plan_rows(p, records, events),
            Seq::empty(),
        ),
        p.metrics == queries::sum_and_count() ==> count_in(executor::answer(p, records, events))
            == executor::count_of(executor::plan_rows(p, records, events), Seq::empty()),
{
    let rows = executor::plan_rows(p, records, events);
    let groups = executor::groups_of(rows);
    let none = Seq::<Seq<char>>::empty();
    reconcile::lemma_groups_of(rows);
    lemma_keyless(p, records, events);
    lemma_one_group(groups, rows);
    lemma_metric_count();
    assert(p.metrics.len() >= 1);
    let g = if groups.len() == 0 {
        executor::zero_group()
    } else {
        groups[0]
    };
    if groups.len() == 0 {
        assert(rows =~= Seq::empty());
    } else {
        assert(g.key =~= none);
    }
    assert(g.quantity_sum == executor::quantity_of(rows, none));
    assert(g.count == executor::count_of(rows, none));
    lemma_sum_bounds(rows, none);
    let answer = executor::answer(p, records, events);
    assert(answer =~= seq![executor::group_answer(p, g)]);
    lemma_total_cells(p, g);
    text::law_decimal_round_trip(g.quantity_sum, i128::MIN as int, i128::MAX as int);
    assert(answer[0] == executor::group_answer(p, g));
}

proof fn lemma_metric_count()
    ensures
        queries::sum_only() =~= seq![("quantity"@, AggregationFunction::Sum)],
        queries::sum_and_count() =~= seq![
            ("count"@, AggregationFunction::Count),
            ("quantity"@, AggregationFunction::Sum),
        ],
{
    reveal_strlit("quantity");
    reveal_strlit("count");
    assert("quantity"@[0] == 'q');
    assert("count"@[0] == 'c');
    assert(text::text_lt("count"@, "quantity"@));
    reveal_with_fuel(textmap::inserted, 3);
}

/// The cells of a total's row.
proof fn lemma_total_cells(p: PlanModel, g: GroupModel)
    requires
        p.group_by.len() == 0,
        p.metrics == queries::sum_only() || p.metrics == queries::sum_and_count(),
    ensures
        textmap::lookup(executor::group_cells(p, g, p.metrics.len()), "quantity"@) == Some(
            CellModel::Text(text::signed_decimal(g.quantity_sum)),
        ),
        p.metrics == queries::sum_and_count() ==> textmap::lookup(
            executor::group_cells(p, g, p.metrics.len()),
            "count"@,
        ) == Some(CellModel::Count(g.count)),
{
    lemma_metric_count();
    let none = executor::column_cells(p.group_by, g.key, 0);
    assert(none =~= Seq::<(Seq<char>, CellModel)>::empty());
    let first = executor::metric_cell(p.metrics[0].1, g);
    assert(executor::group_cells(p, g, 0) == none);
    assert(executor::group_cells(p, g, 1) == textmap::inserted(none, p.metrics[0].0, first));
    textmap::lemma_inserted(none, p.metrics[0].0, first);
    if p.metrics.len() == 2 {
        let one = executor::group_cells(p, g, 1);
        let second = executor::metric_cell(p.metrics[1].1, g);
        assert(executor::group_cells(p, g, 2) == textmap::inserted(one, p.metrics[1].0, second));
        textmap::lemma_inserted(one, p.metrics[1].0, second);
        reveal_strlit("quantity");
        reveal_strlit("count");
        assert("quantity"@.len() != "count"@.len());
    }
}

// ---------------------------------------------------------------------------
// Verifying a total
// ---------------------------------------------------------------------------

/// An account's total, added up from the events and from the rollups.
#[derive(Debug, Clone, Copy, PartialEq, Eq, Structural)]
pub struct VerifyReport {
    pub watermark_ms: i64,
    /// Whether the whole range has been rolled up.
    pub period_sealed: bool,
    pub raw_total: i128,
    pub rollup_total: i128,
    /// What the rollups lack.
    pub drift: i128,
    pub matches: bool,
}

/// The comparison of two totals.
pub open spec fn compared(raw: i128, rollup: i128, to: i64, watermark: i64) -> VerifyReport {
    VerifyReport {
        watermark_ms: watermark,
        period_sealed: to <= watermark,
        raw_total: raw,
        rollup_total: rollup,
        drift: quantity::bounded(raw - rollup) as i128,
        matches: raw == rollup,
    }
}

/// Compares the totals of a range up to `to_ms`.
pub fn compare_totals(raw_total: i128, rollup_total: i128, to_ms: i64, watermark_ms: i64) -> (r:
    VerifyReport)
    ensures
        r == compared(raw_total, rollup_total, to_ms, watermark_ms),
{
    let drift: i128 = saturating_minus(raw_total, rollup_total);
    VerifyReport {
        watermark_ms,
        period_sealed: to_ms <= watermark_ms,
        raw_total,
        rollup_total,
        drift,
        matches: drift == 0,
    }
}

/// The total that a plan from `source` gives.
pub open spec fn total_from(
    source: QuerySource,
    account: Seq<char>,
    from: i64,
    to: i64,
    watermark: i64,
    records: Seq<RecordModel>,
    events: Seq<EventModel>,
) -> int {
    quantity_in(
        executor::plan_answer(
            queries::total_plan_of(account, from, to, source, queries::sum_only()),
            watermark,
            records,
            events,
        ),
    )
}

/// Adds up an account's total from the events alone and with the rollups, and
/// compares the two.
pub fn verify_account(
    account_id: &str,
    from_ms: i64,
    to_ms: i64,
    watermark_ms: i64,
    records: &Vec<HourlyRollupRecord>,
    events: &Vec<UsageEvent>,
) -> (r: VerifyReport)
    ensures
        r.raw_total == total_from(
            QuerySource::RawEvents,
            account_id@,
            from_ms,
            to_ms,
            watermark_ms,
            hourly::record_views(records@),
            event::event_views(events@),
        ),
        r.rollup_total == total_from(
            QuerySource::RollupHourly,
            account_id@,
            from_ms,
            to_ms,
            watermark_ms,
            hourly::record_views(records@),
            event::event_views(events@),
        ),
        r == compared(r.raw_total, r.rollup_total, to_ms, watermark_ms),
{
    let plan_raw = sum_plan(account_id, from_ms, to_ms, QuerySource::RawEvents);
    let plan_rollup = sum_plan(account_id, from_ms, to_ms, QuerySource::RollupHourly);
    let raw = execute_plan(&plan_raw, watermark_ms, records, events);
    let rollup = execute_plan(&plan_rollup, watermark_ms, records, events);
    compare_totals(extract_quantity_sum(&raw), extract_quantity_sum(&rollup), to_ms, watermark_ms)
}

/// What the events contribute does not depend on where a plan reads.
proof fn lemma_source_does_not_matter(p: PlanModel, q: PlanModel, events: Seq<EventModel>)
    requires
        q == (PlanModel { source: q.source, ..p }),
    ensures
        executor::event_rows(p, events) == executor::event_rows(q, events),
    decreases events.len(),
{
    if events.len() > 0 {
        lemma_source_does_not_matter(p, q, events.drop_last());
        let e = events.last();
        assert(executor::event_matches(p, e) == executor::event_matches(q, e));
        assert(executor::event_key(p, e) =~= executor::event_key(q, e));
    }
}

/// Where the rollups are complete, nothing drifts: the total from the rollups is
/// the total from the events. (The quantities must fit: their sum without signs is
/// at most the greatest quantity.)
pub proof fn law_complete_rollups_do_not_drift(
    account: Seq<char>,
    from: i64,
    to: i64,
    watermark: i64,
    records: Seq<RecordModel>,
    events: Seq<EventModel>,
)
    requires
        ({
            let p = queries::total_plan_of(
                account,
                from,
                to,
                QuerySource::RollupHourly,
                queries::sum_only(),
            );
            let c = executor::plan_coverage(p, watermark);
            builder::rolls_up(
                executor::covered_records(c, records),
                reconcile::covered_events(c, events),
            )
        }),
        forall|i: int| 0 <= i < events.len() ==> reconcile::reads_back(#[trigger] events[i]),
        reconcile::turnover(events) <= i128::MAX,
        events.len() <= u64::MAX,
    ensures
        total_from(QuerySource::RawEvents, account, from, to, watermark, records, events)
            == total_from(QuerySource::RollupHourly, account, from, to, watermark, records, events),
{
    let metrics = queries::sum_only();
    let p = queries::total_plan_of(account, from, to, QuerySource::RollupHourly, metrics);
    let q = queries::total_plan_of(account, from, to, QuerySource::RawEvents, metrics);
    let none = Seq::<RecordModel>::empty();
    reconcile::law_rollups_answer_like_events(p, watermark, records, events);
    let c = executor::plan_coverage(q, watermark);
    reconcile::lemma_raw_only(c, records, events);
    law_answers_give_totals(p, none, events);
    law_answers_give_totals(q, none, events);
    lemma_source_does_not_matter(p, q, events);
    assert(executor::record_rows(p, none) =~= executor::record_rows(q, none));
}

// ---------------------------------------------------------------------------
// Explaining a total
// ---------------------------------------------------------------------------

/// A segment that an account's events of `[from, to)` can be in, by its bucket and
/// its times.
pub open spec fn concerns(m: MetaModel, bucket: int, from: int, to: int) -> bool {
    m.bucket == bucket && worker::overlaps(m, from, to)
}

/// The segments that a total can come from, in their order.
pub open spec fn concerned(metas: Seq<MetaModel>, bucket: int, from: int, to: int) -> Seq<MetaModel>
    decreases metas.len(),
{
    if metas.len() == 0 {
        Seq::empty()
    } else if concerns(metas.last(), bucket, from, to) {
        concerned(metas.drop_last(), bucket, from, to).push(metas.last())
    } else {
        concerned(metas.drop_last(), bucket, from, to)
    }
}

/// The names of segments.
pub open spec fn segment_names(metas: Seq<MetaModel>) -> Seq<Seq<char>> {
    metas.map_values(|m: MetaModel| m.segment_id)
}

fn concerned_segments(metas: &Vec<SegmentMeta>, bucket: u32, from_ms: i64, to_ms: i64) -> (r: Vec<
    SegmentMeta,
>)
    ensures
        manifest::meta_views(r@) == concerned(
            manifest::meta_views(metas@),
            bucket as int,
            from_ms as int,
            to_ms as int,
        ),
{
    let ghost all = manifest::meta_views(metas@);
    let mut out: Vec<SegmentMeta> = Vec::new();
    assert(manifest::meta_views(out@) =~= Seq::empty());
    for i in 0..metas.len()
        invariant
            all == manifest::meta_views(metas@),
            manifest::meta_views(out@) == concerned(
                all.take(i as int),
                bucket as int,
                from_ms as int,
                to_ms as int,
            ),
    {
        let m = &metas[i];
        assert(all.take(i + 1).drop_last() =~= all.take(i as int));
        assert(all.take(i + 1).last() == m@);
        if m.bucket == bucket && m.min_timestamp_ms < to_ms && m.max_timestamp_ms >= from_ms {
            let copy = m.clone();
            proof {
                manifest::lemma_metas_push(out@, copy);
            }
            out.push(copy);
        }
    }
    assert(all.take(all.len() as int) =~= all);
    out
}

fn names_of(metas: &Vec<SegmentMeta>) -> (r: Vec<String>)
    ensures
        text::text_views(r@) == segment_names(manifest::meta_views(metas@)),
{
    let ghost wanted = segment_names(manifest::meta_views(metas@));
    let mut out: Vec<String> = Vec::new();
    for i in 0..metas.len()
        invariant
            wanted == segment_names(manifest::meta_views(metas@)),
            text::text_views(out@) == wanted.take(i as int),
    {
        let id = metas[i].segment_id.clone();
        proof {
            text::lemma_texts_push(out@, id);
            assert(wanted[i as int] == id@);
        }
        out.push(id);
        assert(wanted.take(i + 1) =~= wanted.take(i as int).push(wanted[i as int]));
    }
    assert(wanted.take(wanted.len() as int) =~= wanted);
    out
}

/// A rollup segment and the raw segments that went into it.
#[derive(Debug)]
pub struct RollupInputs {
    pub segment_id: String,
    pub input_segment_ids: Vec<String>,
}

/// Rollup segments with what went into them.
pub open spec fn inputs_of(metas: Seq<MetaModel>) -> Seq<(Seq<char>, Seq<Seq<char>>)> {
    metas.map_values(|m: MetaModel| (m.segment_id, m.input_segment_ids))
}

pub open spec fn input_views(inputs: Seq<RollupInputs>) -> Seq<(Seq<char>, Seq<Seq<char>>)> {
    inputs.map_values(
        |r: RollupInputs| (r.segment_id@, text::text_views(r.input_segment_ids@)),
    )
}

fn rollup_inputs_of(metas: &Vec<SegmentMeta>) -> (r: Vec<RollupInputs>)
    ensures
        input_views(r@) == inputs_of(manifest::meta_views(metas@)),
{
    let ghost wanted = inputs_of(manifest::meta_views(metas@));
    let mut out: Vec<RollupInputs> = Vec::new();
    for i in 0..metas.len()
        invariant
            wanted == inputs_of(manifest::meta_views(metas@)),
            input_views(out@) == wanted.take(i as int),
    {
        let ghost was = out@;
        let one = RollupInputs {
            segment_id: metas[i].segment_id.clone(),
            input_segment_ids: text::clone_texts(&metas[i].input_segment_ids),
        };
        out.push(one);
        proof {
            assert(manifest::meta_views(metas@)[i as int] == metas@[i as int]@);
            assert(input_views(out@) =~= input_views(was).push(
                (one.segment_id@, text::text_views(one.input_segment_ids@)),
            ));
            assert(wanted.take(i + 1) =~= wanted.take(i as int).push(wanted[i as int]));
        }
    }
    assert(wanted.take(wanted.len() as int) =~= wanted);
    out
}

/// What an account's total consists of and comes from.
#[derive(Debug)]
pub struct ExplainReport {
    pub watermark_ms: i64,
    /// The total by product, meter, model, source and unit.
    pub lines: Vec<QueryRow>,
    pub rollup_segments: Vec<String>,
    pub rollup_inputs: Vec<RollupInputs>,
    pub raw_segments: Vec<String>,
    /// The corrections and retractions, as they are.
    pub corrections: Vec<QueryRow>,
}

/// Explains an account's total: its lines, the segments that it comes from, and
/// the corrections and retractions in it.
pub fn explain_account(
    manifest: &Manifest,
    account_id: &str,
    from_ms: i64,
    to_ms: i64,
    records: &Vec<HourlyRollupRecord>,
    events: &Vec<UsageEvent>,
) -> (r: ExplainReport)
    ensures
        r.watermark_ms == manifest@.watermark_ms,
        executor::answer_views(r.lines@) == executor::plan_answer(
            queries::breakdown_plan_of(account_id@, from_ms, to_ms),
            manifest@.watermark_ms,
            hourly::record_views(records@),
            event::event_views(events@),
        ),
        executor::answer_views(r.corrections@) == executor::plan_answer(
            queries::corrections_plan_of(account_id@, from_ms, to_ms),
            manifest@.watermark_ms,
            hourly::record_views(records@),
            event::event_views(events@),
        ),
        ({
            let bucket = ids::account_bucket(
                account_id@,
                pruning::buckets(manifest@.bucket_count as int),
            );
            let rollups = concerned(
                manifest@.rollup_segments,
                bucket,
                from_ms as int,
                to_ms as int,
            );
            &&& text::text_views(r.rollup_segments@) == segment_names(rollups)
            &&& input_views(r.rollup_inputs@) == inputs_of(rollups)
            &&& text::text_views(r.raw_segments@) == segment_names(
                concerned(manifest@.raw_segments, bucket, from_ms as int, to_ms as int),
            )
        }),
{
    let watermark_ms: i64 = manifest.watermarks.hourly_rollup_ms;
    let plan_lines = breakdown_plan(account_id, from_ms, to_ms);
    let lines = execute_plan(&plan_lines, watermark_ms, records, events);
    let plan_corrections = corrections_plan(account_id, from_ms, to_ms);
    let corrections = execute_plan(&plan_corrections, watermark_ms, records, events);
    let bucket: u32 = account_bucket_of(account_id, manifest.bucket_count);
    let rollups = concerned_segments(&manifest.rollup_segments, bucket, from_ms, to_ms);
    let raws = concerned_segments(&manifest.raw_segments, bucket, from_ms, to_ms);
    ExplainReport {
        watermark_ms,
        lines,
        rollup_segments: names_of(&rollups),
        rollup_inputs: rollup_inputs_of(&rollups),
        raw_segments: names_of(&raws),
        corrections,
    }
}

// ---------------------------------------------------------------------------
// Months
// ---------------------------------------------------------------------------

/// The answer to what an account's month adds up to.
pub open spec fn month_answer(
    account: Seq<char>,
    year: u16,
    month: u8,
    watermark: i64,
    records: Seq<RecordModel>,
    events: Seq<EventModel>,
) -> Seq<AnswerModel> {
    executor::plan_answer(
        queries::total_plan_of(
            account,
            calendar::month_start(year as int, month as int) as i64,
            calendar::month_start(year as int, month + 1) as i64,
            QuerySource::RollupHourly,
            queries::sum_and_count(),
        ),
        watermark,
        records,
        events,
    )
}

/// The entry with which an account's month is closed at the time `now_ms`: with
/// its total and its number of events as they stand.
pub fn freeze_period(
    account_id: &str,
    year: u16,
    month: u8,
    now_ms: i64,
    watermark_ms: i64,
    records: &Vec<HourlyRollupRecord>,
    events: &Vec<UsageEvent>,
) -> (r: ClosedPeriod)
    requires
        1 <= month <= 12,
    ensures
        r.account_id@ == account_id@,
        r.year == year,
        r.month == month,
        r.closed_at_ms == now_ms,
        r.watermark_at_close_ms == Some(watermark_ms),
        ({
            let rows = month_answer(
                account_id@,
                year,
                month,
                watermark_ms,
                hourly::record_views(records@),
                event::event_views(events@),
            );
            &&& r.frozen_quantity matches Some(q) && q == quantity_in(rows)
            &&& r.frozen_event_count matches Some(n) && n == count_in(rows)
        }),
{
    let plan = period_plan(account_id, year, month);
    let rows = execute_plan(&plan, watermark_ms, records, events);
    ClosedPeriod {
        account_id: account_id.to_owned(),
        year,
        month,
        closed_at_ms: now_ms,
        frozen_quantity: Some(extract_quantity_sum(&rows)),
        frozen_event_count: Some(extract_event_count(&rows)),
        watermark_at_close_ms: Some(watermark_ms),
    }
}

/// An account's corrections and retractions of a month.
pub open spec fn month_corrections(
    account: Seq<char>,
    year: u16,
    month: u8,
    events: Seq<EventModel>,
) -> Seq<EventModel> {
    executor::matching_events(
        queries::corrections_plan_of(
            account,
            calendar::month_start(year as int, month as int) as i64,
            calendar::month_start(year as int, month + 1) as i64,
        ),
        events,
    )
}

fn select_matching(plan: &QueryPlan, events: &Vec<UsageEvent>) -> (r: Vec<
    UsageEvent,
>)
    ensures
        event::event_views(r@) == executor::matching_events(plan@, event::event_views(events@)),
{
    let ghost all = event::event_views(events@);
    let mut out: Vec<UsageEvent> = Vec::new();
    assert(event::event_views(out@) =~= Seq::empty());
    for i in 0..events.len()
        invariant
            all == event::event_views(events@),
            event::event_views(out@) == executor::matching_events(plan@, all.take(i as int)),
    {
        assert(all.take(i + 1).drop_last() =~= all.take(i as int));
        assert(all.take(i + 1).last() == events@[i as int]@);
        if executor::matches_plan(plan, &events[i]) {
            let copy = events[i].clone();
            proof {
                event::lemma_views_push(out@, copy);
            }
            out.push(copy);
        }
    }
    assert(all.take(all.len() as int) =~= all);
    out
}

/// Says how an account's month stands.
pub fn account_period(
    manifest: &Manifest,
    account_id: &str,
    year: u16,
    month: u8,
    records: &Vec<HourlyRollupRecord>,
    events: &Vec<UsageEvent>,
) -> (r: PeriodReport)
    requires
        1 <= month <= 12,
    ensures
        period::reports(
            r,
            period::closed_entry(manifest@.closed_periods, account_id@, year, month),
            month_corrections(account_id@, year, month, event::event_views(events@)),
            quantity_in(
                month_answer(
                    account_id@,
                    year,
                    month,
                    manifest@.watermark_ms,
                    hourly::record_views(records@),
                    event::event_views(events@),
                ),
            ),
        ),
{
    let watermark_ms: i64 = manifest.watermarks.hourly_rollup_ms;
    let plan = period_plan(account_id, year, month);
    let rows = execute_plan(&plan, watermark_ms, records, events);
    let live: i128 = extract_quantity_sum(&rows);
    let (from_ms, to_ms) = month_bounds(year, month);
    let wanted = corrections_plan(account_id, from_ms, to_ms);
    let corrections = select_matching(&wanted, events);
    report_period(manifest, account_id, year, month, &corrections, live)
}

// ---------------------------------------------------------------------------
// Laws
// ---------------------------------------------------------------------------

/// The events of an account at times from `from` and before `to`.
pub open spec fn usage_of(
    account: Seq<char>,
    from: int,
    to: int,
    events: Seq<EventModel>,
) -> Seq<EventModel> {
    events.filter(|e: EventModel| e.account_id == account && from <= e.timestamp_ms < to)
}

/// The rollup rows of the hours that a plan reads from rollups roll up the events of
/// these hours.
pub open spec fn rollups_are_complete(
    p: PlanModel,
    watermark: i64,
    records: Seq<RecordModel>,
    events: Seq<EventModel>,
) -> bool {
    let c = executor::plan_coverage(p, watermark);
    builder::rolls_up(
        executor::covered_records(c, records),
        reconcile::covered_events(c, events),
    )
}

proof fn lemma_total(
    p: PlanModel,
    account: Seq<char>,
    watermark: i64,
    records: Seq<RecordModel>,
    events: Seq<EventModel>,
)
    requires
        p.account_id == Some(account),
        p.filters.len() == 0,
        p.group_by.len() == 0,
        p.limit is None,
        p.metrics == queries::sum_only() || p.metrics == queries::sum_and_count(),
        rollups_are_complete(p, watermark, records, events),
        forall|i: int| 0 <= i < events.len() ==> reconcile::reads_back(#[trigger] events[i]),
        reconcile::turnover(events) <= i128::MAX,
        events.len() <= u64::MAX,
    ensures
        ({
            let of_account = usage_of(account, p.from_ms as int, p.to_ms as int, events);
            let rows = executor::plan_answer(p, watermark, records, events);
            &&& quantity_in(rows) == totals::event_total(of_account)
            &&& p.metrics == queries::sum_and_count() ==> count_in(rows) == of_account.len()
        }),
{
    let none = Seq::<RecordModel>::empty();
    reconcile::law_rollups_answer_like_events(p, watermark, records, events);
    law_answers_give_totals(p, none, events);
    assert(executor::record_rows(p, none) =~= Seq::<RowModel>::empty());
    assert(executor::plan_rows(p, none, events) =~= executor::event_rows(p, events));
    meaning::lemma_rows_fit(p, events, Seq::empty());
    meaning::lemma_keyless_events(p, events);
    let lets_through = |e: EventModel| executor::event_matches(p, e);
    let of_account = |e: EventModel|
        e.account_id == account && p.from_ms as int <= e.timestamp_ms < p.to_ms as int;
    assert forall|i: int| 0 <= i < events.len() implies lets_through(#[trigger] events[i])
        == of_account(events[i]) by {
        meaning::law_what_a_plan_lets_through(p, events[i]);
    }
    meaning::lemma_same_filter(events, lets_through, of_account);
}

/// An account's total is the sum of the quantities of exactly its events of the range,
/// from whichever source it is added up, where the rollups are complete. (The
/// quantities must fit: their sum without signs is at most the greatest quantity.)
pub proof fn law_totals_of_accounts(
    source: QuerySource,
    account: Seq<char>,
    from: i64,
    to: i64,
    watermark: i64,
    records: Seq<RecordModel>,
    events: Seq<EventModel>,
)
    requires
        rollups_are_complete(
            queries::total_plan_of(account, from, to, source, queries::sum_only()),
            watermark,
            records,
            events,
        ),
        forall|i: int| 0 <= i < events.len() ==> reconcile::reads_back(#[trigger] events[i]),
        reconcile::turnover(events) <= i128::MAX,
        events.len() <= u64::MAX,
    ensures
        total_from(source, account, from, to, watermark, records, events) == totals::event_total(
            usage_of(account, from as int, to as int, events),
        ),
{
    let p = queries::total_plan_of(account, from, to, source, queries::sum_only());
    lemma_total(p, account, watermark, records, events);
}

/// What is kept of a month when it is closed, and what is reported of it while it is
/// open, is the sum of the quantities and the number of exactly the account's events
/// of the month, where the rollups are complete. (The quantities must fit.)
pub proof fn law_totals_of_months(
    account: Seq<char>,
    year: u16,
    month: u8,
    watermark: i64,
    records: Seq<RecordModel>,
    events: Seq<EventModel>,
)
    requires
        1 <= month <= 12,
        rollups_are_complete(
            queries::total_plan_of(
                account,
                calendar::month_start(year as int, month as int) as i64,
                calendar::month_start(year as int, month + 1) as i64,
                QuerySource::RollupHourly,
                queries::sum_and_count(),
            ),
            watermark,
            records,
            events,
        ),
        forall|i: int| 0 <= i < events.len() ==> reconcile::reads_back(#[trigger] events[i]),
        reconcile::turnover(events) <= i128::MAX,
        events.len() <= u64::MAX,
    ensures
        ({
            let of_month = usage_of(
                account,
                calendar::month_start(year as int, month as int),
                calendar::month_start(year as int, month + 1),
                events,
            );
            let rows = month_answer(account, year, month, watermark, records, events);
            &&& quantity_in(rows) == totals::event_total(of_month)
            &&& count_in(rows) == of_month.len()
        }),
{
    calendar::lemma_month_starts(year as int, month as int);
    let p = queries::total_plan_of(
        account,
        calendar::month_start(year as int, month as int) as i64,
        calendar::month_start(year as int, month + 1) as i64,
        QuerySource::RollupHourly,
        queries::sum_and_count(),
    );
    lemma_total(p, account, watermark, records, events);
}

/// The corrections of a month are the account's corrections and retractions at times
/// of the month, all of them and in their order.
pub proof fn law_corrections_of_months(
    account: Seq<char>,
    year: u16,
    month: u8,
    events: Seq<EventModel>,
)
    requires
        1 <= month <= 12,
        forall|i: int| 0 <= i < events.len() ==> (#[trigger] events[i]).wf(),
    ensures
        month_corrections(account, year, month, events) == usage_of(
            account,
            calendar::month_start(year as int, month as int),
            calendar::month_start(year as int, month + 1),
            events,
        ).filter(
            |e: EventModel| e.kind == EventKind::Correction || e.kind == EventKind::Retraction,
        ),
{
    calendar::lemma_month_starts(year as int, month as int);
    let from = calendar::month_start(year as int, month as int) as i64;
    let to = calendar::month_start(year as int, month + 1) as i64;
    let p = queries::corrections_plan_of(account, from, to);
    meaning::lemma_matching(p, events);
    let lets_through = |e: EventModel| executor::event_matches(p, e);
    let both = |e: EventModel|
        (e.account_id == account && from as int <= e.timestamp_ms < to as int) && (e.kind
            == EventKind::Correction || e.kind == EventKind::Retraction);
    assert forall|i: int| 0 <= i < events.len() implies lets_through(#[trigger] events[i]) == both(
        events[i],
    ) by {
        queries::law_correction_requests(account, from, to, events[i]);
    }
    meaning::lemma_same_filter(events, lets_through, both);
    lemma_filter_twice(
        events,
        |e: EventModel| e.account_id == account && from as int <= e.timestamp_ms < to as int,
        |e: EventModel| e.kind == EventKind::Correction || e.kind == EventKind::Retraction,
        both,
    );
}

proof fn lemma_filter_twice(
    all: Seq<EventModel>,
    f: spec_fn(EventModel) -> bool,
    g: spec_fn(EventModel) -> bool,
    both: spec_fn(EventModel) -> bool,
)
    requires
        forall|e: EventModel| #[trigger] both(e) == (f(e) && g(e)),
    ensures
        all.filter(both) == all.filter(f).filter(g),
    decreases all.len(),
{
    reveal(Seq::filter);
    if all.len() > 0 {
        let init = all.drop_last();
        lemma_filter_twice(init, f, g, both);
        let some = init.filter(f);
        assert(some.push(all.last()).drop_last() =~= some);
        assert(both(all.last()) == (f(all.last()) && g(all.last())));
    } else {
        assert(all.filter(both) =~= all.filter(f).filter(g));
    }
}

/// A comparison says what each source adds up to, what the rollups lack, whether they
/// agree, and whether all of the range lies below the watermark.
pub proof fn law_comparisons(raw: i128, rollup: i128, to: i64, watermark: i64)
    ensures
        ({
            let r = compared(raw, rollup, to, watermark);
            &&& r.raw_total == raw
            &&& r.rollup_total == rollup
            &&& r.watermark_ms == watermark
            &&& r.matches <==> raw == rollup
            &&& r.period_sealed <==> to <= watermark
            &&& i128::MIN <= raw - rollup <= i128::MAX ==> r.rollup_total + r.drift == r.raw_total
            &&& raw > rollup <==> r.drift > 0
            &&& raw < rollup <==> r.drift < 0
        }),
{
}

/// A total is explained by exactly the segments of the account's bucket whose times
/// reach into the range, in their order, and of a rollup segment by what went into it.
pub proof fn law_segments_of_a_total(metas: Seq<MetaModel>, bucket: int, from: int, to: int, i: int)
    ensures
        concerned(metas, bucket, from, to) == metas.filter(
            |m: MetaModel|
                m.bucket == bucket && m.min_timestamp_ms < to && m.max_timestamp_ms >= from,
        ),
        segment_names(metas).len() == metas.len(),
        inputs_of(metas).len() == metas.len(),
        0 <= i < metas.len() ==> segment_names(metas)[i] == metas[i].segment_id && inputs_of(
            metas,
        )[i] == (metas[i].segment_id, metas[i].input_segment_ids),
    decreases metas.len(),
{
    reveal(Seq::filter);
    let reaches = |m: MetaModel|
        m.bucket == bucket && m.min_timestamp_ms < to && m.max_timestamp_ms >= from;
    if metas.len() > 0 {
        law_segments_of_a_total(metas.drop_last(), bucket, from, to, 0);
    } else {
        assert(concerned(metas, bucket, from, to) =~= metas.filter(reaches));
    }
}

} // verus!
