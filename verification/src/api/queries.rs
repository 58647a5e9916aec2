//! What requests ask for: the plans that answer them.

use vstd::prelude::*;

use crate::api::http::{AppError, UsageQueryRequest};
use crate::calendar;
use crate::calendar::{month_bounds, parse_rfc3339};
use crate::lists;
use crate::lists::split_list;
use crate::model::event::{EventKind, EventModel};
use crate::query::executor;
use crate::query::meaning;
use crate::query::plan;
use crate::query::plan::{
    AggregationFunction, FilterModel, PlanModel, QueryFilter, QueryPlan, QuerySource,
};
use crate::query::sql;
use crate::query::sql::parse_sql;
use crate::query::syntax;
use crate::text;
use crate::text::{join2, join3, same_text, to_lower};
use crate::textmap;
use crate::textmap::TextMap;

verus! {

// ---------------------------------------------------------------------------
// Times
// ---------------------------------------------------------------------------

/// The time that the parameter `name` gives, where `parsed` is what its text is
/// found to be; an error says which parameter it is.
pub open spec fn time_of(name: Seq<char>, parsed: Result<i64, Seq<char>>) -> Result<i64, Seq<char>> {
    match parsed {
        Ok(t) => Ok(t),
        Err(e) => Err("invalid `"@ + name + "`: "@ + e),
    }
}

/// A result with an error of the server, by its contents.
pub open spec fn time_result(r: Result<i64, AppError>) -> Result<i64, Seq<char>> {
    match r {
        Ok(t) => Ok(t),
        Err(e) => Err(e.0@),
    }
}

/// Says which parameter it was, where a time could not be read.
pub fn name_time(name: &str, parsed: Result<i64, String>) -> (r: Result<i64, AppError>)
    ensures
        time_result(r) == time_of(name@, calendar::time_view(parsed)),
{
    match parsed {
        Ok(t) => Ok(t),
        Err(e) => {
            let head = join3("invalid `", name, "`: ");
            Err(AppError(join2(head.as_str(), e.as_str())))
        },
    }
}

/// The time range that two texts give, or what is said of the first that gives
/// none.
pub open spec fn range_of(
    from: Result<i64, Seq<char>>,
    to: Result<i64, Seq<char>>,
) -> Result<(i64, i64), Seq<char>> {
    match time_of("from"@, from) {
        Err(e) => Err(e),
        Ok(f) => match time_of("to"@, to) {
            Err(e) => Err(e),
            Ok(t) => Ok((f, t)),
        },
    }
}

pub open spec fn range_result(r: Result<(i64, i64), AppError>) -> Result<(i64, i64), Seq<char>> {
    match r {
        Ok(p) => Ok(p),
        Err(e) => Err(e.0@),
    }
}

/// Reads the time range of a request.
pub fn parse_range(from: &str, to: &str) -> (r: Result<(i64, i64), AppError>)
    ensures
        range_result(r) == range_of(calendar::rfc3339_time(from@), calendar::rfc3339_time(to@)),
{
    match name_time("from", parse_rfc3339(from)) {
        Err(e) => Err(e),
        Ok(f) => match name_time("to", parse_rfc3339(to)) {
            Err(e) => Err(e),
            Ok(t) => Ok((f, t)),
        },
    }
}

// ---------------------------------------------------------------------------
// Plans
// ---------------------------------------------------------------------------

/// What `quantity` and `count` are asked for.
pub open spec fn sum_and_count() -> Seq<(Seq<char>, AggregationFunction)> {
    textmap::inserted(sum_only(), "count"@, AggregationFunction::Count)
}

/// What `quantity` is asked for.
pub open spec fn sum_only() -> Seq<(Seq<char>, AggregationFunction)> {
    textmap::inserted(Seq::empty(), "quantity"@, AggregationFunction::Sum)
}

fn sum_metric() -> (r: TextMap<AggregationFunction>)
    ensures
        r@ == sum_only(),
{
    let mut m: TextMap<AggregationFunction> = TextMap::new();
    m.insert("quantity".to_owned(), AggregationFunction::Sum);
    m
}

fn sum_and_count_metrics() -> (r: TextMap<AggregationFunction>)
    ensures
        r@ == sum_and_count(),
{
    let mut m = sum_metric();
    m.insert("count".to_owned(), AggregationFunction::Count);
    m
}

/// A filter for one value.
pub open spec fn one_value(field: Seq<char>, value: Seq<char>) -> FilterModel {
    FilterModel { field, values: seq![value] }
}

/// Filters with one more, where there is a value.
pub open spec fn with_filter(
    filters: Seq<FilterModel>,
    field: Seq<char>,
    value: Option<Seq<char>>,
) -> Seq<FilterModel> {
    match value {
        Some(v) => filters.push(one_value(field, v)),
        None => filters,
    }
}

fn push_filter(filters: &mut Vec<QueryFilter>, field: &str, value: &Option<String>)
    ensures
        plan::filter_views(final(filters)@) == with_filter(
            plan::filter_views(old(filters)@),
            field@,
            text::option_view(*value),
        ),
{
    if let Some(v) = value {
        let mut values: Vec<String> = Vec::new();
        let copy = v.clone();
        proof {
            text::lemma_texts_push(values@, copy);
            assert(text::text_views(values@) =~= Seq::empty());
        }
        values.push(copy);
        assert(text::text_views(values@) =~= seq![v@]);
        let f = QueryFilter { field: field.to_owned(), values };
        proof {
            plan::lemma_filters_push(filters@, f);
        }
        filters.push(f);
    }
}

/// The parameters of a query for an account's usage.
#[derive(Debug)]
pub struct UsageQueryParams {
    pub from: String,
    pub to: String,
    /// Grouping columns, with commas between.
    pub group_by: Option<String>,
    pub product_id: Option<String>,
    pub meter_id: Option<String>,
    pub model_id: Option<String>,
    /// `raw` for the events themselves; anything else reads rollups.
    pub source: Option<String>,
}

/// The plan that gives an account's usage.
pub open spec fn usage_plan_of(account: Seq<char>, p: UsageQueryParams, from: i64, to: i64) -> PlanModel {
    PlanModel {
        source: if text::option_view(p.source) == Some("raw"@) {
            QuerySource::RawEvents
        } else {
            QuerySource::RollupHourly
        },
        account_id: Some(account),
        from_ms: from,
        to_ms: to,
        filters: with_filter(
            with_filter(
                with_filter(Seq::empty(), "product_id"@, text::option_view(p.product_id)),
                "meter_id"@,
                text::option_view(p.meter_id),
            ),
            "model_id"@,
            text::option_view(p.model_id),
        ),
        group_by: match p.group_by {
            Some(s) => lists::items(s@),
            None => Seq::empty(),
        },
        metrics: sum_and_count(),
        limit: None,
    }
}

/// The plan that gives an account's usage between two times.
pub fn usage_plan(account_id: &str, params: &UsageQueryParams, from_ms: i64, to_ms: i64) -> (r:
    QueryPlan)
    ensures
        r@ == usage_plan_of(account_id@, *params, from_ms, to_ms),
{
    let raw = match &params.source {
        Some(s) => same_text(s.as_str(), "raw"),
        None => false,
    };
    let mut filters: Vec<QueryFilter> = Vec::new();
    assert(plan::filter_views(filters@) =~= Seq::empty());
    push_filter(&mut filters, "product_id", &params.product_id);
    push_filter(&mut filters, "meter_id", &params.meter_id);
    push_filter(&mut filters, "model_id", &params.model_id);
    let group_by: Vec<String> = match &params.group_by {
        Some(s) => split_list(s.as_str()),
        None => {
            let none: Vec<String> = Vec::new();
            assert(text::text_views(none@) =~= Seq::empty());
            none
        },
    };
    QueryPlan {
        source: if raw {
            QuerySource::RawEvents
        } else {
            QuerySource::RollupHourly
        },
        account_id: Some(account_id.to_owned()),
        from_ms,
        to_ms,
        filters,
        group_by,
        metrics: sum_and_count_metrics(),
        limit: None,
    }
}

/// A plan or an error of the server, by its contents.
pub open spec fn plan_result(r: Result<QueryPlan, AppError>) -> Result<PlanModel, Seq<char>> {
    match r {
        Ok(p) => Ok(p@),
        Err(e) => Err(e.0@),
    }
}

/// Reads the request for an account's usage.
pub fn account_usage_plan(account_id: &str, params: &UsageQueryParams) -> (r: Result<
    QueryPlan,
    AppError,
>)
    ensures
        plan_result(r) == (match range_of(
            calendar::rfc3339_time(params.from@),
            calendar::rfc3339_time(params.to@),
        ) {
            Ok((from, to)) => Ok(usage_plan_of(account_id@, *params, from, to)),
            Err(e) => Err(e),
        }),
{
    match parse_range(params.from.as_str(), params.to.as_str()) {
        Ok((from_ms, to_ms)) => Ok(usage_plan(account_id, params, from_ms, to_ms)),
        Err(e) => Err(e),
    }
}

/// The parameters of a query for an account's events.
#[derive(Debug)]
pub struct EventsQueryParams {
    pub from: String,
    pub to: String,
    pub meter_id: Option<String>,
    pub product_id: Option<String>,
}

/// The plan that gives an account's events.
pub open spec fn events_plan_of(account: Seq<char>, p: EventsQueryParams, from: i64, to: i64) -> PlanModel {
    PlanModel {
        source: QuerySource::RawEvents,
        account_id: Some(account),
        from_ms: from,
        to_ms: to,
        filters: with_filter(
            with_filter(Seq::empty(), "meter_id"@, text::option_view(p.meter_id)),
            "product_id"@,
            text::option_view(p.product_id),
        ),
        group_by: Seq::empty(),
        metrics: Seq::empty(),
        limit: None,
    }
}

/// The plan that gives an account's events between two times.
pub fn events_plan(account_id: &str, params: &EventsQueryParams, from_ms: i64, to_ms: i64) -> (r:
    QueryPlan)
    ensures
        r@ == events_plan_of(account_id@, *params, from_ms, to_ms),
{
    let mut filters: Vec<QueryFilter> = Vec::new();
    assert(plan::filter_views(filters@) =~= Seq::empty());
    push_filter(&mut filters, "meter_id", &params.meter_id);
    push_filter(&mut filters, "product_id", &params.product_id);
    let group_by: Vec<String> = Vec::new();
    assert(text::text_views(group_by@) =~= Seq::empty());
    QueryPlan {
        source: QuerySource::RawEvents,
        account_id: Some(account_id.to_owned()),
        from_ms,
        to_ms,
        filters,
        group_by,
        metrics: TextMap::new(),
        limit: None,
    }
}

/// Reads the request for an account's events.
pub fn account_events_plan(account_id: &str, params: &EventsQueryParams) -> (r: Result<
    QueryPlan,
    AppError,
>)
    ensures
        plan_result(r) == (match range_of(
            calendar::rfc3339_time(params.from@),
            calendar::rfc3339_time(params.to@),
        ) {
            Ok((from, to)) => Ok(events_plan_of(account_id@, *params, from, to)),
            Err(e) => Err(e),
        }),
{
    match parse_range(params.from.as_str(), params.to.as_str()) {
        Ok((from_ms, to_ms)) => Ok(events_plan(account_id, params, from_ms, to_ms)),
        Err(e) => Err(e),
    }
}

/// Filters of a request, in their order.
pub open spec fn request_filters(pairs: Seq<(String, Vec<String>)>) -> Seq<FilterModel> {
    pairs.map_values(
        |p: (String, Vec<String>)| FilterModel { field: p.0@, values: text::text_views(p.1@) },
    )
}

/// The function that a request names, whatever the case of its letters; an unknown
/// one is passed over.
pub open spec fn function_named(lower: Seq<char>) -> Option<AggregationFunction> {
    if lower == "sum"@ {
        Some(AggregationFunction::Sum)
    } else if lower == "count"@ {
        Some(AggregationFunction::Count)
    } else {
        None
    }
}

/// The metrics of a request.
pub open spec fn request_metrics(pairs: Seq<(String, String)>) -> Seq<
    (Seq<char>, AggregationFunction),
>
    decreases pairs.len(),
{
    if pairs.len() == 0 {
        Seq::empty()
    } else {
        let before = request_metrics(pairs.drop_last());
        match function_named(text::lowercase(pairs.last().1@)) {
            Some(f) => textmap::inserted(before, pairs.last().0@, f),
            None => before,
        }
    }
}

/// The plan of a request with filters of any shape.
pub open spec fn request_plan_of(q: UsageQueryRequest, from: i64, to: i64) -> PlanModel {
    PlanModel {
        source: if q.source@ == "usage_events"@ {
            QuerySource::RawEvents
        } else {
            QuerySource::RollupHourly
        },
        account_id: Some(q.account_id@),
        from_ms: from,
        to_ms: to,
        filters: match q.filters {
            Some(f) => request_filters(f@),
            None => Seq::empty(),
        },
        group_by: text::text_views(q.group_by@),
        metrics: match q.metrics {
            Some(m) => request_metrics(m@),
            None => Seq::empty(),
        },
        limit: None,
    }
}

fn filters_of(pairs: &Vec<(String, Vec<String>)>) -> (r: Vec<QueryFilter>)
    ensures
        plan::filter_views(r@) == request_filters(pairs@),
{
    let ghost wanted = request_filters(pairs@);
    let mut out: Vec<QueryFilter> = Vec::new();
    assert(plan::filter_views(out@) =~= Seq::empty());
    for i in 0..pairs.len()
        invariant
            wanted == request_filters(pairs@),
            plan::filter_views(out@) == wanted.take(i as int),
    {
        let f = QueryFilter {
            field: pairs[i].0.clone(),
            values: text::clone_texts(&pairs[i].1),
        };
        proof {
            plan::lemma_filters_push(out@, f);
            assert(wanted[i as int] =~= f@);
        }
        out.push(f);
        assert(wanted.take(i + 1) =~= wanted.take(i as int).push(wanted[i as int]));
    }
    assert(wanted.take(pairs@.len() as int) =~= wanted);
    out
}

fn metrics_of(pairs: &Vec<(String, String)>) -> (r: TextMap<AggregationFunction>)
    ensures
        r@ == request_metrics(pairs@),
{
    let mut out: TextMap<AggregationFunction> = TextMap::new();
    for i in 0..pairs.len()
        invariant
            out@ == request_metrics(pairs@.take(i as int)),
    {
        assert(pairs@.take(i + 1).drop_last() =~= pairs@.take(i as int));
        let lower = to_lower(pairs[i].1.as_str());
        if same_text(lower.as_str(), "sum") {
            out.insert(pairs[i].0.clone(), AggregationFunction::Sum);
        } else if same_text(lower.as_str(), "count") {
            out.insert(pairs[i].0.clone(), AggregationFunction::Count);
        }
    }
    assert(pairs@.take(pairs@.len() as int) =~= pairs@);
    out
}

/// The plan of a request between two times.
pub fn request_plan(request: &UsageQueryRequest, from_ms: i64, to_ms: i64) -> (r: QueryPlan)
    ensures
        r@ == request_plan_of(*request, from_ms, to_ms),
{
    let filters: Vec<QueryFilter> = match &request.filters {
        Some(f) => filters_of(f),
        None => {
            let none: Vec<QueryFilter> = Vec::new();
            assert(plan::filter_views(none@) =~= Seq::empty());
            none
        },
    };
    let metrics: TextMap<AggregationFunction> = match &request.metrics {
        Some(m) => metrics_of(m),
        None => TextMap::new(),
    };
    QueryPlan {
        source: if same_text(request.source.as_str(), "usage_events") {
            QuerySource::RawEvents
        } else {
            QuerySource::RollupHourly
        },
        account_id: Some(request.account_id.clone()),
        from_ms,
        to_ms,
        filters,
        group_by: text::clone_texts(&request.group_by),
        metrics,
        limit: None,
    }
}

/// Reads a request with filters of any shape.
pub fn query_json_plan(request: &UsageQueryRequest) -> (r: Result<QueryPlan, AppError>)
    ensures
        plan_result(r) == (match range_of(
            calendar::rfc3339_time(request.from@),
            calendar::rfc3339_time(request.to@),
        ) {
            Ok((from, to)) => Ok(request_plan_of(*request, from, to)),
            Err(e) => Err(e),
        }),
{
    match parse_range(request.from.as_str(), request.to.as_str()) {
        Ok((from_ms, to_ms)) => Ok(request_plan(request, from_ms, to_ms)),
        Err(e) => Err(e),
    }
}

/// The plan of a query in SQL, where `outcome` is what its text is found to be.
pub open spec fn sql_plan_of(outcome: Result<PlanModel, Seq<char>>) -> Result<PlanModel, Seq<char>> {
    match outcome {
        Ok(p) => Ok(p),
        Err(e) => Err("SQL parse error: "@ + e),
    }
}

/// Says what was being read, where a query could not be.
pub fn name_sql(outcome: Result<QueryPlan, String>) -> (r: Result<QueryPlan, AppError>)
    ensures
        plan_result(r) == sql_plan_of(sql::outcome(outcome)),
{
    match outcome {
        Ok(p) => Ok(p),
        Err(e) => Err(AppError(join2("SQL parse error: ", e.as_str()))),
    }
}

/// Reads a request in SQL.
pub fn query_sql_plan(query: &str) -> (r: Result<QueryPlan, AppError>)
    ensures
        plan_result(r) == sql_plan_of(
            sql::text_plan(syntax::sql_tokens(query@), syntax::parsed_sql(query@)),
        ),
{
    name_sql(parse_sql(query))
}

/// The columns by which a total is explained.
pub open spec fn explained_by() -> Seq<Seq<char>> {
    seq!["product_id"@, "meter_id"@, "model_id"@, "source"@, "unit"@]
}

/// The plan that explains an account's total: one line for each product, meter,
/// model, source and unit.
pub open spec fn breakdown_plan_of(account: Seq<char>, from: i64, to: i64) -> PlanModel {
    PlanModel {
        source: QuerySource::RollupHourly,
        account_id: Some(account),
        from_ms: from,
        to_ms: to,
        filters: Seq::empty(),
        group_by: explained_by(),
        metrics: sum_and_count(),
        limit: None,
    }
}

/// The plan that gives an account's corrections and retractions.
pub open spec fn corrections_plan_of(account: Seq<char>, from: i64, to: i64) -> PlanModel {
    PlanModel {
        source: QuerySource::RawEvents,
        account_id: Some(account),
        from_ms: from,
        to_ms: to,
        filters: seq![FilterModel { field: "kind"@, values: seq!["Correction"@, "Retraction"@] }],
        group_by: Seq::empty(),
        metrics: Seq::empty(),
        limit: None,
    }
}

/// The plan that gives an account's total.
pub open spec fn total_plan_of(
    account: Seq<char>,
    from: i64,
    to: i64,
    source: QuerySource,
    metrics: Seq<(Seq<char>, AggregationFunction)>,
) -> PlanModel {
    PlanModel {
        source,
        account_id: Some(account),
        from_ms: from,
        to_ms: to,
        filters: Seq::empty(),
        group_by: Seq::empty(),
        metrics,
        limit: None,
    }
}

fn push_text(v: &mut Vec<String>, t: &str)
    ensures
        text::text_views(final(v)@) == text::text_views(old(v)@).push(t@),
{
    let copy = t.to_owned();
    proof {
        text::lemma_texts_push(v@, copy);
    }
    v.push(copy);
}

/// The plan that explains an account's total.
pub fn breakdown_plan(account_id: &str, from_ms: i64, to_ms: i64) -> (r: QueryPlan)
    ensures
        r@ == breakdown_plan_of(account_id@, from_ms, to_ms),
{
    let mut group_by: Vec<String> = Vec::new();
    assert(text::text_views(group_by@) =~= Seq::empty());
    push_text(&mut group_by, "product_id");
    push_text(&mut group_by, "meter_id");
    push_text(&mut group_by, "model_id");
    push_text(&mut group_by, "source");
    push_text(&mut group_by, "unit");
    assert(text::text_views(group_by@) =~= explained_by());
    let filters: Vec<QueryFilter> = Vec::new();
    assert(plan::filter_views(filters@) =~= Seq::empty());
    QueryPlan {
        source: QuerySource::RollupHourly,
        account_id: Some(account_id.to_owned()),
        from_ms,
        to_ms,
        filters,
        group_by,
        metrics: sum_and_count_metrics(),
        limit: None,
    }
}

/// The plan that gives an account's corrections and retractions.
pub fn corrections_plan(account_id: &str, from_ms: i64, to_ms: i64) -> (r: QueryPlan)
    ensures
        r@ == corrections_plan_of(account_id@, from_ms, to_ms),
{
    let mut values: Vec<String> = Vec::new();
    assert(text::text_views(values@) =~= Seq::empty());
    push_text(&mut values, "Correction");
    push_text(&mut values, "Retraction");
    assert(text::text_views(values@) =~= seq!["Correction"@, "Retraction"@]);
    let f = QueryFilter { field: "kind".to_owned(), values };
    let mut filters: Vec<QueryFilter> = Vec::new();
    proof {
        plan::lemma_filters_push(filters@, f);
        assert(plan::filter_views(filters@) =~= Seq::empty());
    }
    filters.push(f);
    assert(plan::filter_views(filters@) =~= seq![f@]);
    let group_by: Vec<String> = Vec::new();
    assert(text::text_views(group_by@) =~= Seq::empty());
    QueryPlan {
        source: QuerySource::RawEvents,
        account_id: Some(account_id.to_owned()),
        from_ms,
        to_ms,
        filters,
        group_by,
        metrics: TextMap::new(),
        limit: None,
    }
}

fn total_plan(
    account_id: &str,
    from_ms: i64,
    to_ms: i64,
    source: QuerySource,
    metrics: TextMap<AggregationFunction>,
) -> (r: QueryPlan)
    ensures
        r@ == total_plan_of(account_id@, from_ms, to_ms, source, metrics@),
{
    let filters: Vec<QueryFilter> = Vec::new();
    assert(plan::filter_views(filters@) =~= Seq::empty());
    let group_by: Vec<String> = Vec::new();
    assert(text::text_views(group_by@) =~= Seq::empty());
    QueryPlan {
        source,
        account_id: Some(account_id.to_owned()),
        from_ms,
        to_ms,
        filters,
        group_by,
        metrics,
        limit: None,
    }
}

/// The plan that gives an account's total, from `source`.
pub fn sum_plan(account_id: &str, from_ms: i64, to_ms: i64, source: QuerySource) -> (r: QueryPlan)
    ensures
        r@ == total_plan_of(account_id@, from_ms, to_ms, source, sum_only()),
{
    total_plan(account_id, from_ms, to_ms, source, sum_metric())
}

/// The plan that gives the total and the number of events of an account's month.
pub fn period_plan(account_id: &str, year: u16, month: u8) -> (r: QueryPlan)
    requires
        1 <= month <= 12,
    ensures
        r@ == total_plan_of(
            account_id@,
            calendar::month_start(year as int, month as int) as i64,
            calendar::month_start(year as int, month + 1) as i64,
            QuerySource::RollupHourly,
            sum_and_count(),
        ),
{
    let (from_ms, to_ms) = month_bounds(year, month);
    total_plan(account_id, from_ms, to_ms, QuerySource::RollupHourly, sum_and_count_metrics())
}

// ---------------------------------------------------------------------------
// Laws
// ---------------------------------------------------------------------------

proof fn lemma_with_filter(p: PlanModel, field: Seq<char>, value: Option<Seq<char>>, e: EventModel)
    requires
        e.wf(),
    ensures
        executor::event_matches(
            PlanModel { filters: with_filter(p.filters, field, value), ..p },
            e,
        ) <==> executor::event_matches(p, e) && (value matches Some(v) ==> meaning::has_under(
            e,
            field,
            v,
        )),
{
    if let Some(v) = value {
        let f = one_value(field, v);
        meaning::law_filters_narrow(p, f, e);
        meaning::lemma_one_value(e, field, v);
    } else {
        assert(PlanModel { filters: with_filter(p.filters, field, value), ..p } == p);
    }
}

/// A plan for all of an account between two times, without filters.
proof fn lemma_account_range(p: PlanModel, e: EventModel)
    requires
        p.filters.len() == 0,
    ensures
        executor::event_matches(p, e) <==> p.from_ms <= e.timestamp_ms < p.to_ms && (
        p.account_id matches Some(a) ==> e.account_id == a),
{
}

/// The metrics `quantity` and `count`, and nothing else.
pub open spec fn gives_sum_and_count(metrics: Seq<(Seq<char>, AggregationFunction)>) -> bool {
    &&& metrics.len() == 2
    &&& textmap::lookup(metrics, "quantity"@) == Some(AggregationFunction::Sum)
    &&& textmap::lookup(metrics, "count"@) == Some(AggregationFunction::Count)
}

proof fn lemma_metrics()
    ensures
        gives_sum_and_count(sum_and_count()),
        textmap::keys_ascend(sum_and_count()),
        sum_only() == seq![("quantity"@, AggregationFunction::Sum)],
{
    reveal_strlit("quantity");
    reveal_strlit("count");
    assert("quantity"@[0] == 'q');
    assert("count"@[0] == 'c');
    assert(text::text_lt("count"@, "quantity"@));
    reveal_with_fuel(textmap::inserted, 3);
    let none = Seq::<(Seq<char>, AggregationFunction)>::empty();
    assert(sum_only() =~= seq![("quantity"@, AggregationFunction::Sum)]);
    textmap::lemma_inserted(none, "quantity"@, AggregationFunction::Sum);
    textmap::lemma_inserted(sum_only(), "count"@, AggregationFunction::Count);
    assert(sum_and_count() =~= seq![
        ("count"@, AggregationFunction::Count),
        ("quantity"@, AggregationFunction::Sum),
    ]);
}

/// A request for an account's usage concerns exactly the events of the account, at
/// times from the first and before the second, that are of the product, the meter
/// and the model that it names, where it names them. It is answered with the sum and
/// the number of these events, by the columns that it lists.
pub proof fn law_usage_requests(
    account: Seq<char>,
    p: UsageQueryParams,
    from: i64,
    to: i64,
    e: EventModel,
)
    requires
        e.wf(),
    ensures
        executor::event_matches(usage_plan_of(account, p, from, to), e) <==> {
            &&& e.account_id == account
            &&& from <= e.timestamp_ms < to
            &&& p.product_id matches Some(product) ==> e.product_id == product@
            &&& p.meter_id matches Some(meter) ==> e.meter_id == meter@
            &&& p.model_id matches Some(model) ==> e.model_id == Some(model@)
        },
        gives_sum_and_count(usage_plan_of(account, p, from, to).metrics),
        usage_plan_of(account, p, from, to).limit is None,
        usage_plan_of(account, p, from, to).source == QuerySource::RawEvents <==> (
        p.source matches Some(s) && s@ == "raw"@),
        p.group_by is None ==> usage_plan_of(account, p, from, to).group_by.len() == 0,
        p.group_by matches Some(list) ==> usage_plan_of(account, p, from, to).group_by
            == lists::items(list@),
{
    lemma_metrics();
    let all = usage_plan_of(account, p, from, to);
    let none = Seq::<FilterModel>::empty();
    let bare = PlanModel { filters: none, ..all };
    let (a, b, c) = (
        text::option_view(p.product_id),
        text::option_view(p.meter_id),
        text::option_view(p.model_id),
    );
    let one = PlanModel { filters: with_filter(none, "product_id"@, a), ..all };
    let two = PlanModel { filters: with_filter(one.filters, "meter_id"@, b), ..all };
    lemma_account_range(bare, e);
    lemma_with_filter(bare, "product_id"@, a, e);
    lemma_with_filter(one, "meter_id"@, b, e);
    lemma_with_filter(two, "model_id"@, c, e);
    assert(all == (PlanModel { filters: with_filter(two.filters, "model_id"@, c), ..two }));
    if let Some(v) = a {
        meaning::lemma_fixed_fields(e, v);
    }
    if let Some(v) = b {
        meaning::lemma_fixed_fields(e, v);
    }
    if let Some(v) = c {
        meaning::lemma_fixed_fields(e, v);
    }
}

/// A request for an account's events is answered with exactly the account's events at
/// times from the first and before the second that are of the meter and the product
/// that it names, where it names them.
pub proof fn law_event_requests(
    account: Seq<char>,
    p: EventsQueryParams,
    from: i64,
    to: i64,
    e: EventModel,
)
    requires
        e.wf(),
    ensures
        executor::event_matches(events_plan_of(account, p, from, to), e) <==> {
            &&& e.account_id == account
            &&& from <= e.timestamp_ms < to
            &&& p.meter_id matches Some(meter) ==> e.meter_id == meter@
            &&& p.product_id matches Some(product) ==> e.product_id == product@
        },
        events_plan_of(account, p, from, to).group_by.len() == 0,
        events_plan_of(account, p, from, to).metrics.len() == 0,
        events_plan_of(account, p, from, to).limit is None,
        events_plan_of(account, p, from, to).source == QuerySource::RawEvents,
{
    let all = events_plan_of(account, p, from, to);
    let none = Seq::<FilterModel>::empty();
    let bare = PlanModel { filters: none, ..all };
    let (a, b) = (text::option_view(p.meter_id), text::option_view(p.product_id));
    let one = PlanModel { filters: with_filter(none, "meter_id"@, a), ..all };
    lemma_account_range(bare, e);
    lemma_with_filter(bare, "meter_id"@, a, e);
    lemma_with_filter(one, "product_id"@, b, e);
    assert(all == (PlanModel { filters: with_filter(one.filters, "product_id"@, b), ..one }));
    if let Some(v) = a {
        meaning::lemma_fixed_fields(e, v);
    }
    if let Some(v) = b {
        meaning::lemma_fixed_fields(e, v);
    }
}

/// A request with filters of any shape concerns exactly the events of the account, at
/// times from the first and before the second, that have under the name of each
/// filter one of its values.
pub proof fn law_requests_with_filters(q: UsageQueryRequest, from: i64, to: i64, e: EventModel)
    requires
        e.wf(),
    ensures
        executor::event_matches(request_plan_of(q, from, to), e) <==> {
            &&& e.account_id == q.account_id@
            &&& from <= e.timestamp_ms < to
            &&& q.filters matches Some(filters) ==> forall|i: int|
                0 <= i < filters@.len() ==> meaning::has_one_of(
                    e,
                    (#[trigger] filters@[i]).0@,
                    text::text_views(filters@[i].1@),
                )
        },
        request_plan_of(q, from, to).source == QuerySource::RawEvents <==> q.source@
            == "usage_events"@,
        request_plan_of(q, from, to).group_by == text::text_views(q.group_by@),
        request_plan_of(q, from, to).limit is None,
        q.metrics is None ==> request_plan_of(q, from, to).metrics.len() == 0,
{
    let p = request_plan_of(q, from, to);
    meaning::law_what_a_plan_lets_through(p, e);
    if let Some(filters) = q.filters {
        assert forall|i: int| 0 <= i < filters@.len() implies (#[trigger] p.filters[i]).field
            == filters@[i].0@ && p.filters[i].values == text::text_views(filters@[i].1@) by {}
        if executor::event_matches(p, e) {
            assert forall|i: int| 0 <= i < filters@.len() implies meaning::has_one_of(
                e,
                (#[trigger] filters@[i]).0@,
                text::text_views(filters@[i].1@),
            ) by {
                assert(p.filters[i].field == filters@[i].0@);
            }
        }
        if forall|i: int|
            0 <= i < filters@.len() ==> meaning::has_one_of(
                e,
                (#[trigger] filters@[i]).0@,
                text::text_views(filters@[i].1@),
            ) {
            assert forall|i: int| 0 <= i < p.filters.len() implies meaning::has_one_of(
                e,
                (#[trigger] p.filters[i]).field,
                p.filters[i].values,
            ) by {
                assert(filters@[i].0@ == p.filters[i].field);
            }
        }
    }
}

/// A metric of a request is the sum or the number of events under the name that it is
/// given, by the function that it names last under it, in letters of either case; what
/// names neither is passed over.
pub proof fn law_metrics_of_requests(pairs: Seq<(String, String)>, pair: (String, String))
    ensures
        textmap::keys_ascend(request_metrics(pairs)),
        ({
            let before = request_metrics(pairs);
            let after = request_metrics(pairs.push(pair));
            let function = text::lowercase(pair.1@);
            &&& function == "sum"@ ==> textmap::lookup(after, pair.0@) == Some(
                AggregationFunction::Sum,
            )
            &&& function == "count"@ ==> textmap::lookup(after, pair.0@) == Some(
                AggregationFunction::Count,
            )
            &&& function != "sum"@ && function != "count"@ ==> after == before
            &&& forall|name: Seq<char>|
                name != pair.0@ ==> #[trigger] textmap::lookup(after, name) == textmap::lookup(
                    before,
                    name,
                )
        }),
        request_metrics(Seq::empty()).len() == 0,
    decreases pairs.len(),
{
    if pairs.len() > 0 {
        law_metrics_of_requests(pairs.drop_last(), pairs.last());
        if let Some(f) = function_named(text::lowercase(pairs.last().1@)) {
            textmap::lemma_inserted(request_metrics(pairs.drop_last()), pairs.last().0@, f);
        }
    }
    reveal_strlit("sum");
    reveal_strlit("count");
    assert("sum"@.len() == 3);
    assert("count"@.len() == 5);
    assert(pairs.push(pair).drop_last() =~= pairs);
    if let Some(f) = function_named(text::lowercase(pair.1@)) {
        textmap::lemma_inserted(request_metrics(pairs), pair.0@, f);
    }
}

/// An account's corrections and retractions of a range are all its events there that
/// are either, and no usage.
pub proof fn law_correction_requests(account: Seq<char>, from: i64, to: i64, e: EventModel)
    requires
        e.wf(),
    ensures
        executor::event_matches(corrections_plan_of(account, from, to), e) <==> {
            &&& e.account_id == account
            &&& from <= e.timestamp_ms < to
            &&& e.kind == EventKind::Correction || e.kind == EventKind::Retraction
        },
        corrections_plan_of(account, from, to).group_by.len() == 0,
        corrections_plan_of(account, from, to).metrics.len() == 0,
        corrections_plan_of(account, from, to).limit is None,
        corrections_plan_of(account, from, to).source == QuerySource::RawEvents,
{
    let all = corrections_plan_of(account, from, to);
    let kinds = seq!["Correction"@, "Retraction"@];
    let f = FilterModel { field: "kind"@, values: kinds };
    let bare = PlanModel { filters: Seq::empty(), ..all };
    lemma_account_range(bare, e);
    meaning::law_filters_narrow(bare, f, e);
    assert(meaning::narrowed(bare, f) =~= all);
    meaning::lemma_fixed_fields(e, "Correction"@);
    meaning::lemma_fixed_fields(e, "Retraction"@);
    assert(kinds[0] == "Correction"@ && kinds[1] == "Retraction"@);
    assert(kinds.contains("Correction"@) && kinds.contains("Retraction"@));
    if meaning::has_one_of(e, "kind"@, kinds) {
        let v = choose|v: Seq<char>| kinds.contains(v) && #[trigger] meaning::has_under(
            e,
            "kind"@,
            v,
        );
        let i = choose|i: int| 0 <= i < kinds.len() && kinds[i] == v;
        assert(i == 0 || i == 1);
    }
}

/// An account's total and its breakdown concern exactly the account's events of the
/// range. The breakdown is by product, meter, model, source and unit.
pub proof fn law_total_requests(
    account: Seq<char>,
    from: i64,
    to: i64,
    source: QuerySource,
    metrics: Seq<(Seq<char>, AggregationFunction)>,
    e: EventModel,
)
    ensures
        executor::event_matches(total_plan_of(account, from, to, source, metrics), e)
            <==> e.account_id == account && from <= e.timestamp_ms < to,
        executor::event_matches(breakdown_plan_of(account, from, to), e) <==> e.account_id
            == account && from <= e.timestamp_ms < to,
        total_plan_of(account, from, to, source, metrics).source == source,
        total_plan_of(account, from, to, source, metrics).metrics == metrics,
        total_plan_of(account, from, to, source, metrics).group_by.len() == 0,
        total_plan_of(account, from, to, source, metrics).limit is None,
        breakdown_plan_of(account, from, to).group_by == seq![
            "product_id"@,
            "meter_id"@,
            "model_id"@,
            "source"@,
            "unit"@,
        ],
        breakdown_plan_of(account, from, to).limit is None,
        gives_sum_and_count(breakdown_plan_of(account, from, to).metrics),
        gives_sum_and_count(sum_and_count()),
        sum_only() == seq![("quantity"@, AggregationFunction::Sum)],
{
    lemma_metrics();
    lemma_account_range(total_plan_of(account, from, to, source, metrics), e);
    lemma_account_range(breakdown_plan_of(account, from, to), e);
}

/// A request has a range exactly where both its times can be read, and then it is the one
/// from the first to the second. An error names the first parameter that cannot be read.
pub proof fn law_ranges_of_requests(from: Result<i64, Seq<char>>, to: Result<i64, Seq<char>>)
    ensures
        range_of(from, to) is Ok <==> from is Ok && to is Ok,
        range_of(from, to) matches Ok(r) ==> from == Ok::<_, Seq<char>>(r.0) && to == Ok::<
            _,
            Seq<char>,
        >(r.1),
        from matches Err(e) ==> range_of(from, to) == Err::<(i64, i64), _>(
            "invalid `"@ + "from"@ + "`: "@ + e,
        ),
        from is Ok ==> (to matches Err(e) ==> range_of(from, to) == Err::<(i64, i64), _>(
            "invalid `"@ + "to"@ + "`: "@ + e,
        )),
{
}

/// A request in SQL has the plan that its text is found to be; an error says what was
/// being read.
pub proof fn law_requests_in_sql(p: PlanModel, e: Seq<char>)
    ensures
        sql_plan_of(Ok(p)) == Ok::<_, Seq<char>>(p),
        sql_plan_of(Err(e)) == Err::<PlanModel, _>("SQL parse error: "@ + e),
{
}

} // verus!
