//! Events and queries as they come in.

use chrono::{NaiveDate, TimeZone, Utc};

use usagedb::admin::{parse_argument_range, rebuild_report};
use usagedb::api::http::{AppError, UsageQueryRequest};
use usagedb::api::http_server::{validate_event, ValidationError, MAX_DIMENSIONS};
use usagedb::api::queries::{
    account_events_plan, account_usage_plan, name_sql, name_time, period_plan, query_json_plan,
    query_sql_plan, EventsQueryParams, UsageQueryParams,
};
use usagedb::api::reports::{compare_totals, extract_event_count, extract_quantity_sum};
use usagedb::calendar::{format_ms, month_bounds};
use usagedb::ingest::writer::UsageError;
use usagedb::lists::{split_list, trim_text};
use usagedb::model::dimensions::SmallDimensions;
use usagedb::model::event::{CorrectionRef, EventKind, UsageEvent};
use usagedb::model::ids::{
    AccountId, EventId, MeterId, ModelId, ProductId, SourceId, SubscriptionId, Unit,
};
use usagedb::period::{is_period_closed, parse_period, period_for_ts, refused_by_close};
use usagedb::query::plan::{AggregationFunction, QuerySource};
use usagedb::query::sql::{parse_sql, plan_statements};
use usagedb::query::syntax::{has_limit_all_by, SqlStatement, SqlToken};
use usagedb::storage::manifest::{ClosedPeriod, Manifest};

fn good_event() -> UsageEvent {
    UsageEvent {
        event_id: EventId("evt".into()),
        kind: EventKind::Usage,
        correction_ref: None,
        account_id: AccountId("acc".into()),
        subscription_id: Some(SubscriptionId("sub".into())),
        product_id: ProductId("prod".into()),
        meter_id: MeterId("meter".into()),
        timestamp_ms: 1,
        quantity: 1,
        unit: Unit("u".into()),
        source: SourceId("src".into()),
        model_id: Some(ModelId("mod".into())),
        dimensions: SmallDimensions::default(),
        ingested_at_ms: 0,
    }
}

fn ts_at(year: i32, month: u32, day: u32) -> i64 {
    let dt = NaiveDate::from_ymd_opt(year, month, day).unwrap().and_hms_opt(12, 0, 0).unwrap();
    Utc.from_utc_datetime(&dt).timestamp_millis()
}

// ---------------------------------------------------------------------------
// Events
// ---------------------------------------------------------------------------

#[test]
fn validates_required_ids() {
    let mut e = good_event();
    e.event_id = EventId(String::new());
    assert_eq!(validate_event(&e), Err(ValidationError::MissingEventId));

    let mut e = good_event();
    e.account_id = AccountId(String::new());
    assert_eq!(validate_event(&e), Err(ValidationError::MissingAccountId));

    let mut e = good_event();
    e.product_id = ProductId(String::new());
    assert_eq!(validate_event(&e), Err(ValidationError::MissingProductId));

    let mut e = good_event();
    e.meter_id = MeterId(String::new());
    assert_eq!(validate_event(&e), Err(ValidationError::MissingMeterId));
}

#[test]
fn rejects_non_positive_timestamp() {
    let mut e = good_event();
    e.timestamp_ms = 0;
    assert_eq!(validate_event(&e), Err(ValidationError::NonPositiveTimestamp));
    e.timestamp_ms = -1;
    assert_eq!(validate_event(&e), Err(ValidationError::NonPositiveTimestamp));
}

#[test]
fn rejects_dimension_overflow() {
    let mut e = good_event();
    for i in 0..(MAX_DIMENSIONS + 1) {
        e.dimensions.inner.insert(format!("k{i}"), "v".into());
    }
    assert_eq!(validate_event(&e), Err(ValidationError::TooManyDimensions));
}

#[test]
fn requires_correction_ref_on_correction() {
    let mut e = good_event();
    e.kind = EventKind::Correction;
    assert_eq!(validate_event(&e), Err(ValidationError::CorrectionMissingRef));

    e.kind = EventKind::Retraction;
    assert_eq!(validate_event(&e), Err(ValidationError::CorrectionMissingRef));
}

#[test]
fn passes_for_good_event() {
    assert_eq!(validate_event(&good_event()), Ok(()));
}

#[test]
fn accepts_what_is_just_allowed() {
    let mut e = good_event();
    for i in 0..MAX_DIMENSIONS {
        e.dimensions.inner.insert(format!("k{i}"), "v".into());
    }
    e.kind = EventKind::Retraction;
    e.correction_ref =
        Some(CorrectionRef { original_event_id: EventId("o".into()), reason: "r".into() });
    assert_eq!(validate_event(&e), Ok(()));
}

#[test]
fn errors_have_words() {
    let e = UsageError::StorageError("disk".into());
    assert_eq!(e.message(), "Internal storage error: disk");
    let e = UsageError::ValidationError("id".into());
    assert_eq!(e.message(), "Validation error: id");
}

// ---------------------------------------------------------------------------
// SQL
// ---------------------------------------------------------------------------

fn must_fail(sql: &str, expected_substr: &str) {
    let result = parse_sql(sql);
    assert!(result.is_err(), "expected parse failure for `{}`, but got {:?}", sql, result.ok());
    let err = result.unwrap_err();
    assert!(
        err.to_lowercase().contains(&expected_substr.to_lowercase()),
        "error `{}` should mention `{}`",
        err,
        expected_substr
    );
}

#[test]
fn rejects_or_in_where() {
    must_fail(
        "SELECT SUM(quantity) FROM usage_events WHERE account_id = 'a' OR account_id = 'b'",
        "OR",
    );
}

#[test]
fn rejects_sum_on_non_quantity() {
    must_fail(
        "SELECT SUM(timestamp_ms) FROM usage_events",
        "SUM only supports the `quantity` column",
    );
}

#[test]
fn rejects_count_with_column() {
    must_fail("SELECT COUNT(account_id) FROM usage_events", "COUNT only supports COUNT(*)");
}

#[test]
fn rejects_select_star() {
    must_fail("SELECT * FROM usage_events", "SELECT *");
}

#[test]
fn rejects_unknown_table() {
    must_fail("SELECT SUM(quantity) FROM not_a_table", "unknown table");
}

#[test]
fn rejects_alias() {
    must_fail("SELECT SUM(quantity) AS total FROM usage_events", "aliases");
}

#[test]
fn distinguishes_lt_from_lte() {
    let plan_lt =
        parse_sql("SELECT SUM(quantity) FROM usage_events WHERE timestamp_ms < 100").unwrap();
    let plan_lte =
        parse_sql("SELECT SUM(quantity) FROM usage_events WHERE timestamp_ms <= 100").unwrap();
    assert_eq!(plan_lt.to_ms, 100);
    assert_eq!(plan_lte.to_ms, 101);
}

#[test]
fn distinguishes_gt_from_gte() {
    let plan_gt =
        parse_sql("SELECT SUM(quantity) FROM usage_events WHERE timestamp_ms > 100").unwrap();
    let plan_gte =
        parse_sql("SELECT SUM(quantity) FROM usage_events WHERE timestamp_ms >= 100").unwrap();
    assert_eq!(plan_gt.from_ms, 101);
    assert_eq!(plan_gte.from_ms, 100);
}

#[test]
fn accepts_canonical_form() {
    let plan = parse_sql(
        "SELECT meter_id, SUM(quantity) FROM usage_events \
         WHERE account_id = 'acc_x' \
           AND timestamp_ms >= 1000 \
           AND timestamp_ms < 2000 \
           AND meter_id IN ('tokens.input', 'tokens.output') \
         GROUP BY meter_id",
    )
    .unwrap();
    assert_eq!(plan.account_id.as_deref(), Some("acc_x"));
    assert_eq!(plan.from_ms, 1000);
    assert_eq!(plan.to_ms, 2000);
    assert_eq!(plan.group_by, vec!["meter_id"]);
    assert!(plan.metrics.contains_key("quantity"));
    assert_eq!(plan.filters.len(), 1);
    assert_eq!(plan.filters[0].field, "meter_id");
    assert_eq!(plan.filters[0].values, vec!["tokens.input", "tokens.output"]);
}

#[test]
fn functions_are_known_in_any_case() {
    let plan = parse_sql("select sum(quantity), Count(*) from usage_events").unwrap();
    assert_eq!(plan.metrics.len(), 2);
    assert_eq!(plan.metrics.get("quantity"), Some(&AggregationFunction::Sum));
    assert_eq!(plan.limit, None);
    assert!(matches!(plan.source, QuerySource::RawEvents));
}

#[test]
fn other_statements_are_refused() {
    must_fail("DELETE FROM usage_events", "SELECT");
    must_fail("SELECT SUM(quantity) FROM usage_events; SELECT 1", "one");
    must_fail("SELECT SUM(quantity) FROM usage_events ORDER BY quantity", "ORDER BY");
    must_fail("SELECT SUM(quantity) FROM usage_events GROUP BY meter_id HAVING 1 = 1", "HAVING");
    must_fail("SELECT DISTINCT meter_id FROM usage_events", "DISTINCT");
    must_fail("SELECT SUM(quantity) FROM usage_events JOIN usage_events ON 1 = 1", "JOIN");
    must_fail("this is not sql", "");
    assert!(plan_statements(&vec![]).is_err());
    assert!(plan_statements(&vec![SqlStatement::Other]).is_err());
}

#[test]
fn limit_takes_an_integer() {
    let plan = parse_sql("SELECT SUM(quantity) FROM usage_events LIMIT 5").unwrap();
    assert_eq!(plan.limit, Some(5));
    let plan = parse_sql("SELECT meter_id, COUNT(*) FROM usage_events LIMIT 0").unwrap();
    assert_eq!((plan.limit, plan.group_by), (Some(0), vec!["meter_id".to_string()]));
    let plan = parse_sql("SELECT SUM(quantity) FROM usage_events LIMIT ALL").unwrap();
    assert_eq!(plan.limit, None);
    for clause in ["1.5", "'5'", "a", "-1", "5 OFFSET 2", "2, 5", "5 BY meter_id", "1 + 1"] {
        must_fail(
            &format!("SELECT SUM(quantity) FROM usage_events LIMIT {}", clause),
            "only LIMIT with an integer literal is supported",
        );
    }
    must_fail("SELECT SUM(quantity) FROM usage_events OFFSET 2", "only LIMIT");
    must_fail("SELECT SUM(quantity) FROM usage_events LIMIT 99999999999999999999999", "only LIMIT");
}

#[test]
fn limit_all_by_is_refused_everywhere() {
    let message = "LIMIT ALL BY is not supported";
    must_fail("SELECT SUM(quantity) FROM usage_events LIMIT ALL BY account_id", message);
    must_fail("SELECT SUM(quantity) FROM usage_events limit /* x */ All\nBy account_id", message);
    must_fail(
        "SELECT SUM(quantity) FROM usage_events WHERE account_id IN (SELECT a FROM t LIMIT ALL BY a)",
        message,
    );
    must_fail(
        "SELECT SUM(quantity) FROM usage_events WHERE account_id IN (SELECT a FROM t LIMIT 5 BY a)",
        "unsupported WHERE expression: account_id IN (SELECT a FROM t LIMIT 5 BY a)",
    );
    // Quoted words and texts are no keywords.
    let plan = parse_sql("SELECT SUM(quantity) FROM usage_events WHERE unit = 'LIMIT ALL BY a'");
    assert_eq!(plan.unwrap().filters[0].values, vec!["LIMIT ALL BY a"]);
    let words = vec![SqlToken::Limit, SqlToken::Space, SqlToken::All, SqlToken::By];
    assert!(has_limit_all_by(&words));
    assert!(!has_limit_all_by(&words[..3].to_vec()));
    assert!(!has_limit_all_by(&vec![SqlToken::Limit, SqlToken::Other, SqlToken::All, SqlToken::By]));
}

#[test]
fn conditions_on_accounts_add_up() {
    let plan = parse_sql(
        "SELECT SUM(quantity) FROM usage_events WHERE account_id = 'a' AND account_id = 'b'",
    )
    .unwrap();
    assert_eq!(plan.account_id.as_deref(), Some("a"));
    assert_eq!(plan.filters.len(), 1);
    assert_eq!(plan.filters[0].field, "account_id");
    assert_eq!(plan.filters[0].values, vec!["b"]);
}

#[test]
fn clauses_of_other_dialects_are_refused() {
    must_fail("SELECT SUM(quantity) FROM usage_events PREWHERE a = 1", "PREWHERE");
    must_fail("SELECT TOP 5 SUM(quantity) FROM usage_events", "");
    must_fail("FROM usage_events SELECT SUM(quantity)", "begin with SELECT");
    must_fail("FROM usage_events", "begin with SELECT");
    must_fail("SELECT SUM(quantity) INTO t FROM usage_events", "INTO");
    must_fail("SELECT SUM(quantity) FROM usage_events FETCH FIRST 5 ROWS ONLY", "FETCH");
    must_fail("SELECT SUM(quantity) FROM usage_events FOR UPDATE", "FOR");
    must_fail("SELECT SUM(quantity) FROM usage_events SETTINGS a = 1", "SETTINGS");
    must_fail("SELECT SUM(quantity) FROM usage_events FORMAT JSON", "FORMAT");
    must_fail("SELECT SUM(quantity) FROM usage_events TABLESAMPLE BERNOULLI (10)", "samples");
    must_fail("SELECT SUM(quantity) FROM usage_events WITH (NOLOCK)", "hints");
    must_fail("SELECT SUM(quantity) OVER () FROM usage_events", "around the arguments");
    must_fail("SELECT SUM(quantity) FILTER (WHERE a = 1) FROM usage_events", "around the arguments");
}

#[test]
fn sql_errors_are_named() {
    let err = query_sql_plan("SELECT * FROM usage_events").unwrap_err();
    assert_eq!(err.0, format!("SQL parse error: {}", parse_sql("SELECT * FROM usage_events").unwrap_err()));
    assert_eq!(name_sql(Err("x".into())).unwrap_err().0, "SQL parse error: x");
}

// ---------------------------------------------------------------------------
// Requests
// ---------------------------------------------------------------------------

#[test]
fn usage_parameters_make_a_plan() {
    let params = UsageQueryParams {
        from: "1970-01-01T00:00:01Z".into(),
        to: "1970-01-01T02:00:00+01:00".into(),
        group_by: Some(" meter_id , ,model_id".into()),
        product_id: Some("p".into()),
        meter_id: None,
        model_id: Some("m".into()),
        source: Some("raw".into()),
    };
    let plan = account_usage_plan("acc", &params).unwrap();
    assert!(matches!(plan.source, QuerySource::RawEvents));
    assert_eq!((plan.from_ms, plan.to_ms), (1000, 3_600_000));
    assert_eq!(plan.group_by, vec!["meter_id", "model_id"]);
    let fields: Vec<&str> = plan.filters.iter().map(|f| f.field.as_str()).collect();
    assert_eq!(fields, vec!["product_id", "model_id"]);
    assert_eq!(plan.metrics.get("quantity"), Some(&AggregationFunction::Sum));
    let rollups = UsageQueryParams { source: None, group_by: None, ..params };
    let plan = account_usage_plan("acc", &rollups).unwrap();
    assert!(matches!(plan.source, QuerySource::RollupHourly));
    assert!(plan.group_by.is_empty());
    let bad = UsageQueryParams { to: "soon".into(), ..rollups };
    assert!(account_usage_plan("acc", &bad).unwrap_err().0.starts_with("invalid `to`: "));
}

#[test]
fn event_parameters_make_a_plan() {
    let params = EventsQueryParams {
        from: "1970-01-01T00:00:00Z".into(),
        to: "1970-01-01T00:00:10.5Z".into(),
        meter_id: Some("m".into()),
        product_id: Some("p".into()),
    };
    let plan = account_events_plan("acc", &params).unwrap();
    assert_eq!(plan.to_ms, 10_500);
    assert!(plan.metrics.is_empty());
    let fields: Vec<&str> = plan.filters.iter().map(|f| f.field.as_str()).collect();
    assert_eq!(fields, vec!["meter_id", "product_id"]);
}

#[test]
fn json_requests_make_a_plan() {
    let request = UsageQueryRequest {
        source: "usage_events".into(),
        account_id: "acc".into(),
        from: "1970-01-01T00:00:00Z".into(),
        to: "1970-01-01T01:00:00Z".into(),
        filters: Some(vec![("meter_id".into(), vec!["a".into(), "b".into()])]),
        group_by: vec!["source".into()],
        metrics: Some(vec![
            ("quantity".into(), "SUM".into()),
            ("events".into(), "Count".into()),
            ("other".into(), "median".into()),
        ]),
    };
    let plan = query_json_plan(&request).unwrap();
    assert!(matches!(plan.source, QuerySource::RawEvents));
    assert_eq!(plan.filters[0].values, vec!["a", "b"]);
    assert_eq!(plan.metrics.len(), 2);
    assert_eq!(plan.metrics.get("events"), Some(&AggregationFunction::Count));
    assert_eq!(plan.metrics.get("quantity"), Some(&AggregationFunction::Sum));
}

#[test]
fn times_are_named_in_errors() {
    assert_eq!(name_time("from", Ok(5)), Ok(5));
    let expected = AppError("invalid `from`: bad".to_string());
    assert_eq!(name_time("from", Err("bad".into())), Err(expected));
    let range = parse_argument_range("1970-01-01T00:00:00Z", "x").unwrap_err();
    assert!(range.starts_with("invalid `to` (not RFC 3339): "), "{}", range);
    assert!(rebuild_report(2, "a", "b").contains("Dropped 2 rollup segment"));
}

#[test]
fn lists_are_split_and_trimmed() {
    assert_eq!(split_list("a, b ,,c"), vec!["a", "b", "c"]);
    assert!(split_list(" , ").is_empty());
    assert_eq!(trim_text("\t x y \n"), "x y");
}

#[test]
fn totals_are_compared() {
    let r = compare_totals(150, 100, 10, 5);
    assert_eq!((r.drift, r.matches, r.period_sealed), (50, false, false));
    let r = compare_totals(i128::MIN, i128::MAX, 5, 5);
    assert_eq!((r.drift, r.matches, r.period_sealed), (i128::MIN, false, true));
    assert_eq!(extract_quantity_sum(&vec![]), 0);
    assert_eq!(extract_event_count(&vec![]), 0);
}

// ---------------------------------------------------------------------------
// Months
// ---------------------------------------------------------------------------

#[test]
fn period_for_ts_returns_utc_year_month() {
    let ts = ts_at(2026, 5, 16);
    assert_eq!(period_for_ts(ts), Some((2026, 5)));
    assert_eq!(period_for_ts(ts_at(2026, 1, 1)), Some((2026, 1)));
    let _ = period_for_ts(-1);
    assert_eq!(period_for_ts(-1), Some((1969, 12)));
    assert_eq!(period_for_ts(i64::MAX), None);
}

#[test]
fn parse_period_round_trips() {
    assert_eq!(parse_period("2026-05"), Ok((2026, 5)));
    assert_eq!(parse_period("2030-12"), Ok((2030, 12)));
    assert!(parse_period("2026").is_err());
    assert!(parse_period("2026-13").is_err());
    assert!(parse_period("2026-0").is_err());
    assert!(parse_period("abc-de").is_err());
}

fn closed(account: &str, year: u16, month: u8) -> ClosedPeriod {
    ClosedPeriod {
        account_id: account.into(),
        year,
        month,
        closed_at_ms: 1000,
        frozen_quantity: None,
        frozen_event_count: None,
        watermark_at_close_ms: None,
    }
}

#[test]
fn is_period_closed_finds_match() {
    let mut manifest = Manifest::default();
    assert!(!is_period_closed(&manifest, "acc", 2026, 5));
    manifest.closed_periods.push(closed("acc", 2026, 5));
    assert!(is_period_closed(&manifest, "acc", 2026, 5));
    assert!(!is_period_closed(&manifest, "acc", 2026, 6));
    assert!(!is_period_closed(&manifest, "different", 2026, 5));
}

#[test]
fn only_usage_is_refused_in_a_closed_month() {
    let mut manifest = Manifest::default();
    manifest.closed_periods.push(closed("acc", 2026, 5));
    let mut e = UsageEvent { timestamp_ms: ts_at(2026, 5, 31), ..good_event() };
    assert!(refused_by_close(&manifest, &e));
    e.kind = EventKind::Correction;
    assert!(!refused_by_close(&manifest, &e));
}

#[test]
fn months_have_their_bounds() {
    let noon = 12 * 3_600_000;
    assert_eq!(month_bounds(2026, 5), (ts_at(2026, 5, 1) - noon, ts_at(2026, 6, 1) - noon));
    assert_eq!(month_bounds(2024, 2), (ts_at(2024, 2, 1) - noon, ts_at(2024, 3, 1) - noon));
    assert_eq!(month_bounds(2026, 12), (ts_at(2026, 12, 1) - noon, ts_at(2027, 1, 1) - noon));
    let plan = period_plan("acc", 2026, 5);
    assert_eq!((plan.from_ms, plan.to_ms), month_bounds(2026, 5));
    assert_eq!(format_ms(0), "1970-01-01T00:00:00Z");
    assert_eq!(format_ms(1_500), "1970-01-01T00:00:01Z");
    assert_eq!(format_ms(i64::MAX), "<invalid>");
}
