//! What a plan lets through and what its answer says, in terms of the events.

use vstd::prelude::*;

use crate::model::dimensions;
use crate::model::event::{EventKind, EventModel};
use crate::query::executor;
use crate::query::executor::{AnswerModel, CellModel, Field, GroupModel, RowModel};
use crate::query::plan::{AggregationFunction, FilterModel, PlanModel, QuerySource};
use crate::query::reconcile;
use crate::rollup::hourly::RecordModel;
use crate::rollup::totals;
use crate::text;
use crate::textmap;

verus! {

// ---------------------------------------------------------------------------
// Fields
// ---------------------------------------------------------------------------

/// No two of the fixed names are the same.
proof fn lemma_names()
    ensures
        executor::field_named("account_id"@) == Field::Account,
        executor::field_named("subscription_id"@) == Field::Subscription,
        executor::field_named("product_id"@) == Field::Product,
        executor::field_named("meter_id"@) == Field::Meter,
        executor::field_named("model_id"@) == Field::Model,
        executor::field_named("source"@) == Field::Source,
        executor::field_named("unit"@) == Field::Unit,
        executor::field_named("kind"@) == Field::Kind,
        executor::field_named("day"@) == Field::Dimension,
        executor::field_named("hour_start_ms"@) == Field::Dimension,
        "day"@ != "hour_start_ms"@,
{
    reveal_strlit("account_id");
    reveal_strlit("subscription_id");
    reveal_strlit("product_id");
    reveal_strlit("meter_id");
    reveal_strlit("model_id");
    reveal_strlit("source");
    reveal_strlit("unit");
    reveal_strlit("kind");
    reveal_strlit("day");
    reveal_strlit("hour_start_ms");
    assert("account_id"@[0] == 'a');
    assert("product_id"@[0] == 'p');
    assert("meter_id"@[1] == 'e');
    assert("model_id"@[1] == 'o');
    assert("unit"@[0] == 'u');
    assert("kind"@[0] == 'k');
    assert("account_id"@.len() == 10);
    assert("subscription_id"@.len() == 15);
    assert("product_id"@.len() == 10);
    assert("meter_id"@.len() == 8);
    assert("model_id"@.len() == 8);
    assert("source"@.len() == 6);
    assert("unit"@.len() == 4);
    assert("kind"@.len() == 4);
    assert("day"@.len() == 3);
    assert("hour_start_ms"@.len() == 13);
}

/// Names of events' fixed fields; every other name is that of a dimension.
pub open spec fn is_fixed_field(name: Seq<char>) -> bool {
    ||| name == "account_id"@
    ||| name == "subscription_id"@
    ||| name == "product_id"@
    ||| name == "meter_id"@
    ||| name == "model_id"@
    ||| name == "source"@
    ||| name == "unit"@
    ||| name == "kind"@
}

/// What an event has under a name.
pub open spec fn has_under(e: EventModel, name: Seq<char>, value: Seq<char>) -> bool {
    ||| name == "account_id"@ && e.account_id == value
    ||| name == "subscription_id"@ && e.subscription_id == Some(value)
    ||| name == "product_id"@ && e.product_id == value
    ||| name == "meter_id"@ && e.meter_id == value
    ||| name == "model_id"@ && e.model_id == Some(value)
    ||| name == "source"@ && e.source == value
    ||| name == "unit"@ && e.unit == value
    ||| name == "kind"@ && e.kind == EventKind::Usage && value == "Usage"@
    ||| name == "kind"@ && e.kind == EventKind::Correction && value == "Correction"@
    ||| name == "kind"@ && e.kind == EventKind::Retraction && value == "Retraction"@
    ||| !is_fixed_field(name) && e.dimensions.contains((name, value))
}

/// The fields of an event are found under their names, and its dimensions under
/// theirs.
pub proof fn law_fields_of_events(e: EventModel, name: Seq<char>, value: Seq<char>)
    requires
        e.wf(),
    ensures
        executor::event_value(e, name) == Some(value) <==> has_under(e, name, value),
{
    lemma_names();
    if !is_fixed_field(name) {
        lemma_found(e.dimensions, name, value);
    }
}

proof fn lemma_found(dims: Seq<(Seq<char>, Seq<char>)>, name: Seq<char>, value: Seq<char>)
    requires
        textmap::keys_ascend(dims),
    ensures
        dimensions::dimension(dims, name) == Some(value) <==> dims.contains((name, value)),
{
    if dims.contains((name, value)) {
        let i = choose|i: int| 0 <= i < dims.len() && dims[i] == (name, value);
        textmap::lemma_lookup_at(dims, i);
    }
    if textmap::has_key(dims, name) {
        let i = choose|i: int| 0 <= i < dims.len() && #[trigger] dims[i].0 == name;
        textmap::lemma_lookup_at(dims, i);
        assert(dims.contains(dims[i]));
    }
}

/// The fields of a rollup row are found under their names, and its dimensions
/// under theirs. It has no kind.
pub proof fn law_fields_of_rollup_rows(
    r: RecordModel,
    name: Seq<char>,
    dims: Seq<(Seq<char>, Seq<char>)>,
)
    requires
        dimensions::dimensions_of_text(r.key.dimensions_canonical) == Some(dims),
    ensures
        executor::record_value(r, "account_id"@) == Some(r.key.account_id),
        executor::record_value(r, "subscription_id"@) == r.key.subscription_id,
        executor::record_value(r, "product_id"@) == Some(r.key.product_id),
        executor::record_value(r, "meter_id"@) == Some(r.key.meter_id),
        executor::record_value(r, "model_id"@) == r.key.model_id,
        executor::record_value(r, "source"@) == Some(r.key.source),
        executor::record_value(r, "unit"@) == Some(r.key.unit),
        executor::record_value(r, "kind"@) is None,
        !is_fixed_field(name) ==> match executor::record_value(r, name) {
            Some(v) => dims.contains((name, v)),
            None => forall|v: Seq<char>| !dims.contains((name, v)),
        },
{
    lemma_names();
    lemma_first_value(dims, name);
}

proof fn lemma_first_value(dims: Seq<(Seq<char>, Seq<char>)>, name: Seq<char>)
    ensures
        match dimensions::first_value(dims, name) {
            Some(v) => dims.contains((name, v)),
            None => forall|v: Seq<char>| !dims.contains((name, v)),
        },
    decreases dims.len(),
{
    if dims.len() > 0 {
        let rest = dims.drop_first();
        lemma_first_value(rest, name);
        if dims[0].0 == name {
            assert(dims[0] == (name, dims[0].1));
        } else {
            match dimensions::first_value(rest, name) {
                Some(v) => {
                    let i = choose|i: int| 0 <= i < rest.len() && rest[i] == (name, v);
                    assert(dims[i + 1] == (name, v));
                },
                None => {
                    assert forall|v: Seq<char>| !dims.contains((name, v)) by {
                        if dims.contains((name, v)) {
                            let i = choose|i: int| 0 <= i < dims.len() && dims[i] == (name, v);
                            assert(rest[i - 1] == (name, v));
                            assert(rest.contains((name, v)));
                        }
                    }
                },
            }
        }
    }
}

// ---------------------------------------------------------------------------
// Filters
// ---------------------------------------------------------------------------

/// An event has one of the values under a name.
pub open spec fn has_one_of(e: EventModel, name: Seq<char>, values: Seq<Seq<char>>) -> bool {
    exists|v: Seq<char>| values.contains(v) && #[trigger] has_under(e, name, v)
}

/// A plan lets an event through exactly where its time lies in the half-open
/// range, it is of the account that the plan names, and under the name of each
/// filter it has one of the filter's values.
pub proof fn law_what_a_plan_lets_through(p: PlanModel, e: EventModel)
    requires
        e.wf(),
    ensures
        executor::event_matches(p, e) <==> {
            &&& p.from_ms <= e.timestamp_ms < p.to_ms
            &&& p.account_id is None || p.account_id == Some(e.account_id)
            &&& forall|i: int|
                0 <= i < p.filters.len() ==> has_one_of(
                    e,
                    (#[trigger] p.filters[i]).field,
                    p.filters[i].values,
                )
        },
{
    assert forall|i: int| 0 <= i < p.filters.len() implies (executor::filter_accepts(
        #[trigger] p.filters[i],
        executor::event_value(e, p.filters[i].field),
    ) <==> has_one_of(e, p.filters[i].field, p.filters[i].values)) by {
        lemma_accepts(p.filters[i], e);
    }
}

proof fn lemma_accepts(f: FilterModel, e: EventModel)
    requires
        e.wf(),
    ensures
        executor::filter_accepts(f, executor::event_value(e, f.field)) <==> has_one_of(
            e,
            f.field,
            f.values,
        ),
{
    match executor::event_value(e, f.field) {
        Some(v) => {
            law_fields_of_events(e, f.field, v);
        },
        None => {},
    }
    if has_one_of(e, f.field, f.values) {
        let v = choose|v: Seq<char>| f.values.contains(v) && #[trigger] has_under(e, f.field, v);
        law_fields_of_events(e, f.field, v);
    }
}

/// A plan with one more filter.
pub open spec fn narrowed(p: PlanModel, f: FilterModel) -> PlanModel {
    PlanModel { filters: p.filters.push(f), ..p }
}

/// One more filter lets through what was let through before and has one of its
/// values.
pub proof fn law_filters_narrow(p: PlanModel, f: FilterModel, e: EventModel)
    requires
        e.wf(),
    ensures
        executor::event_matches(narrowed(p, f), e) <==> executor::event_matches(p, e)
            && has_one_of(e, f.field, f.values),
{
    let q = narrowed(p, f);
    lemma_accepts(f, e);
    if executor::event_matches(q, e) {
        assert forall|i: int| 0 <= i < p.filters.len() implies executor::filter_accepts(
            #[trigger] p.filters[i],
            executor::event_value(e, p.filters[i].field),
        ) by {
            assert(q.filters[i] == p.filters[i]);
        }
        assert(q.filters[p.filters.len() as int] == f);
    }
    if executor::event_matches(p, e) && has_one_of(e, f.field, f.values) {
        assert forall|i: int| 0 <= i < q.filters.len() implies executor::filter_accepts(
            #[trigger] q.filters[i],
            executor::event_value(e, q.filters[i].field),
        ) by {
            if i < p.filters.len() {
                assert(q.filters[i] == p.filters[i]);
            }
        }
    }
}

/// A filter for one value asks for that value.
pub proof fn lemma_one_value(e: EventModel, name: Seq<char>, value: Seq<char>)
    ensures
        has_one_of(e, name, seq![value]) <==> has_under(e, name, value),
{
    assert(seq![value][0] == value);
    assert(seq![value].contains(value));
    if has_one_of(e, name, seq![value]) {
        let v = choose|v: Seq<char>| seq![value].contains(v) && #[trigger] has_under(e, name, v);
        assert(v == value);
    }
}

/// What is under the names that requests filter by.
pub proof fn lemma_fixed_fields(e: EventModel, v: Seq<char>)
    ensures
        has_under(e, "account_id"@, v) <==> e.account_id == v,
        has_under(e, "subscription_id"@, v) <==> e.subscription_id == Some(v),
        has_under(e, "product_id"@, v) <==> e.product_id == v,
        has_under(e, "meter_id"@, v) <==> e.meter_id == v,
        has_under(e, "model_id"@, v) <==> e.model_id == Some(v),
        has_under(e, "source"@, v) <==> e.source == v,
        has_under(e, "unit"@, v) <==> e.unit == v,
        has_under(e, "kind"@, "Usage"@) <==> e.kind == EventKind::Usage,
        has_under(e, "kind"@, "Correction"@) <==> e.kind == EventKind::Correction,
        has_under(e, "kind"@, "Retraction"@) <==> e.kind == EventKind::Retraction,
{
    lemma_names();
    reveal_strlit("Usage");
    reveal_strlit("Correction");
    reveal_strlit("Retraction");
    assert("Usage"@[0] == 'U');
    assert("Correction"@[0] == 'C');
    assert("Retraction"@[0] == 'R');
}

// ---------------------------------------------------------------------------
// Grouping columns
// ---------------------------------------------------------------------------

/// The grouping columns `day` and `hour_start_ms` give the start of the day and of
/// the hour in milliseconds, so that two events have one value exactly where their
/// times have one quotient; every other column gives what the event has under its
/// name, and nothing where it has nothing. (The times are not before the epoch.)
pub proof fn law_grouping_columns(p: PlanModel, i: int, a: EventModel, b: EventModel)
    requires
        0 <= i < p.group_by.len(),
        a.timestamp_ms >= 0,
        b.timestamp_ms >= 0,
        a.wf(),
    ensures
        executor::event_key(p, a).len() == p.group_by.len(),
        p.group_by[i] == "day"@ ==> executor::event_key(p, a)[i] == text::signed_decimal(
            a.timestamp_ms as int / 86_400_000 * 86_400_000,
        ),
        p.group_by[i] == "day"@ ==> (executor::event_key(p, a)[i] == executor::event_key(p, b)[i]
            <==> a.timestamp_ms as int / 86_400_000 == b.timestamp_ms as int / 86_400_000),
        p.group_by[i] == "hour_start_ms"@ ==> executor::event_key(p, a)[i] == text::signed_decimal(
            a.timestamp_ms as int / 3_600_000 * 3_600_000,
        ),
        p.group_by[i] == "hour_start_ms"@ ==> (executor::event_key(p, a)[i] == executor::event_key(
            p,
            b,
        )[i] <==> a.timestamp_ms as int / 3_600_000 == b.timestamp_ms as int / 3_600_000),
        p.group_by[i] != "day"@ && p.group_by[i] != "hour_start_ms"@ ==> {
            ||| has_under(a, p.group_by[i], executor::event_key(p, a)[i])
            ||| executor::event_key(p, a)[i].len() == 0 && forall|v: Seq<char>|
                !has_under(a, p.group_by[i], v)
        },
{
    lemma_names();
    lemma_time_values(a.timestamp_ms as int, b.timestamp_ms as int);
    let name = p.group_by[i];
    match executor::event_value(a, name) {
        Some(v) => {
            law_fields_of_events(a, name, v);
        },
        None => {
            assert forall|v: Seq<char>| !has_under(a, name, v) by {
                law_fields_of_events(a, name, v);
            }
        },
    }
}

/// The values of the columns `day` and `hour_start_ms` for two times.
proof fn lemma_time_values(a: int, b: int)
    requires
        0 <= a <= i64::MAX,
        0 <= b <= i64::MAX,
    ensures
        executor::key_part("day"@, a, None) == text::signed_decimal(a / 86_400_000 * 86_400_000),
        executor::key_part("hour_start_ms"@, a, None) == text::signed_decimal(
            a / 3_600_000 * 3_600_000,
        ),
        executor::key_part("day"@, a, None) == executor::key_part("day"@, b, None) <==> a
            / 86_400_000 == b / 86_400_000,
        executor::key_part("hour_start_ms"@, a, None) == executor::key_part(
            "hour_start_ms"@,
            b,
            None,
        ) <==> a / 3_600_000 == b / 3_600_000,
        forall|v: Option<Seq<char>>|
            #![trigger executor::key_part("day"@, a, v)]
            executor::key_part("day"@, a, v) == executor::key_part("day"@, a, None),
        forall|v: Option<Seq<char>>|
            #![trigger executor::key_part("hour_start_ms"@, a, v)]
            executor::key_part("hour_start_ms"@, a, v) == executor::key_part(
                "hour_start_ms"@,
                a,
                None,
            ),
{
    lemma_names();
    let (lo, hi) = (i64::MIN as int, i64::MAX as int);
    text::law_decimal_round_trip(a / 86_400_000 * 86_400_000, lo, hi);
    text::law_decimal_round_trip(b / 86_400_000 * 86_400_000, lo, hi);
    text::law_decimal_round_trip(a / 3_600_000 * 3_600_000, lo, hi);
    text::law_decimal_round_trip(b / 3_600_000 * 3_600_000, lo, hi);
}

/// The same of rollup rows: their time is the start of their hour.
pub proof fn law_grouping_columns_of_rollup_rows(
    p: PlanModel,
    i: int,
    a: RecordModel,
    b: RecordModel,
)
    requires
        0 <= i < p.group_by.len(),
        a.key.hour_start_ms >= 0,
        b.key.hour_start_ms >= 0,
    ensures
        executor::record_key(p, a).len() == p.group_by.len(),
        p.group_by[i] == "day"@ ==> executor::record_key(p, a)[i] == text::signed_decimal(
            a.key.hour_start_ms as int / 86_400_000 * 86_400_000,
        ),
        p.group_by[i] == "day"@ ==> (executor::record_key(p, a)[i] == executor::record_key(p, b)[i]
            <==> a.key.hour_start_ms as int / 86_400_000 == b.key.hour_start_ms as int
            / 86_400_000),
        p.group_by[i] == "hour_start_ms"@ ==> executor::record_key(p, a)[i] == text::signed_decimal(
            a.key.hour_start_ms as int / 3_600_000 * 3_600_000,
        ),
        p.group_by[i] == "product_id"@ ==> executor::record_key(p, a)[i] == a.key.product_id,
        p.group_by[i] == "meter_id"@ ==> executor::record_key(p, a)[i] == a.key.meter_id,
        p.group_by[i] == "account_id"@ ==> executor::record_key(p, a)[i] == a.key.account_id,
        p.group_by[i] == "source"@ ==> executor::record_key(p, a)[i] == a.key.source,
        p.group_by[i] == "unit"@ ==> executor::record_key(p, a)[i] == a.key.unit,
        p.group_by[i] == "model_id"@ && a.key.model_id is Some ==> executor::record_key(p, a)[i]
            == a.key.model_id->0,
        p.group_by[i] == "subscription_id"@ && a.key.subscription_id is Some
            ==> executor::record_key(p, a)[i] == a.key.subscription_id->0,
{
    lemma_names();
    lemma_time_values(a.key.hour_start_ms as int, b.key.hour_start_ms as int);
    reveal_strlit("day");
    reveal_strlit("hour_start_ms");
}

// ---------------------------------------------------------------------------
// Answers
// ---------------------------------------------------------------------------

/// Two conditions that agree on what there is pick the same.
pub proof fn lemma_same_filter<A>(all: Seq<A>, f: spec_fn(A) -> bool, g: spec_fn(A) -> bool)
    requires
        forall|i: int| 0 <= i < all.len() ==> f(#[trigger] all[i]) == g(all[i]),
    ensures
        all.filter(f) == all.filter(g),
    decreases all.len(),
{
    reveal(Seq::filter);
    if all.len() > 0 {
        let init = all.drop_last();
        assert forall|i: int| 0 <= i < init.len() implies f(#[trigger] init[i]) == g(init[i]) by {
            assert(init[i] == all[i]);
        }
        lemma_same_filter(init, f, g);
        assert(f(all[all.len() - 1]) == g(all[all.len() - 1]));
    }
}

/// The events that a plan lets through.
pub open spec fn matching(p: PlanModel, events: Seq<EventModel>) -> Seq<EventModel> {
    events.filter(|e: EventModel| executor::event_matches(p, e))
}

/// The events that a plan lets through and that have the values `key` in its
/// grouping columns.
pub open spec fn matching_with(p: PlanModel, events: Seq<EventModel>, key: Seq<Seq<char>>) -> Seq<
    EventModel,
> {
    events.filter(
        |e: EventModel| executor::event_matches(p, e) && executor::event_key(p, e) == key,
    )
}

/// A row that gives the values `key` under the names of the grouping columns, and
/// under the name of each metric the sum `quantity` in decimal digits or the number
/// `count`. A metric stands in the place of a column of its name.
pub open spec fn is_row_of(
    p: PlanModel,
    row: AnswerModel,
    key: Seq<Seq<char>>,
    quantity: int,
    count: int,
) -> bool {
    row matches AnswerModel::Values(cells) && {
        &&& forall|m: int|
            0 <= m < p.metrics.len() ==> textmap::lookup(cells, (#[trigger] p.metrics[m]).0)
                == Some(
                match p.metrics[m].1 {
                    AggregationFunction::Sum => CellModel::Text(text::signed_decimal(quantity)),
                    AggregationFunction::Count => CellModel::Count(count),
                },
            )
        &&& forall|i: int|
            0 <= i < p.group_by.len() && !textmap::has_key(p.metrics, #[trigger] p.group_by[i])
                ==> textmap::lookup(cells, p.group_by[i]) == Some(CellModel::Text(key[i]))
    }
}

/// One value for each grouping column, and the same for a column that stands there
/// twice.
spec fn fits_columns(group_by: Seq<Seq<char>>, key: Seq<Seq<char>>) -> bool {
    &&& key.len() == group_by.len()
    &&& forall|i: int, j: int|
        0 <= i < group_by.len() && 0 <= j < group_by.len() && group_by[i] == group_by[j]
            ==> #[trigger] key[i] == #[trigger] key[j]
}

proof fn lemma_columns(group_by: Seq<Seq<char>>, key: Seq<Seq<char>>, n: nat)
    requires
        fits_columns(group_by, key),
        n <= group_by.len(),
    ensures
        textmap::keys_ascend(executor::column_cells(group_by, key, n)),
        forall|i: int|
            0 <= i < n ==> textmap::lookup(
                executor::column_cells(group_by, key, n),
                #[trigger] group_by[i],
            ) == Some(CellModel::Text(key[i])),
    decreases n,
{
    if n > 0 {
        let before = executor::column_cells(group_by, key, (n - 1) as nat);
        lemma_columns(group_by, key, (n - 1) as nat);
        textmap::lemma_inserted(before, group_by[n - 1], CellModel::Text(key[n - 1]));
        assert forall|i: int| 0 <= i < n implies textmap::lookup(
            executor::column_cells(group_by, key, n),
            #[trigger] group_by[i],
        ) == Some(CellModel::Text(key[i])) by {
            if group_by[i] == group_by[n - 1] {
                assert(key[i] == key[n - 1]);
            }
        }
    }
}

proof fn lemma_cells(p: PlanModel, g: GroupModel, n: nat)
    requires
        fits_columns(p.group_by, g.key),
        textmap::keys_ascend(p.metrics),
        n <= p.metrics.len(),
    ensures
        textmap::keys_ascend(executor::group_cells(p, g, n)),
        forall|m: int|
            0 <= m < n ==> textmap::lookup(
                executor::group_cells(p, g, n),
                (#[trigger] p.metrics[m]).0,
            ) == Some(
                match p.metrics[m].1 {
                    AggregationFunction::Sum => CellModel::Text(
                        text::signed_decimal(g.quantity_sum),
                    ),
                    AggregationFunction::Count => CellModel::Count(g.count),
                },
            ),
        forall|i: int|
            0 <= i < p.group_by.len() && !textmap::has_key(p.metrics, #[trigger] p.group_by[i])
                ==> textmap::lookup(executor::group_cells(p, g, n), p.group_by[i]) == Some(
                CellModel::Text(g.key[i]),
            ),
    decreases n,
{
    if n == 0 {
        lemma_columns(p.group_by, g.key, p.group_by.len());
    } else {
        let before = executor::group_cells(p, g, (n - 1) as nat);
        let last = p.metrics[n - 1];
        lemma_cells(p, g, (n - 1) as nat);
        textmap::lemma_inserted(before, last.0, executor::metric_cell(last.1, g));
        assert forall|m: int| 0 <= m < n implies textmap::lookup(
            executor::group_cells(p, g, n),
            (#[trigger] p.metrics[m]).0,
        ) == Some(
            match p.metrics[m].1 {
                AggregationFunction::Sum => CellModel::Text(text::signed_decimal(g.quantity_sum)),
                AggregationFunction::Count => CellModel::Count(g.count),
            },
        ) by {
            if m < n - 1 {
                text::lemma_text_lt_asymmetric(p.metrics[m].0, last.0);
            }
        }
    }
}

proof fn lemma_group_row(p: PlanModel, g: GroupModel)
    requires
        fits_columns(p.group_by, g.key),
        textmap::keys_ascend(p.metrics),
    ensures
        is_row_of(p, executor::group_answer(p, g), g.key, g.quantity_sum, g.count),
{
    lemma_cells(p, g, p.metrics.len());
}

/// What the rows of events add up to under a key.
proof fn lemma_sums(p: PlanModel, events: Seq<EventModel>, key: Seq<Seq<char>>)
    ensures
        reconcile::exact_quantity(executor::event_rows(p, events), key) == totals::event_total(
            matching_with(p, events, key),
        ),
        reconcile::exact_count(executor::event_rows(p, events), key) == matching_with(
            p,
            events,
            key,
        ).len(),
        executor::some_row_has(executor::event_rows(p, events), key) <==> matching_with(
            p,
            events,
            key,
        ).len() > 0,
    decreases events.len(),
{
    reveal(Seq::filter);
    if events.len() > 0 {
        let init = events.drop_last();
        lemma_sums(p, init, key);
        let rows = executor::event_rows(p, init);
        let row = executor::event_row(p, events.last());
        let some = matching_with(p, init, key);
        assert(rows.push(row).drop_last() =~= rows);
        assert(some.push(events.last()).drop_last() =~= some);
        if executor::event_matches(p, events.last()) {
            let after = rows.push(row);
            assert(after[rows.len() as int] == row);
            if executor::some_row_has(rows, key) {
                let i = choose|i: int| 0 <= i < rows.len() && (#[trigger] rows[i]).key == key;
                assert(after[i].key == key);
            }
            if executor::some_row_has(after, key) && row.key != key {
                let i = choose|i: int| 0 <= i < after.len() && (#[trigger] after[i]).key == key;
                assert(rows[i].key == key);
            }
        }
    }
}

pub proof fn lemma_rows_fit(p: PlanModel, events: Seq<EventModel>, key: Seq<Seq<char>>)
    requires
        reconcile::turnover(events) <= i128::MAX,
        events.len() <= u64::MAX,
    ensures
        executor::quantity_of(executor::event_rows(p, events), key) == totals::event_total(
            matching_with(p, events, key),
        ),
        executor::count_of(executor::event_rows(p, events), key) == matching_with(
            p,
            events,
            key,
        ).len(),
{
    let rows = executor::event_rows(p, events);
    lemma_sums(p, events, key);
    reconcile::lemma_row_counts(p, events, key);
    reconcile::lemma_exact_rows(rows, key);
    reconcile::lemma_exact_counts(rows, key);
}

/// The answer to a plan that groups has one row for each combination of values that
/// occurs among the events that it lets through, with the sum of the quantities and
/// the number of exactly the events with these values. `keys` are the combinations,
/// in the order of the rows, which is ascending. (The quantities must fit: their sum without signs is at
/// most the greatest quantity.)
pub proof fn law_grouped_answers(p: PlanModel, events: Seq<EventModel>) -> (keys: Seq<
    Seq<Seq<char>>,
>)
    requires
        p.group_by.len() > 0,
        textmap::keys_ascend(p.metrics),
        reconcile::turnover(events) <= i128::MAX,
        events.len() <= u64::MAX,
    ensures
        keys.len() == executor::answer(p, Seq::empty(), events).len(),
        keys.no_duplicates(),
        forall|i: int, j: int|
            0 <= i < j < keys.len() ==> executor::key_lt(#[trigger] keys[i], #[trigger] keys[j]),
        forall|key: Seq<Seq<char>>| #[trigger]
            keys.contains(key) <==> exists|i: int|
                0 <= i < events.len() && executor::event_matches(p, #[trigger] events[i])
                    && executor::event_key(p, events[i]) == key,
        forall|j: int|
            0 <= j < keys.len() ==> is_row_of(
                p,
                #[trigger] executor::answer(p, Seq::empty(), events)[j],
                keys[j],
                totals::event_total(matching_with(p, events, keys[j])),
                matching_with(p, events, keys[j]).len() as int,
            ),
{
    let none = Seq::<RecordModel>::empty();
    let of_events = executor::event_rows(p, events);
    let rows = executor::plan_rows(p, none, events);
    assert(executor::record_rows(p, none) =~= Seq::<RowModel>::empty());
    assert(rows =~= of_events);
    let groups = executor::groups_of(rows);
    reconcile::lemma_groups_of(rows);
    let keys = executor::keys_of(groups);
    let answer = executor::answer(p, none, events);
    assert(keys.no_duplicates()) by {
        assert forall|i: int, j: int| 0 <= i < j < keys.len() implies keys[i] != keys[j] by {
            assert(executor::key_lt(keys[i], keys[j]));
            executor::lemma_key_lt_irreflexive(keys[i]);
        }
    }
    assert forall|key: Seq<Seq<char>>| #[trigger]
        keys.contains(key) <==> exists|i: int|
            0 <= i < events.len() && executor::event_matches(p, #[trigger] events[i])
                && executor::event_key(p, events[i]) == key by {
        lemma_sums(p, events, key);
        lemma_some(p, events, key);
        assert(executor::some_row_has(rows, key) <==> keys.contains(key));
    }
    assert forall|j: int| 0 <= j < keys.len() implies is_row_of(
        p,
        #[trigger] answer[j],
        keys[j],
        totals::event_total(matching_with(p, events, keys[j])),
        matching_with(p, events, keys[j]).len() as int,
    ) by {
        let g = groups[j];
        assert(keys[j] == g.key);
        assert(answer[j] == executor::group_answer(p, g));
        lemma_rows_fit(p, events, g.key);
        assert(keys.contains(keys[j]));
        let i = choose|i: int|
            0 <= i < events.len() && executor::event_matches(p, #[trigger] events[i])
                && executor::event_key(p, events[i]) == keys[j];
        lemma_key_fits(p, events[i]);
        lemma_group_row(p, g);
    }
    keys
}

/// Of two combinations of values the first values that differ decide which row comes
/// first.
pub proof fn law_order_of_rows(
    common: Seq<Seq<char>>,
    x: Seq<char>,
    y: Seq<char>,
    a: Seq<Seq<char>>,
    b: Seq<Seq<char>>,
)
    requires
        text::text_lt(x, y),
    ensures
        executor::key_lt(common + (seq![x] + a), common + (seq![y] + b)),
        !executor::key_lt(common + (seq![y] + b), common + (seq![x] + a)),
    decreases common.len(),
{
    let one = common + (seq![x] + a);
    let two = common + (seq![y] + b);
    text::lemma_text_lt_irreflexive(x);
    text::lemma_text_lt_asymmetric(x, y);
    if common.len() > 0 {
        let rest = common.drop_first();
        law_order_of_rows(rest, x, y, a, b);
        assert(one.drop_first() =~= rest + (seq![x] + a));
        assert(two.drop_first() =~= rest + (seq![y] + b));
        assert(one[0] == common[0] && two[0] == common[0]);
    } else {
        assert(one[0] == x && two[0] == y);
    }
}

proof fn lemma_key_fits(p: PlanModel, e: EventModel)
    ensures
        fits_columns(p.group_by, executor::event_key(p, e)),
{
}

proof fn lemma_some(p: PlanModel, events: Seq<EventModel>, key: Seq<Seq<char>>)
    ensures
        matching_with(p, events, key).len() > 0 <==> exists|i: int|
            0 <= i < events.len() && executor::event_matches(p, #[trigger] events[i])
                && executor::event_key(p, events[i]) == key,
{
    let wanted = |e: EventModel|
        executor::event_matches(p, e) && executor::event_key(p, e) == key;
    let some = matching_with(p, events, key);
    broadcast use vstd::seq_lib::group_filter_ensures;

    if some.len() > 0 {
        assert(wanted(some[0]));
        events.lemma_filter_contains_rev(wanted, some[0]);
        let i = choose|i: int| 0 <= i < events.len() && events[i] == some[0];
        assert(executor::event_matches(p, events[i]));
    }
    if exists|i: int|
        0 <= i < events.len() && executor::event_matches(p, #[trigger] events[i])
            && executor::event_key(p, events[i]) == key {
        let i = choose|i: int|
            0 <= i < events.len() && executor::event_matches(p, #[trigger] events[i])
                && executor::event_key(p, events[i]) == key;
        assert(wanted(events[i]));
        assert(some.contains(events[i]));
    }
}

/// The answer to a plan for totals is one row, with the sum of the quantities and
/// the number of exactly the events that the plan lets through, zero where there are
/// none. (The quantities must fit.)
pub proof fn law_answers_for_totals(p: PlanModel, events: Seq<EventModel>)
    requires
        p.group_by.len() == 0,
        p.metrics.len() > 0,
        textmap::keys_ascend(p.metrics),
        reconcile::turnover(events) <= i128::MAX,
        events.len() <= u64::MAX,
    ensures
        executor::answer(p, Seq::empty(), events).len() == 1,
        is_row_of(
            p,
            executor::answer(p, Seq::empty(), events)[0],
            Seq::empty(),
            totals::event_total(matching(p, events)),
            matching(p, events).len() as int,
        ),
{
    let none = Seq::<RecordModel>::empty();
    let empty = Seq::<Seq<char>>::empty();
    let of_events = executor::event_rows(p, events);
    let rows = executor::plan_rows(p, none, events);
    assert(executor::record_rows(p, none) =~= Seq::<RowModel>::empty());
    assert(rows =~= of_events);
    let groups = executor::groups_of(rows);
    reconcile::lemma_groups_of(rows);
    let keys = executor::keys_of(groups);
    executor::lemma_row_keys(p, none, events);
    lemma_rows_fit(p, events, empty);
    lemma_sums(p, events, empty);
    lemma_keyless_events(p, events);
    assert forall|key: Seq<Seq<char>>| keys.contains(key) implies key == empty by {
        assert(executor::some_row_has(rows, key));
        let i = choose|i: int| 0 <= i < rows.len() && (#[trigger] rows[i]).key == key;
        assert(key =~= empty);
    }
    if groups.len() > 0 {
        assert(keys[0] == groups[0].key);
        assert(keys.contains(keys[0]));
        lemma_group_row(p, groups[0]);
    } else {
        assert(!keys.contains(empty));
        assert(!executor::some_row_has(rows, empty));
        let nothing = matching_with(p, events, empty);
        assert(nothing =~= Seq::<EventModel>::empty());
        lemma_group_row(p, executor::zero_group());
    }
    if groups.len() > 1 {
        assert(keys.contains(keys[1]));
        assert(executor::key_lt(keys[0], keys[1]));
        executor::lemma_key_lt_irreflexive(keys[0]);
    }
}

pub proof fn lemma_keyless_events(p: PlanModel, events: Seq<EventModel>)
    requires
        p.group_by.len() == 0,
    ensures
        matching_with(p, events, Seq::empty()) == matching(p, events),
    decreases events.len(),
{
    reveal(Seq::filter);
    if events.len() > 0 {
        lemma_keyless_events(p, events.drop_last());
        assert(executor::event_key(p, events.last()) =~= Seq::<Seq<char>>::empty());
    } else {
        assert(matching_with(p, events, Seq::empty()) =~= matching(p, events));
    }
}

/// A plan that neither groups nor adds up is answered with the events that it lets
/// through, as they are and in their order.
pub proof fn law_answers_with_events(p: PlanModel, events: Seq<EventModel>)
    requires
        p.group_by.len() == 0,
        p.metrics.len() == 0,
    ensures
        executor::answer(p, Seq::empty(), events).len() == matching(p, events).len(),
        forall|i: int|
            0 <= i < matching(p, events).len() ==> #[trigger] executor::answer(
                p,
                Seq::empty(),
                events,
            )[i] == AnswerModel::Event(matching(p, events)[i]),
{
    lemma_matching(p, events);
}

pub proof fn lemma_matching(p: PlanModel, events: Seq<EventModel>)
    ensures
        executor::matching_events(p, events) == matching(p, events),
    decreases events.len(),
{
    reveal(Seq::filter);
    if events.len() > 0 {
        lemma_matching(p, events.drop_last());
    } else {
        assert(executor::matching_events(p, events) =~= matching(p, events));
    }
}

/// A limit lets the first rows through, as many as it says, or all where there are
/// not so many.
pub proof fn law_limits(
    p: PlanModel,
    watermark: i64,
    records: Seq<RecordModel>,
    events: Seq<EventModel>,
)
    ensures
        ({
            let all = executor::plan_answer(
                PlanModel { limit: None, ..p },
                watermark,
                records,
                events,
            );
            let some = executor::plan_answer(p, watermark, records, events);
            &&& some.is_prefix_of(all)
            &&& p.limit is None ==> some == all
            &&& p.limit matches Some(n) ==> some.len() == n || some == all && all.len() < n
        }),
{
    let q = PlanModel { limit: None, ..p };
    let c = executor::plan_coverage(p, watermark);
    let cr = executor::covered_records(c, records);
    let ue = executor::uncovered_events(c, events);
    lemma_limit_is_last(p, q, cr, ue);
}

proof fn lemma_limit_is_last(
    p: PlanModel,
    q: PlanModel,
    records: Seq<RecordModel>,
    events: Seq<EventModel>,
)
    requires
        q == (PlanModel { limit: None, ..p }),
    ensures
        executor::plan_coverage(p, 0).rollups == executor::plan_coverage(q, 0).rollups,
        executor::answer(p, records, events) == executor::answer(q, records, events),
{
    lemma_same_rows_unlimited(p, q, records, events);
    if executor::wants_events(p) {
        assert(executor::answer(p, records, events) =~= executor::answer(q, records, events));
    } else {
        let groups = executor::groups_of(executor::plan_rows(p, records, events));
        assert forall|g: GroupModel| executor::group_answer(p, g) == executor::group_answer(
            q,
            g,
        ) by {
            lemma_same_cells_unlimited(p, q, g, p.metrics.len());
        }
        assert(executor::answer(p, records, events) =~= executor::answer(q, records, events));
    }
}

proof fn lemma_same_cells_unlimited(p: PlanModel, q: PlanModel, g: GroupModel, n: nat)
    requires
        q == (PlanModel { limit: None, ..p }),
    ensures
        executor::group_cells(p, g, n) == executor::group_cells(q, g, n),
    decreases n,
{
    if n > 0 {
        lemma_same_cells_unlimited(p, q, g, (n - 1) as nat);
    }
}

proof fn lemma_same_rows_unlimited(
    p: PlanModel,
    q: PlanModel,
    records: Seq<RecordModel>,
    events: Seq<EventModel>,
)
    requires
        q == (PlanModel { limit: None, ..p }),
    ensures
        executor::record_rows(p, records) == executor::record_rows(q, records),
        executor::event_rows(p, events) == executor::event_rows(q, events),
        executor::matching_events(p, events) == executor::matching_events(q, events),
    decreases records.len() + events.len(),
{
    if events.len() > 0 {
        lemma_same_rows_unlimited(p, q, records, events.drop_last());
        let e = events.last();
        assert(executor::event_key(p, e) =~= executor::event_key(q, e));
        assert(executor::event_matches(p, e) == executor::event_matches(q, e));
    } else if records.len() > 0 {
        lemma_same_rows_unlimited(p, q, records.drop_last(), events);
        let r = records.last();
        assert(executor::record_key(p, r) =~= executor::record_key(q, r));
        assert(executor::record_matches(p, r) == executor::record_matches(q, r));
    }
}

// ---------------------------------------------------------------------------
// What is read from where
// ---------------------------------------------------------------------------

/// A plan over rollups that aggregates and does not ask for the kind of events.
pub open spec fn asks_rollups(p: PlanModel) -> bool {
    &&& p.source == QuerySource::RollupHourly
    &&& p.group_by.len() > 0 || p.metrics.len() > 0
    &&& !p.group_by.contains("kind"@)
    &&& forall|i: int| 0 <= i < p.filters.len() ==> (#[trigger] p.filters[i]).field != "kind"@
}

/// A whole hour of the plan's range, below the watermark.
pub open spec fn is_settled_hour(p: PlanModel, watermark: i64, hour: int) -> bool {
    &&& hour >= 0
    &&& p.from_ms <= hour
    &&& hour + 3_600_000 <= p.to_ms
    &&& hour + 3_600_000 <= watermark
}

/// An event is passed over exactly where it falls into a settled hour of a plan over
/// rollups, whose row stands for it; a rollup row is passed over everywhere else.
pub proof fn law_each_hour_is_read_once(
    p: PlanModel,
    watermark: i64,
    records: Seq<RecordModel>,
    events: Seq<EventModel>,
    e: EventModel,
    r: RecordModel,
)
    requires
        e.timestamp_ms >= 0,
    ensures
        ({
            let c = executor::plan_coverage(p, watermark);
            let hour = e.timestamp_ms as int / 3_600_000 * 3_600_000;
            &&& executor::uncovered_events(c, events.push(e)) == if asks_rollups(p)
                && is_settled_hour(p, watermark, hour) {
                executor::uncovered_events(c, events)
            } else {
                executor::uncovered_events(c, events).push(e)
            }
            &&& executor::covered_records(c, records.push(r)) == if asks_rollups(p)
                && is_settled_hour(p, watermark, r.key.hour_start_ms as int) {
                executor::covered_records(c, records).push(r)
            } else {
                executor::covered_records(c, records)
            }
        }),
{
    assert(events.push(e).drop_last() =~= events);
    assert(records.push(r).drop_last() =~= records);
    let c = executor::plan_coverage(p, watermark);
    assert(c.rollups == asks_rollups(p)) by {
        if executor::mentions_kind(p) && !p.group_by.contains("kind"@) {
            let i = choose|i: int|
                0 <= i < p.filters.len() && (#[trigger] p.filters[i]).field == "kind"@;
            assert(p.filters[i].field == "kind"@);
        }
    }
}

} // verus!
