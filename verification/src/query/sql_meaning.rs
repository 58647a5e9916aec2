//! What queries in SQL ask for, in terms of the events.

use vstd::prelude::*;

use crate::model::event::{EventKind, EventModel};
use crate::query::executor;
use crate::query::meaning;
use crate::query::plan::{AggregationFunction, FilterModel, PlanModel, QuerySource};
use crate::query::reconcile;
use crate::query::sql;
use crate::query::sql::Projection;
use crate::query::syntax;
use crate::query::syntax::{
    SqlArgument, SqlArguments, SqlBody, SqlExpr, SqlGroupBy, SqlItem, SqlNode, SqlOperator,
    SqlOrderBy, SqlQuery, SqlRelation, SqlSelect, SqlStatement, SqlToken,
};
use crate::rollup::totals;
use crate::text;
use crate::textmap;

verus! {

// ---------------------------------------------------------------------------
// WHERE
// ---------------------------------------------------------------------------

/// The text of a literal in quotes and the digits of a number.
pub open spec fn literal_text(e: SqlExpr) -> Option<Seq<char>> {
    match e.node {
        SqlNode::Text(t) => Some(t@),
        SqlNode::Number(n) => Some(n@),
        _ => None,
    }
}

/// The number that a literal gives, where it is one of sixty-four bits.
pub open spec fn literal_number(e: SqlExpr) -> Option<int> {
    match literal_text(e) {
        Some(t) => match text::int_value(t, i64::MIN as int, i64::MAX as int) {
            Ok(n) => Some(n),
            Err(_) => None,
        },
        None => None,
    }
}

/// A column that holds times.
pub open spec fn is_time_column(e: SqlExpr) -> bool {
    e.node matches SqlNode::Column(c) && (c@ == "timestamp_ms"@ || c@ == "hour_start_ms"@)
}

/// A condition that is understood: equalities of a column and a literal, memberships of
/// a column in a list of literals, comparisons of a time with a number, and
/// conjunctions of these.
pub open spec fn is_understood(cond: SqlExpr) -> bool
    decreases cond,
{
    match cond.node {
        SqlNode::Binary(left, op, right) => match op {
            SqlOperator::And => is_understood(*left) && is_understood(*right),
            SqlOperator::Eq => left.node is Column && literal_text(*right) is Some,
            SqlOperator::Gt | SqlOperator::GtEq | SqlOperator::Lt | SqlOperator::LtEq => {
                is_time_column(*left) && literal_number(*right) is Some
            },
            _ => false,
        },
        SqlNode::InList { subject, list, negated } => !negated && subject.node is Column
            && forall|i: int| 0 <= i < list@.len() ==> literal_text(#[trigger] list@[i]) is Some,
        _ => false,
    }
}

/// An event satisfies a condition.
pub open spec fn satisfies(e: EventModel, cond: SqlExpr) -> bool
    decreases cond,
{
    match cond.node {
        SqlNode::Binary(left, op, right) => match op {
            SqlOperator::And => satisfies(e, *left) && satisfies(e, *right),
            SqlOperator::Eq => meaning::has_under(
                e,
                left.node->Column_0@,
                literal_text(*right)->0,
            ),
            SqlOperator::Gt => e.timestamp_ms > literal_number(*right)->0,
            SqlOperator::GtEq => e.timestamp_ms >= literal_number(*right)->0,
            SqlOperator::Lt => e.timestamp_ms < literal_number(*right)->0,
            SqlOperator::LtEq => e.timestamp_ms <= literal_number(*right)->0,
            _ => false,
        },
        SqlNode::InList { subject, list, negated } => exists|i: int|
            0 <= i < list@.len() && meaning::has_under(
                e,
                subject.node->Column_0@,
                literal_text(#[trigger] list@[i])->0,
            ),
        _ => false,
    }
}

proof fn lemma_literal(e: SqlExpr)
    ensures
        match sql::literal(e) {
            Ok(t) => literal_text(e) == Some(t),
            Err(_) => literal_text(e) is None,
        },
{
}

proof fn lemma_literals(list: Seq<SqlExpr>)
    ensures
        sql::literals(list) is Ok <==> forall|i: int|
            0 <= i < list.len() ==> literal_text(#[trigger] list[i]) is Some,
        sql::literals(list) matches Ok(values) ==> values.len() == list.len() && forall|i: int|
            0 <= i < list.len() ==> literal_text(list[i]) == Some(#[trigger] values[i]),
    decreases list.len(),
{
    if list.len() > 0 {
        let init = list.drop_last();
        lemma_literals(init);
        lemma_literal(list.last());
        assert(list[list.len() - 1] == list.last());
        assert forall|i: int| 0 <= i < init.len() implies init[i] == #[trigger] list[i] by {}
        if sql::literals(list) is Ok {
            let values = sql::literals(list)->Ok_0;
            let before = sql::literals(init)->Ok_0;
            assert forall|i: int| 0 <= i < list.len() implies literal_text(list[i]) == Some(
                #[trigger] values[i],
            ) by {
                if i < init.len() {
                    assert(values[i] == before[i]);
                    assert(init[i] == list[i]);
                }
            }
            assert forall|i: int| 0 <= i < list.len() implies literal_text(
                #[trigger] list[i],
            ) is Some by {
                assert(literal_text(list[i]) == Some(values[i]));
            }
        } else if sql::literals(init) is Err {
            let i = choose|i: int| 0 <= i < init.len() && literal_text(#[trigger] init[i]) is None;
            assert(literal_text(list[i]) is None);
        }
    }
}

proof fn lemma_field(p: PlanModel, field: Seq<char>, values: Seq<Seq<char>>, e: EventModel)
    requires
        e.wf(),
    ensures
        executor::event_matches(sql::with_field(p, field, values), e) <==> executor::event_matches(
            p,
            e,
        ) && meaning::has_one_of(e, field, values),
{
    if field == "account_id"@ && values.len() == 1 && p.account_id is None {
        assert(values =~= seq![values[0]]);
        meaning::lemma_one_value(e, field, values[0]);
        meaning::lemma_fixed_fields(e, values[0]);
        let q = sql::with_field(p, field, values);
        meaning::law_what_a_plan_lets_through(p, e);
        meaning::law_what_a_plan_lets_through(q, e);
    } else {
        meaning::law_filters_narrow(p, FilterModel { field, values }, e);
    }
}

/// A `WHERE` clause is accepted exactly where it is understood, and then lets through
/// exactly the events that satisfy it. Nothing else of the plan changes.
pub proof fn law_where_clauses(cond: SqlExpr, p: PlanModel, e: EventModel)
    requires
        e.wf(),
    ensures
        sql::conditions(cond, p) is Ok <==> is_understood(cond),
        sql::conditions(cond, p) matches Ok(q) ==> {
            &&& executor::event_matches(q, e) <==> executor::event_matches(p, e) && satisfies(
                e,
                cond,
            )
            &&& q.source == p.source
            &&& q.group_by == p.group_by
            &&& q.metrics == p.metrics
            &&& q.limit == p.limit
        },
    decreases cond,
{
    match cond.node {
        SqlNode::Binary(left, op, right) => match op {
            SqlOperator::And => {
                law_where_clauses(*left, p, e);
                if sql::conditions(*left, p) is Ok {
                    law_where_clauses(*right, sql::conditions(*left, p)->Ok_0, e);
                }
            },
            SqlOperator::Eq => {
                lemma_literal(*right);
                if left.node is Column && literal_text(*right) is Some {
                    let v = literal_text(*right)->0;
                    lemma_field(p, left.node->Column_0@, seq![v], e);
                    meaning::lemma_one_value(e, left.node->Column_0@, v);
                }
            },
            SqlOperator::Gt | SqlOperator::GtEq | SqlOperator::Lt | SqlOperator::LtEq => {
                lemma_literal(*right);
                if is_time_column(*left) && literal_number(*right) is Some {
                    let t = literal_text(*right)->0;
                    sql::lemma_value_in_range(t, i64::MIN as int, i64::MAX as int);
                    let q = sql::conditions(cond, p)->Ok_0;
                    assert(sql::conditions(cond, p) == sql::range(*left, op, *right, p));
                    meaning::law_what_a_plan_lets_through(p, e);
                    meaning::law_what_a_plan_lets_through(q, e);
                }
            },
            _ => {},
        },
        SqlNode::InList { subject, list, negated } => {
            lemma_literals(list@);
            if !negated && subject.node is Column && sql::literals(list@) is Ok {
                let values = sql::literals(list@)->Ok_0;
                let field = subject.node->Column_0@;
                lemma_field(p, field, values, e);
                if meaning::has_one_of(e, field, values) {
                    let v = choose|v: Seq<char>| values.contains(v) && #[trigger] meaning::has_under(
                        e,
                        field,
                        v,
                    );
                    let i = choose|i: int| 0 <= i < values.len() && values[i] == v;
                    assert(literal_text(list@[i]) == Some(values[i]));
                }
                if satisfies(e, cond) {
                    let i = choose|i: int|
                        0 <= i < list@.len() && meaning::has_under(
                            e,
                            field,
                            literal_text(#[trigger] list@[i])->0,
                        );
                    assert(literal_text(list@[i]) == Some(values[i]));
                    assert(values.contains(values[i]));
                }
            }
        },
        _ => {},
    }
}

// ---------------------------------------------------------------------------
// SELECT
// ---------------------------------------------------------------------------

/// A call of that name with one argument, and nothing around it.
pub open spec fn is_plain_call(item: SqlItem, name: Seq<char>) -> bool {
    item matches SqlItem::Expr(e) && e.node matches SqlNode::Call(call) && {
        &&& text::uppercase(call.name@) == name
        &&& call.arguments matches SqlArguments::List { duplicate_treatment, clauses, args }
            && !duplicate_treatment && clauses == 0 && args@.len() == 1
        &&& !call.extras.parameters
        &&& call.extras.within_group == 0
        &&& !call.extras.filter
        &&& !call.extras.null_treatment
        &&& !call.extras.over
    }
}

/// The argument of a call.
pub open spec fn argument(item: SqlItem) -> SqlArgument {
    item->Expr_0.node->Call_0.arguments->args@[0]
}

/// `COUNT(*)`.
pub open spec fn is_count_item(item: SqlItem) -> bool {
    is_plain_call(item, "COUNT"@) && argument(item) is Wildcard
}

/// `SUM(quantity)`.
pub open spec fn is_sum_item(item: SqlItem) -> bool {
    is_plain_call(item, "SUM"@) && (argument(item) matches SqlArgument::Expr(e)
        && e.node matches SqlNode::Column(c) && c@ == "quantity"@)
}

/// The name of a column that is selected.
pub open spec fn column_of(item: SqlItem) -> Option<Seq<char>> {
    match item {
        SqlItem::Expr(e) => match e.node {
            SqlNode::Column(c) => Some(c@),
            SqlNode::Path(names) => if names@.len() == 1 {
                Some(names@[0]@)
            } else {
                None
            },
            _ => None,
        },
        _ => None,
    }
}

/// What can be selected: columns, `SUM(quantity)` and `COUNT(*)`.
pub open spec fn is_selectable(item: SqlItem) -> bool {
    column_of(item) is Some || is_sum_item(item) || is_count_item(item)
}

/// The selected columns, in their order.
pub open spec fn selected_columns(items: Seq<SqlItem>) -> Seq<Seq<char>> {
    items.filter(|i: SqlItem| column_of(i) is Some).map_values(|i: SqlItem| column_of(i)->0)
}

proof fn lemma_call(item: SqlItem)
    requires
        item is Expr,
        item->Expr_0.node is Call,
    ensures
        sql::call_metric(*item->Expr_0.node->Call_0) is Ok <==> is_sum_item(item) || is_count_item(
            item,
        ),
        is_sum_item(item) ==> sql::call_metric(*item->Expr_0.node->Call_0) == Ok::<
            (Seq<char>, AggregationFunction),
            Seq<char>,
        >(("quantity"@, AggregationFunction::Sum)),
        is_count_item(item) ==> sql::call_metric(*item->Expr_0.node->Call_0) == Ok::<
            (Seq<char>, AggregationFunction),
            Seq<char>,
        >(("count"@, AggregationFunction::Count)),
        !(is_sum_item(item) && is_count_item(item)),
{
    reveal_strlit("SUM");
    reveal_strlit("COUNT");
    assert("SUM"@.len() == 3);
    assert("COUNT"@.len() == 5);
}

/// A list of what is selected is accepted exactly where all of it can be. Its columns
/// are those that are named, in their order; it gives the sum under `quantity` exactly
/// where `SUM(quantity)` is selected, the number of events under `count` exactly where
/// `COUNT(*)` is, and nothing else.
pub proof fn law_selections(items: Seq<SqlItem>)
    ensures
        sql::projection(items) is Ok <==> forall|i: int|
            0 <= i < items.len() ==> is_selectable(#[trigger] items[i]),
        sql::projection(items) matches Ok(p) ==> {
            &&& p.columns == selected_columns(items)
            &&& textmap::keys_ascend(p.metrics)
            &&& forall|name: Seq<char>| #[trigger]
                textmap::lookup(p.metrics, name) == if name == "quantity"@ && exists|i: int|
                    0 <= i < items.len() && is_sum_item(#[trigger] items[i]) {
                    Some(AggregationFunction::Sum)
                } else if name == "count"@ && exists|i: int|
                    0 <= i < items.len() && is_count_item(#[trigger] items[i]) {
                    Some(AggregationFunction::Count)
                } else {
                    None
                }
        },
    decreases items.len(),
{
    reveal(Seq::filter);
    reveal_strlit("quantity");
    reveal_strlit("count");
    assert("quantity"@.len() == 8);
    assert("count"@.len() == 5);
    let named = |i: SqlItem| column_of(i) is Some;
    let name_of = |i: SqlItem| column_of(i)->0;
    if items.len() > 0 {
        let init = items.drop_last();
        let item = items.last();
        law_selections(init);
        assert(items =~= init.push(item));
        assert(items[items.len() - 1] == item);
        assert forall|i: int| 0 <= i < init.len() implies init[i] == #[trigger] items[i] by {}
        if sql::projection(init) is Err {
            let i = choose|i: int| 0 <= i < init.len() && !is_selectable(#[trigger] init[i]);
            assert(!is_selectable(items[i]));
        } else {
            let before = sql::projection(init)->Ok_0;
            let some = init.filter(named);
            assert(some.push(item).map_values(name_of) =~= some.map_values(name_of).push(
                name_of(item),
            ));
            if item is Expr && item->Expr_0.node is Call {
                lemma_call(item);
                if is_selectable(item) {
                    let (name, f) = sql::call_metric(*item->Expr_0.node->Call_0)->Ok_0;
                    textmap::lemma_inserted(before.metrics, name, f);
                }
            }
            if sql::projection(items) is Ok {
                let after = sql::projection(items)->Ok_0;
                assert(is_selectable(item));
                assert forall|i: int| 0 <= i < items.len() implies is_selectable(
                    #[trigger] items[i],
                ) by {
                    if i < init.len() {
                        assert(is_selectable(init[i]));
                    }
                }
                assert forall|name: Seq<char>| #[trigger]
                    textmap::lookup(after.metrics, name) == if name == "quantity"@ && exists|i: int|
                        0 <= i < items.len() && is_sum_item(#[trigger] items[i]) {
                        Some(AggregationFunction::Sum)
                    } else if name == "count"@ && exists|i: int|
                        0 <= i < items.len() && is_count_item(#[trigger] items[i]) {
                        Some(AggregationFunction::Count)
                    } else {
                        None
                    } by {
                    lemma_one_more_item(init, item, items);
                    assert(textmap::lookup(before.metrics, name) == textmap::lookup(
                        before.metrics,
                        name,
                    ));
                }
            }
        }
    } else {
        let none = Projection { columns: Seq::empty(), metrics: Seq::empty() };
        assert(selected_columns(items) =~= none.columns);
        assert forall|name: Seq<char>| #[trigger]
            textmap::lookup(none.metrics, name) is None by {}
    }
}

proof fn lemma_one_more_item(init: Seq<SqlItem>, item: SqlItem, items: Seq<SqlItem>)
    requires
        items == init.push(item),
    ensures
        (exists|i: int| 0 <= i < items.len() && is_sum_item(#[trigger] items[i])) <==> ((exists|
            i: int,
        |
            0 <= i < init.len() && is_sum_item(#[trigger] init[i])) || is_sum_item(item)),
        (exists|i: int| 0 <= i < items.len() && is_count_item(#[trigger] items[i])) <==> ((exists|
            i: int,
        |
            0 <= i < init.len() && is_count_item(#[trigger] init[i])) || is_count_item(item)),
{
    assert(items[init.len() as int] == item);
    assert forall|i: int| 0 <= i < init.len() implies init[i] == #[trigger] items[i] by {}
    if exists|i: int| 0 <= i < init.len() && is_sum_item(#[trigger] init[i]) {
        let i = choose|i: int| 0 <= i < init.len() && is_sum_item(#[trigger] init[i]);
        assert(is_sum_item(items[i]));
    }
    if exists|i: int| 0 <= i < init.len() && is_count_item(#[trigger] init[i]) {
        let i = choose|i: int| 0 <= i < init.len() && is_count_item(#[trigger] init[i]);
        assert(is_count_item(items[i]));
    }
    if exists|i: int| 0 <= i < items.len() && is_sum_item(#[trigger] items[i]) {
        let i = choose|i: int| 0 <= i < items.len() && is_sum_item(#[trigger] items[i]);
        if i < init.len() {
            assert(is_sum_item(init[i]));
        }
    }
    if exists|i: int| 0 <= i < items.len() && is_count_item(#[trigger] items[i]) {
        let i = choose|i: int| 0 <= i < items.len() && is_count_item(#[trigger] items[i]);
        if i < init.len() {
            assert(is_count_item(init[i]));
        }
    }
}

/// A grouping is accepted exactly where it lists columns. What is grouped by are the
/// selected columns, and behind them the listed ones that are not among them.
pub proof fn law_groupings(exprs: Seq<SqlExpr>, columns: Seq<Seq<char>>)
    ensures
        sql::grouping(exprs, columns) is Ok <==> forall|i: int|
            0 <= i < exprs.len() ==> (#[trigger] exprs[i]).node is Column,
        sql::grouping(exprs, columns) matches Ok(by) ==> {
            &&& columns.is_prefix_of(by)
            &&& forall|name: Seq<char>| #[trigger]
                by.contains(name) <==> columns.contains(name) || exists|i: int|
                    0 <= i < exprs.len() && (#[trigger] exprs[i]).node->Column_0@ == name
            &&& columns.no_duplicates() ==> by.no_duplicates()
        },
    decreases exprs.len(),
{
    if exprs.len() > 0 {
        let init = exprs.drop_last();
        law_groupings(init, columns);
        assert(exprs[exprs.len() - 1] == exprs.last());
        assert forall|i: int| 0 <= i < init.len() implies init[i] == #[trigger] exprs[i] by {}
        if sql::grouping(init, columns) is Err {
            let i = choose|i: int| 0 <= i < init.len() && !((#[trigger] init[i]).node is Column);
            assert(!(exprs[i].node is Column));
        } else {
            let before = sql::grouping(init, columns)->Ok_0;
            if exprs.last().node is Column {
                let c = exprs.last().node->Column_0@;
                let after = sql::grouping(exprs, columns)->Ok_0;
                assert forall|name: Seq<char>| #[trigger]
                    after.contains(name) <==> columns.contains(name) || exists|i: int|
                        0 <= i < exprs.len() && (#[trigger] exprs[i]).node->Column_0@ == name by {
                    assert(before.contains(name) <==> columns.contains(name) || exists|i: int|
                        0 <= i < init.len() && (#[trigger] init[i]).node->Column_0@ == name);
                    if after.contains(name) {
                        let x = choose|x: int| 0 <= x < after.len() && after[x] == name;
                        if x < before.len() {
                            assert(before[x] == name);
                            assert(before.contains(name));
                            if !columns.contains(name) {
                                let i = choose|i: int|
                                    0 <= i < init.len() && (#[trigger] init[i]).node->Column_0@
                                        == name;
                                assert(exprs[i].node->Column_0@ == name);
                            }
                        } else {
                            assert(exprs[exprs.len() - 1].node->Column_0@ == name);
                        }
                    }
                    if before.contains(name) {
                        let x = choose|x: int| 0 <= x < before.len() && before[x] == name;
                        assert(after[x] == name);
                    }
                    if name == c {
                        if !before.contains(c) {
                            assert(after[before.len() as int] == c);
                        }
                    }
                    if exists|i: int|
                        0 <= i < exprs.len() && (#[trigger] exprs[i]).node->Column_0@ == name {
                        let i = choose|i: int|
                            0 <= i < exprs.len() && (#[trigger] exprs[i]).node->Column_0@ == name;
                        if i < init.len() {
                            assert(init[i].node->Column_0@ == name);
                        }
                    }
                }
                if columns.no_duplicates() && !before.contains(c) {
                    assert forall|i: int, j: int|
                        0 <= i < after.len() && 0 <= j < after.len() && i != j implies after[i]
                        != after[j] by {
                        if i < before.len() {
                            assert(before.contains(before[i]));
                        }
                        if j < before.len() {
                            assert(before.contains(before[j]));
                        }
                    }
                }
            } else {
                assert(!(exprs[exprs.len() - 1].node is Column));
            }
        }
        if sql::grouping(exprs, columns) is Ok {
            assert forall|i: int| 0 <= i < exprs.len() implies (
            #[trigger] exprs[i]).node is Column by {
                if i < init.len() {
                    assert(init[i].node is Column);
                }
            }
        }
    }
}

/// A `SELECT` of the strict subset.
pub open spec fn is_in_subset(s: SqlSelect) -> bool {
    &&& !s.distinct
    &&& s.named_window == 0
    &&& !s.having
    &&& !s.qualify
    &&& s.cluster_by == 0
    &&& s.distribute_by == 0
    &&& s.sort_by == 0
    &&& s.extras.standard
    &&& !s.extras.modifiers
    &&& !s.extras.top
    &&& !s.extras.exclude
    &&& !s.extras.into
    &&& s.extras.lateral_views == 0
    &&& !s.extras.prewhere
    &&& s.extras.connect_by == 0
    &&& !s.extras.value_table_mode
    &&& s.from@.len() == 1
    &&& s.from@[0].joins == 0
    &&& s.from@[0].relation matches SqlRelation::Table { name, alias, args, version, extras } && {
        &&& !alias
        &&& !args
        &&& !version
        &&& extras.with_hints == 0
        &&& !extras.with_ordinality
        &&& extras.partitions == 0
        &&& !extras.json_path
        &&& !extras.sample
        &&& extras.index_hints == 0
        &&& name@ == "usage_events"@ || name@ == "usage_rollup_hourly"@
    }
    &&& forall|i: int|
        0 <= i < s.projection@.len() ==> is_selectable(#[trigger] s.projection@[i])
    &&& s.group_by matches SqlGroupBy::Expressions(exprs, modifiers) && modifiers == 0
        && forall|i: int| 0 <= i < exprs@.len() ==> (#[trigger] exprs@[i]).node is Column
    &&& s.selection matches Some(cond) ==> is_understood(cond)
}

/// An event is one that a `SELECT` is about.
pub open spec fn is_about(s: SqlSelect, e: EventModel) -> bool {
    s.selection matches Some(cond) ==> satisfies(e, cond)
}

/// A `SELECT` is accepted exactly where it is of the strict subset. Its plan reads the
/// table that it names, lets through exactly the events that satisfy its condition (of
/// any time but the very last one that there is), gives the sum or the number where it
/// selects them, and groups by the columns that it selects and lists.
pub proof fn law_selects(s: SqlSelect, e: EventModel)
    requires
        e.wf(),
    ensures
        sql::select_plan(s) is Ok <==> is_in_subset(s),
        sql::select_plan(s) matches Ok(p) ==> {
            &&& p.source == QuerySource::RawEvents <==> s.from@[0].relation->name@
                == "usage_events"@
            &&& e.timestamp_ms < i64::MAX ==> (executor::event_matches(p, e) <==> is_about(s, e))
            &&& p.limit is None
            &&& textmap::keys_ascend(p.metrics)
            &&& textmap::lookup(p.metrics, "quantity"@) == if exists|i: int|
                0 <= i < s.projection@.len() && is_sum_item(#[trigger] s.projection@[i]) {
                Some(AggregationFunction::Sum)
            } else {
                None
            }
            &&& textmap::lookup(p.metrics, "count"@) == if exists|i: int|
                0 <= i < s.projection@.len() && is_count_item(#[trigger] s.projection@[i]) {
                Some(AggregationFunction::Count)
            } else {
                None
            }
            &&& forall|i: int|
                0 <= i < p.metrics.len() ==> (#[trigger] p.metrics[i]).0 == "quantity"@
                    || p.metrics[i].0 == "count"@
            &&& selected_columns(s.projection@).is_prefix_of(p.group_by)
            &&& forall|name: Seq<char>| #[trigger]
                p.group_by.contains(name) <==> selected_columns(s.projection@).contains(name)
                    || exists|i: int|
                    0 <= i < s.group_by->Expressions_0@.len() && (
                    #[trigger] s.group_by->Expressions_0@[i]).node->Column_0@ == name
        },
{
    law_selections(s.projection@);
    reveal_strlit("usage_events");
    reveal_strlit("usage_rollup_hourly");
    reveal_strlit("quantity");
    reveal_strlit("count");
    assert("usage_events"@.len() == 12);
    assert("usage_rollup_hourly"@.len() == 19);
    assert("quantity"@.len() == 8);
    assert("count"@.len() == 5);
    if sql::refused_clause(s) is None && sql::table_source(s.from@) is Ok && sql::projection(
        s.projection@,
    ) is Ok {
        let columns = sql::projection(s.projection@)->Ok_0.columns;
        let metrics = sql::projection(s.projection@)->Ok_0.metrics;
        assert forall|i: int| 0 <= i < metrics.len() implies (#[trigger] metrics[i]).0
            == "quantity"@ || metrics[i].0 == "count"@ by {
            textmap::lemma_lookup_at(metrics, i);
        }
        if let SqlGroupBy::Expressions(exprs, modifiers) = s.group_by {
            law_groupings(exprs@, columns);
            if sql::select_grouping(s.group_by, columns) is Ok {
                let open_plan = PlanModel {
                    source: sql::table_source(s.from@)->Ok_0,
                    account_id: None,
                    from_ms: i64::MIN,
                    to_ms: i64::MAX,
                    filters: Seq::empty(),
                    group_by: sql::select_grouping(s.group_by, columns)->Ok_0,
                    metrics,
                    limit: None,
                };
                meaning::law_what_a_plan_lets_through(open_plan, e);
                if let Some(cond) = s.selection {
                    law_where_clauses(cond, open_plan, e);
                }
            }
        }
    }
}

/// A query is one `SELECT` of the strict subset, with nothing before or behind it but a
/// limit that is a number.
pub open spec fn is_query_of_subset(q: SqlQuery) -> bool {
    &&& q.order_by matches Some(order) ==> order == SqlOrderBy::Expressions(0)
    &&& !q.with
    &&& !q.extras.fetch
    &&& q.extras.locks == 0
    &&& !q.extras.for_clause
    &&& !q.extras.settings
    &&& !q.extras.format_clause
    &&& q.extras.pipe_operators == 0
    &&& q.body matches SqlBody::Select(s) && is_in_subset(*s)
    &&& q.limit matches Some(l) ==> {
        &&& !l.offset
        &&& l.by == 0
        &&& l.limit matches Some(n) && n.node matches SqlNode::Number(digits) && text::int_value(
            digits@,
            0,
            usize::MAX as int,
        ) is Ok
    }
}

/// A text is accepted exactly where it is one query of the strict subset and nothing
/// else. Its plan is that of the `SELECT`, with the limit that it says.
pub proof fn law_statements(statements: Seq<SqlStatement>)
    ensures
        sql::statements_plan(statements) is Ok <==> statements.len() == 1 && (
        statements[0] matches SqlStatement::Query(q) && is_query_of_subset(*q)),
        sql::statements_plan(statements) matches Ok(p) ==> {
            let q = *statements[0]->Query_0;
            &&& match q.limit {
                Some(l) => p.limit matches Some(n) && text::int_value(
                    l.limit->0.node->Number_0@,
                    0,
                    usize::MAX as int,
                ) == Ok::<int, text::IntFault>(n as int),
                None => p.limit is None,
            }
            &&& sql::select_plan(*q.body->Select_0) == Ok::<PlanModel, Seq<char>>(
                PlanModel { limit: None, ..p },
            )
        },
{
    if statements.len() == 1 && statements[0] is Query {
        let q = *statements[0]->Query_0;
        let nobody = lemma_some_event();
        if let SqlBody::Select(s) = q.body {
            law_selects(*s, nobody);
        }
        if let Some(l) = q.limit {
            if let Some(n) = l.limit {
                if let SqlNode::Number(digits) = n.node {
                    sql::lemma_value_in_range(digits@, 0, usize::MAX as int);
                }
            }
        }
    }
}

/// `SELECT COUNT(*)` without a grouping asks for the number of events under `count` and
/// for nothing else, and is answered with the number of exactly the events that satisfy
/// the condition.
pub proof fn law_count_star(s: SqlSelect, events: Seq<EventModel>)
    requires
        is_in_subset(s),
        s.projection@.len() == 1,
        is_count_item(s.projection@[0]),
        s.group_by->Expressions_0@.len() == 0,
        forall|i: int|
            0 <= i < events.len() ==> (#[trigger] events[i]).wf() && events[i].timestamp_ms
                < i64::MAX,
        reconcile::turnover(events) <= i128::MAX,
        events.len() <= u64::MAX,
    ensures
        sql::select_plan(s) matches Ok(p) && {
            &&& p.metrics == seq![("count"@, AggregationFunction::Count)]
            &&& p.group_by.len() == 0
            &&& executor::answer(p, Seq::empty(), events).len() == 1
            &&& executor::answer(p, Seq::empty(), events)[0] matches executor::AnswerModel::Values(
                cells,
            ) && textmap::lookup(cells, "count"@) == Some(
                executor::CellModel::Count(
                    events.filter(|e: EventModel| is_about(s, e)).len() as int,
                ),
            )
        },
{
    lemma_single_item(s, events);
}

/// `SELECT SUM(quantity)` without a grouping asks for the sum under `quantity` and for
/// nothing else, and is answered with the sum of the quantities of exactly the events
/// that satisfy the condition. (The quantities must fit.)
pub proof fn law_sum_of_quantity(s: SqlSelect, events: Seq<EventModel>)
    requires
        is_in_subset(s),
        s.projection@.len() == 1,
        is_sum_item(s.projection@[0]),
        s.group_by->Expressions_0@.len() == 0,
        forall|i: int|
            0 <= i < events.len() ==> (#[trigger] events[i]).wf() && events[i].timestamp_ms
                < i64::MAX,
        reconcile::turnover(events) <= i128::MAX,
        events.len() <= u64::MAX,
    ensures
        sql::select_plan(s) matches Ok(p) && {
            &&& p.metrics == seq![("quantity"@, AggregationFunction::Sum)]
            &&& p.group_by.len() == 0
            &&& executor::answer(p, Seq::empty(), events).len() == 1
            &&& executor::answer(p, Seq::empty(), events)[0] matches executor::AnswerModel::Values(
                cells,
            ) && textmap::lookup(cells, "quantity"@) == Some(
                executor::CellModel::Text(
                    text::signed_decimal(
                        totals::event_total(events.filter(|e: EventModel| is_about(s, e))),
                    ),
                ),
            )
        },
{
    lemma_single_item(s, events);
}

proof fn lemma_single_item(s: SqlSelect, events: Seq<EventModel>)
    requires
        is_in_subset(s),
        s.projection@.len() == 1,
        is_count_item(s.projection@[0]) || is_sum_item(s.projection@[0]),
        s.group_by->Expressions_0@.len() == 0,
        forall|i: int|
            0 <= i < events.len() ==> (#[trigger] events[i]).wf() && events[i].timestamp_ms
                < i64::MAX,
        reconcile::turnover(events) <= i128::MAX,
        events.len() <= u64::MAX,
    ensures
        sql::select_plan(s) matches Ok(p) && {
            &&& p.metrics == if is_count_item(s.projection@[0]) {
                seq![("count"@, AggregationFunction::Count)]
            } else {
                seq![("quantity"@, AggregationFunction::Sum)]
            }
            &&& p.group_by.len() == 0
            &&& executor::answer(p, Seq::empty(), events).len() == 1
            &&& meaning::is_row_of(
                p,
                executor::answer(p, Seq::empty(), events)[0],
                Seq::empty(),
                totals::event_total(events.filter(|e: EventModel| is_about(s, e))),
                events.filter(|e: EventModel| is_about(s, e)).len() as int,
            )
            &&& p.metrics[0].0 == if is_count_item(s.projection@[0]) {
                "count"@
            } else {
                "quantity"@
            }
        },
{
    let item = s.projection@[0];
    let nobody = lemma_some_event();
    law_selects(s, nobody);
    let p = sql::select_plan(s)->Ok_0;
    lemma_call(item);
    law_selections(s.projection@);
    assert(s.projection@.drop_last() =~= Seq::empty());
    assert(s.projection@.last() == item);
    let made = sql::projection(s.projection@)->Ok_0;
    assert(sql::projection(s.projection@.drop_last()) == Ok::<Projection, Seq<char>>(
        Projection { columns: Seq::empty(), metrics: Seq::empty() },
    ));
    assert(made.columns =~= Seq::empty());
    law_groupings(s.group_by->Expressions_0@, made.columns);
    if let Some(cond) = s.selection {
        let open_plan = PlanModel {
            source: sql::table_source(s.from@)->Ok_0,
            account_id: None,
            from_ms: i64::MIN,
            to_ms: i64::MAX,
            filters: Seq::empty(),
            group_by: sql::select_grouping(s.group_by, made.columns)->Ok_0,
            metrics: made.metrics,
            limit: None,
        };
        law_where_clauses(cond, open_plan, nobody);
    }
    assert(p.metrics == made.metrics);
    if is_count_item(item) {
        assert(p.metrics =~= seq![("count"@, AggregationFunction::Count)]);
    } else {
        assert(p.metrics =~= seq![("quantity"@, AggregationFunction::Sum)]);
    }
    meaning::law_answers_for_totals(p, events);
    let lets_through = |e: EventModel| executor::event_matches(p, e);
    let about = |e: EventModel| is_about(s, e);
    assert forall|i: int| 0 <= i < events.len() implies lets_through(#[trigger] events[i]) == about(
        events[i],
    ) by {
        law_selects(s, events[i]);
    }
    meaning::lemma_same_filter(events, lets_through, about);
}

/// There are events with nothing unusual about them.
proof fn lemma_some_event() -> (e: EventModel)
    ensures
        e.wf(),
        e.timestamp_ms == 0,
{
    EventModel {
        event_id: Seq::empty(),
        kind: EventKind::Usage,
        correction_ref: None,
        account_id: Seq::empty(),
        subscription_id: None,
        product_id: Seq::empty(),
        meter_id: Seq::empty(),
        timestamp_ms: 0,
        quantity: 0,
        unit: Seq::empty(),
        source: Seq::empty(),
        model_id: None,
        dimensions: Seq::empty(),
        ingested_at_ms: 0,
    }
}

/// The words `LIMIT ALL BY` stand there in a row.
pub open spec fn says_limit_all_by(words: Seq<SqlToken>) -> bool {
    exists|i: int|
        0 <= i && i + 2 < words.len() && #[trigger] words[i] == SqlToken::Limit && words[i + 1]
            == SqlToken::All && words[i + 2] == SqlToken::By
}

/// A text gives a plan exactly where it can be parsed, nowhere says `LIMIT ALL BY`, and
/// its statements give that plan.
pub proof fn law_texts_of_queries(
    tokens: Option<Seq<SqlToken>>,
    parsed: Result<Seq<SqlStatement>, Seq<char>>,
)
    ensures
        ({
            let refused = tokens matches Some(t) && says_limit_all_by(
                t.filter(|w: SqlToken| w != SqlToken::Space),
            );
            match sql::text_plan(tokens, parsed) {
                Ok(p) => !refused && parsed is Ok && sql::statements_plan(parsed->Ok_0) == Ok::<
                    PlanModel,
                    Seq<char>,
                >(p),
                Err(_) => refused || parsed is Err || sql::statements_plan(parsed->Ok_0) is Err,
            }
        }),
{
    if let Some(t) = tokens {
        lemma_significant(t);
        let words = t.filter(|w: SqlToken| w != SqlToken::Space);
        if syntax::limits_all_by(t) {
            let i = choose|i: int|
                0 <= i && i + 2 < words.len() && #[trigger] syntax::limit_all_by_at(words, i);
            assert(words[i] == SqlToken::Limit);
        }
        if says_limit_all_by(words) {
            let i = choose|i: int|
                0 <= i && i + 2 < words.len() && #[trigger] words[i] == SqlToken::Limit && words[i
                    + 1] == SqlToken::All && words[i + 2] == SqlToken::By;
            assert(syntax::limit_all_by_at(words, i));
        }
    }
}

proof fn lemma_significant(tokens: Seq<SqlToken>)
    ensures
        syntax::significant(tokens) == tokens.filter(|w: SqlToken| w != SqlToken::Space),
    decreases tokens.len(),
{
    reveal(Seq::filter);
    if tokens.len() > 0 {
        lemma_significant(tokens.drop_last());
    } else {
        assert(syntax::significant(tokens) =~= tokens.filter(
            |w: SqlToken| w != SqlToken::Space,
        ));
    }
}

} // verus!
