//! The strict SQL subset.
//!
//! Accepted is
//! `SELECT [column, ...] [SUM(quantity)] [COUNT(*)]
//!  FROM (usage_events | usage_rollup_hourly)
//!  [WHERE conjunction of equalities and ranges]
//!  [GROUP BY column, ...]
//!  [LIMIT number]`.
//! Anything else is refused with a precise message, as a query that is silently
//! read as another one gives a wrong bill.

use vstd::prelude::*;

use crate::query::plan;
use crate::query::plan::{AggregationFunction, PlanModel, QueryFilter, QueryPlan, QuerySource};
use crate::query::syntax;
use crate::query::syntax::{
    has_limit_all_by, parse_statements, tokenize, SqlArgument, SqlArguments, SqlBody, SqlCall,
    SqlCallExtras, SqlExpr, SqlGroupBy, SqlItem, SqlLimit, SqlNode, SqlOperator, SqlOrderBy,
    SqlQuery, SqlQueryExtras, SqlRelation, SqlSelect, SqlSelectExtras, SqlStatement, SqlTable,
    SqlTableExtras, SqlToken,
};
use crate::text;
use crate::text::{
    contains_text, decimal_of, join2, join3, parse_int, same_text, to_upper,
};
use crate::textmap;
use crate::textmap::TextMap;

verus! {

/// A plan or an error message, by their contents.
pub open spec fn outcome(r: Result<QueryPlan, String>) -> Result<PlanModel, Seq<char>> {
    match r {
        Ok(p) => Ok(p@),
        Err(e) => Err(e@),
    }
}

// ---------------------------------------------------------------------------
// WHERE
// ---------------------------------------------------------------------------

/// The text of a literal.
pub open spec fn literal(e: SqlExpr) -> Result<Seq<char>, Seq<char>> {
    match e.node {
        SqlNode::Text(t) => Ok(t@),
        SqlNode::Number(n) => Ok(n@),
        SqlNode::OtherLiteral(d) => Err("unsupported literal: "@ + d@),
        _ => Err("expected a literal, got `"@ + e.text@ + "`"@),
    }
}

/// The texts of literals, or the error of the first that is none.
pub open spec fn literals(list: Seq<SqlExpr>) -> Result<Seq<Seq<char>>, Seq<char>>
    decreases list.len(),
{
    if list.len() == 0 {
        Ok(Seq::empty())
    } else {
        match literals(list.drop_last()) {
            Err(e) => Err(e),
            Ok(values) => match literal(list.last()) {
                Err(e) => Err(e),
                Ok(v) => Ok(values.push(v)),
            },
        }
    }
}

/// The plan with one more condition: a single account narrows the plan itself,
/// anything else is a filter, and so is a second account.
pub open spec fn with_field(p: PlanModel, field: Seq<char>, values: Seq<Seq<char>>) -> PlanModel {
    if field == "account_id"@ && values.len() == 1 && p.account_id is None {
        PlanModel { account_id: Some(values[0]), ..p }
    } else {
        PlanModel { filters: p.filters.push(plan::FilterModel { field, values }), ..p }
    }
}

pub open spec fn max64(a: i64, b: i64) -> i64 {
    if a >= b {
        a
    } else {
        b
    }
}

pub open spec fn min64(a: i64, b: i64) -> i64 {
    if a <= b {
        a
    } else {
        b
    }
}

/// One above `v`, unless `v` is the greatest number.
pub open spec fn one_above(v: i64) -> i64 {
    if v == i64::MAX {
        v
    } else {
        (v + 1) as i64
    }
}

/// The plan whose half-open time range is narrowed by a comparison with `v`.
pub open spec fn with_bound(p: PlanModel, op: SqlOperator, v: i64) -> PlanModel {
    match op {
        SqlOperator::Gt => PlanModel { from_ms: max64(p.from_ms, one_above(v)), ..p },
        SqlOperator::GtEq => PlanModel { from_ms: max64(p.from_ms, v), ..p },
        SqlOperator::Lt => PlanModel { to_ms: min64(p.to_ms, v), ..p },
        _ => PlanModel { to_ms: min64(p.to_ms, one_above(v)), ..p },
    }
}

pub open spec fn equality(left: SqlExpr, right: SqlExpr, p: PlanModel) -> Result<
    PlanModel,
    Seq<char>,
> {
    match left.node {
        SqlNode::Column(field) => match literal(right) {
            Err(e) => Err(e),
            Ok(v) => Ok(with_field(p, field@, seq![v])),
        },
        _ => Err("equality: left side must be a column name"@),
    }
}

pub open spec fn membership(subject: SqlExpr, list: Seq<SqlExpr>, p: PlanModel) -> Result<
    PlanModel,
    Seq<char>,
> {
    match subject.node {
        SqlNode::Column(field) => match literals(list) {
            Err(e) => Err(e),
            Ok(values) => Ok(with_field(p, field@, values)),
        },
        _ => Err("IN: left side must be a column name"@),
    }
}

pub open spec fn range(left: SqlExpr, op: SqlOperator, right: SqlExpr, p: PlanModel) -> Result<
    PlanModel,
    Seq<char>,
> {
    match left.node {
        SqlNode::Column(field) => if field@ != "timestamp_ms"@ && field@ != "hour_start_ms"@ {
            Err(
                "range comparison only supported on timestamp_ms / hour_start_ms (got `"@ + field@
                    + "`)"@,
            )
        } else {
            match literal(right) {
                Err(e) => Err(e),
                Ok(v) => match text::int_value(v, i64::MIN as int, i64::MAX as int) {
                    Err(f) => Err(
                        "range comparison value must parse as i64: "@ + text::int_fault_text(f),
                    ),
                    Ok(n) => Ok(with_bound(p, op, n as i64)),
                },
            }
        },
        _ => Err("range comparison: left side must be a column name"@),
    }
}

/// The plan narrowed by a condition: a conjunction, an equality, a membership or
/// a comparison of times.
pub open spec fn conditions(e: SqlExpr, p: PlanModel) -> Result<PlanModel, Seq<char>>
    decreases e,
{
    match e.node {
        SqlNode::Binary(left, op, right) => match op {
            SqlOperator::And => match conditions(*left, p) {
                Err(m) => Err(m),
                Ok(q) => conditions(*right, q),
            },
            SqlOperator::Or => Err("OR in WHERE is not supported"@),
            SqlOperator::Eq => equality(*left, *right, p),
            SqlOperator::Other(name) => Err("unsupported operator `"@ + name@ + "` in WHERE"@),
            _ => range(*left, op, *right, p),
        },
        SqlNode::InList { subject, list, negated } => if negated {
            Err("NOT IN is not supported"@)
        } else {
            membership(*subject, list@, p)
        },
        _ => Err("unsupported WHERE expression: "@ + e.text@),
    }
}

fn extract_literal(e: &SqlExpr) -> (r: Result<String, String>)
    ensures
        match r {
            Ok(v) => literal(*e) == Ok::<Seq<char>, Seq<char>>(v@),
            Err(m) => literal(*e) == Err::<Seq<char>, Seq<char>>(m@),
        },
{
    match &e.node {
        SqlNode::Text(t) => Ok(t.clone()),
        SqlNode::Number(n) => Ok(n.clone()),
        SqlNode::OtherLiteral(d) => Err(join2("unsupported literal: ", d.as_str())),
        _ => Err(join3("expected a literal, got `", e.text.as_str(), "`")),
    }
}

fn extract_literals(list: &Vec<SqlExpr>) -> (r: Result<Vec<String>, String>)
    ensures
        match r {
            Ok(v) => literals(list@) == Ok::<Seq<Seq<char>>, Seq<char>>(text::text_views(v@)),
            Err(m) => literals(list@) == Err::<Seq<Seq<char>>, Seq<char>>(m@),
        },
{
    let mut values: Vec<String> = Vec::new();
    assert(text::text_views(values@) =~= Seq::empty());
    for i in 0..list.len()
        invariant
            literals(list@.take(i as int)) == Ok::<Seq<Seq<char>>, Seq<char>>(
                text::text_views(values@),
            ),
    {
        let ghost upto = list@.take(i + 1);
        assert(upto.drop_last() =~= list@.take(i as int));
        assert(upto.last() == list@[i as int]);
        match extract_literal(&list[i]) {
            Ok(v) => {
                proof {
                    text::lemma_texts_push(values@, v);
                }
                values.push(v);
            },
            Err(m) => {
                proof {
                    lemma_literals_fail(list@, i + 1);
                }
                return Err(m);
            },
        }
    }
    assert(list@.take(list@.len() as int) =~= list@);
    Ok(values)
}

proof fn lemma_literals_fail(list: Seq<SqlExpr>, n: int)
    requires
        0 <= n <= list.len(),
        literals(list.take(n)) is Err,
    ensures
        literals(list) == literals(list.take(n)),
    decreases list.len() - n,
{
    if n < list.len() {
        assert(list.take(n + 1).drop_last() =~= list.take(n));
        lemma_literals_fail(list, n + 1);
    } else {
        assert(list.take(n) =~= list);
    }
}

fn apply_field(field: String, values: Vec<String>, plan: QueryPlan) -> (r: QueryPlan)
    ensures
        r@ == with_field(plan@, field@, text::text_views(values@)),
{
    let mut plan = plan;
    if same_text(field.as_str(), "account_id") && values.len() == 1 && plan.account_id.is_none() {
        let account = values[0].clone();
        assert(text::text_views(values@)[0] == values@[0]@);
        plan.account_id = Some(account);
        plan
    } else {
        let f = QueryFilter { field, values };
        proof {
            plan::lemma_filters_push(plan.filters@, f);
        }
        plan.filters.push(f);
        plan
    }
}

fn apply_eq(left: &SqlExpr, right: &SqlExpr, plan: QueryPlan) -> (r: Result<QueryPlan, String>)
    ensures
        outcome(r) == equality(*left, *right, plan@),
{
    let field = match &left.node {
        SqlNode::Column(field) => field.clone(),
        _ => {
            return Err("equality: left side must be a column name".to_owned());
        },
    };
    match extract_literal(right) {
        Err(m) => Err(m),
        Ok(v) => {
            let mut values: Vec<String> = Vec::new();
            values.push(v);
            assert(text::text_views(values@) =~= seq![v@]);
            Ok(apply_field(field, values, plan))
        },
    }
}

fn apply_in(subject: &SqlExpr, list: &Vec<SqlExpr>, plan: QueryPlan) -> (r: Result<
    QueryPlan,
    String,
>)
    ensures
        outcome(r) == membership(*subject, list@, plan@),
{
    let field = match &subject.node {
        SqlNode::Column(field) => field.clone(),
        _ => {
            return Err("IN: left side must be a column name".to_owned());
        },
    };
    match extract_literals(list) {
        Err(m) => Err(m),
        Ok(values) => Ok(apply_field(field, values, plan)),
    }
}

fn apply_range(left: &SqlExpr, op: &SqlOperator, right: &SqlExpr, plan: QueryPlan) -> (r: Result<
    QueryPlan,
    String,
>)
    ensures
        outcome(r) == range(*left, *op, *right, plan@),
{
    let field = match &left.node {
        SqlNode::Column(field) => field,
        _ => {
            return Err("range comparison: left side must be a column name".to_owned());
        },
    };
    if !same_text(field.as_str(), "timestamp_ms") && !same_text(field.as_str(), "hour_start_ms") {
        return Err(
            join3(
                "range comparison only supported on timestamp_ms / hour_start_ms (got `",
                field.as_str(),
                "`)",
            ),
        );
    }
    let value = match extract_literal(right) {
        Err(m) => {
            return Err(m);
        },
        Ok(v) => v,
    };
    let v: i64 = match parse_int(value.as_str(), i64::MIN as i128, i64::MAX as i128) {
        Err(f) => {
            let why = f.message();
            return Err(join2("range comparison value must parse as i64: ", why.as_str()));
        },
        Ok(n) => {
            proof {
                lemma_value_in_range(value@, i64::MIN as int, i64::MAX as int);
            }
            n as i64
        },
    };
    let above: i64 = if v == i64::MAX {
        v
    } else {
        v + 1
    };
    let mut plan = plan;
    match op {
        SqlOperator::Gt => {
            if plan.from_ms < above {
                plan.from_ms = above;
            }
        },
        SqlOperator::GtEq => {
            if plan.from_ms < v {
                plan.from_ms = v;
            }
        },
        SqlOperator::Lt => {
            if plan.to_ms > v {
                plan.to_ms = v;
            }
        },
        _ => {
            if plan.to_ms > above {
                plan.to_ms = above;
            }
        },
    }
    Ok(plan)
}

proof fn lemma_digits_in_range(s: Seq<char>, negative: bool, acc: int, min: int, max: int)
    requires
        min <= acc <= max,
    ensures
        text::digits_value(s, negative, acc, min, max) matches Ok(n) ==> min <= n <= max,
    decreases s.len(),
{
    if s.len() > 0 && text::is_digit(s[0]) {
        let d = s[0] as int - 48;
        let next = if negative {
            acc * 10 - d
        } else {
            acc * 10 + d
        };
        if min <= next <= max {
            lemma_digits_in_range(s.drop_first(), negative, next, min, max);
        }
    }
}

/// What is read as an integer of a range lies in that range.
pub proof fn lemma_value_in_range(s: Seq<char>, min: int, max: int)
    requires
        min <= 0 <= max,
    ensures
        text::int_value(s, min, max) matches Ok(n) ==> min <= n <= max,
{
    if s.len() > 0 {
        lemma_digits_in_range(s.drop_first(), false, 0, min, max);
        lemma_digits_in_range(s.drop_first(), true, 0, min, max);
        lemma_digits_in_range(s, false, 0, min, max);
    }
}

/// Walks a `WHERE` clause and narrows the plan by it.
fn extract_filters(e: &SqlExpr, plan: QueryPlan) -> (r: Result<QueryPlan, String>)
    ensures
        outcome(r) == conditions(*e, plan@),
    decreases *e,
{
    match &e.node {
        SqlNode::Binary(left, op, right) => match op {
            SqlOperator::And => match extract_filters(left, plan) {
                Err(m) => Err(m),
                Ok(q) => extract_filters(right, q),
            },
            SqlOperator::Or => Err("OR in WHERE is not supported".to_owned()),
            SqlOperator::Eq => apply_eq(left, right, plan),
            SqlOperator::Other(name) => Err(
                join3("unsupported operator `", name.as_str(), "` in WHERE"),
            ),
            _ => apply_range(left, op, right, plan),
        },
        SqlNode::InList { subject, list, negated } => if *negated {
            Err("NOT IN is not supported".to_owned())
        } else {
            apply_in(subject, list, plan)
        },
        _ => Err(join2("unsupported WHERE expression: ", e.text.as_str())),
    }
}

// ---------------------------------------------------------------------------
// SELECT
// ---------------------------------------------------------------------------

/// The expression of a function argument.
pub open spec fn argument_expr(arg: SqlArgument) -> Result<SqlExpr, Seq<char>> {
    match arg {
        SqlArgument::Expr(e) => Ok(e),
        SqlArgument::Wildcard => Err("wildcard not valid here"@),
        SqlArgument::QualifiedWildcard => Err("qualified wildcard not valid here"@),
        SqlArgument::WildcardWithOptions => Err("wildcard with options not valid here"@),
        SqlArgument::Named => Err("named function arguments are not supported"@),
        SqlArgument::ExprNamed => Err("named expression arguments are not supported"@),
    }
}

/// `SUM(quantity)`, and no other sum.
pub open spec fn sum_metric(args: Seq<SqlArgument>) -> Result<
    (Seq<char>, AggregationFunction),
    Seq<char>,
> {
    if args.len() != 1 {
        Err("SUM takes exactly one argument, got "@ + text::decimal(args.len() as int))
    } else {
        match argument_expr(args[0]) {
            Err(m) => Err(m),
            Ok(e) => if e.node matches SqlNode::Column(c) && c@ == "quantity"@ {
                Ok(("quantity"@, AggregationFunction::Sum))
            } else {
                Err("SUM only supports the `quantity` column; got SUM("@ + e.text@ + ")"@)
            },
        }
    }
}

/// `COUNT(*)`, and no other count.
pub open spec fn count_metric(args: Seq<SqlArgument>) -> Result<
    (Seq<char>, AggregationFunction),
    Seq<char>,
> {
    if args.len() != 1 {
        Err("COUNT takes exactly one argument, got "@ + text::decimal(args.len() as int))
    } else if args[0] is Wildcard {
        Ok(("count"@, AggregationFunction::Count))
    } else {
        Err("COUNT only supports COUNT(*) in this build — column-counting not implemented"@)
    }
}

/// Nothing stands around the arguments of a call.
pub open spec fn bare_call(x: SqlCallExtras) -> bool {
    !x.parameters && x.within_group == 0 && !x.filter && !x.null_treatment && !x.over
}

fn is_bare_call(x: &SqlCallExtras) -> (r: bool)
    ensures
        r == bare_call(*x),
{
    !x.parameters && x.within_group == 0 && !x.filter && !x.null_treatment && !x.over
}

/// The metric that a function call asks for, under the name of its column.
pub open spec fn call_metric(call: SqlCall) -> Result<(Seq<char>, AggregationFunction), Seq<char>> {
    let name = text::uppercase(call.name@);
    match call.arguments {
        SqlArguments::Other => Err("unsupported function arguments for "@ + name),
        SqlArguments::List { duplicate_treatment, clauses, args } => if duplicate_treatment {
            Err(name + ": DISTINCT/ALL not supported"@)
        } else if clauses != 0 {
            Err(name + ": extra argument clauses not supported"@)
        } else if !bare_call(call.extras) {
            Err(name + ": clauses around the arguments not supported"@)
        } else if name == "SUM"@ {
            sum_metric(args@)
        } else if name == "COUNT"@ {
            count_metric(args@)
        } else {
            Err("unsupported aggregate function: "@ + name)
        },
    }
}

/// The columns and the metrics of a projection.
pub struct Projection {
    pub columns: Seq<Seq<char>>,
    pub metrics: Seq<(Seq<char>, AggregationFunction)>,
}

/// What one more item adds to a projection.
pub open spec fn with_item(p: Projection, item: SqlItem) -> Result<Projection, Seq<char>> {
    match item {
        SqlItem::Expr(e) => match e.node {
            SqlNode::Column(c) => Ok(Projection { columns: p.columns.push(c@), ..p }),
            SqlNode::Path(names) => if names@.len() == 1 {
                Ok(Projection { columns: p.columns.push(names@[0]@), ..p })
            } else {
                Err("unsupported projection expression: "@ + e.text@)
            },
            SqlNode::Call(call) => match call_metric(*call) {
                Err(m) => Err(m),
                Ok((name, f)) => Ok(
                    Projection { metrics: textmap::inserted(p.metrics, name, f), ..p },
                ),
            },
            _ => Err("unsupported projection expression: "@ + e.text@),
        },
        SqlItem::Aliased => Err("column aliases (AS) are not supported"@),
        SqlItem::Wildcard => Err("SELECT * is not supported — specify columns or aggregates"@),
        SqlItem::QualifiedWildcard => Err("qualified wildcards (table.*) are not supported"@),
        SqlItem::MultiAliased => Err("multi-alias projections are not supported"@),
    }
}

/// The projection of all items, or the error of the first that is refused.
pub open spec fn projection(items: Seq<SqlItem>) -> Result<Projection, Seq<char>>
    decreases items.len(),
{
    if items.len() == 0 {
        Ok(Projection { columns: Seq::empty(), metrics: Seq::empty() })
    } else {
        match projection(items.drop_last()) {
            Err(m) => Err(m),
            Ok(p) => with_item(p, items.last()),
        }
    }
}

/// The grouping columns: those of the projection, then those of `GROUP BY` that
/// are not among them.
pub open spec fn grouping(exprs: Seq<SqlExpr>, columns: Seq<Seq<char>>) -> Result<
    Seq<Seq<char>>,
    Seq<char>,
>
    decreases exprs.len(),
{
    if exprs.len() == 0 {
        Ok(columns)
    } else {
        match grouping(exprs.drop_last(), columns) {
            Err(m) => Err(m),
            Ok(before) => match exprs.last().node {
                SqlNode::Column(c) => if before.contains(c@) {
                    Ok(before)
                } else {
                    Ok(before.push(c@))
                },
                _ => Err("unsupported GROUP BY expression: "@ + exprs.last().text@),
            },
        }
    }
}

/// The clause that only some dialects have, where there is one.
pub open spec fn dialect_clause(x: SqlSelectExtras) -> Option<Seq<char>> {
    if !x.standard {
        Some("a query must begin with SELECT"@)
    } else if x.modifiers {
        Some("SELECT modifiers are not supported"@)
    } else if x.top {
        Some("TOP is not supported"@)
    } else if x.exclude {
        Some("EXCLUDE is not supported"@)
    } else if x.into {
        Some("SELECT INTO is not supported"@)
    } else if x.lateral_views != 0 {
        Some("LATERAL VIEW is not supported"@)
    } else if x.prewhere {
        Some("PREWHERE is not supported"@)
    } else if x.connect_by != 0 {
        Some("CONNECT BY is not supported"@)
    } else if x.value_table_mode {
        Some("SELECT AS is not supported"@)
    } else {
        None
    }
}

fn find_dialect_clause(x: &SqlSelectExtras) -> (r: Option<String>)
    ensures
        text::option_view(r) == dialect_clause(*x),
{
    if !x.standard {
        Some("a query must begin with SELECT".to_owned())
    } else if x.modifiers {
        Some("SELECT modifiers are not supported".to_owned())
    } else if x.top {
        Some("TOP is not supported".to_owned())
    } else if x.exclude {
        Some("EXCLUDE is not supported".to_owned())
    } else if x.into {
        Some("SELECT INTO is not supported".to_owned())
    } else if x.lateral_views != 0 {
        Some("LATERAL VIEW is not supported".to_owned())
    } else if x.prewhere {
        Some("PREWHERE is not supported".to_owned())
    } else if x.connect_by != 0 {
        Some("CONNECT BY is not supported".to_owned())
    } else if x.value_table_mode {
        Some("SELECT AS is not supported".to_owned())
    } else {
        None
    }
}

/// The clauses of a `SELECT` that are refused, in the order in which they are
/// looked at.
pub open spec fn refused_clause(s: SqlSelect) -> Option<Seq<char>> {
    if s.distinct {
        Some("SELECT DISTINCT is not supported"@)
    } else if s.named_window != 0 {
        Some("WINDOW clauses are not supported"@)
    } else if s.having {
        Some("HAVING is not supported"@)
    } else if s.qualify {
        Some("QUALIFY is not supported"@)
    } else if s.cluster_by != 0 || s.distribute_by != 0 || s.sort_by != 0 {
        Some("CLUSTER BY / DISTRIBUTE BY / SORT BY are not supported"@)
    } else {
        dialect_clause(s.extras)
    }
}

/// Nothing else is said of a table.
pub open spec fn bare_table(x: SqlTableExtras) -> bool {
    x.with_hints == 0 && !x.with_ordinality && x.partitions == 0 && !x.json_path && !x.sample
        && x.index_hints == 0
}

fn is_bare_table(x: &SqlTableExtras) -> (r: bool)
    ensures
        r == bare_table(*x),
{
    x.with_hints == 0 && !x.with_ordinality && x.partitions == 0 && !x.json_path && !x.sample
        && x.index_hints == 0
}

/// The records that the only table of a `FROM` clause stands for.
pub open spec fn table_source(from: Seq<SqlTable>) -> Result<QuerySource, Seq<char>> {
    if from.len() != 1 {
        Err("exactly one FROM table is required"@)
    } else if from[0].joins != 0 {
        Err("JOINs are not supported"@)
    } else {
        match from[0].relation {
            SqlRelation::Other => Err("FROM must reference a simple table"@),
            SqlRelation::Table { name, alias, args, version, extras } => if alias {
                Err("table aliases are not supported"@)
            } else if args {
                Err("table-valued function syntax is not supported"@)
            } else if version {
                Err("AS OF / table version qualifiers are not supported"@)
            } else if !bare_table(extras) {
                Err("table hints, partitions and samples are not supported"@)
            } else if name@ == "usage_events"@ {
                Ok(QuerySource::RawEvents)
            } else if name@ == "usage_rollup_hourly"@ {
                Ok(QuerySource::RollupHourly)
            } else {
                Err(
                    "unknown table `"@ + name@
                        + "` (expected usage_events or usage_rollup_hourly)"@,
                )
            },
        }
    }
}

/// The grouping of a `SELECT`.
pub open spec fn select_grouping(g: SqlGroupBy, columns: Seq<Seq<char>>) -> Result<
    Seq<Seq<char>>,
    Seq<char>,
> {
    match g {
        SqlGroupBy::All => Err("GROUP BY ALL is not supported"@),
        SqlGroupBy::Expressions(exprs, modifiers) => if modifiers != 0 {
            Err("GROUP BY modifiers (ROLLUP/CUBE/etc) are not supported"@)
        } else {
            grouping(exprs@, columns)
        },
    }
}

/// The plan of a `SELECT`.
pub open spec fn select_plan(s: SqlSelect) -> Result<PlanModel, Seq<char>> {
    match refused_clause(s) {
        Some(m) => Err(m),
        None => match table_source(s.from@) {
            Err(m) => Err(m),
            Ok(source) => match projection(s.projection@) {
                Err(m) => Err(m),
                Ok(p) => match select_grouping(s.group_by, p.columns) {
                    Err(m) => Err(m),
                    Ok(group_by) => {
                        let open_plan = PlanModel {
                            source,
                            account_id: None,
                            from_ms: i64::MIN,
                            to_ms: i64::MAX,
                            filters: Seq::empty(),
                            group_by,
                            metrics: p.metrics,
                            limit: None,
                        };
                        match s.selection {
                            None => Ok(open_plan),
                            Some(e) => conditions(e, open_plan),
                        }
                    },
                },
            },
        },
    }
}

/// Whether an `ORDER BY` clause orders anything.
pub open spec fn orders(o: Option<SqlOrderBy>) -> bool {
    match o {
        None => false,
        Some(SqlOrderBy::Expressions(n)) => n != 0,
        Some(SqlOrderBy::All) => true,
    }
}

/// The clause behind a query that is refused, where there is one.
pub open spec fn trailing_clause(x: SqlQueryExtras) -> Option<Seq<char>> {
    if x.fetch {
        Some("FETCH is not supported"@)
    } else if x.locks != 0 || x.for_clause {
        Some("FOR is not supported"@)
    } else if x.settings {
        Some("SETTINGS is not supported"@)
    } else if x.format_clause {
        Some("FORMAT is not supported"@)
    } else if x.pipe_operators != 0 {
        Some("pipe operators are not supported"@)
    } else {
        None
    }
}

fn find_trailing_clause(x: &SqlQueryExtras) -> (r: Option<String>)
    ensures
        text::option_view(r) == trailing_clause(*x),
{
    if x.fetch {
        Some("FETCH is not supported".to_owned())
    } else if x.locks != 0 || x.for_clause {
        Some("FOR is not supported".to_owned())
    } else if x.settings {
        Some("SETTINGS is not supported".to_owned())
    } else if x.format_clause {
        Some("FORMAT is not supported".to_owned())
    } else if x.pipe_operators != 0 {
        Some("pipe operators are not supported".to_owned())
    } else {
        None
    }
}

/// How many rows a `LIMIT` clause lets through: it is an integer literal, with no
/// offset and no `BY`.
pub open spec fn row_limit(l: SqlLimit) -> Result<usize, Seq<char>> {
    let refused = "only LIMIT with an integer literal is supported (got `"@ + l.text@ + "`)"@;
    if l.offset || l.by != 0 {
        Err(refused)
    } else {
        match l.limit {
            Some(e) => match e.node {
                SqlNode::Number(n) => match text::int_value(n@, 0, usize::MAX as int) {
                    Ok(v) => Ok(v as usize),
                    Err(_) => Err(refused),
                },
                _ => Err(refused),
            },
            None => Err(refused),
        }
    }
}

fn read_limit(l: &SqlLimit) -> (r: Result<usize, String>)
    ensures
        match r {
            Ok(n) => row_limit(*l) == Ok::<usize, Seq<char>>(n),
            Err(m) => row_limit(*l) == Err::<usize, Seq<char>>(m@),
        },
{
    if !l.offset && l.by == 0 {
        if let Some(e) = &l.limit {
            if let SqlNode::Number(n) = &e.node {
                if let Ok(v) = parse_int(n.as_str(), 0, usize::MAX as i128) {
                    proof {
                        lemma_value_in_range(n@, 0, usize::MAX as int);
                    }
                    return Ok(v as usize);
                }
            }
        }
    }
    Err(join3("only LIMIT with an integer literal is supported (got `", l.text.as_str(), "`)"))
}

/// The plan of a query.
pub open spec fn query_plan(q: SqlQuery) -> Result<PlanModel, Seq<char>> {
    if orders(q.order_by) {
        Err("ORDER BY is not supported"@)
    } else if q.with {
        Err("WITH/CTE is not supported"@)
    } else if trailing_clause(q.extras) is Some {
        Err(trailing_clause(q.extras)->0)
    } else {
        match q.body {
            SqlBody::Other => Err(
                "compound queries (UNION/INTERSECT/EXCEPT) are not supported"@,
            ),
            SqlBody::Select(s) => match select_plan(*s) {
                Err(m) => Err(m),
                Ok(p) => match q.limit {
                    Some(l) => match row_limit(l) {
                        Err(m) => Err(m),
                        Ok(n) => Ok(PlanModel { limit: Some(n), ..p }),
                    },
                    None => Ok(p),
                },
            },
        }
    }
}

/// The plan of a parsed text: one query, and nothing beside it.
pub open spec fn statements_plan(statements: Seq<SqlStatement>) -> Result<PlanModel, Seq<char>> {
    if statements.len() != 1 {
        Err("expected exactly one statement, got "@ + text::decimal(statements.len() as int))
    } else {
        match statements[0] {
            SqlStatement::Other => Err("only SELECT statements are supported"@),
            SqlStatement::Query(q) => query_plan(*q),
        }
    }
}

fn function_arg_expr(arg: &SqlArgument) -> (r: Result<&SqlExpr, String>)
    ensures
        match r {
            Ok(e) => argument_expr(*arg) == Ok::<SqlExpr, Seq<char>>(*e),
            Err(m) => argument_expr(*arg) == Err::<SqlExpr, Seq<char>>(m@),
        },
{
    match arg {
        SqlArgument::Expr(e) => Ok(e),
        SqlArgument::Wildcard => Err("wildcard not valid here".to_owned()),
        SqlArgument::QualifiedWildcard => Err("qualified wildcard not valid here".to_owned()),
        SqlArgument::WildcardWithOptions => Err("wildcard with options not valid here".to_owned()),
        SqlArgument::Named => Err("named function arguments are not supported".to_owned()),
        SqlArgument::ExprNamed => Err("named expression arguments are not supported".to_owned()),
    }
}

/// A metric or an error message, by their contents.
pub open spec fn metric_outcome(r: Result<(String, AggregationFunction), String>) -> Result<
    (Seq<char>, AggregationFunction),
    Seq<char>,
> {
    match r {
        Ok((name, f)) => Ok((name@, f)),
        Err(e) => Err(e@),
    }
}

fn parse_sum(args: &Vec<SqlArgument>) -> (r: Result<(String, AggregationFunction), String>)
    ensures
        metric_outcome(r) == sum_metric(args@),
{
    if args.len() != 1 {
        let n = decimal_of(args.len() as u128);
        return Err(join2("SUM takes exactly one argument, got ", n.as_str()));
    }
    match function_arg_expr(&args[0]) {
        Err(m) => Err(m),
        Ok(e) => {
            let is_quantity = match &e.node {
                SqlNode::Column(c) => same_text(c.as_str(), "quantity"),
                _ => false,
            };
            if is_quantity {
                Ok(("quantity".to_owned(), AggregationFunction::Sum))
            } else {
                Err(
                    join3("SUM only supports the `quantity` column; got SUM(", e.text.as_str(), ")"),
                )
            }
        },
    }
}

fn parse_count(args: &Vec<SqlArgument>) -> (r: Result<(String, AggregationFunction), String>)
    ensures
        metric_outcome(r) == count_metric(args@),
{
    if args.len() != 1 {
        let n = decimal_of(args.len() as u128);
        return Err(join2("COUNT takes exactly one argument, got ", n.as_str()));
    }
    match &args[0] {
        SqlArgument::Wildcard => Ok(("count".to_owned(), AggregationFunction::Count)),
        _ => Err(
            "COUNT only supports COUNT(*) in this build — column-counting not implemented".to_owned(),
        ),
    }
}

fn parse_aggregate(call: &SqlCall) -> (r: Result<(String, AggregationFunction), String>)
    ensures
        metric_outcome(r) == call_metric(*call),
{
    let name = to_upper(call.name.as_str());
    match &call.arguments {
        SqlArguments::Other => Err(join2("unsupported function arguments for ", name.as_str())),
        SqlArguments::List { duplicate_treatment, clauses, args } => if *duplicate_treatment {
            Err(join2(name.as_str(), ": DISTINCT/ALL not supported"))
        } else if *clauses != 0 {
            Err(join2(name.as_str(), ": extra argument clauses not supported"))
        } else if !is_bare_call(&call.extras) {
            Err(join2(name.as_str(), ": clauses around the arguments not supported"))
        } else if same_text(name.as_str(), "SUM") {
            parse_sum(args)
        } else if same_text(name.as_str(), "COUNT") {
            parse_count(args)
        } else {
            Err(join2("unsupported aggregate function: ", name.as_str()))
        },
    }
}

proof fn lemma_projection_fail(items: Seq<SqlItem>, n: int)
    requires
        0 <= n <= items.len(),
        projection(items.take(n)) is Err,
    ensures
        projection(items) == projection(items.take(n)),
    decreases items.len() - n,
{
    if n < items.len() {
        assert(items.take(n + 1).drop_last() =~= items.take(n));
        lemma_projection_fail(items, n + 1);
    } else {
        assert(items.take(n) =~= items);
    }
}

fn parse_projection(items: &Vec<SqlItem>) -> (r: Result<
    (Vec<String>, TextMap<AggregationFunction>),
    String,
>)
    ensures
        match r {
            Ok((columns, metrics)) => projection(items@) == Ok::<Projection, Seq<char>>(
                Projection { columns: text::text_views(columns@), metrics: metrics@ },
            ),
            Err(m) => projection(items@) == Err::<Projection, Seq<char>>(m@),
        },
{
    let mut columns: Vec<String> = Vec::new();
    let mut metrics: TextMap<AggregationFunction> = TextMap::new();
    assert(text::text_views(columns@) =~= Seq::empty());
    for i in 0..items.len()
        invariant
            projection(items@.take(i as int)) == Ok::<Projection, Seq<char>>(
                Projection { columns: text::text_views(columns@), metrics: metrics@ },
            ),
    {
        let ghost upto = items@.take(i + 1);
        assert(upto.drop_last() =~= items@.take(i as int));
        assert(upto.last() == items@[i as int]);
        let mut failure: Option<String> = None;
        match &items[i] {
            SqlItem::Expr(e) => match &e.node {
                SqlNode::Column(c) => {
                    let c = c.clone();
                    proof {
                        text::lemma_texts_push(columns@, c);
                    }
                    columns.push(c);
                },
                SqlNode::Path(names) => {
                    if names.len() == 1 {
                        let c = names[0].clone();
                        proof {
                            text::lemma_texts_push(columns@, c);
                        }
                        columns.push(c);
                    } else {
                        failure = Some(join2("unsupported projection expression: ", e.text.as_str()));
                    }
                },
                SqlNode::Call(call) => match parse_aggregate(call) {
                    Ok((name, f)) => {
                        metrics.insert(name, f);
                    },
                    Err(m) => {
                        failure = Some(m);
                    },
                },
                _ => {
                    failure = Some(join2("unsupported projection expression: ", e.text.as_str()));
                },
            },
            SqlItem::Aliased => {
                failure = Some("column aliases (AS) are not supported".to_owned());
            },
            SqlItem::Wildcard => {
                failure = Some(
                    "SELECT * is not supported — specify columns or aggregates".to_owned(),
                );
            },
            SqlItem::QualifiedWildcard => {
                failure = Some("qualified wildcards (table.*) are not supported".to_owned());
            },
            SqlItem::MultiAliased => {
                failure = Some("multi-alias projections are not supported".to_owned());
            },
        }
        if let Some(m) = failure {
            proof {
                lemma_projection_fail(items@, i + 1);
            }
            return Err(m);
        }
    }
    assert(items@.take(items@.len() as int) =~= items@);
    Ok((columns, metrics))
}

proof fn lemma_grouping_fail(exprs: Seq<SqlExpr>, columns: Seq<Seq<char>>, n: int)
    requires
        0 <= n <= exprs.len(),
        grouping(exprs.take(n), columns) is Err,
    ensures
        grouping(exprs, columns) == grouping(exprs.take(n), columns),
    decreases exprs.len() - n,
{
    if n < exprs.len() {
        assert(exprs.take(n + 1).drop_last() =~= exprs.take(n));
        lemma_grouping_fail(exprs, columns, n + 1);
    } else {
        assert(exprs.take(n) =~= exprs);
    }
}

fn parse_grouping(g: &SqlGroupBy, columns: Vec<String>) -> (r: Result<Vec<String>, String>)
    ensures
        match r {
            Ok(v) => select_grouping(*g, text::text_views(columns@)) == Ok::<
                Seq<Seq<char>>,
                Seq<char>,
            >(text::text_views(v@)),
            Err(m) => select_grouping(*g, text::text_views(columns@)) == Err::<
                Seq<Seq<char>>,
                Seq<char>,
            >(m@),
        },
{
    let (exprs, modifiers) = match g {
        SqlGroupBy::All => {
            return Err("GROUP BY ALL is not supported".to_owned());
        },
        SqlGroupBy::Expressions(exprs, modifiers) => (exprs, *modifiers),
    };
    if modifiers != 0 {
        return Err("GROUP BY modifiers (ROLLUP/CUBE/etc) are not supported".to_owned());
    }
    let ghost first = text::text_views(columns@);
    let mut group_by = columns;
    for i in 0..exprs.len()
        invariant
            first == text::text_views(columns@),
            select_grouping(*g, first) == grouping(exprs@, first),
            grouping(exprs@.take(i as int), first) == Ok::<Seq<Seq<char>>, Seq<char>>(
                text::text_views(group_by@),
            ),
    {
        let ghost upto = exprs@.take(i + 1);
        assert(upto.drop_last() =~= exprs@.take(i as int));
        assert(upto.last() == exprs@[i as int]);
        match &exprs[i].node {
            SqlNode::Column(c) => {
                if !contains_text(&group_by, c.as_str()) {
                    let c = c.clone();
                    proof {
                        text::lemma_texts_push(group_by@, c);
                    }
                    group_by.push(c);
                }
            },
            _ => {
                proof {
                    lemma_grouping_fail(exprs@, first, i + 1);
                }
                return Err(join2("unsupported GROUP BY expression: ", exprs[i].text.as_str()));
            },
        }
    }
    assert(exprs@.take(exprs@.len() as int) =~= exprs@);
    Ok(group_by)
}

fn parse_source(from: &Vec<SqlTable>) -> (r: Result<QuerySource, String>)
    ensures
        match r {
            Ok(s) => table_source(from@) == Ok::<QuerySource, Seq<char>>(s),
            Err(m) => table_source(from@) == Err::<QuerySource, Seq<char>>(m@),
        },
{
    if from.len() != 1 {
        return Err("exactly one FROM table is required".to_owned());
    }
    if from[0].joins != 0 {
        return Err("JOINs are not supported".to_owned());
    }
    match &from[0].relation {
        SqlRelation::Other => Err("FROM must reference a simple table".to_owned()),
        SqlRelation::Table { name, alias, args, version, extras } => if *alias {
            Err("table aliases are not supported".to_owned())
        } else if *args {
            Err("table-valued function syntax is not supported".to_owned())
        } else if *version {
            Err("AS OF / table version qualifiers are not supported".to_owned())
        } else if !is_bare_table(extras) {
            Err("table hints, partitions and samples are not supported".to_owned())
        } else if same_text(name.as_str(), "usage_events") {
            Ok(QuerySource::RawEvents)
        } else if same_text(name.as_str(), "usage_rollup_hourly") {
            Ok(QuerySource::RollupHourly)
        } else {
            Err(
                join3(
                    "unknown table `",
                    name.as_str(),
                    "` (expected usage_events or usage_rollup_hourly)",
                ),
            )
        },
    }
}

fn check_clauses(s: &SqlSelect) -> (r: Option<String>)
    ensures
        text::option_view(r) == refused_clause(*s),
{
    if s.distinct {
        Some("SELECT DISTINCT is not supported".to_owned())
    } else if s.named_window != 0 {
        Some("WINDOW clauses are not supported".to_owned())
    } else if s.having {
        Some("HAVING is not supported".to_owned())
    } else if s.qualify {
        Some("QUALIFY is not supported".to_owned())
    } else if s.cluster_by != 0 || s.distribute_by != 0 || s.sort_by != 0 {
        Some("CLUSTER BY / DISTRIBUTE BY / SORT BY are not supported".to_owned())
    } else {
        find_dialect_clause(&s.extras)
    }
}

fn plan_select(s: &SqlSelect) -> (r: Result<QueryPlan, String>)
    ensures
        outcome(r) == select_plan(*s),
{
    if let Some(m) = check_clauses(s) {
        return Err(m);
    }
    let source = match parse_source(&s.from) {
        Err(m) => {
            return Err(m);
        },
        Ok(source) => source,
    };
    let (columns, metrics) = match parse_projection(&s.projection) {
        Err(m) => {
            return Err(m);
        },
        Ok(p) => p,
    };
    let group_by = match parse_grouping(&s.group_by, columns) {
        Err(m) => {
            return Err(m);
        },
        Ok(g) => g,
    };
    let plan = QueryPlan {
        source,
        account_id: None,
        from_ms: i64::MIN,
        to_ms: i64::MAX,
        filters: Vec::new(),
        group_by,
        metrics,
        limit: None,
    };
    assert(plan@.filters =~= Seq::empty());
    match &s.selection {
        None => Ok(plan),
        Some(e) => extract_filters(e, plan),
    }
}

fn plan_query(q: &SqlQuery) -> (r: Result<QueryPlan, String>)
    ensures
        outcome(r) == query_plan(*q),
{
    let ordered = match &q.order_by {
        None => false,
        Some(SqlOrderBy::Expressions(n)) => *n != 0,
        Some(SqlOrderBy::All) => true,
    };
    if ordered {
        return Err("ORDER BY is not supported".to_owned());
    }
    if q.with {
        return Err("WITH/CTE is not supported".to_owned());
    }
    if let Some(m) = find_trailing_clause(&q.extras) {
        return Err(m);
    }
    let plan = match &q.body {
        SqlBody::Other => {
            return Err("compound queries (UNION/INTERSECT/EXCEPT) are not supported".to_owned());
        },
        SqlBody::Select(s) => match plan_select(s) {
            Err(m) => {
                return Err(m);
            },
            Ok(p) => p,
        },
    };
    match &q.limit {
        Some(l) => match read_limit(l) {
            Err(m) => Err(m),
            Ok(n) => {
                let mut plan = plan;
                plan.limit = Some(n);
                Ok(plan)
            },
        },
        None => Ok(plan),
    }
}

/// The plan of the statements of a text.
pub fn plan_statements(statements: &Vec<SqlStatement>) -> (r: Result<QueryPlan, String>)
    ensures
        outcome(r) == statements_plan(statements@),
{
    if statements.len() != 1 {
        let n = decimal_of(statements.len() as u128);
        return Err(join2("expected exactly one statement, got ", n.as_str()));
    }
    match &statements[0] {
        SqlStatement::Other => Err("only SELECT statements are supported".to_owned()),
        SqlStatement::Query(q) => plan_query(q),
    }
}

/// The plan of a text with those tokens and those statements. `LIMIT ALL BY` is
/// refused wherever it stands, as no query that is supported has it.
pub open spec fn text_plan(
    tokens: Option<Seq<SqlToken>>,
    parsed: Result<Seq<SqlStatement>, Seq<char>>,
) -> Result<PlanModel, Seq<char>> {
    if tokens matches Some(t) && syntax::limits_all_by(t) {
        Err("LIMIT ALL BY is not supported"@)
    } else {
        match parsed {
            Ok(statements) => statements_plan(statements),
            Err(e) => Err(e),
        }
    }
}

fn says_limit_all_by(sql: &str) -> (r: bool)
    ensures
        r == (syntax::sql_tokens(sql@) matches Some(t) && syntax::limits_all_by(t)),
{
    match tokenize(sql) {
        Some(tokens) => has_limit_all_by(&tokens),
        None => false,
    }
}

/// Reads a query of the strict SQL subset.
pub fn parse_sql(sql: &str) -> (r: Result<QueryPlan, String>)
    ensures
        outcome(r) == text_plan(syntax::sql_tokens(sql@), syntax::parsed_sql(sql@)),
{
    if says_limit_all_by(sql) {
        return Err("LIMIT ALL BY is not supported".to_owned());
    }
    match parse_statements(sql) {
        Err(e) => Err(e),
        Ok(statements) => plan_statements(&statements),
    }
}

} // verus!
