//! The parts of a parsed SQL statement that the planner reads.

use sqlparser::ast;
use sqlparser::keywords;
use sqlparser::tokenizer;
use vstd::prelude::*;

verus! {

/// An operator between two expressions. An operator without a meaning of its own
/// here is kept by its name.
#[derive(Debug, PartialEq, Eq)]
pub enum SqlOperator {
    And,
    Or,
    Eq,
    Gt,
    GtEq,
    Lt,
    LtEq,
    Other(String),
}

/// An expression, together with its SQL text.
#[derive(Debug, PartialEq, Eq)]
pub struct SqlExpr {
    pub node: SqlNode,
    pub text: String,
}

#[derive(Debug, PartialEq, Eq)]
pub enum SqlNode {
    /// A bare name.
    Column(String),
    /// Names joined by dots.
    Path(Vec<String>),
    Call(Box<SqlCall>),
    Binary(Box<SqlExpr>, SqlOperator, Box<SqlExpr>),
    /// `subject IN (list)`, or `NOT IN` where `negated`.
    InList { subject: Box<SqlExpr>, list: Vec<SqlExpr>, negated: bool },
    /// A text in single quotes.
    Text(String),
    Number(String),
    /// Any other literal, by its debug form.
    OtherLiteral(String),
    Other,
}

#[derive(Debug, PartialEq, Eq)]
pub struct SqlCall {
    pub name: String,
    pub arguments: SqlArguments,
    pub extras: SqlCallExtras,
}

/// What can stand around the arguments of a call.
#[derive(Debug, Clone, Copy, PartialEq, Eq, Structural)]
pub struct SqlCallExtras {
    pub parameters: bool,
    pub within_group: usize,
    pub filter: bool,
    pub null_treatment: bool,
    pub over: bool,
}

#[derive(Debug, PartialEq, Eq)]
pub enum SqlArguments {
    List { duplicate_treatment: bool, clauses: usize, args: Vec<SqlArgument> },
    Other,
}

#[derive(Debug, PartialEq, Eq)]
pub enum SqlArgument {
    Expr(SqlExpr),
    Wildcard,
    QualifiedWildcard,
    WildcardWithOptions,
    Named,
    ExprNamed,
}

/// One item of the list between `SELECT` and `FROM`.
#[derive(Debug, PartialEq, Eq)]
pub enum SqlItem {
    Expr(SqlExpr),
    Aliased,
    MultiAliased,
    Wildcard,
    QualifiedWildcard,
}

#[derive(Debug, PartialEq, Eq)]
pub enum SqlGroupBy {
    Expressions(Vec<SqlExpr>, usize),
    All,
}

#[derive(Debug, PartialEq, Eq)]
pub enum SqlRelation {
    Table { name: String, alias: bool, args: bool, version: bool, extras: SqlTableExtras },
    Other,
}

/// What else can be said of a table.
#[derive(Debug, Clone, Copy, PartialEq, Eq, Structural)]
pub struct SqlTableExtras {
    pub with_hints: usize,
    pub with_ordinality: bool,
    pub partitions: usize,
    pub json_path: bool,
    pub sample: bool,
    pub index_hints: usize,
}

#[derive(Debug, PartialEq, Eq)]
pub struct SqlTable {
    pub relation: SqlRelation,
    pub joins: usize,
}

/// A `SELECT` by its clauses: a flag for one that is there or not, a number for
/// one that is a list.
#[derive(Debug, PartialEq, Eq)]
pub struct SqlSelect {
    pub distinct: bool,
    pub named_window: usize,
    pub having: bool,
    pub qualify: bool,
    pub cluster_by: usize,
    pub distribute_by: usize,
    pub sort_by: usize,
    pub from: Vec<SqlTable>,
    pub projection: Vec<SqlItem>,
    pub group_by: SqlGroupBy,
    pub selection: Option<SqlExpr>,
    pub extras: SqlSelectExtras,
}

/// The clauses of a `SELECT` that only some dialects have.
#[derive(Debug, Clone, Copy, PartialEq, Eq, Structural)]
pub struct SqlSelectExtras {
    /// It begins with `SELECT`, not with `FROM`.
    pub standard: bool,
    pub modifiers: bool,
    pub top: bool,
    pub exclude: bool,
    pub into: bool,
    pub lateral_views: usize,
    pub prewhere: bool,
    pub connect_by: usize,
    pub value_table_mode: bool,
}

#[derive(Debug, PartialEq, Eq)]
pub enum SqlOrderBy {
    Expressions(usize),
    All,
}

#[derive(Debug, PartialEq, Eq)]
pub enum SqlBody {
    Select(Box<SqlSelect>),
    Other,
}

#[derive(Debug, PartialEq, Eq)]
pub struct SqlQuery {
    pub order_by: Option<SqlOrderBy>,
    pub with: bool,
    pub body: SqlBody,
    pub limit: Option<SqlLimit>,
    pub extras: SqlQueryExtras,
}

/// A `LIMIT` clause: the limit, whether there is an offset, how many expressions
/// its `BY` has, and its SQL text.
#[derive(Debug, PartialEq, Eq)]
pub struct SqlLimit {
    pub limit: Option<SqlExpr>,
    pub offset: bool,
    pub by: usize,
    pub text: String,
}

/// What else can stand behind a query.
#[derive(Debug, Clone, Copy, PartialEq, Eq, Structural)]
pub struct SqlQueryExtras {
    pub fetch: bool,
    pub locks: usize,
    pub for_clause: bool,
    pub settings: bool,
    pub format_clause: bool,
    pub pipe_operators: usize,
}

#[derive(Debug, PartialEq, Eq)]
pub enum SqlStatement {
    Query(Box<SqlQuery>),
    Other,
}

/// A token of a text, as far as it matters here.
#[derive(Debug, Clone, Copy, PartialEq, Eq, Structural)]
pub enum SqlToken {
    /// White space or a comment.
    Space,
    Limit,
    All,
    By,
    Other,
}

/// The tokens but for white space.
pub open spec fn significant(tokens: Seq<SqlToken>) -> Seq<SqlToken>
    decreases tokens.len(),
{
    if tokens.len() == 0 {
        Seq::empty()
    } else if tokens.last() == SqlToken::Space {
        significant(tokens.drop_last())
    } else {
        significant(tokens.drop_last()).push(tokens.last())
    }
}

/// `LIMIT ALL BY` stands at the place `i`.
pub open spec fn limit_all_by_at(words: Seq<SqlToken>, i: int) -> bool {
    words[i] == SqlToken::Limit && words[i + 1] == SqlToken::All && words[i + 2] == SqlToken::By
}

/// The keywords `LIMIT ALL BY` stand somewhere in a row.
pub open spec fn limits_all_by(tokens: Seq<SqlToken>) -> bool {
    exists|i: int|
        0 <= i && i + 2 < significant(tokens).len() && #[trigger] limit_all_by_at(
            significant(tokens),
            i,
        )
}

/// Whether `LIMIT ALL BY` stands somewhere.
pub fn has_limit_all_by(tokens: &Vec<SqlToken>) -> (r: bool)
    ensures
        r == limits_all_by(tokens@),
{
    let mut words: Vec<SqlToken> = Vec::new();
    for i in 0..tokens.len()
        invariant
            words@ == significant(tokens@.take(i as int)),
    {
        assert(tokens@.take(i + 1).drop_last() =~= tokens@.take(i as int));
        if tokens[i] != SqlToken::Space {
            words.push(tokens[i]);
        }
    }
    assert(tokens@.take(tokens@.len() as int) =~= tokens@);
    let n: usize = words.len();
    let mut i: usize = 0;
    while n >= 3 && i < n - 2
        invariant
            n == words@.len(),
            words@ == significant(tokens@),
            forall|k: int| 0 <= k < i && k + 2 < n ==> !#[trigger] limit_all_by_at(words@, k),
            n < 3 || i <= n - 2,
        decreases n - i,
    {
        if words[i] == SqlToken::Limit && words[i + 1] == SqlToken::All && words[i + 2]
            == SqlToken::By {
            assert(limit_all_by_at(words@, i as int));
            return true;
        }
        i = i + 1;
    }
    false
}

/// The tokens of a text, where it can be parted into tokens.
pub uninterp spec fn sql_tokens(sql: Seq<char>) -> Option<Seq<SqlToken>>;

/// `sqlparser::tokenizer::Tokenizer::tokenize` with the generic dialect: the
/// tokens, or that there are none, are a function of the text alone. They are the
/// tokens that the parser goes by; where there are none it fails.
#[verifier::external_body]
pub(crate) fn tokenize(sql: &str) -> (r: Option<Vec<SqlToken>>)
    ensures
        match r {
            Some(v) => sql_tokens(sql@) == Some(v@),
            None => sql_tokens(sql@) is None,
        },
{
    let dialect = sqlparser::dialect::GenericDialect {};
    let tokens = tokenizer::Tokenizer::new(&dialect, sql).tokenize();
    tokens.ok().map(|v| v.into_iter().map(token_of).collect())
}

/// What `sqlparser` makes of a text: its statements, or what it says of a text
/// that is no SQL.
pub uninterp spec fn parsed_sql(sql: Seq<char>) -> Result<Seq<SqlStatement>, Seq<char>>;

/// `sqlparser::parser::Parser::parse_sql` with the generic dialect: the
/// statements, or the error, are a function of the text alone. The tree that
/// comes back is taken over into the types of this module, variant by variant,
/// and its expressions are printed. A debug build cannot print a `LIMIT` clause
/// that has a `BY` without a limit, and only `LIMIT ALL BY` gives one: such a text
/// is left out.
#[verifier::external_body]
pub(crate) fn parse_statements(sql: &str) -> (r: Result<Vec<SqlStatement>, String>)
    requires
        sql_tokens(sql@) matches Some(t) ==> !limits_all_by(t),
    ensures
        match r {
            Ok(v) => parsed_sql(sql@) == Ok::<Seq<SqlStatement>, Seq<char>>(v@),
            Err(e) => parsed_sql(sql@) == Err::<Seq<SqlStatement>, Seq<char>>(e@),
        },
{
    let dialect = sqlparser::dialect::GenericDialect {};
    let parsed = sqlparser::parser::Parser::parse_sql(&dialect, sql);
    parsed.map(|v| v.into_iter().map(statement_of).collect()).map_err(|e| e.to_string())
}

// The conversions below rename variants and move fields, and nothing else. They are
// called by `parse_statements` and `tokenize` alone, so that what they print comes
// from a text without `LIMIT ALL BY`.

#[verifier::external_type_specification]
#[verifier::external_body]
pub struct ExToken(tokenizer::Token);

#[verifier::external_type_specification]
#[verifier::external_body]
pub struct ExKeyword(keywords::Keyword);

/// `sqlparser::tokenizer::Token`: a word by its keyword, white space, or
/// another token.
#[verifier::external_body]
fn token_of(t: tokenizer::Token) -> (r: SqlToken) {
    match t {
        tokenizer::Token::Word(w) => keyword_of(w.keyword),
        tokenizer::Token::Whitespace(_) => SqlToken::Space,
        _ => SqlToken::Other,
    }
}

/// `sqlparser::keywords::Keyword`, variant by variant; what has no variant here
/// is `Other`.
#[verifier::external_body]
fn keyword_of(k: keywords::Keyword) -> (r: SqlToken) {
    match k {
        keywords::Keyword::LIMIT => SqlToken::Limit,
        keywords::Keyword::ALL => SqlToken::All,
        keywords::Keyword::BY => SqlToken::By,
        _ => SqlToken::Other,
    }
}

#[verifier::external_type_specification]
#[verifier::external_body]
pub struct ExStatement(ast::Statement);

#[verifier::external_type_specification]
#[verifier::external_body]
pub struct ExSelect(ast::Select);

#[verifier::external_type_specification]
#[verifier::external_body]
pub struct ExGroupByExpr(ast::GroupByExpr);

#[verifier::external_type_specification]
#[verifier::external_body]
pub struct ExTableWithJoins(ast::TableWithJoins);

#[verifier::external_type_specification]
#[verifier::external_body]
pub struct ExSelectItem(ast::SelectItem);

#[verifier::external_type_specification]
#[verifier::external_body]
pub struct ExExpr(ast::Expr);

#[verifier::external_type_specification]
#[verifier::external_body]
pub struct ExFunction(ast::Function);

#[verifier::external_type_specification]
#[verifier::external_body]
pub struct ExBinaryOperator(ast::BinaryOperator);

/// `sqlparser::ast::Statement`: a query, or another statement.
#[verifier::external_body]
fn statement_of(s: ast::Statement) -> (r: SqlStatement) {
    match s {
        ast::Statement::Query(q) => SqlStatement::Query(Box::new(query_of(*q))),
        _ => SqlStatement::Other,
    }
}

#[verifier::external_type_specification]
#[verifier::external_body]
pub struct ExQuery(ast::Query);

/// `sqlparser::ast::Query`, clause by clause.
#[verifier::external_body]
fn query_of(q: ast::Query) -> (r: SqlQuery) {
    let extras = query_extras_of(&q);
    let order_by = q.order_by.map(|o| match o.kind {
        ast::OrderByKind::Expressions(e) => SqlOrderBy::Expressions(e.len()),
        ast::OrderByKind::All(_) => SqlOrderBy::All,
    });
    let body = match *q.body {
        ast::SetExpr::Select(s) => SqlBody::Select(Box::new(select_of(*s))),
        _ => SqlBody::Other,
    };
    let limit = q.limit_clause.map(limit_of);
    SqlQuery { order_by, with: q.with.is_some(), body, limit, extras }
}

/// `sqlparser::ast::Query`, the clauses behind it.
#[verifier::external_body]
fn query_extras_of(q: &ast::Query) -> (r: SqlQueryExtras) {
    SqlQueryExtras {
        fetch: q.fetch.is_some(),
        locks: q.locks.len(),
        for_clause: q.for_clause.is_some(),
        settings: q.settings.is_some(),
        format_clause: q.format_clause.is_some(),
        pipe_operators: q.pipe_operators.len(),
    }
}

#[verifier::external_type_specification]
#[verifier::external_body]
pub struct ExLimitClause(ast::LimitClause);

/// `sqlparser::ast::LimitClause`, by its parts and its SQL text.
#[verifier::external_body]
fn limit_of(l: ast::LimitClause) -> (r: SqlLimit) {
    let text = l.to_string();
    match l {
        ast::LimitClause::LimitOffset { limit, offset, limit_by } => SqlLimit {
            limit: limit.map(expr_of),
            offset: offset.is_some(),
            by: limit_by.len(),
            text,
        },
        ast::LimitClause::OffsetCommaLimit { offset: _, limit } =>
            SqlLimit { limit: Some(expr_of(limit)), offset: true, by: 0, text },
    }
}

/// `sqlparser::ast::Select`, clause by clause.
#[verifier::external_body]
fn select_of(s: ast::Select) -> (r: SqlSelect) {
    let extras = select_extras_of(&s);
    let group_by = group_by_of(s.group_by);
    let (named_window, cluster_by) = (s.named_window.len(), s.cluster_by.len());
    let (distribute_by, sort_by) = (s.distribute_by.len(), s.sort_by.len());
    let (distinct, having) = (s.distinct.is_some(), s.having.is_some());
    let from = s.from.into_iter().map(table_of).collect();
    let projection = s.projection.into_iter().map(item_of).collect();
    let (selection, qualify) = (s.selection.map(expr_of), s.qualify.is_some());
    SqlSelect { distinct, named_window, having, qualify, cluster_by, distribute_by, sort_by,
        from, projection, group_by, selection, extras }
}

/// `sqlparser::ast::Select`, the clauses that only some dialects have.
#[verifier::external_body]
fn select_extras_of(s: &ast::Select) -> (r: SqlSelectExtras) {
    SqlSelectExtras {
        standard: matches!(s.flavor, ast::SelectFlavor::Standard),
        modifiers: s.select_modifiers.is_some(),
        top: s.top.is_some(),
        exclude: s.exclude.is_some(),
        into: s.into.is_some(),
        lateral_views: s.lateral_views.len(),
        prewhere: s.prewhere.is_some(),
        connect_by: s.connect_by.len(),
        value_table_mode: s.value_table_mode.is_some(),
    }
}

/// `sqlparser::ast::GroupByExpr`, variant by variant.
#[verifier::external_body]
fn group_by_of(g: ast::GroupByExpr) -> (r: SqlGroupBy) {
    match g {
        ast::GroupByExpr::All(_) => SqlGroupBy::All,
        ast::GroupByExpr::Expressions(e, m) =>
            SqlGroupBy::Expressions(e.into_iter().map(expr_of).collect(), m.len()),
    }
}

/// `sqlparser::ast::TableWithJoins`: the table by its name as SQL text.
#[verifier::external_body]
fn table_of(t: ast::TableWithJoins) -> (r: SqlTable) {
    let relation = match t.relation {
        ast::TableFactor::Table { name, alias, args, with_hints, version, with_ordinality,
            partitions, json_path, sample, index_hints } => {
            let extras = SqlTableExtras { with_hints: with_hints.len(), with_ordinality,
                partitions: partitions.len(), json_path: json_path.is_some(),
                sample: sample.is_some(), index_hints: index_hints.len() };
            SqlRelation::Table { name: name.to_string(), alias: alias.is_some(),
                args: args.is_some(), version: version.is_some(), extras }
        },
        _ => SqlRelation::Other,
    };
    SqlTable { relation, joins: t.joins.len() }
}

/// `sqlparser::ast::SelectItem`, variant by variant.
#[verifier::external_body]
fn item_of(i: ast::SelectItem) -> (r: SqlItem) {
    match i {
        ast::SelectItem::UnnamedExpr(e) => SqlItem::Expr(expr_of(e)),
        ast::SelectItem::ExprWithAlias { .. } => SqlItem::Aliased,
        ast::SelectItem::ExprWithAliases { .. } => SqlItem::MultiAliased,
        ast::SelectItem::QualifiedWildcard(..) => SqlItem::QualifiedWildcard,
        ast::SelectItem::Wildcard(_) => SqlItem::Wildcard,
    }
}

/// `expr_of` of what the box holds.
#[verifier::external_body]
fn boxed(e: Box<ast::Expr>) -> (r: Box<SqlExpr>) {
    Box::new(expr_of(*e))
}

/// `sqlparser::ast::Expr`, variant by variant; what has no variant here is
/// `Other`.
#[verifier::external_body]
fn node_of(e: ast::Expr) -> (r: SqlNode) {
    match e {
        ast::Expr::Identifier(i) => SqlNode::Column(i.value),
        ast::Expr::CompoundIdentifier(p) =>
            SqlNode::Path(p.into_iter().map(|i| i.value).collect()),
        ast::Expr::Function(f) => SqlNode::Call(Box::new(call_of(f))),
        ast::Expr::BinaryOp { left, op, right } =>
            SqlNode::Binary(boxed(left), operator_of(op), boxed(right)),
        ast::Expr::InList { expr, list, negated } => SqlNode::InList {
            subject: boxed(expr), list: list.into_iter().map(expr_of).collect(), negated },
        ast::Expr::Value(v) => literal_of(v.value),
        _ => SqlNode::Other,
    }
}

#[verifier::external_type_specification]
#[verifier::external_body]
pub struct ExValue(ast::Value);

/// `sqlparser::ast::Value`: a text in single quotes, a number, or the debug
/// form of another literal.
#[verifier::external_body]
fn literal_of(v: ast::Value) -> (r: SqlNode) {
    match v {
        ast::Value::SingleQuotedString(t) => SqlNode::Text(t),
        ast::Value::Number(n, _) => SqlNode::Number(n),
        other => SqlNode::OtherLiteral(format!("{:?}", other)),
    }
}

/// `Display for sqlparser::ast::Expr` gives the SQL text of the expression.
#[verifier::external_body]
fn expr_of(e: ast::Expr) -> (r: SqlExpr) {
    let text = e.to_string();
    SqlExpr { node: node_of(e), text }
}

/// `sqlparser::ast::Function`: its name as SQL text, its arguments, and what
/// stands around them.
#[verifier::external_body]
fn call_of(f: ast::Function) -> (r: SqlCall) {
    let (name, extras) = (f.name.to_string(), call_extras_of(&f));
    let arguments = match f.args {
        ast::FunctionArguments::List(l) => SqlArguments::List {
            duplicate_treatment: l.duplicate_treatment.is_some(),
            clauses: l.clauses.len(),
            args: l.args.into_iter().map(argument_of).collect(),
        },
        _ => SqlArguments::Other,
    };
    SqlCall { name, arguments, extras }
}

/// `sqlparser::ast::Function`, what stands around its arguments.
#[verifier::external_body]
fn call_extras_of(f: &ast::Function) -> (r: SqlCallExtras) {
    SqlCallExtras {
        parameters: !matches!(f.parameters, ast::FunctionArguments::None),
        within_group: f.within_group.len(),
        filter: f.filter.is_some(),
        null_treatment: f.null_treatment.is_some(),
        over: f.over.is_some(),
    }
}

#[verifier::external_type_specification]
#[verifier::external_body]
pub struct ExFunctionArg(ast::FunctionArg);

/// `sqlparser::ast::FunctionArg`, variant by variant.
#[verifier::external_body]
fn argument_of(a: ast::FunctionArg) -> (r: SqlArgument) {
    let a = match a {
        ast::FunctionArg::Unnamed(a) => a,
        ast::FunctionArg::Named { .. } => return SqlArgument::Named,
        ast::FunctionArg::ExprNamed { .. } => return SqlArgument::ExprNamed,
    };
    match a {
        ast::FunctionArgExpr::Expr(e) => SqlArgument::Expr(expr_of(e)),
        ast::FunctionArgExpr::Wildcard => SqlArgument::Wildcard,
        ast::FunctionArgExpr::QualifiedWildcard(_) => SqlArgument::QualifiedWildcard,
        ast::FunctionArgExpr::WildcardWithOptions(_) =>
            SqlArgument::WildcardWithOptions,
    }
}

/// `sqlparser::ast::BinaryOperator`, variant by variant; one without a
/// variant here by its debug form.
#[verifier::external_body]
fn operator_of(op: ast::BinaryOperator) -> (r: SqlOperator) {
    match op {
        ast::BinaryOperator::And => SqlOperator::And,
        ast::BinaryOperator::Or => SqlOperator::Or,
        ast::BinaryOperator::Eq => SqlOperator::Eq,
        ast::BinaryOperator::Gt => SqlOperator::Gt,
        ast::BinaryOperator::GtEq => SqlOperator::GtEq,
        ast::BinaryOperator::Lt => SqlOperator::Lt,
        ast::BinaryOperator::LtEq => SqlOperator::LtEq,
        other => SqlOperator::Other(format!("{:?}", other)),
    }
}

} // verus!
