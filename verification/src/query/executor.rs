//! Which records a plan lets through, and how they are grouped and added up.

use vstd::prelude::*;

use crate::hours;
use crate::hours::{start_of_unit, DAY_MS, HOUR_MS};
use crate::model::dimensions;
use crate::model::dimensions::dimension_from_text;
use crate::model::event;
use crate::model::event::{EventModel, UsageEvent};
use crate::quantity;
use crate::quantity::saturating_plus;
use crate::query::plan;
use crate::query::plan::{AggregationFunction, PlanModel, QueryFilter, QueryPlan, QuerySource};
use crate::rollup::hourly;
use crate::rollup::hourly::{HourlyRollupRecord, RecordModel};
use crate::text;
use crate::text::{contains_text, same_text, signed_decimal_of, str_less};
use crate::textmap;
use crate::textmap::TextMap;

verus! {

// ---------------------------------------------------------------------------
// Fields
// ---------------------------------------------------------------------------

/// A field by which records can be filtered and grouped. What is no fixed field
/// is the name of a dimension.
#[derive(Debug, Clone, Copy, PartialEq, Eq, Structural)]
pub enum Field {
    Account,
    Subscription,
    Product,
    Meter,
    Model,
    Source,
    Unit,
    Kind,
    Dimension,
}

pub open spec fn field_named(name: Seq<char>) -> Field {
    if name == "account_id"@ {
        Field::Account
    } else if name == "subscription_id"@ {
        Field::Subscription
    } else if name == "product_id"@ {
        Field::Product
    } else if name == "meter_id"@ {
        Field::Meter
    } else if name == "model_id"@ {
        Field::Model
    } else if name == "source"@ {
        Field::Source
    } else if name == "unit"@ {
        Field::Unit
    } else if name == "kind"@ {
        Field::Kind
    } else {
        Field::Dimension
    }
}

fn field_of(name: &str) -> (r: Field)
    ensures
        r == field_named(name@),
{
    if same_text(name, "account_id") {
        Field::Account
    } else if same_text(name, "subscription_id") {
        Field::Subscription
    } else if same_text(name, "product_id") {
        Field::Product
    } else if same_text(name, "meter_id") {
        Field::Meter
    } else if same_text(name, "model_id") {
        Field::Model
    } else if same_text(name, "source") {
        Field::Source
    } else if same_text(name, "unit") {
        Field::Unit
    } else if same_text(name, "kind") {
        Field::Kind
    } else {
        Field::Dimension
    }
}

/// The value of a field in an event.
pub open spec fn event_value(e: EventModel, name: Seq<char>) -> Option<Seq<char>> {
    match field_named(name) {
        Field::Account => Some(e.account_id),
        Field::Subscription => e.subscription_id,
        Field::Product => Some(e.product_id),
        Field::Meter => Some(e.meter_id),
        Field::Model => e.model_id,
        Field::Source => Some(e.source),
        Field::Unit => Some(e.unit),
        Field::Kind => Some(event::kind_text(e.kind)),
        Field::Dimension => dimensions::dimension(e.dimensions, name),
    }
}

/// The value of a field in a rollup row. A rollup row does not tell the kinds of
/// its events apart.
pub open spec fn record_value(r: RecordModel, name: Seq<char>) -> Option<Seq<char>> {
    match field_named(name) {
        Field::Account => Some(r.key.account_id),
        Field::Subscription => r.key.subscription_id,
        Field::Product => Some(r.key.product_id),
        Field::Meter => Some(r.key.meter_id),
        Field::Model => r.key.model_id,
        Field::Source => Some(r.key.source),
        Field::Unit => Some(r.key.unit),
        Field::Kind => None,
        Field::Dimension => dimensions::dimension_in_text(r.key.dimensions_canonical, name),
    }
}

fn event_field(e: &UsageEvent, name: &str) -> (r: Option<String>)
    ensures
        text::option_view(r) == event_value(e@, name@),
{
    match field_of(name) {
        Field::Account => Some(e.account_id.0.clone()),
        Field::Subscription => match &e.subscription_id {
            Some(s) => Some(s.0.clone()),
            None => None,
        },
        Field::Product => Some(e.product_id.0.clone()),
        Field::Meter => Some(e.meter_id.0.clone()),
        Field::Model => match &e.model_id {
            Some(m) => Some(m.0.clone()),
            None => None,
        },
        Field::Source => Some(e.source.0.clone()),
        Field::Unit => Some(e.unit.0.clone()),
        Field::Kind => Some(e.kind.as_text().to_owned()),
        Field::Dimension => match e.dimensions.get(name) {
            Some(v) => Some(v.clone()),
            None => None,
        },
    }
}

fn record_field(r: &HourlyRollupRecord, name: &str) -> (v: Option<String>)
    ensures
        text::option_view(v) == record_value(r@, name@),
{
    match field_of(name) {
        Field::Account => Some(r.account_id.0.clone()),
        Field::Subscription => match &r.subscription_id {
            Some(s) => Some(s.0.clone()),
            None => None,
        },
        Field::Product => Some(r.product_id.0.clone()),
        Field::Meter => Some(r.meter_id.0.clone()),
        Field::Model => match &r.model_id {
            Some(m) => Some(m.0.clone()),
            None => None,
        },
        Field::Source => Some(r.source.0.clone()),
        Field::Unit => Some(r.unit.0.clone()),
        Field::Kind => None,
        Field::Dimension => dimension_from_text(r.dimensions_canonical.as_str(), name),
    }
}

// ---------------------------------------------------------------------------
// Filtering
// ---------------------------------------------------------------------------

/// The half-open time range of a plan.
pub open spec fn in_range(p: PlanModel, ts: int) -> bool {
    p.from_ms <= ts < p.to_ms
}

/// A plan lets an account through: its own one, or any where it names none.
pub open spec fn account_matches(p: PlanModel, account: Seq<char>) -> bool {
    match p.account_id {
        Some(a) => a == account,
        None => true,
    }
}

/// A filter lets a value through that is among its own. What has no value is
/// never let through.
pub open spec fn filter_accepts(f: plan::FilterModel, value: Option<Seq<char>>) -> bool {
    match value {
        Some(v) => f.values.contains(v),
        None => false,
    }
}

/// An event that a plan lets through.
pub open spec fn event_matches(p: PlanModel, e: EventModel) -> bool {
    &&& in_range(p, e.timestamp_ms as int)
    &&& account_matches(p, e.account_id)
    &&& forall|i: int|
        0 <= i < p.filters.len() ==> filter_accepts(
            #[trigger] p.filters[i],
            event_value(e, p.filters[i].field),
        )
}

/// A rollup row that a plan lets through, its time being the start of its hour.
pub open spec fn record_matches(p: PlanModel, r: RecordModel) -> bool {
    &&& in_range(p, r.key.hour_start_ms as int)
    &&& account_matches(p, r.key.account_id)
    &&& forall|i: int|
        0 <= i < p.filters.len() ==> filter_accepts(
            #[trigger] p.filters[i],
            record_value(r, p.filters[i].field),
        )
}

fn accepts(f: &QueryFilter, value: &Option<String>) -> (r: bool)
    ensures
        r == filter_accepts(f@, text::option_view(*value)),
{
    match value {
        Some(v) => contains_text(&f.values, v.as_str()),
        None => false,
    }
}

fn account_accepted(plan: &QueryPlan, account: &str) -> (r: bool)
    ensures
        r == account_matches(plan@, account@),
{
    match &plan.account_id {
        Some(a) => same_text(a.as_str(), account),
        None => true,
    }
}

/// Whether the plan lets the event through.
pub fn matches_plan(plan: &QueryPlan, e: &UsageEvent) -> (r: bool)
    ensures
        r == event_matches(plan@, e@),
{
    if e.timestamp_ms < plan.from_ms || e.timestamp_ms >= plan.to_ms {
        return false;
    }
    if !account_accepted(plan, e.account_id.0.as_str()) {
        return false;
    }
    for i in 0..plan.filters.len()
        invariant
            forall|j: int|
                0 <= j < i ==> filter_accepts(
                    #[trigger] plan@.filters[j],
                    event_value(e@, plan@.filters[j].field),
                ),
    {
        let f = &plan.filters[i];
        assert(plan@.filters[i as int] == f@);
        let value = event_field(e, f.field.as_str());
        if !accepts(f, &value) {
            return false;
        }
    }
    true
}

/// Whether the plan lets the rollup row through.
pub fn matches_record(plan: &QueryPlan, r: &HourlyRollupRecord) -> (b: bool)
    ensures
        b == record_matches(plan@, r@),
{
    if r.hour_start_ms < plan.from_ms || r.hour_start_ms >= plan.to_ms {
        return false;
    }
    if !account_accepted(plan, r.account_id.0.as_str()) {
        return false;
    }
    for i in 0..plan.filters.len()
        invariant
            forall|j: int|
                0 <= j < i ==> filter_accepts(
                    #[trigger] plan@.filters[j],
                    record_value(r@, plan@.filters[j].field),
                ),
    {
        let f = &plan.filters[i];
        assert(plan@.filters[i as int] == f@);
        let value = record_field(r, f.field.as_str());
        if !accepts(f, &value) {
            return false;
        }
    }
    true
}

// ---------------------------------------------------------------------------
// Group keys
// ---------------------------------------------------------------------------

pub open spec fn or_empty(v: Option<Seq<char>>) -> Seq<char> {
    match v {
        Some(v) => v,
        None => Seq::empty(),
    }
}

/// What a grouping column says of a record with the time `ts`, where `value` is
/// the value of the field of that name: the start of the hour or the day, or the
/// value, which is empty where there is none.
pub open spec fn key_part(name: Seq<char>, ts: int, value: Option<Seq<char>>) -> Seq<char> {
    if name == "hour_start_ms"@ {
        text::signed_decimal(hours::start_of(ts, HOUR_MS as int))
    } else if name == "day"@ {
        text::signed_decimal(hours::start_of(ts, DAY_MS as int))
    } else {
        or_empty(value)
    }
}

pub open spec fn event_key(p: PlanModel, e: EventModel) -> Seq<Seq<char>> {
    p.group_by.map_values(
        |g: Seq<char>| key_part(g, e.timestamp_ms as int, event_value(e, g)),
    )
}

pub open spec fn record_key(p: PlanModel, r: RecordModel) -> Seq<Seq<char>> {
    p.group_by.map_values(
        |g: Seq<char>| key_part(g, r.key.hour_start_ms as int, record_value(r, g)),
    )
}

/// What the grouping column `field` says of an event.
pub fn group_key_value(field: &str, e: &UsageEvent) -> (r: String)
    ensures
        r@ == key_part(field@, e.timestamp_ms as int, event_value(e@, field@)),
{
    if same_text(field, "hour_start_ms") {
        signed_decimal_of(start_of_unit(e.timestamp_ms, HOUR_MS) as i128)
    } else if same_text(field, "day") {
        signed_decimal_of(start_of_unit(e.timestamp_ms, DAY_MS) as i128)
    } else {
        match event_field(e, field) {
            Some(v) => v,
            None => String::new(),
        }
    }
}

fn record_key_value(field: &str, r: &HourlyRollupRecord) -> (v: String)
    ensures
        v@ == key_part(field@, r.hour_start_ms as int, record_value(r@, field@)),
{
    if same_text(field, "hour_start_ms") {
        signed_decimal_of(start_of_unit(r.hour_start_ms, HOUR_MS) as i128)
    } else if same_text(field, "day") {
        signed_decimal_of(start_of_unit(r.hour_start_ms, DAY_MS) as i128)
    } else {
        match record_field(r, field) {
            Some(v) => v,
            None => String::new(),
        }
    }
}

fn key_of_event(plan: &QueryPlan, e: &UsageEvent) -> (key: Vec<String>)
    ensures
        text::text_views(key@) == event_key(plan@, e@),
{
    let mut key: Vec<String> = Vec::new();
    for i in 0..plan.group_by.len()
        invariant
            text::text_views(key@) == event_key(plan@, e@).take(i as int),
    {
        let v = group_key_value(plan.group_by[i].as_str(), e);
        proof {
            text::lemma_texts_push(key@, v);
            assert(plan@.group_by[i as int] == plan.group_by@[i as int]@);
        }
        key.push(v);
        assert(event_key(plan@, e@).take(i + 1) =~= event_key(plan@, e@).take(i as int).push(v@));
    }
    assert(event_key(plan@, e@).take(plan.group_by@.len() as int) =~= event_key(plan@, e@));
    key
}

fn key_of_record(plan: &QueryPlan, r: &HourlyRollupRecord) -> (key: Vec<String>)
    ensures
        text::text_views(key@) == record_key(plan@, r@),
{
    let mut key: Vec<String> = Vec::new();
    for i in 0..plan.group_by.len()
        invariant
            text::text_views(key@) == record_key(plan@, r@).take(i as int),
    {
        let v = record_key_value(plan.group_by[i].as_str(), r);
        proof {
            text::lemma_texts_push(key@, v);
            assert(plan@.group_by[i as int] == plan.group_by@[i as int]@);
        }
        key.push(v);
        assert(record_key(plan@, r@).take(i + 1) =~= record_key(plan@, r@).take(i as int).push(v@));
    }
    assert(record_key(plan@, r@).take(plan.group_by@.len() as int) =~= record_key(plan@, r@));
    key
}

// ---------------------------------------------------------------------------
// Rows
// ---------------------------------------------------------------------------

/// What one record contributes to the group with its key.
#[verifier::ext_equal]
pub struct RowModel {
    pub key: Seq<Seq<char>>,
    pub quantity: i128,
    pub count: u64,
}

pub open spec fn event_row(p: PlanModel, e: EventModel) -> RowModel {
    RowModel { key: event_key(p, e), quantity: e.quantity, count: 1 }
}

pub open spec fn record_row(p: PlanModel, r: RecordModel) -> RowModel {
    RowModel { key: record_key(p, r), quantity: r.quantity_sum, count: r.event_count }
}

/// The contributions of the events that the plan lets through, in their order.
pub open spec fn event_rows(p: PlanModel, events: Seq<EventModel>) -> Seq<RowModel>
    decreases events.len(),
{
    if events.len() == 0 {
        Seq::empty()
    } else if event_matches(p, events.last()) {
        event_rows(p, events.drop_last()).push(event_row(p, events.last()))
    } else {
        event_rows(p, events.drop_last())
    }
}

/// The contributions of the rollup rows that the plan lets through, in their
/// order.
pub open spec fn record_rows(p: PlanModel, records: Seq<RecordModel>) -> Seq<RowModel>
    decreases records.len(),
{
    if records.len() == 0 {
        Seq::empty()
    } else if record_matches(p, records.last()) {
        record_rows(p, records.drop_last()).push(record_row(p, records.last()))
    } else {
        record_rows(p, records.drop_last())
    }
}

/// The events that the plan lets through, in their order.
pub open spec fn matching_events(p: PlanModel, events: Seq<EventModel>) -> Seq<EventModel>
    decreases events.len(),
{
    if events.len() == 0 {
        Seq::empty()
    } else if event_matches(p, events.last()) {
        matching_events(p, events.drop_last()).push(events.last())
    } else {
        matching_events(p, events.drop_last())
    }
}

// ---------------------------------------------------------------------------
// Groups
// ---------------------------------------------------------------------------

/// The quantities of the rows with the key `key`, added up one by one, each time
/// kept within bounds.
pub open spec fn quantity_of(rows: Seq<RowModel>, key: Seq<Seq<char>>) -> int
    decreases rows.len(),
{
    if rows.len() == 0 {
        0
    } else if rows.last().key == key {
        quantity::bounded(quantity_of(rows.drop_last(), key) + rows.last().quantity)
    } else {
        quantity_of(rows.drop_last(), key)
    }
}

/// How many events the rows with the key `key` stand for, at most the greatest
/// `u64`.
pub open spec fn count_of(rows: Seq<RowModel>, key: Seq<Seq<char>>) -> int
    decreases rows.len(),
{
    if rows.len() == 0 {
        0
    } else if rows.last().key == key {
        let n = count_of(rows.drop_last(), key) + rows.last().count;
        if n > u64::MAX {
            u64::MAX as int
        } else {
            n
        }
    } else {
        count_of(rows.drop_last(), key)
    }
}

pub open spec fn some_row_has(rows: Seq<RowModel>, key: Seq<Seq<char>>) -> bool {
    exists|i: int| 0 <= i < rows.len() && (#[trigger] rows[i]).key == key
}

/// `a` comes before `b`: by the first text in which they differ.
pub open spec fn key_lt(a: Seq<Seq<char>>, b: Seq<Seq<char>>) -> bool
    decreases a.len(),
{
    if b.len() == 0 {
        false
    } else if a.len() == 0 {
        true
    } else if a[0] == b[0] {
        key_lt(a.drop_first(), b.drop_first())
    } else {
        text::text_lt(a[0], b[0])
    }
}

pub proof fn lemma_key_lt_irreflexive(a: Seq<Seq<char>>)
    ensures
        !key_lt(a, a),
    decreases a.len(),
{
    if a.len() > 0 {
        lemma_key_lt_irreflexive(a.drop_first());
    }
}

pub proof fn lemma_key_lt_transitive(a: Seq<Seq<char>>, b: Seq<Seq<char>>, c: Seq<Seq<char>>)
    requires
        key_lt(a, b),
        key_lt(b, c),
    ensures
        key_lt(a, c),
    decreases a.len(),
{
    if a.len() > 0 {
        if a[0] == b[0] && b[0] == c[0] {
            lemma_key_lt_transitive(a.drop_first(), b.drop_first(), c.drop_first());
        } else if a[0] != b[0] && b[0] != c[0] {
            text::lemma_text_lt_transitive(a[0], b[0], c[0]);
            text::lemma_text_lt_asymmetric(a[0], c[0]);
        }
    }
}

pub proof fn lemma_key_lt_total(a: Seq<Seq<char>>, b: Seq<Seq<char>>)
    ensures
        a == b || key_lt(a, b) || key_lt(b, a),
    decreases a.len(),
{
    if a.len() == 0 && b.len() == 0 {
        assert(a =~= b);
    } else if a.len() > 0 && b.len() > 0 {
        if a[0] == b[0] {
            lemma_key_lt_total(a.drop_first(), b.drop_first());
            if a.drop_first() == b.drop_first() {
                assert(a =~= seq![a[0]] + a.drop_first());
                assert(b =~= seq![b[0]] + b.drop_first());
            }
        } else {
            text::lemma_text_lt_total(a[0], b[0]);
        }
    }
}

fn key_less(a: &Vec<String>, b: &Vec<String>) -> (r: bool)
    ensures
        r == key_lt(text::text_views(a@), text::text_views(b@)),
{
    let ghost va = text::text_views(a@);
    let ghost vb = text::text_views(b@);
    let mut i: usize = 0;
    assert(va.skip(0) =~= va);
    assert(vb.skip(0) =~= vb);
    while i < a.len() && i < b.len()
        invariant
            i <= a.len(),
            i <= b.len(),
            va == text::text_views(a@),
            vb == text::text_views(b@),
            key_lt(va, vb) == key_lt(va.skip(i as int), vb.skip(i as int)),
        decreases a.len() - i,
    {
        assert(va.skip(i as int)[0] == a@[i as int]@);
        assert(vb.skip(i as int)[0] == b@[i as int]@);
        assert(va.skip(i as int).drop_first() =~= va.skip(i + 1));
        assert(vb.skip(i as int).drop_first() =~= vb.skip(i + 1));
        if !same_text(a[i].as_str(), b[i].as_str()) {
            return str_less(a[i].as_str(), b[i].as_str());
        }
        i = i + 1;
    }
    i == a.len() && i < b.len()
}

/// One group of the answer.
#[derive(Debug)]
pub struct Group {
    pub key: Vec<String>,
    pub quantity_sum: i128,
    pub count: u64,
}

impl Group {
    pub open spec fn key_view(self) -> Seq<Seq<char>> {
        text::text_views(self.key@)
    }
}

/// The groups of rows: one for each key that occurs, in the ascending order of
/// the keys, with the sum of the quantities and the number of events.
pub open spec fn are_groups(groups: Seq<Group>, rows: Seq<RowModel>) -> bool {
    &&& forall|i: int, j: int|
        0 <= i < j < groups.len() ==> key_lt(
            (#[trigger] groups[i]).key_view(),
            (#[trigger] groups[j]).key_view(),
        )
    &&& forall|i: int|
        0 <= i < groups.len() ==> some_row_has(rows, (#[trigger] groups[i]).key_view())
            && groups[i].quantity_sum == quantity_of(rows, groups[i].key_view()) && groups[i].count
            == count_of(rows, groups[i].key_view())
    &&& forall|i: int|
        0 <= i < rows.len() ==> some_group_has(groups, (#[trigger] rows[i]).key)
}

pub open spec fn some_group_has(groups: Seq<Group>, key: Seq<Seq<char>>) -> bool {
    exists|i: int| 0 <= i < groups.len() && (#[trigger] groups[i]).key_view() == key
}

pub proof fn lemma_quantity_bound(rows: Seq<RowModel>, key: Seq<Seq<char>>)
    ensures
        i128::MIN <= quantity_of(rows, key) <= i128::MAX,
        0 <= count_of(rows, key) <= u64::MAX,
    decreases rows.len(),
{
    if rows.len() > 0 {
        lemma_quantity_bound(rows.drop_last(), key);
    }
}

proof fn lemma_unseen_key(rows: Seq<RowModel>, key: Seq<Seq<char>>)
    requires
        !some_row_has(rows, key),
    ensures
        quantity_of(rows, key) == 0,
        count_of(rows, key) == 0,
    decreases rows.len(),
{
    if rows.len() > 0 {
        assert(rows[rows.len() - 1].key != key);
        assert forall|i: int| 0 <= i < rows.drop_last().len() implies (
        #[trigger] rows.drop_last()[i]).key != key by {
            assert(rows[i].key != key);
        }
        lemma_unseen_key(rows.drop_last(), key);
    }
}

/// Adds one row to the groups.
fn add_row(groups: &mut Vec<Group>, key: Vec<String>, quantity: i128, count: u64, rows: Ghost<
    Seq<RowModel>,
>)
    requires
        are_groups(old(groups)@, rows@),
    ensures
        are_groups(
            final(groups)@,
            rows@.push(RowModel { key: text::text_views(key@), quantity, count }),
        ),
{
    let ghost k = text::text_views(key@);
    let ghost row = RowModel { key: k, quantity, count };
    let ghost before = groups@;
    let ghost after_rows = rows@.push(row);
    let mut lo: usize = 0;
    let mut hi: usize = groups.len();
    while lo < hi
        invariant
            lo <= hi <= groups.len(),
            groups@ == before,
            k == text::text_views(key@),
            are_groups(before, rows@),
            forall|j: int| 0 <= j < lo ==> key_lt((#[trigger] before[j]).key_view(), k),
            forall|j: int|
                hi <= j < before.len() ==> !key_lt((#[trigger] before[j]).key_view(), k),
        decreases hi - lo,
    {
        let mid: usize = lo + (hi - lo) / 2;
        let below = key_less(&groups[mid].key, &key);
        if below {
            assert forall|j: int| 0 <= j < mid + 1 implies key_lt(
                (#[trigger] before[j]).key_view(),
                k,
            ) by {
                if j < mid {
                    lemma_key_lt_transitive(before[j].key_view(), before[mid as int].key_view(), k);
                }
            }
            lo = mid + 1;
        } else {
            assert forall|j: int| mid <= j < before.len() implies !key_lt(
                (#[trigger] before[j]).key_view(),
                k,
            ) by {
                if j > mid && key_lt(before[j].key_view(), k) {
                    lemma_key_lt_transitive(before[mid as int].key_view(), before[j].key_view(), k);
                }
            }
            hi = mid;
        }
    }
    assert(after_rows.drop_last() =~= rows@);
    assert(after_rows.last() == row);
    proof {
        lemma_quantity_bound(rows@, k);
        lemma_rows_kept(rows@, row);
    }
    let present = lo < groups.len() && !key_less(&key, &groups[lo].key);
    if present {
        proof {
            lemma_key_lt_total(before[lo as int].key_view(), k);
            assert(before[lo as int].key_view() == k);
            assert(some_row_has(rows@, k));
        }
        let old_key = text::clone_texts(&groups[lo].key);
        let quantity_sum: i128 = saturating_plus(groups[lo].quantity_sum, quantity);
        let new_count: u64 = groups[lo].count.saturating_add(count);
        groups.set(lo, Group { key: old_key, quantity_sum, count: new_count });
        proof {
            let after = groups@;
            assert(after =~= before.update(lo as int, after[lo as int]));
            assert forall|i: int| 0 <= i < after.len() implies (#[trigger] after[i]).key_view()
                == before[i].key_view() by {}
            assert(after_rows[rows@.len() as int].key == k);
            assert forall|i: int| 0 <= i < after_rows.len() implies some_group_has(
                after,
                (#[trigger] after_rows[i]).key,
            ) by {
                if i < rows@.len() {
                    assert(after_rows[i] == rows@[i]);
                    let g = choose|g: int|
                        0 <= g < before.len() && (#[trigger] before[g]).key_view()
                            == rows@[i].key;
                    assert(after[g].key_view() == rows@[i].key);
                } else {
                    assert(after[lo as int].key_view() == k);
                }
            }
            assert forall|i: int| 0 <= i < after.len() implies some_row_has(
                after_rows,
                (#[trigger] after[i]).key_view(),
            ) && after[i].quantity_sum == quantity_of(after_rows, after[i].key_view())
                && after[i].count == count_of(after_rows, after[i].key_view()) by {
                assert(some_row_has(rows@, before[i].key_view()));
                if i != lo {
                    if i < lo {
                        assert(key_lt(before[i].key_view(), before[lo as int].key_view()));
                    } else {
                        assert(key_lt(before[lo as int].key_view(), before[i].key_view()));
                    }
                    lemma_key_lt_irreflexive(k);
                }
            }
            assert forall|i: int, j: int| 0 <= i < j < after.len() implies key_lt(
                (#[trigger] after[i]).key_view(),
                (#[trigger] after[j]).key_view(),
            ) by {
                assert(key_lt(before[i].key_view(), before[j].key_view()));
            }
        }
    } else {
        proof {
            if lo < before.len() {
                assert(key_lt(k, before[lo as int].key_view()));
                lemma_key_lt_irreflexive(k);
            }
            assert(!some_row_has(rows@, k)) by {
                if some_row_has(rows@, k) {
                    let i = choose|i: int| 0 <= i < rows@.len() && (#[trigger] rows@[i]).key == k;
                    assert(some_group_has(before, rows@[i].key));
                    let g = choose|g: int|
                        0 <= g < before.len() && (#[trigger] before[g]).key_view() == k;
                    lemma_key_lt_irreflexive(k);
                    if g > lo {
                        assert(key_lt(before[lo as int].key_view(), before[g].key_view()));
                        lemma_key_lt_transitive(k, before[lo as int].key_view(), k);
                    }
                }
            }
            lemma_unseen_key(rows@, k);
        }
        groups.insert(lo, Group { key, quantity_sum: quantity, count });
        proof {
            let after = groups@;
            assert(after =~= before.insert(lo as int, after[lo as int]));
            assert(after[lo as int].key_view() == k);
            assert forall|i: int| 0 <= i < lo implies after[i] == before[i] by {}
            assert forall|i: int| lo < i < after.len() implies after[i] == before[i - 1] by {}
            assert(after_rows[rows@.len() as int].key == k);
            assert forall|i: int, j: int| 0 <= i < j < after.len() implies key_lt(
                (#[trigger] after[i]).key_view(),
                (#[trigger] after[j]).key_view(),
            ) by {
                if j < lo {
                    assert(key_lt(before[i].key_view(), before[j].key_view()));
                } else if j == lo {
                    assert(key_lt(before[i].key_view(), k));
                } else if i == lo {
                    if j - 1 > lo {
                        assert(key_lt(before[lo as int].key_view(), before[j - 1].key_view()));
                        lemma_key_lt_transitive(
                            k,
                            before[lo as int].key_view(),
                            before[j - 1].key_view(),
                        );
                    }
                } else if i < lo {
                    assert(key_lt(before[i].key_view(), before[j - 1].key_view()));
                } else {
                    assert(key_lt(before[i - 1].key_view(), before[j - 1].key_view()));
                }
            }
            assert forall|i: int| 0 <= i < after_rows.len() implies some_group_has(
                after,
                (#[trigger] after_rows[i]).key,
            ) by {
                if i < rows@.len() {
                    assert(after_rows[i] == rows@[i]);
                    let g = choose|g: int|
                        0 <= g < before.len() && (#[trigger] before[g]).key_view()
                            == rows@[i].key;
                    if g < lo {
                        assert(after[g].key_view() == rows@[i].key);
                    } else {
                        assert(after[g + 1].key_view() == rows@[i].key);
                    }
                }
            }
            assert forall|i: int| 0 <= i < after.len() implies some_row_has(
                after_rows,
                (#[trigger] after[i]).key_view(),
            ) && after[i].quantity_sum == quantity_of(after_rows, after[i].key_view())
                && after[i].count == count_of(after_rows, after[i].key_view()) by {
                if i != lo {
                    let b = if i < lo {
                        i
                    } else {
                        i - 1
                    };
                    assert(after[i] == before[b]);
                    assert(some_row_has(rows@, before[b].key_view()));
                    assert(before[b].key_view() != k);
                }
            }
        }
    }
}

/// A further row leaves the groups of other keys as they are.
proof fn lemma_rows_kept(rows: Seq<RowModel>, row: RowModel)
    ensures
        forall|key: Seq<Seq<char>>|
            some_row_has(rows, key) ==> #[trigger] some_row_has(rows.push(row), key),
        forall|key: Seq<Seq<char>>|
            key != row.key ==> #[trigger] quantity_of(rows.push(row), key) == quantity_of(rows, key),
        forall|key: Seq<Seq<char>>|
            key != row.key ==> #[trigger] count_of(rows.push(row), key) == count_of(rows, key),
{
    let after = rows.push(row);
    assert(after.drop_last() =~= rows);
    assert forall|key: Seq<Seq<char>>| some_row_has(rows, key) implies #[trigger] some_row_has(
        after,
        key,
    ) by {
        let i = choose|i: int| 0 <= i < rows.len() && (#[trigger] rows[i]).key == key;
        assert(after[i].key == key);
    }
}

// ---------------------------------------------------------------------------
// Answers
// ---------------------------------------------------------------------------

/// A group by its contents.
#[verifier::ext_equal]
pub struct GroupModel {
    pub key: Seq<Seq<char>>,
    pub quantity_sum: int,
    pub count: int,
}

pub open spec fn keys_of(groups: Seq<GroupModel>) -> Seq<Seq<Seq<char>>> {
    groups.map_values(|g: GroupModel| g.key)
}

pub open spec fn key_seq_ascends(keys: Seq<Seq<Seq<char>>>) -> bool {
    forall|i: int, j: int|
        0 <= i < j < keys.len() ==> key_lt(#[trigger] keys[i], #[trigger] keys[j])
}

/// `groups` are the groups of `rows`: one for each key that occurs, in ascending
/// order, with the sum of the quantities and the number of events.
pub open spec fn is_grouping(groups: Seq<GroupModel>, rows: Seq<RowModel>) -> bool {
    &&& key_seq_ascends(keys_of(groups))
    &&& forall|key: Seq<Seq<char>>|
        some_row_has(rows, key) <==> #[trigger] keys_of(groups).contains(key)
    &&& forall|i: int|
        0 <= i < groups.len() ==> (#[trigger] groups[i]).quantity_sum == quantity_of(
            rows,
            groups[i].key,
        ) && groups[i].count == count_of(rows, groups[i].key)
}

/// The groups of rows.
pub open spec fn groups_of(rows: Seq<RowModel>) -> Seq<GroupModel> {
    choose|groups: Seq<GroupModel>| is_grouping(groups, rows)
}

proof fn lemma_ascending_unique(a: Seq<Seq<Seq<char>>>, b: Seq<Seq<Seq<char>>>)
    requires
        key_seq_ascends(a),
        key_seq_ascends(b),
        forall|k: Seq<Seq<char>>| a.contains(k) <==> b.contains(k),
    ensures
        a == b,
    decreases a.len(),
{
    if a.len() == 0 {
        if b.len() > 0 {
            assert(b.contains(b[0]));
        }
        assert(a =~= b);
    } else {
        assert(a.contains(a[0]));
        let j = choose|j: int| 0 <= j < b.len() && b[j] == a[0];
        assert(b.contains(b[0]));
        let i = choose|i: int| 0 <= i < a.len() && a[i] == b[0];
        lemma_key_lt_irreflexive(a[0]);
        if j > 0 {
            assert(key_lt(b[0], b[j]));
            if i > 0 {
                assert(key_lt(a[0], a[i]));
                lemma_key_lt_transitive(a[0], b[0], a[0]);
            }
        }
        assert(a[0] == b[0]);
        let ra = a.drop_first();
        let rb = b.drop_first();
        assert forall|k: Seq<Seq<char>>| ra.contains(k) implies rb.contains(k) by {
            let x = choose|x: int| 0 <= x < ra.len() && ra[x] == k;
            assert(a[x + 1] == k);
            assert(a.contains(k));
            assert(b.contains(k));
            let y = choose|y: int| 0 <= y < b.len() && b[y] == k;
            if y == 0 {
                assert(key_lt(a[0], a[x + 1]));
            }
            assert(rb[y - 1] == k);
        }
        assert forall|k: Seq<Seq<char>>| rb.contains(k) implies ra.contains(k) by {
            let x = choose|x: int| 0 <= x < rb.len() && rb[x] == k;
            assert(b[x + 1] == k);
            assert(b.contains(k));
            assert(a.contains(k));
            let y = choose|y: int| 0 <= y < a.len() && a[y] == k;
            if y == 0 {
                assert(key_lt(b[0], b[x + 1]));
            }
            assert(ra[y - 1] == k);
        }
        assert(key_seq_ascends(ra)) by {
            assert forall|x: int, y: int| 0 <= x < y < ra.len() implies key_lt(
                #[trigger] ra[x],
                #[trigger] ra[y],
            ) by {
                assert(key_lt(a[x + 1], a[y + 1]));
            }
        }
        assert(key_seq_ascends(rb)) by {
            assert forall|x: int, y: int| 0 <= x < y < rb.len() implies key_lt(
                #[trigger] rb[x],
                #[trigger] rb[y],
            ) by {
                assert(key_lt(b[x + 1], b[y + 1]));
            }
        }
        lemma_ascending_unique(ra, rb);
        assert(a =~= seq![a[0]] + ra);
        assert(b =~= seq![b[0]] + rb);
    }
}

/// Rows have one grouping only.
pub proof fn lemma_grouping_unique(a: Seq<GroupModel>, b: Seq<GroupModel>, rows: Seq<RowModel>)
    requires
        is_grouping(a, rows),
        is_grouping(b, rows),
    ensures
        a == b,
{
    assert forall|k: Seq<Seq<char>>| keys_of(a).contains(k) <==> keys_of(b).contains(k) by {
        assert(some_row_has(rows, k) <==> keys_of(a).contains(k));
        assert(some_row_has(rows, k) <==> keys_of(b).contains(k));
    }
    lemma_ascending_unique(keys_of(a), keys_of(b));
    assert(a.len() == keys_of(a).len());
    assert(b.len() == keys_of(b).len());
    assert forall|i: int| 0 <= i < a.len() implies a[i] == b[i] by {
        assert(keys_of(a)[i] == a[i].key);
        assert(keys_of(b)[i] == b[i].key);
    }
    assert(a =~= b);
}

pub open spec fn group_views(groups: Seq<Group>) -> Seq<GroupModel> {
    groups.map_values(
        |g: Group|
            GroupModel {
                key: g.key_view(),
                quantity_sum: g.quantity_sum as int,
                count: g.count as int,
            },
    )
}

proof fn lemma_groups_found(groups: Seq<Group>, rows: Seq<RowModel>)
    requires
        are_groups(groups, rows),
    ensures
        group_views(groups) == groups_of(rows),
{
    let models = group_views(groups);
    let keys = keys_of(models);
    assert forall|i: int| 0 <= i < groups.len() implies keys[i] == groups[i].key_view() by {}
    assert(key_seq_ascends(keys)) by {
        assert forall|i: int, j: int| 0 <= i < j < keys.len() implies key_lt(
            #[trigger] keys[i],
            #[trigger] keys[j],
        ) by {
            assert(key_lt(groups[i].key_view(), groups[j].key_view()));
        }
    }
    assert forall|key: Seq<Seq<char>>|
        some_row_has(rows, key) <==> #[trigger] keys.contains(key) by {
        if some_row_has(rows, key) {
            let i = choose|i: int| 0 <= i < rows.len() && (#[trigger] rows[i]).key == key;
            assert(some_group_has(groups, rows[i].key));
            let g = choose|g: int| 0 <= g < groups.len() && (#[trigger] groups[g]).key_view() == key;
            assert(keys[g] == key);
        }
        if keys.contains(key) {
            let g = choose|g: int| 0 <= g < keys.len() && keys[g] == key;
            assert(some_row_has(rows, groups[g].key_view()));
        }
    }
    assert(is_grouping(models, rows));
    lemma_grouping_unique(models, groups_of(rows), rows);
}

/// One value of an answer: a text, which sums are too, or a number of events.
#[derive(Debug, PartialEq, Eq)]
pub enum CellValue {
    Text(String),
    Count(u64),
}

/// A value by its contents.
pub enum CellModel {
    Text(Seq<char>),
    Count(int),
}

impl View for CellValue {
    type V = CellModel;

    open spec fn view(&self) -> CellModel {
        match self {
            CellValue::Text(t) => CellModel::Text(t@),
            CellValue::Count(n) => CellModel::Count(*n as int),
        }
    }
}

/// One row of an answer: an event as it is, or named values.
#[derive(Debug, PartialEq, Eq)]
pub enum QueryRow {
    Event(UsageEvent),
    Values(TextMap<CellValue>),
}

/// A row of an answer by its contents.
pub enum AnswerModel {
    Event(EventModel),
    Values(Seq<(Seq<char>, CellModel)>),
}

pub open spec fn cell_views(cells: Seq<(Seq<char>, CellValue)>) -> Seq<(Seq<char>, CellModel)> {
    cells.map_values(|c: (Seq<char>, CellValue)| (c.0, c.1@))
}

impl View for QueryRow {
    type V = AnswerModel;

    open spec fn view(&self) -> AnswerModel {
        match self {
            QueryRow::Event(e) => AnswerModel::Event(e@),
            QueryRow::Values(m) => AnswerModel::Values(cell_views(m@)),
        }
    }
}

pub open spec fn answer_views(rows: Seq<QueryRow>) -> Seq<AnswerModel> {
    rows.map_values(|r: QueryRow| r@)
}

/// The first `n` grouping columns with their values.
pub open spec fn column_cells(group_by: Seq<Seq<char>>, key: Seq<Seq<char>>, n: nat) -> Seq<
    (Seq<char>, CellModel),
>
    decreases n,
{
    if n == 0 {
        Seq::empty()
    } else {
        textmap::inserted(
            column_cells(group_by, key, (n - 1) as nat),
            group_by[n - 1],
            CellModel::Text(key[n - 1]),
        )
    }
}

/// What a metric says of a group. A sum can exceed what JSON numbers hold, so it
/// is given as text.
pub open spec fn metric_cell(f: AggregationFunction, g: GroupModel) -> CellModel {
    match f {
        AggregationFunction::Sum => CellModel::Text(text::signed_decimal(g.quantity_sum)),
        AggregationFunction::Count => CellModel::Count(g.count),
    }
}

/// The grouping columns and the first `n` metrics of a group. A metric takes the
/// place of a column of the same name.
pub open spec fn group_cells(p: PlanModel, g: GroupModel, n: nat) -> Seq<(Seq<char>, CellModel)>
    decreases n,
{
    if n == 0 {
        column_cells(p.group_by, g.key, p.group_by.len())
    } else {
        textmap::inserted(
            group_cells(p, g, (n - 1) as nat),
            p.metrics[n - 1].0,
            metric_cell(p.metrics[n - 1].1, g),
        )
    }
}

/// The row of a group.
pub open spec fn group_answer(p: PlanModel, g: GroupModel) -> AnswerModel {
    AnswerModel::Values(group_cells(p, g, p.metrics.len()))
}

/// The group that stands for no record at all.
pub open spec fn zero_group() -> GroupModel {
    GroupModel { key: Seq::empty(), quantity_sum: 0, count: 0 }
}

/// What rollup rows and events contribute.
pub open spec fn plan_rows(
    p: PlanModel,
    records: Seq<RecordModel>,
    events: Seq<EventModel>,
) -> Seq<RowModel> {
    record_rows(p, records) + event_rows(p, events)
}

/// Whether a plan asks for the events themselves.
pub open spec fn wants_events(p: PlanModel) -> bool {
    p.group_by.len() == 0 && p.metrics.len() == 0
}

/// The answer to a plan out of rollup rows and events: the events themselves
/// where it neither groups nor aggregates, else one row for each group. A total
/// over nothing is one row of zeros.
pub open spec fn answer(
    p: PlanModel,
    records: Seq<RecordModel>,
    events: Seq<EventModel>,
) -> Seq<AnswerModel> {
    if wants_events(p) {
        matching_events(p, events).map_values(|e: EventModel| AnswerModel::Event(e))
    } else {
        let groups = groups_of(plan_rows(p, records, events));
        if p.group_by.len() == 0 && groups.len() == 0 {
            seq![group_answer(p, zero_group())]
        } else {
            groups.map_values(|g: GroupModel| group_answer(p, g))
        }
    }
}

// ---------------------------------------------------------------------------
// Which hours are read from rollups
// ---------------------------------------------------------------------------

/// The hours of a time range that rollups answer for: those that lie in the
/// range and below the watermark as a whole.
#[derive(Debug, Clone, Copy, PartialEq, Eq, Structural)]
pub struct Coverage {
    pub rollups: bool,
    pub from_ms: i64,
    pub to_ms: i64,
    pub watermark_ms: i64,
}

impl Coverage {
    /// The hour that starts at `hour` is read from rollups.
    pub open spec fn hour_covered(self, hour: int) -> bool {
        self.rollups && 0 <= hour && self.from_ms <= hour && hour + HOUR_MS <= self.to_ms && hour
            + HOUR_MS <= self.watermark_ms
    }

    /// The hour of `ts` is read from rollups.
    pub open spec fn time_covered(self, ts: int) -> bool {
        ts >= 0 && self.hour_covered(hours::start_of(ts, HOUR_MS as int))
    }

    fn covers(&self, hour: i64) -> (r: bool)
        ensures
            r == self.hour_covered(hour as int),
    {
        self.rollups && 0 <= hour && self.from_ms <= hour && hour as i128 + HOUR_MS as i128
            <= self.to_ms as i128 && hour as i128 + HOUR_MS as i128 <= self.watermark_ms as i128
    }

    fn covers_time(&self, ts: i64) -> (r: bool)
        ensures
            r == self.time_covered(ts as int),
    {
        ts >= 0 && self.covers(start_of_unit(ts, HOUR_MS))
    }
}

/// The rollup rows of the covered hours, in their order.
pub open spec fn covered_records(c: Coverage, records: Seq<RecordModel>) -> Seq<RecordModel>
    decreases records.len(),
{
    if records.len() == 0 {
        Seq::empty()
    } else if c.hour_covered(records.last().key.hour_start_ms as int) {
        covered_records(c, records.drop_last()).push(records.last())
    } else {
        covered_records(c, records.drop_last())
    }
}

/// The events whose hours are not covered, in their order.
pub open spec fn uncovered_events(c: Coverage, events: Seq<EventModel>) -> Seq<EventModel>
    decreases events.len(),
{
    if events.len() == 0 {
        Seq::empty()
    } else if c.time_covered(events.last().timestamp_ms as int) {
        uncovered_events(c, events.drop_last())
    } else {
        uncovered_events(c, events.drop_last()).push(events.last())
    }
}

proof fn lemma_nothing_covered(c: Coverage, events: Seq<EventModel>)
    requires
        !c.rollups,
    ensures
        uncovered_events(c, events) == events,
    decreases events.len(),
{
    if events.len() > 0 {
        lemma_nothing_covered(c, events.drop_last());
        assert(events.drop_last().push(events.last()) =~= events);
    } else {
        assert(events =~= Seq::empty());
    }
}

/// A plan reads a field that rollup rows do not have.
pub open spec fn mentions_kind(p: PlanModel) -> bool {
    ||| exists|i: int| 0 <= i < p.filters.len() && (#[trigger] p.filters[i]).field == "kind"@
    ||| p.group_by.contains("kind"@)
}

/// A plan that rollup rows can answer.
pub open spec fn rollups_suffice(p: PlanModel) -> bool {
    p.source == QuerySource::RollupHourly && !wants_events(p) && !mentions_kind(p)
}

/// The hours that are read from rollups to answer a plan.
pub open spec fn plan_coverage(p: PlanModel, watermark: i64) -> Coverage {
    Coverage {
        rollups: rollups_suffice(p),
        from_ms: p.from_ms,
        to_ms: p.to_ms,
        watermark_ms: watermark,
    }
}

/// The first rows, as many as the limit lets through.
pub open spec fn limited(rows: Seq<AnswerModel>, limit: Option<usize>) -> Seq<AnswerModel> {
    match limit {
        Some(n) => if n < rows.len() {
            rows.take(n as int)
        } else {
            rows
        },
        None => rows,
    }
}

/// The answer to a plan: from the rollup rows of the hours that they cover, and
/// from the events of all other times, up to the plan's limit.
pub open spec fn plan_answer(
    p: PlanModel,
    watermark: i64,
    records: Seq<RecordModel>,
    events: Seq<EventModel>,
) -> Seq<AnswerModel> {
    let c = plan_coverage(p, watermark);
    limited(answer(p, covered_records(c, records), uncovered_events(c, events)), p.limit)
}

fn reads_kind(plan: &QueryPlan) -> (r: bool)
    ensures
        r == mentions_kind(plan@),
{
    if contains_text(&plan.group_by, "kind") {
        return true;
    }
    for i in 0..plan.filters.len()
        invariant
            forall|j: int| 0 <= j < i ==> (#[trigger] plan@.filters[j]).field != "kind"@,
            !plan@.group_by.contains("kind"@),
    {
        assert(plan@.filters[i as int] == plan.filters@[i as int]@);
        if same_text(plan.filters[i].field.as_str(), "kind") {
            return true;
        }
    }
    false
}

/// The hours that are to be read from rollups to answer the plan.
pub fn coverage_of(plan: &QueryPlan, watermark_ms: i64) -> (r: Coverage)
    ensures
        r == plan_coverage(plan@, watermark_ms),
{
    let aggregates = plan.group_by.len() > 0 || plan.metrics.len() > 0;
    let from_rollups = match plan.source {
        QuerySource::RollupHourly => true,
        QuerySource::RawEvents => false,
    };
    let rollups = from_rollups && aggregates && !reads_kind(plan);
    Coverage { rollups, from_ms: plan.from_ms, to_ms: plan.to_ms, watermark_ms }
}

/// Answers a plan out of the rollup rows and the events of the segments that it
/// concerns, and of the events of the memtable. Hours below the watermark come
/// from rollups where the plan asks for it and they can answer it; a part of an
/// hour and what lies above come from the events. No more rows come out than the
/// plan's limit lets through.
pub fn execute_plan(
    plan: &QueryPlan,
    watermark_ms: i64,
    records: &Vec<HourlyRollupRecord>,
    events: &Vec<UsageEvent>,
) -> (out: Vec<QueryRow>)
    ensures
        answer_views(out@) == plan_answer(
            plan@,
            watermark_ms,
            hourly::record_views(records@),
            event::event_views(events@),
        ),
{
    let cover = coverage_of(plan, watermark_ms);
    let mut out = aggregate(plan, &cover, records, events);
    if let Some(n) = plan.limit {
        let ghost all = out@;
        if n < out.len() {
            out.truncate(n);
            assert(answer_views(out@) =~= answer_views(all).take(n as int));
        }
    }
    out
}

proof fn lemma_cells_inserted(
    cells: Seq<(Seq<char>, CellValue)>,
    key: Seq<char>,
    value: CellValue,
)
    ensures
        cell_views(textmap::inserted(cells, key, value)) == textmap::inserted(
            cell_views(cells),
            key,
            value@,
        ),
    decreases cells.len(),
{
    let views = cell_views(cells);
    let after = textmap::inserted(cells, key, value);
    if cells.len() == 0 {
        assert(cell_views(after) =~= seq![(key, value@)]);
    } else {
        assert(views[0] == (cells[0].0, cells[0].1@));
        assert(views.drop_first() =~= cell_views(cells.drop_first()));
        lemma_cells_inserted(cells.drop_first(), key, value);
        if cells[0].0 == key {
            assert(cell_views(after) =~= seq![(key, value@)] + views.drop_first());
        } else if text::text_lt(key, cells[0].0) {
            assert(cell_views(after) =~= seq![(key, value@)] + views);
        } else {
            assert(cell_views(after) =~= seq![views[0]] + cell_views(
                textmap::inserted(cells.drop_first(), key, value),
            ));
        }
    }
}

fn put(cells: &mut TextMap<CellValue>, key: String, value: CellValue)
    ensures
        cell_views(final(cells)@) == textmap::inserted(cell_views(old(cells)@), key@, value@),
{
    proof {
        lemma_cells_inserted(cells@, key@, value);
    }
    cells.insert(key, value);
}

fn row_of_group(plan: &QueryPlan, g: &Group, Ghost(m): Ghost<GroupModel>) -> (r: QueryRow)
    requires
        m == (GroupModel {
            key: g.key_view(),
            quantity_sum: g.quantity_sum as int,
            count: g.count as int,
        }),
        g.key@.len() == plan.group_by@.len(),
    ensures
        r@ == group_answer(plan@, m),
{
    let mut cells: TextMap<CellValue> = TextMap::new();
    assert(cell_views(cells@) =~= Seq::empty());
    for i in 0..plan.group_by.len()
        invariant
            m.key == g.key_view(),
            g.key@.len() == plan.group_by@.len(),
            cell_views(cells@) == column_cells(plan@.group_by, m.key, i as nat),
    {
        assert(plan@.group_by[i as int] == plan.group_by@[i as int]@);
        assert(m.key[i as int] == g.key@[i as int]@);
        put(&mut cells, plan.group_by[i].clone(), CellValue::Text(g.key[i].clone()));
    }
    let count = plan.metrics.len();
    for i in 0..count
        invariant
            count == plan@.metrics.len(),
            m.quantity_sum == g.quantity_sum,
            m.count == g.count,
            cell_views(cells@) == group_cells(plan@, m, i as nat),
    {
        let value = match plan.metrics.value_at(i) {
            AggregationFunction::Sum => CellValue::Text(signed_decimal_of(g.quantity_sum)),
            AggregationFunction::Count => CellValue::Count(g.count),
        };
        put(&mut cells, plan.metrics.key_at(i).clone(), value);
    }
    QueryRow::Values(cells)
}

proof fn lemma_answers_push(rows: Seq<QueryRow>, r: QueryRow)
    ensures
        answer_views(rows.push(r)) == answer_views(rows).push(r@),
{
    assert(answer_views(rows.push(r)) =~= answer_views(rows).push(r@));
}

fn select_events(plan: &QueryPlan, events: &Vec<UsageEvent>) -> (out: Vec<QueryRow>)
    ensures
        answer_views(out@) == matching_events(plan@, event::event_views(events@)).map_values(
            |e: EventModel| AnswerModel::Event(e),
        ),
{
    let ghost all = event::event_views(events@);
    let mut out: Vec<QueryRow> = Vec::new();
    assert(answer_views(out@) =~= matching_events(plan@, all.take(0)).map_values(
        |e: EventModel| AnswerModel::Event(e),
    ));
    for i in 0..events.len()
        invariant
            all == event::event_views(events@),
            answer_views(out@) == matching_events(plan@, all.take(i as int)).map_values(
                |e: EventModel| AnswerModel::Event(e),
            ),
    {
        let ghost upto = all.take(i + 1);
        assert(upto.drop_last() =~= all.take(i as int));
        assert(upto.last() == events@[i as int]@);
        if matches_plan(plan, &events[i]) {
            let row = QueryRow::Event(events[i].clone());
            proof {
                lemma_answers_push(out@, row);
            }
            out.push(row);
            assert(answer_views(out@) =~= matching_events(plan@, upto).map_values(
                |e: EventModel| AnswerModel::Event(e),
            ));
        }
    }
    assert(all.take(events@.len() as int) =~= all);
    out
}

fn group_rows(
    plan: &QueryPlan,
    cover: &Coverage,
    records: &Vec<HourlyRollupRecord>,
    events: &Vec<UsageEvent>,
) -> (r: Vec<Group>)
    ensures
        are_groups(
            r@,
            plan_rows(
                plan@,
                covered_records(*cover, hourly::record_views(records@)),
                uncovered_events(*cover, event::event_views(events@)),
            ),
        ),
        forall|i: int| 0 <= i < r@.len() ==> (#[trigger] r@[i]).key@.len() == plan.group_by@.len(),
{
    let ghost all_records = hourly::record_views(records@);
    let ghost all_events = event::event_views(events@);
    let ghost p = plan@;
    let mut groups: Vec<Group> = Vec::new();
    for i in 0..records.len()
        invariant
            p == plan@,
            all_records == hourly::record_views(records@),
            are_groups(
                groups@,
                record_rows(p, covered_records(*cover, all_records.take(i as int))),
            ),
    {
        let ghost upto = all_records.take(i + 1);
        let ghost before = covered_records(*cover, all_records.take(i as int));
        assert(upto.drop_last() =~= all_records.take(i as int));
        assert(upto.last() == records@[i as int]@);
        if cover.covers(records[i].hour_start_ms) {
            assert(before.push(upto.last()).drop_last() =~= before);
            if matches_record(plan, &records[i]) {
                let key = key_of_record(plan, &records[i]);
                add_row(
                    &mut groups,
                    key,
                    records[i].quantity_sum,
                    records[i].event_count,
                    Ghost(record_rows(p, before)),
                );
            }
        }
    }
    assert(all_records.take(records@.len() as int) =~= all_records);
    let ghost first = record_rows(p, covered_records(*cover, all_records));
    assert(first + event_rows(p, uncovered_events(*cover, all_events.take(0))) =~= first);
    for i in 0..events.len()
        invariant
            p == plan@,
            all_events == event::event_views(events@),
            are_groups(
                groups@,
                first + event_rows(p, uncovered_events(*cover, all_events.take(i as int))),
            ),
    {
        let ghost upto = all_events.take(i + 1);
        let ghost before = uncovered_events(*cover, all_events.take(i as int));
        assert(upto.drop_last() =~= all_events.take(i as int));
        assert(upto.last() == events@[i as int]@);
        if !cover.covers_time(events[i].timestamp_ms) {
            assert(before.push(upto.last()).drop_last() =~= before);
            if matches_plan(plan, &events[i]) {
                let key = key_of_event(plan, &events[i]);
                let ghost so_far = first + event_rows(p, before);
                add_row(&mut groups, key, events[i].quantity, 1, Ghost(so_far));
                assert(so_far.push(event_row(p, upto.last())) =~= first + event_rows(
                    p,
                    before.push(upto.last()),
                ));
            }
        }
    }
    assert(all_events.take(events@.len() as int) =~= all_events);
    proof {
        let of_records = covered_records(*cover, all_records);
        let of_events = uncovered_events(*cover, all_events);
        let rows = plan_rows(p, of_records, of_events);
        lemma_row_keys(p, of_records, of_events);
        assert forall|i: int| 0 <= i < groups@.len() implies (#[trigger] groups@[i]).key@.len()
            == plan.group_by@.len() by {
            let k = groups@[i].key_view();
            assert(some_row_has(rows, k));
            let j = choose|j: int| 0 <= j < rows.len() && (#[trigger] rows[j]).key == k;
            assert(rows[j].key.len() == p.group_by.len());
        }
    }
    groups
}

/// Each row has a value for each grouping column.
pub proof fn lemma_row_keys(p: PlanModel, records: Seq<RecordModel>, events: Seq<EventModel>)
    ensures
        forall|i: int|
            0 <= i < record_rows(p, records).len() ==> (#[trigger] record_rows(
                p,
                records,
            )[i]).key.len() == p.group_by.len(),
        forall|i: int|
            0 <= i < event_rows(p, events).len() ==> (#[trigger] event_rows(p, events)[i]).key.len()
                == p.group_by.len(),
    decreases records.len() + events.len(),
{
    let of_records = record_rows(p, records);
    let of_events = event_rows(p, events);
    if records.len() > 0 {
        let before = record_rows(p, records.drop_last());
        lemma_row_keys(p, records.drop_last(), events);
        assert forall|i: int| 0 <= i < of_records.len() implies (
        #[trigger] of_records[i]).key.len() == p.group_by.len() by {
            if i < before.len() {
                assert(of_records[i] == before[i]);
            }
        }
    } else if events.len() > 0 {
        let before = event_rows(p, events.drop_last());
        lemma_row_keys(p, records, events.drop_last());
        assert forall|i: int| 0 <= i < of_events.len() implies (
        #[trigger] of_events[i]).key.len() == p.group_by.len() by {
            if i < before.len() {
                assert(of_events[i] == before[i]);
            }
        }
    }
}

/// Groups and adds up what the plan lets through: the rollup rows of the covered
/// hours, and the events of the other times.
pub fn aggregate(
    plan: &QueryPlan,
    cover: &Coverage,
    records: &Vec<HourlyRollupRecord>,
    events: &Vec<UsageEvent>,
) -> (out: Vec<QueryRow>)
    requires
        wants_events(plan@) ==> !cover.rollups,
    ensures
        answer_views(out@) == answer(
            plan@,
            covered_records(*cover, hourly::record_views(records@)),
            uncovered_events(*cover, event::event_views(events@)),
        ),
{
    let no_metrics = plan.metrics.len() == 0;
    if plan.group_by.len() == 0 && no_metrics {
        proof {
            lemma_nothing_covered(*cover, event::event_views(events@));
        }
        return select_events(plan, events);
    }
    let groups = group_rows(plan, cover, records, events);
    let ghost rows = plan_rows(
        plan@,
        covered_records(*cover, hourly::record_views(records@)),
        uncovered_events(*cover, event::event_views(events@)),
    );
    let ghost models = group_views(groups@);
    proof {
        lemma_groups_found(groups@, rows);
    }
    let mut out: Vec<QueryRow> = Vec::new();
    if plan.group_by.len() == 0 && groups.len() == 0 {
        let zero = Group { key: Vec::new(), quantity_sum: 0, count: 0 };
        assert(zero.key_view() =~= Seq::empty());
        let row = row_of_group(plan, &zero, Ghost(zero_group()));
        proof {
            lemma_answers_push(out@, row);
        }
        out.push(row);
        assert(answer_views(out@) =~= seq![group_answer(plan@, zero_group())]);
        return out;
    }
    let ghost wanted = models.map_values(|g: GroupModel| group_answer(plan@, g));
    for i in 0..groups.len()
        invariant
            models == group_views(groups@),
            wanted == models.map_values(|g: GroupModel| group_answer(plan@, g)),
            forall|j: int|
                0 <= j < groups@.len() ==> (#[trigger] groups@[j]).key@.len()
                    == plan.group_by@.len(),
            answer_views(out@) == wanted.take(i as int),
    {
        let ghost m = models[i as int];
        let row = row_of_group(plan, &groups[i], Ghost(m));
        proof {
            lemma_answers_push(out@, row);
        }
        out.push(row);
        assert(wanted.take(i + 1) =~= wanted.take(i as int).push(group_answer(plan@, m)));
    }
    assert(wanted.take(groups@.len() as int) =~= wanted);
    out
}

} // verus!
