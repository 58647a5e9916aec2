//! Rollups and events give the same answers, and adjacent time ranges share no
//! event.

use vstd::prelude::*;

use crate::hours;
use crate::hours::{DAY_MS, HOUR_MS};
use crate::model::dimensions;
use crate::model::event::EventModel;
use crate::quantity;
use crate::query::executor;
use crate::query::executor::{Coverage, GroupModel, RowModel};
use crate::query::plan::PlanModel;
use crate::rollup::builder;
use crate::rollup::hourly::{KeyModel, RecordModel};

verus! {

// ---------------------------------------------------------------------------
// Sums without bounds
// ---------------------------------------------------------------------------

/// The quantities of the rows with the key `key`, added up.
pub open spec fn exact_quantity(rows: Seq<RowModel>, key: Seq<Seq<char>>) -> int
    decreases rows.len(),
{
    if rows.len() == 0 {
        0
    } else {
        exact_quantity(rows.drop_last(), key) + if rows.last().key == key {
            rows.last().quantity as int
        } else {
            0
        }
    }
}

/// The numbers of events of the rows with the key `key`, added up.
pub open spec fn exact_count(rows: Seq<RowModel>, key: Seq<Seq<char>>) -> int
    decreases rows.len(),
{
    if rows.len() == 0 {
        0
    } else {
        exact_count(rows.drop_last(), key) + if rows.last().key == key {
            rows.last().count as int
        } else {
            0
        }
    }
}

pub open spec fn magnitude(v: int) -> int {
    if v < 0 {
        -v
    } else {
        v
    }
}

/// The quantities of events, added up without their signs.
pub open spec fn turnover(events: Seq<EventModel>) -> int
    decreases events.len(),
{
    if events.len() == 0 {
        0
    } else {
        turnover(events.drop_last()) + magnitude(events.last().quantity as int)
    }
}

/// The quantities of rows, added up without their signs.
pub open spec fn row_turnover(rows: Seq<RowModel>) -> int
    decreases rows.len(),
{
    if rows.len() == 0 {
        0
    } else {
        row_turnover(rows.drop_last()) + magnitude(rows.last().quantity as int)
    }
}

/// Where the sum without signs fits, no bound is met.
pub proof fn lemma_exact_rows(rows: Seq<RowModel>, key: Seq<Seq<char>>)
    requires
        row_turnover(rows) <= i128::MAX,
    ensures
        executor::quantity_of(rows, key) == exact_quantity(rows, key),
        magnitude(exact_quantity(rows, key)) <= row_turnover(rows),
    decreases rows.len(),
{
    if rows.len() > 0 {
        lemma_exact_rows(rows.drop_last(), key);
    }
}

pub proof fn lemma_exact_counts(rows: Seq<RowModel>, key: Seq<Seq<char>>)
    requires
        exact_count(rows, key) <= u64::MAX,
    ensures
        executor::count_of(rows, key) == exact_count(rows, key),
        exact_count(rows, key) >= 0,
    decreases rows.len(),
{
    if rows.len() > 0 {
        lemma_count_nonnegative(rows.drop_last(), key);
        lemma_exact_counts(rows.drop_last(), key);
    }
}

pub proof fn lemma_count_nonnegative(rows: Seq<RowModel>, key: Seq<Seq<char>>)
    ensures
        exact_count(rows, key) >= 0,
    decreases rows.len(),
{
    if rows.len() > 0 {
        lemma_count_nonnegative(rows.drop_last(), key);
    }
}

proof fn lemma_exact_concat(a: Seq<RowModel>, b: Seq<RowModel>, key: Seq<Seq<char>>)
    ensures
        exact_quantity(a + b, key) == exact_quantity(a, key) + exact_quantity(b, key),
        exact_count(a + b, key) == exact_count(a, key) + exact_count(b, key),
        row_turnover(a + b) == row_turnover(a) + row_turnover(b),
    decreases b.len(),
{
    if b.len() == 0 {
        assert(a + b =~= a);
    } else {
        assert((a + b).drop_last() =~= a + b.drop_last());
        assert((a + b).last() == b.last());
        lemma_exact_concat(a, b.drop_last(), key);
    }
}

// ---------------------------------------------------------------------------
// Adjacent ranges
// ---------------------------------------------------------------------------

/// A plan with another time range.
pub open spec fn ranged(p: PlanModel, from: i64, to: i64) -> PlanModel {
    PlanModel { from_ms: from, to_ms: to, ..p }
}

/// Of two adjacent time ranges, an event of the whole is in one and not in the
/// other.
pub proof fn law_adjacent_ranges_share_nothing(
    p: PlanModel,
    from: i64,
    mid: i64,
    to: i64,
    e: EventModel,
)
    requires
        from <= mid <= to,
    ensures
        executor::event_matches(ranged(p, from, to), e) <==> (executor::event_matches(
            ranged(p, from, mid),
            e,
        ) != executor::event_matches(ranged(p, mid, to), e)),
        !(executor::event_matches(ranged(p, from, mid), e) && executor::event_matches(
            ranged(p, mid, to),
            e,
        )),
{
    let whole = ranged(p, from, to);
    let low = ranged(p, from, mid);
    let high = ranged(p, mid, to);
    if executor::event_matches(whole, e) {
        assert forall|i: int| 0 <= i < p.filters.len() implies executor::filter_accepts(
            #[trigger] p.filters[i],
            executor::event_value(e, p.filters[i].field),
        ) by {
            assert(whole.filters[i] == p.filters[i]);
        }
    }
    if executor::event_matches(low, e) {
        assert forall|i: int| 0 <= i < p.filters.len() implies executor::filter_accepts(
            #[trigger] p.filters[i],
            executor::event_value(e, p.filters[i].field),
        ) by {
            assert(low.filters[i] == p.filters[i]);
        }
    }
    if executor::event_matches(high, e) {
        assert forall|i: int| 0 <= i < p.filters.len() implies executor::filter_accepts(
            #[trigger] p.filters[i],
            executor::event_value(e, p.filters[i].field),
        ) by {
            assert(high.filters[i] == p.filters[i]);
        }
    }
}

/// The sums and the numbers of events over two adjacent time ranges add up to
/// those over the whole.
pub proof fn law_adjacent_ranges_add_up(
    p: PlanModel,
    from: i64,
    mid: i64,
    to: i64,
    events: Seq<EventModel>,
    key: Seq<Seq<char>>,
)
    requires
        from <= mid <= to,
    ensures
        exact_quantity(executor::event_rows(ranged(p, from, to), events), key) == exact_quantity(
            executor::event_rows(ranged(p, from, mid), events),
            key,
        ) + exact_quantity(executor::event_rows(ranged(p, mid, to), events), key),
        exact_count(executor::event_rows(ranged(p, from, to), events), key) == exact_count(
            executor::event_rows(ranged(p, from, mid), events),
            key,
        ) + exact_count(executor::event_rows(ranged(p, mid, to), events), key),
    decreases events.len(),
{
    if events.len() > 0 {
        let init = events.drop_last();
        let e = events.last();
        law_adjacent_ranges_add_up(p, from, mid, to, init, key);
        law_adjacent_ranges_share_nothing(p, from, mid, to, e);
        let whole = executor::event_rows(ranged(p, from, to), init);
        let low = executor::event_rows(ranged(p, from, mid), init);
        let high = executor::event_rows(ranged(p, mid, to), init);
        let row = executor::event_row(p, e);
        assert(executor::event_row(ranged(p, from, to), e) == row);
        assert(executor::event_row(ranged(p, from, mid), e) == row);
        assert(executor::event_row(ranged(p, mid, to), e) == row);
        assert(whole.push(row).drop_last() =~= whole);
        assert(low.push(row).drop_last() =~= low);
        assert(high.push(row).drop_last() =~= high);
    }
}

// ---------------------------------------------------------------------------
// Groups exist
// ---------------------------------------------------------------------------

spec fn with_row(groups: Seq<GroupModel>, rows: Seq<RowModel>, row: RowModel) -> Seq<GroupModel>
    decreases groups.len(),
{
    let after = rows.push(row);
    let g = GroupModel {
        key: row.key,
        quantity_sum: executor::quantity_of(after, row.key),
        count: executor::count_of(after, row.key),
    };
    if groups.len() == 0 {
        seq![g]
    } else if groups[0].key == row.key {
        seq![g] + groups.drop_first()
    } else if executor::key_lt(row.key, groups[0].key) {
        seq![g] + groups
    } else {
        seq![groups[0]] + with_row(groups.drop_first(), rows, row)
    }
}

proof fn lemma_with_row(groups: Seq<GroupModel>, rows: Seq<RowModel>, row: RowModel)
    requires
        executor::key_seq_ascends(executor::keys_of(groups)),
    ensures
        executor::key_seq_ascends(executor::keys_of(with_row(groups, rows, row))),
        forall|k: Seq<Seq<char>>| #[trigger]
            executor::keys_of(with_row(groups, rows, row)).contains(k) <==> executor::keys_of(
                groups,
            ).contains(k) || k == row.key,
        forall|i: int|
            0 <= i < with_row(groups, rows, row).len() ==> {
                let g = #[trigger] with_row(groups, rows, row)[i];
                g.key == row.key && g.quantity_sum == executor::quantity_of(rows.push(row), row.key)
                    && g.count == executor::count_of(rows.push(row), row.key) || (g.key != row.key
                    && groups.contains(g))
            },
    decreases groups.len(),
{
    let out = with_row(groups, rows, row);
    let keys = executor::keys_of(groups);
    let out_keys = executor::keys_of(out);
    let after = rows.push(row);
    let g = GroupModel {
        key: row.key,
        quantity_sum: executor::quantity_of(after, row.key),
        count: executor::count_of(after, row.key),
    };
    if groups.len() == 0 {
        assert(out_keys =~= seq![row.key]);
        assert(seq![row.key][0] == row.key);
    } else {
        let rest = groups.drop_first();
        let rest_keys = executor::keys_of(rest);
        assert(rest_keys =~= keys.drop_first());
        assert(keys[0] == groups[0].key);
        assert forall|i: int, j: int| 0 <= i < j < rest_keys.len() implies executor::key_lt(
            #[trigger] rest_keys[i],
            #[trigger] rest_keys[j],
        ) by {
            assert(executor::key_lt(keys[i + 1], keys[j + 1]));
        }
        assert forall|k: Seq<Seq<char>>|
            keys.contains(k) <==> k == keys[0] || rest_keys.contains(k) by {
            if keys.contains(k) {
                let i = choose|i: int| 0 <= i < keys.len() && keys[i] == k;
                if i > 0 {
                    assert(rest_keys[i - 1] == k);
                }
            }
            if rest_keys.contains(k) {
                let i = choose|i: int| 0 <= i < rest_keys.len() && rest_keys[i] == k;
                assert(keys[i + 1] == k);
            }
        }
        if groups[0].key == row.key {
            assert(out_keys =~= keys);
            assert forall|i: int| 0 <= i < out.len() implies {
                let g = #[trigger] out[i];
                g.key == row.key && g.quantity_sum == executor::quantity_of(after, row.key)
                    && g.count == executor::count_of(after, row.key) || (g.key != row.key
                    && groups.contains(g))
            } by {
                if i > 0 {
                    assert(out[i] == groups[i]);
                    assert(executor::key_lt(keys[0], keys[i]));
                    executor::lemma_key_lt_irreflexive(row.key);
                }
            }
        } else if executor::key_lt(row.key, groups[0].key) {
            assert(out_keys =~= seq![row.key] + keys);
            executor::lemma_key_lt_irreflexive(row.key);
            assert forall|i: int, j: int| 0 <= i < j < out_keys.len() implies executor::key_lt(
                #[trigger] out_keys[i],
                #[trigger] out_keys[j],
            ) by {
                if i > 0 {
                    assert(executor::key_lt(keys[i - 1], keys[j - 1]));
                } else if j > 1 {
                    assert(executor::key_lt(keys[0], keys[j - 1]));
                    executor::lemma_key_lt_transitive(row.key, keys[0], keys[j - 1]);
                }
            }
            assert forall|k: Seq<Seq<char>>| #[trigger]
                out_keys.contains(k) <==> keys.contains(k) || k == row.key by {
                if out_keys.contains(k) {
                    let i = choose|i: int| 0 <= i < out_keys.len() && out_keys[i] == k;
                    if i > 0 {
                        assert(keys[i - 1] == k);
                    }
                }
                if keys.contains(k) {
                    let i = choose|i: int| 0 <= i < keys.len() && keys[i] == k;
                    assert(out_keys[i + 1] == k);
                }
                assert(out_keys[0] == row.key);
            }
            assert forall|i: int| 0 <= i < out.len() implies {
                let g = #[trigger] out[i];
                g.key == row.key && g.quantity_sum == executor::quantity_of(after, row.key)
                    && g.count == executor::count_of(after, row.key) || (g.key != row.key
                    && groups.contains(g))
            } by {
                if i > 0 {
                    assert(out[i] == groups[i - 1]);
                    assert(out_keys[i] == keys[i - 1]);
                    assert(executor::key_lt(out_keys[0], out_keys[i]));
                }
            }
        } else {
            executor::lemma_key_lt_total(row.key, groups[0].key);
            lemma_with_row(rest, rows, row);
            let tail = with_row(rest, rows, row);
            let tail_keys = executor::keys_of(tail);
            assert(out_keys =~= seq![keys[0]] + tail_keys);
            assert forall|i: int, j: int| 0 <= i < j < out_keys.len() implies executor::key_lt(
                #[trigger] out_keys[i],
                #[trigger] out_keys[j],
            ) by {
                if i > 0 {
                    assert(executor::key_lt(tail_keys[i - 1], tail_keys[j - 1]));
                } else {
                    let k = tail_keys[j - 1];
                    assert(tail_keys.contains(k));
                    if k != row.key {
                        assert(rest_keys.contains(k));
                        let x = choose|x: int| 0 <= x < rest_keys.len() && rest_keys[x] == k;
                        assert(executor::key_lt(keys[0], keys[x + 1]));
                    }
                }
            }
            assert forall|k: Seq<Seq<char>>| #[trigger]
                out_keys.contains(k) <==> keys.contains(k) || k == row.key by {
                assert(tail_keys.contains(k) <==> rest_keys.contains(k) || k == row.key);
                if out_keys.contains(k) {
                    let i = choose|i: int| 0 <= i < out_keys.len() && out_keys[i] == k;
                    if i > 0 {
                        assert(tail_keys[i - 1] == k);
                    }
                }
                if tail_keys.contains(k) {
                    let i = choose|i: int| 0 <= i < tail_keys.len() && tail_keys[i] == k;
                    assert(out_keys[i + 1] == k);
                }
                assert(out_keys[0] == keys[0]);
            }
            assert forall|i: int| 0 <= i < out.len() implies {
                let g = #[trigger] out[i];
                g.key == row.key && g.quantity_sum == executor::quantity_of(after, row.key)
                    && g.count == executor::count_of(after, row.key) || (g.key != row.key
                    && groups.contains(g))
            } by {
                if i > 0 {
                    assert(out[i] == tail[i - 1]);
                    if out[i].key != row.key {
                        let x = choose|x: int| 0 <= x < rest.len() && rest[x] == out[i];
                        assert(groups[x + 1] == out[i]);
                    }
                } else {
                    assert(out[0] == groups[0]);
                }
            }
        }
    }
}

proof fn lemma_row_added(rows: Seq<RowModel>, row: RowModel, key: Seq<Seq<char>>)
    ensures
        executor::some_row_has(rows.push(row), key) <==> executor::some_row_has(rows, key)
            || row.key == key,
        key != row.key ==> executor::quantity_of(rows.push(row), key) == executor::quantity_of(
            rows,
            key,
        ) && executor::count_of(rows.push(row), key) == executor::count_of(rows, key),
{
    let after = rows.push(row);
    assert(after.drop_last() =~= rows);
    assert(after[rows.len() as int] == row);
    if executor::some_row_has(after, key) {
        let i = choose|i: int| 0 <= i < after.len() && (#[trigger] after[i]).key == key;
        if i < rows.len() {
            assert(rows[i].key == key);
        }
    }
    if executor::some_row_has(rows, key) {
        let i = choose|i: int| 0 <= i < rows.len() && (#[trigger] rows[i]).key == key;
        assert(after[i].key == key);
    }
}

proof fn lemma_grouping_exists(rows: Seq<RowModel>) -> (groups: Seq<GroupModel>)
    ensures
        executor::is_grouping(groups, rows),
    decreases rows.len(),
{
    if rows.len() == 0 {
        let none = Seq::<GroupModel>::empty();
        assert forall|key: Seq<Seq<char>>|
            executor::some_row_has(rows, key) <==> #[trigger] executor::keys_of(none).contains(
                key,
            ) by {}
        none
    } else {
        let init = rows.drop_last();
        let row = rows.last();
        assert(init.push(row) =~= rows);
        let before = lemma_grouping_exists(init);
        lemma_with_row(before, init, row);
        let groups = with_row(before, init, row);
        assert forall|key: Seq<Seq<char>>|
            executor::some_row_has(rows, key) <==> #[trigger] executor::keys_of(groups).contains(
                key,
            ) by {
            lemma_row_added(init, row, key);
            assert(executor::some_row_has(init, key) <==> executor::keys_of(before).contains(key));
        }
        assert forall|i: int| 0 <= i < groups.len() implies (#[trigger] groups[i]).quantity_sum
            == executor::quantity_of(rows, groups[i].key) && groups[i].count == executor::count_of(
            rows,
            groups[i].key,
        ) by {
            if groups[i].key != row.key {
                assert(before.contains(groups[i]));
                let x = choose|x: int| 0 <= x < before.len() && before[x] == groups[i];
                lemma_row_added(init, row, groups[i].key);
            }
        }
        groups
    }
}

/// The groups of rows are groups of these rows.
pub proof fn lemma_groups_of(rows: Seq<RowModel>)
    ensures
        executor::is_grouping(executor::groups_of(rows), rows),
{
    let groups = lemma_grouping_exists(rows);
    assert(executor::is_grouping(groups, rows));
}

/// Rows that agree on which keys occur and on the sums and the numbers of events
/// under each key have the same groups.
pub proof fn lemma_same_groups(a: Seq<RowModel>, b: Seq<RowModel>)
    requires
        forall|key: Seq<Seq<char>>| #[trigger]
            executor::some_row_has(a, key) <==> executor::some_row_has(b, key),
        forall|key: Seq<Seq<char>>| #[trigger]
            executor::quantity_of(a, key) == executor::quantity_of(b, key),
        forall|key: Seq<Seq<char>>| #[trigger]
            executor::count_of(a, key) == executor::count_of(b, key),
    ensures
        executor::groups_of(a) == executor::groups_of(b),
{
    lemma_groups_of(a);
    lemma_groups_of(b);
    let g = executor::groups_of(b);
    assert forall|key: Seq<Seq<char>>|
        executor::some_row_has(a, key) <==> #[trigger] executor::keys_of(g).contains(key) by {
        assert(executor::some_row_has(a, key) <==> executor::some_row_has(b, key));
    }
    assert(executor::is_grouping(g, a)) by {
        assert forall|i: int| 0 <= i < g.len() implies (#[trigger] g[i]).quantity_sum
            == executor::quantity_of(a, g[i].key) && g[i].count == executor::count_of(
            a,
            g[i].key,
        ) by {
            assert(executor::quantity_of(a, g[i].key) == executor::quantity_of(b, g[i].key));
            assert(executor::count_of(a, g[i].key) == executor::count_of(b, g[i].key));
        }
    }
    executor::lemma_grouping_unique(executor::groups_of(a), g, a);
}

// ---------------------------------------------------------------------------
// An event and the rollup row that it belongs to
// ---------------------------------------------------------------------------

/// The events whose hours are read from rollups, in their order.
pub open spec fn covered_events(c: Coverage, events: Seq<EventModel>) -> Seq<EventModel>
    decreases events.len(),
{
    if events.len() == 0 {
        Seq::empty()
    } else if c.time_covered(events.last().timestamp_ms as int) {
        covered_events(c, events.drop_last()).push(events.last())
    } else {
        covered_events(c, events.drop_last())
    }
}

/// The canonical text of the event's dimensions gives them back.
pub open spec fn reads_back(e: EventModel) -> bool {
    e.wf() && dimensions::dimensions_of_text(dimensions::dimension_text(e.dimensions)) == Some(
        e.dimensions,
    )
}

/// A row with nothing but its key.
spec fn probe(k: KeyModel) -> RecordModel {
    RecordModel { key: k, quantity_sum: 0, event_count: 0, first_event_ms: 0, last_event_ms: 0 }
}

/// The rows with the key `k` are let through by the plan, and belong to `key`.
spec fn selected(p: PlanModel, key: Seq<Seq<char>>, k: KeyModel) -> bool {
    executor::record_matches(p, probe(k)) && executor::record_key(p, probe(k)) == key
}

proof fn lemma_record_by_key(p: PlanModel, r: RecordModel)
    ensures
        executor::record_matches(p, r) == executor::record_matches(p, probe(r.key)),
        executor::record_key(p, r) == executor::record_key(p, probe(r.key)),
{
    let q = probe(r.key);
    assert forall|name: Seq<char>| executor::record_value(r, name) == #[trigger]
        executor::record_value(q, name) by {}
    if executor::record_matches(p, r) {
        assert forall|i: int| 0 <= i < p.filters.len() implies executor::filter_accepts(
            #[trigger] p.filters[i],
            executor::record_value(q, p.filters[i].field),
        ) by {
            assert(executor::filter_accepts(
                p.filters[i],
                executor::record_value(r, p.filters[i].field),
            ));
        }
    }
    if executor::record_matches(p, q) {
        assert forall|i: int| 0 <= i < p.filters.len() implies executor::filter_accepts(
            #[trigger] p.filters[i],
            executor::record_value(r, p.filters[i].field),
        ) by {
            assert(executor::filter_accepts(
                p.filters[i],
                executor::record_value(q, p.filters[i].field),
            ));
        }
    }
    assert(executor::record_key(p, r) =~= executor::record_key(p, q));
}

proof fn lemma_same_value(e: EventModel, name: Seq<char>)
    requires
        reads_back(e),
        name != "kind"@,
    ensures
        executor::event_value(e, name) == executor::record_value(
            probe(builder::event_rollup_key(e)),
            name,
        ),
{
    dimensions::lemma_first_value(e.dimensions, name);
}

proof fn lemma_hour_starts(ts: int)
    requires
        ts >= 0,
    ensures
        hours::start_of(hours::start_of(ts, HOUR_MS as int), HOUR_MS as int) == hours::start_of(
            ts,
            HOUR_MS as int,
        ),
        hours::start_of(hours::start_of(ts, HOUR_MS as int), DAY_MS as int) == hours::start_of(
            ts,
            DAY_MS as int,
        ),
{
    let h = ts - ts % 3_600_000;
    assert(h % 3_600_000 == 0 && h >= 0);
    assert(h - h % 86_400_000 == ts - ts % 86_400_000) by {
        let d = ts / 86_400_000;
        let r = ts % 86_400_000;
        assert(ts == 86_400_000 * d + r);
        assert(ts % 3_600_000 == r % 3_600_000) by {
            assert(ts == 3_600_000 * (24 * d) + r);
        }
        assert(h == 86_400_000 * d + (r - r % 3_600_000));
        assert(0 <= r - r % 3_600_000 < 86_400_000);
    }
}

/// The plan treats an event of a covered hour as it treats the rollup row that
/// the event belongs to.
proof fn lemma_event_like_row(p: PlanModel, watermark: i64, e: EventModel)
    requires
        executor::rollups_suffice(p),
        executor::plan_coverage(p, watermark).time_covered(e.timestamp_ms as int),
        reads_back(e),
    ensures
        executor::event_matches(p, e) == executor::record_matches(
            p,
            probe(builder::event_rollup_key(e)),
        ),
        executor::event_key(p, e) == executor::record_key(p, probe(builder::event_rollup_key(e))),
        executor::plan_coverage(p, watermark).hour_covered(
            builder::event_rollup_key(e).hour_start_ms as int,
        ),
{
    let q = probe(builder::event_rollup_key(e));
    let ts = e.timestamp_ms as int;
    hours::lemma_start_of(ts, HOUR_MS as int);
    lemma_hour_starts(ts);
    assert forall|i: int| 0 <= i < p.filters.len() implies executor::event_value(
        e,
        (#[trigger] p.filters[i]).field,
    ) == executor::record_value(q, p.filters[i].field) by {
        lemma_same_value(e, p.filters[i].field);
    }
    if executor::event_matches(p, e) {
        assert forall|i: int| 0 <= i < p.filters.len() implies executor::filter_accepts(
            #[trigger] p.filters[i],
            executor::record_value(q, p.filters[i].field),
        ) by {
            assert(executor::filter_accepts(
                p.filters[i],
                executor::event_value(e, p.filters[i].field),
            ));
        }
    }
    if executor::record_matches(p, q) {
        assert forall|i: int| 0 <= i < p.filters.len() implies executor::filter_accepts(
            #[trigger] p.filters[i],
            executor::event_value(e, p.filters[i].field),
        ) by {
            assert(executor::filter_accepts(
                p.filters[i],
                executor::record_value(q, p.filters[i].field),
            ));
        }
    }
    assert forall|i: int| 0 <= i < p.group_by.len() implies executor::event_key(p, e)[i]
        == executor::record_key(p, q)[i] by {
        let g = p.group_by[i];
        assert(p.group_by.contains(g));
        lemma_same_value(e, g);
    }
    assert(executor::event_key(p, e) =~= executor::record_key(p, q));
}

// ---------------------------------------------------------------------------
// Adding up by rows or by events
// ---------------------------------------------------------------------------

/// What an event adds: one, or its quantity.
spec fn weight(e: EventModel, counting: bool) -> int {
    if counting {
        1
    } else {
        e.quantity as int
    }
}

/// The weights of the events with the rollup key `k`.
spec fn key_weight(events: Seq<EventModel>, k: KeyModel, counting: bool) -> int
    decreases events.len(),
{
    if events.len() == 0 {
        0
    } else {
        key_weight(events.drop_last(), k, counting) + if builder::event_rollup_key(events.last())
            == k {
            weight(events.last(), counting)
        } else {
            0
        }
    }
}

/// The weights of the events whose rollup rows are selected.
spec fn picked_weight(
    p: PlanModel,
    key: Seq<Seq<char>>,
    events: Seq<EventModel>,
    counting: bool,
) -> int
    decreases events.len(),
{
    if events.len() == 0 {
        0
    } else {
        picked_weight(p, key, events.drop_last(), counting) + if selected(
            p,
            key,
            builder::event_rollup_key(events.last()),
        ) {
            weight(events.last(), counting)
        } else {
            0
        }
    }
}

/// The weights of the events of the selected rows, row by row.
spec fn rows_weight(
    p: PlanModel,
    key: Seq<Seq<char>>,
    records: Seq<RecordModel>,
    events: Seq<EventModel>,
    counting: bool,
) -> int
    decreases records.len(),
{
    if records.len() == 0 {
        0
    } else {
        rows_weight(p, key, records.drop_last(), events, counting) + if selected(
            p,
            key,
            records.last().key,
        ) {
            key_weight(events, records.last().key, counting)
        } else {
            0
        }
    }
}

proof fn lemma_distinct_init(records: Seq<RecordModel>)
    requires
        builder::keys_distinct(records),
        records.len() > 0,
    ensures
        builder::keys_distinct(records.drop_last()),
        !builder::some_record_has(records.drop_last(), records.last().key),
{
    let init = records.drop_last();
    assert forall|i: int, j: int| 0 <= i < j < init.len() implies (#[trigger] init[i]).key != (
    #[trigger] init[j]).key by {
        assert(records[i].key != records[j].key);
    }
    if builder::some_record_has(init, records.last().key) {
        let i = choose|i: int|
            0 <= i < init.len() && (#[trigger] init[i]).key == records.last().key;
        assert(records[i].key != records[records.len() - 1].key);
    }
}

proof fn lemma_one_more(
    p: PlanModel,
    key: Seq<Seq<char>>,
    records: Seq<RecordModel>,
    events: Seq<EventModel>,
    e: EventModel,
    counting: bool,
)
    requires
        builder::keys_distinct(records),
    ensures
        rows_weight(p, key, records, events.push(e), counting) == rows_weight(
            p,
            key,
            records,
            events,
            counting,
        ) + if selected(p, key, builder::event_rollup_key(e)) && builder::some_record_has(
            records,
            builder::event_rollup_key(e),
        ) {
            weight(e, counting)
        } else {
            0
        },
    decreases records.len(),
{
    let k = builder::event_rollup_key(e);
    let after = events.push(e);
    assert(after.drop_last() =~= events);
    if records.len() > 0 {
        let init = records.drop_last();
        let last = records.last();
        lemma_distinct_init(records);
        lemma_one_more(p, key, init, events, e, counting);
        assert(builder::some_record_has(records, k) <==> builder::some_record_has(init, k)
            || last.key == k) by {
            if builder::some_record_has(records, k) {
                let i = choose|i: int| 0 <= i < records.len() && (#[trigger] records[i]).key == k;
                if i < init.len() {
                    assert(init[i].key == k);
                }
            }
            if builder::some_record_has(init, k) {
                let i = choose|i: int| 0 <= i < init.len() && (#[trigger] init[i]).key == k;
                assert(records[i].key == k);
            }
            assert(records[records.len() - 1] == last);
        }
    }
}

/// Adding up row by row or event by event comes to the same.
proof fn lemma_rows_are_events(
    p: PlanModel,
    key: Seq<Seq<char>>,
    records: Seq<RecordModel>,
    events: Seq<EventModel>,
    counting: bool,
)
    requires
        builder::keys_distinct(records),
        forall|i: int|
            0 <= i < events.len() ==> builder::some_record_has(
                records,
                builder::event_rollup_key(#[trigger] events[i]),
            ),
    ensures
        rows_weight(p, key, records, events, counting) == picked_weight(p, key, events, counting),
    decreases events.len(),
{
    if events.len() == 0 {
        lemma_no_events(p, key, records, events, counting);
    } else {
        let init = events.drop_last();
        assert forall|i: int| 0 <= i < init.len() implies builder::some_record_has(
            records,
            builder::event_rollup_key(#[trigger] init[i]),
        ) by {
            assert(init[i] == events[i]);
        }
        lemma_rows_are_events(p, key, records, init, counting);
        lemma_one_more(p, key, records, init, events.last(), counting);
        assert(init.push(events.last()) =~= events);
        assert(builder::some_record_has(
            records,
            builder::event_rollup_key(events[events.len() - 1]),
        ));
    }
}

proof fn lemma_no_events(
    p: PlanModel,
    key: Seq<Seq<char>>,
    records: Seq<RecordModel>,
    events: Seq<EventModel>,
    counting: bool,
)
    requires
        events.len() == 0,
    ensures
        rows_weight(p, key, records, events, counting) == 0,
    decreases records.len(),
{
    if records.len() > 0 {
        lemma_no_events(p, key, records.drop_last(), events, counting);
    }
}

/// The magnitudes of the sums of rows.
spec fn rows_turnover(records: Seq<RecordModel>, events: Seq<EventModel>) -> int
    decreases records.len(),
{
    if records.len() == 0 {
        0
    } else {
        rows_turnover(records.drop_last(), events) + magnitude(
            key_weight(events, records.last().key, false),
        )
    }
}

proof fn lemma_turnover_one_more(
    records: Seq<RecordModel>,
    events: Seq<EventModel>,
    e: EventModel,
)
    requires
        builder::keys_distinct(records),
    ensures
        rows_turnover(records, events.push(e)) <= rows_turnover(records, events) + if builder::some_record_has(
            records,
            builder::event_rollup_key(e),
        ) {
            magnitude(e.quantity as int)
        } else {
            0
        },
    decreases records.len(),
{
    let k = builder::event_rollup_key(e);
    let after = events.push(e);
    assert(after.drop_last() =~= events);
    if records.len() > 0 {
        let init = records.drop_last();
        let last = records.last();
        lemma_distinct_init(records);
        lemma_turnover_one_more(init, events, e);
        if builder::some_record_has(init, k) {
            let i = choose|i: int| 0 <= i < init.len() && (#[trigger] init[i]).key == k;
            assert(records[i].key == k);
        }
        assert(records[records.len() - 1] == last);
        if last.key == k {
            assert(builder::some_record_has(records, k));
        }
    }
}

proof fn lemma_rows_turnover(records: Seq<RecordModel>, events: Seq<EventModel>)
    requires
        builder::keys_distinct(records),
    ensures
        rows_turnover(records, events) <= turnover(events),
    decreases events.len(),
{
    if events.len() == 0 {
        lemma_turnover_empty(records, events);
    } else {
        lemma_rows_turnover(records, events.drop_last());
        lemma_turnover_one_more(records, events.drop_last(), events.last());
        assert(events.drop_last().push(events.last()) =~= events);
    }
}

proof fn lemma_turnover_empty(records: Seq<RecordModel>, events: Seq<EventModel>)
    requires
        events.len() == 0,
    ensures
        rows_turnover(records, events) == 0,
    decreases records.len(),
{
    if records.len() > 0 {
        lemma_turnover_empty(records.drop_last(), events);
    }
}

proof fn lemma_turnover_nonnegative(events: Seq<EventModel>)
    ensures
        turnover(events) >= 0,
    decreases events.len(),
{
    if events.len() > 0 {
        lemma_turnover_nonnegative(events.drop_last());
    }
}

/// Where the sum without signs fits, no bound is met, and a rollup row holds the
/// sum and the number of its events.
proof fn lemma_exact_keys(events: Seq<EventModel>, k: KeyModel)
    requires
        turnover(events) <= i128::MAX,
    ensures
        builder::key_quantity(events, k) == key_weight(events, k, false),
        magnitude(key_weight(events, k, false)) <= turnover(events),
        builder::key_count(events, k) == key_weight(events, k, true),
        key_weight(events, k, true) <= events.len(),
    decreases events.len(),
{
    if events.len() > 0 {
        lemma_exact_keys(events.drop_last(), k);
    }
}

// ---------------------------------------------------------------------------
// The rows of both ways
// ---------------------------------------------------------------------------

proof fn lemma_split(p: PlanModel, c: Coverage, events: Seq<EventModel>, key: Seq<Seq<char>>)
    ensures
        exact_quantity(executor::event_rows(p, events), key) == exact_quantity(
            executor::event_rows(p, covered_events(c, events)),
            key,
        ) + exact_quantity(executor::event_rows(p, executor::uncovered_events(c, events)), key),
        exact_count(executor::event_rows(p, events), key) == exact_count(
            executor::event_rows(p, covered_events(c, events)),
            key,
        ) + exact_count(executor::event_rows(p, executor::uncovered_events(c, events)), key),
        executor::some_row_has(executor::event_rows(p, events), key) <==> executor::some_row_has(
            executor::event_rows(p, covered_events(c, events)),
            key,
        ) || executor::some_row_has(
            executor::event_rows(p, executor::uncovered_events(c, events)),
            key,
        ),
        turnover(events) == turnover(covered_events(c, events)) + turnover(
            executor::uncovered_events(c, events),
        ),
        covered_events(c, events).len() + executor::uncovered_events(c, events).len()
            == events.len(),
    decreases events.len(),
{
    if events.len() > 0 {
        let init = events.drop_last();
        let e = events.last();
        lemma_split(p, c, init, key);
        let ci = covered_events(c, init);
        let ui = executor::uncovered_events(c, init);
        let all = executor::event_rows(p, init);
        let row = executor::event_row(p, e);
        assert(all.push(row).drop_last() =~= all);
        lemma_row_added(all, row, key);
        if c.time_covered(e.timestamp_ms as int) {
            let rows = executor::event_rows(p, ci);
            assert(ci.push(e).drop_last() =~= ci);
            assert(rows.push(row).drop_last() =~= rows);
            lemma_row_added(rows, row, key);
        } else {
            let rows = executor::event_rows(p, ui);
            assert(ui.push(e).drop_last() =~= ui);
            assert(rows.push(row).drop_last() =~= rows);
            lemma_row_added(rows, row, key);
        }
    }
}

pub proof fn lemma_row_counts(p: PlanModel, events: Seq<EventModel>, key: Seq<Seq<char>>)
    ensures
        row_turnover(executor::event_rows(p, events)) <= turnover(events),
        0 <= exact_count(executor::event_rows(p, events), key) <= events.len(),
    decreases events.len(),
{
    if events.len() > 0 {
        lemma_row_counts(p, events.drop_last(), key);
        let rows = executor::event_rows(p, events.drop_last());
        let row = executor::event_row(p, events.last());
        assert(rows.push(row).drop_last() =~= rows);
    }
}

proof fn lemma_covered_events(
    p: PlanModel,
    watermark: i64,
    events: Seq<EventModel>,
    key: Seq<Seq<char>>,
)
    requires
        executor::rollups_suffice(p),
        forall|i: int|
            0 <= i < events.len() ==> reads_back(#[trigger] events[i]) && executor::plan_coverage(
                p,
                watermark,
            ).time_covered(events[i].timestamp_ms as int),
    ensures
        exact_quantity(executor::event_rows(p, events), key) == picked_weight(
            p,
            key,
            events,
            false,
        ),
        exact_count(executor::event_rows(p, events), key) == picked_weight(p, key, events, true),
        executor::some_row_has(executor::event_rows(p, events), key) <==> exists|i: int|
            0 <= i < events.len() && selected(
                p,
                key,
                builder::event_rollup_key(#[trigger] events[i]),
            ),
    decreases events.len(),
{
    if events.len() > 0 {
        let init = events.drop_last();
        let e = events.last();
        assert forall|i: int| 0 <= i < init.len() implies reads_back(#[trigger] init[i])
            && executor::plan_coverage(p, watermark).time_covered(
            init[i].timestamp_ms as int,
        ) by {
            assert(init[i] == events[i]);
        }
        assert(events[events.len() - 1] == e);
        lemma_covered_events(p, watermark, init, key);
        lemma_event_like_row(p, watermark, e);
        let rows = executor::event_rows(p, init);
        let row = executor::event_row(p, e);
        assert(rows.push(row).drop_last() =~= rows);
        lemma_row_added(rows, row, key);
        if exists|i: int|
            0 <= i < init.len() && selected(p, key, builder::event_rollup_key(#[trigger] init[i])) {
            let i = choose|i: int|
                0 <= i < init.len() && selected(
                    p,
                    key,
                    builder::event_rollup_key(#[trigger] init[i]),
                );
            assert(events[i] == init[i]);
        }
        if exists|i: int|
            0 <= i < events.len() && selected(
                p,
                key,
                builder::event_rollup_key(#[trigger] events[i]),
            ) {
            let i = choose|i: int|
                0 <= i < events.len() && selected(
                    p,
                    key,
                    builder::event_rollup_key(#[trigger] events[i]),
                );
            if i < init.len() {
                assert(init[i] == events[i]);
            }
        }
    }
}

proof fn lemma_record_rows(
    p: PlanModel,
    records: Seq<RecordModel>,
    events: Seq<EventModel>,
    key: Seq<Seq<char>>,
)
    requires
        turnover(events) <= i128::MAX,
        events.len() <= u64::MAX,
        forall|i: int|
            0 <= i < records.len() ==> (#[trigger] records[i]).quantity_sum
                == builder::key_quantity(events, records[i].key) && records[i].event_count
                == builder::key_count(events, records[i].key),
    ensures
        exact_quantity(executor::record_rows(p, records), key) == rows_weight(
            p,
            key,
            records,
            events,
            false,
        ),
        exact_count(executor::record_rows(p, records), key) == rows_weight(
            p,
            key,
            records,
            events,
            true,
        ),
        row_turnover(executor::record_rows(p, records)) <= rows_turnover(records, events),
        executor::some_row_has(executor::record_rows(p, records), key) <==> exists|i: int|
            0 <= i < records.len() && selected(p, key, (#[trigger] records[i]).key),
    decreases records.len(),
{
    if records.len() > 0 {
        let init = records.drop_last();
        let r = records.last();
        assert forall|i: int| 0 <= i < init.len() implies (#[trigger] init[i]).quantity_sum
            == builder::key_quantity(events, init[i].key) && init[i].event_count
            == builder::key_count(events, init[i].key) by {
            assert(init[i] == records[i]);
        }
        assert(records[records.len() - 1] == r);
        lemma_record_rows(p, init, events, key);
        lemma_record_by_key(p, r);
        lemma_exact_keys(events, r.key);
        let rows = executor::record_rows(p, init);
        let row = executor::record_row(p, r);
        assert(rows.push(row).drop_last() =~= rows);
        lemma_row_added(rows, row, key);
        if exists|i: int| 0 <= i < init.len() && selected(p, key, (#[trigger] init[i]).key) {
            let i = choose|i: int|
                0 <= i < init.len() && selected(p, key, (#[trigger] init[i]).key);
            assert(records[i] == init[i]);
        }
        if exists|i: int| 0 <= i < records.len() && selected(p, key, (#[trigger] records[i]).key) {
            let i = choose|i: int|
                0 <= i < records.len() && selected(p, key, (#[trigger] records[i]).key);
            if i < init.len() {
                assert(init[i] == records[i]);
            }
        }
    }
}

proof fn lemma_covered_are_covered(c: Coverage, events: Seq<EventModel>)
    ensures
        forall|i: int|
            0 <= i < covered_events(c, events).len() ==> c.time_covered(
                (#[trigger] covered_events(c, events)[i]).timestamp_ms as int,
            ) && events.contains(covered_events(c, events)[i]),
    decreases events.len(),
{
    if events.len() > 0 {
        let init = events.drop_last();
        let out = covered_events(c, events);
        lemma_covered_are_covered(c, init);
        assert forall|i: int| 0 <= i < out.len() implies c.time_covered(
            (#[trigger] out[i]).timestamp_ms as int,
        ) && events.contains(out[i]) by {
            let before = covered_events(c, init);
            if i < before.len() {
                assert(out[i] == before[i]);
                let j = choose|j: int| 0 <= j < init.len() && init[j] == before[i];
                assert(events[j] == out[i]);
            } else {
                assert(events[events.len() - 1] == out[i]);
            }
        }
    }
}

/// The rows that come from rollups and events, and those that come from the
/// events alone, have the same groups.
proof fn lemma_same_rows(
    p: PlanModel,
    watermark: i64,
    records: Seq<RecordModel>,
    events: Seq<EventModel>,
    key: Seq<Seq<char>>,
)
    requires
        executor::rollups_suffice(p),
        builder::rolls_up(
            executor::covered_records(executor::plan_coverage(p, watermark), records),
            covered_events(executor::plan_coverage(p, watermark), events),
        ),
        forall|i: int| 0 <= i < events.len() ==> reads_back(#[trigger] events[i]),
        turnover(events) <= i128::MAX,
        events.len() <= u64::MAX,
    ensures
        ({
            let c = executor::plan_coverage(p, watermark);
            let mixed = executor::plan_rows(
                p,
                executor::covered_records(c, records),
                executor::uncovered_events(c, events),
            );
            let raw = executor::event_rows(p, events);
            &&& executor::some_row_has(mixed, key) <==> executor::some_row_has(raw, key)
            &&& executor::quantity_of(mixed, key) == executor::quantity_of(raw, key)
            &&& executor::count_of(mixed, key) == executor::count_of(raw, key)
        }),
{
    let c = executor::plan_coverage(p, watermark);
    let rolled = executor::covered_records(c, records);
    let inside = covered_events(c, events);
    let outside = executor::uncovered_events(c, events);
    let from_records = executor::record_rows(p, rolled);
    let from_events = executor::event_rows(p, outside);
    let mixed = from_records + from_events;
    let raw = executor::event_rows(p, events);
    lemma_split(p, c, events, key);
    lemma_turnover_nonnegative(inside);
    lemma_turnover_nonnegative(outside);
    lemma_covered_are_covered(c, events);
    assert forall|i: int| 0 <= i < inside.len() implies reads_back(#[trigger] inside[i])
        && c.time_covered(inside[i].timestamp_ms as int) by {
        let j = choose|j: int| 0 <= j < events.len() && events[j] == inside[i];
        assert(reads_back(events[j]));
    }
    lemma_covered_events(p, watermark, inside, key);
    assert forall|i: int| 0 <= i < rolled.len() implies (#[trigger] rolled[i]).quantity_sum
        == builder::key_quantity(inside, rolled[i].key) && rolled[i].event_count
        == builder::key_count(inside, rolled[i].key) by {
        lemma_exact_keys(inside, rolled[i].key);
    }
    lemma_record_rows(p, rolled, inside, key);
    lemma_rows_are_events(p, key, rolled, inside, false);
    lemma_rows_are_events(p, key, rolled, inside, true);
    lemma_rows_turnover(rolled, inside);
    lemma_exact_concat(from_records, from_events, key);
    lemma_row_counts(p, outside, key);
    lemma_row_counts(p, events, key);
    lemma_exact_rows(mixed, key);
    lemma_exact_rows(raw, key);
    lemma_exact_counts(mixed, key);
    lemma_exact_counts(raw, key);
    assert(executor::some_row_has(from_records, key) <==> executor::some_row_has(
        executor::event_rows(p, inside),
        key,
    )) by {
        if executor::some_row_has(from_records, key) {
            let i = choose|i: int|
                0 <= i < rolled.len() && selected(p, key, (#[trigger] rolled[i]).key);
            assert(builder::spans(rolled[i], inside));
            let j = choose|j: int|
                0 <= j < inside.len() && builder::event_rollup_key(#[trigger] inside[j])
                    == rolled[i].key && inside[j].timestamp_ms == rolled[i].first_event_ms;
            assert(selected(p, key, builder::event_rollup_key(inside[j])));
        }
        if executor::some_row_has(executor::event_rows(p, inside), key) {
            let j = choose|j: int|
                0 <= j < inside.len() && selected(
                    p,
                    key,
                    builder::event_rollup_key(#[trigger] inside[j]),
                );
            assert(builder::some_record_has(rolled, builder::event_rollup_key(inside[j])));
            let i = choose|i: int|
                0 <= i < rolled.len() && (#[trigger] rolled[i]).key == builder::event_rollup_key(
                    inside[j],
                );
            assert(selected(p, key, rolled[i].key));
        }
    }
    assert(executor::some_row_has(mixed, key) <==> executor::some_row_has(from_records, key)
        || executor::some_row_has(from_events, key)) by {
        if executor::some_row_has(mixed, key) {
            let i = choose|i: int| 0 <= i < mixed.len() && (#[trigger] mixed[i]).key == key;
            if i < from_records.len() {
                assert(from_records[i].key == key);
            } else {
                assert(from_events[i - from_records.len()].key == key);
            }
        }
        if executor::some_row_has(from_records, key) {
            let i = choose|i: int|
                0 <= i < from_records.len() && (#[trigger] from_records[i]).key == key;
            assert(mixed[i].key == key);
        }
        if executor::some_row_has(from_events, key) {
            let i = choose|i: int|
                0 <= i < from_events.len() && (#[trigger] from_events[i]).key == key;
            assert(mixed[from_records.len() + i].key == key);
        }
    }
}

/// Where rollup rows roll up the events of the hours that they cover, a query
/// gets from them and from the remaining events what it gets from all events,
/// whatever it filters, groups, adds up and limits. (The quantities must fit: their sum
/// without signs is at most the greatest quantity.)
pub proof fn law_rollups_answer_like_events(
    p: PlanModel,
    watermark: i64,
    records: Seq<RecordModel>,
    events: Seq<EventModel>,
)
    requires
        builder::rolls_up(
            executor::covered_records(executor::plan_coverage(p, watermark), records),
            covered_events(executor::plan_coverage(p, watermark), events),
        ),
        forall|i: int| 0 <= i < events.len() ==> reads_back(#[trigger] events[i]),
        turnover(events) <= i128::MAX,
        events.len() <= u64::MAX,
    ensures
        executor::plan_answer(p, watermark, records, events) == executor::limited(
            executor::answer(p, Seq::empty(), events),
            p.limit,
        ),
{
    let c = executor::plan_coverage(p, watermark);
    let none = Seq::<RecordModel>::empty();
    let raw = executor::event_rows(p, events);
    assert(executor::plan_rows(p, none, events) =~= raw);
    if executor::rollups_suffice(p) {
        let mixed = executor::plan_rows(
            p,
            executor::covered_records(c, records),
            executor::uncovered_events(c, events),
        );
        assert forall|key: Seq<Seq<char>>| #[trigger]
            executor::some_row_has(mixed, key) <==> executor::some_row_has(raw, key) by {
            lemma_same_rows(p, watermark, records, events, key);
        }
        assert forall|key: Seq<Seq<char>>| #[trigger]
            executor::quantity_of(mixed, key) == executor::quantity_of(raw, key) by {
            lemma_same_rows(p, watermark, records, events, key);
        }
        assert forall|key: Seq<Seq<char>>| #[trigger]
            executor::count_of(mixed, key) == executor::count_of(raw, key) by {
            lemma_same_rows(p, watermark, records, events, key);
        }
        lemma_same_groups(mixed, raw);
    } else {
        lemma_raw_only(c, records, events);
    }
}

pub proof fn lemma_raw_only(c: Coverage, records: Seq<RecordModel>, events: Seq<EventModel>)
    requires
        !c.rollups,
    ensures
        executor::covered_records(c, records) == Seq::<RecordModel>::empty(),
        executor::uncovered_events(c, events) == events,
    decreases records.len() + events.len(),
{
    if records.len() > 0 {
        lemma_raw_only(c, records.drop_last(), events);
    } else if events.len() > 0 {
        lemma_raw_only(c, records, events.drop_last());
        assert(events.drop_last().push(events.last()) =~= events);
    } else {
        assert(executor::covered_records(c, records) =~= Seq::<RecordModel>::empty());
        assert(executor::uncovered_events(c, events) =~= events);
    }
}

} // verus!
