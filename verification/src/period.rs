//! Billing periods. A period is a calendar month of an account. It is open until
//! it is closed: from then on it takes no new usage, and corrections and
//! retractions of it become adjustments to the totals as they stood.

use vstd::prelude::*;

use crate::calendar;
use crate::calendar::month_for;
use crate::model::event;
use crate::model::event::{EventKind, EventModel, UsageEvent};
use crate::quantity;
use crate::quantity::saturating_plus;
use crate::query::reconcile;
use crate::rollup::totals;
use crate::storage::manifest;
use crate::storage::manifest::{ClosedModel, ClosedPeriod, Manifest, ManifestModel};
use crate::text;
use crate::text::{chars_of, decimal_of, join2, join3, parse_int, same_text, string_of, IntFault};

verus! {

/// The year and the month of a point in time, in UTC.
pub fn period_for_ts(ts_ms: i64) -> (r: Option<(u16, u8)>)
    ensures
        r == calendar::month_of(ts_ms as int),
{
    month_for(ts_ms)
}

/// An entry stands for that account's month.
pub open spec fn is_entry(p: ClosedModel, account: Seq<char>, year: u16, month: u8) -> bool {
    p.account_id == account && p.year == year && p.month == month
}

/// The first entry for that account's month.
pub open spec fn closed_entry(
    periods: Seq<ClosedModel>,
    account: Seq<char>,
    year: u16,
    month: u8,
) -> Option<ClosedModel>
    decreases periods.len(),
{
    if periods.len() == 0 {
        None
    } else if is_entry(periods[0], account, year, month) {
        Some(periods[0])
    } else {
        closed_entry(periods.drop_first(), account, year, month)
    }
}

/// Whether that account's month has been closed.
pub open spec fn is_closed(
    periods: Seq<ClosedModel>,
    account: Seq<char>,
    year: u16,
    month: u8,
) -> bool {
    exists|i: int| 0 <= i < periods.len() && is_entry(#[trigger] periods[i], account, year, month)
}

/// The entry is there exactly for a month that has been closed, and it is one of
/// its own.
pub proof fn lemma_closed_entry(
    periods: Seq<ClosedModel>,
    account: Seq<char>,
    year: u16,
    month: u8,
)
    ensures
        closed_entry(periods, account, year, month) is Some <==> is_closed(
            periods,
            account,
            year,
            month,
        ),
        closed_entry(periods, account, year, month) matches Some(p) ==> is_entry(
            p,
            account,
            year,
            month,
        ) && periods.contains(p),
    decreases periods.len(),
{
    if periods.len() > 0 {
        let rest = periods.drop_first();
        lemma_closed_entry(rest, account, year, month);
        if is_entry(periods[0], account, year, month) {
            assert(periods.contains(periods[0]));
        } else {
            if is_closed(rest, account, year, month) {
                let i = choose|i: int|
                    0 <= i < rest.len() && is_entry(#[trigger] rest[i], account, year, month);
                assert(periods[i + 1] == rest[i]);
            }
            if is_closed(periods, account, year, month) {
                let i = choose|i: int|
                    0 <= i < periods.len() && is_entry(#[trigger] periods[i], account, year, month);
                assert(rest[i - 1] == periods[i]);
            }
            if closed_entry(rest, account, year, month) is Some {
                let p = closed_entry(rest, account, year, month)->0;
                let i = choose|i: int| 0 <= i < rest.len() && rest[i] == p;
                assert(periods[i + 1] == p);
            }
        }
    }
}

/// The entry for that account's month, where it has been closed.
pub fn find_closed<'a>(manifest: &'a Manifest, account: &str, year: u16, month: u8) -> (r: Option<
    &'a ClosedPeriod,
>)
    ensures
        r is Some <==> closed_entry(manifest@.closed_periods, account@, year, month) is Some,
        r matches Some(p) ==> closed_entry(manifest@.closed_periods, account@, year, month)
            == Some(p@),
{
    let ghost all = manifest@.closed_periods;
    let ghost wanted = closed_entry(all, account@, year, month);
    assert(all.skip(0) =~= all);
    for i in 0..manifest.closed_periods.len()
        invariant
            all == manifest::closed_views(manifest.closed_periods@),
            wanted == closed_entry(all, account@, year, month),
            wanted == closed_entry(all.skip(i as int), account@, year, month),
    {
        let p = &manifest.closed_periods[i];
        assert(all.skip(i as int)[0] == manifest.closed_periods@[i as int]@);
        if same_text(p.account_id.as_str(), account) && p.year == year && p.month == month {
            return Some(p);
        }
        assert(all.skip(i as int).drop_first() =~= all.skip(i + 1));
    }
    None
}

/// Whether that account's month has been closed.
pub fn is_period_closed(manifest: &Manifest, account: &str, year: u16, month: u8) -> (r: bool)
    ensures
        r == is_closed(manifest@.closed_periods, account@, year, month),
{
    proof {
        lemma_closed_entry(manifest@.closed_periods, account@, year, month);
    }
    match find_closed(manifest, account, year, month) {
        Some(_) => true,
        None => false,
    }
}

// ---------------------------------------------------------------------------
// Periods as text
// ---------------------------------------------------------------------------

/// The place of the first `-`, or the length where there is none.
pub open spec fn dash_place(s: Seq<char>) -> int
    decreases s.len(),
{
    if s.len() == 0 || s[0] == '-' {
        0
    } else {
        1 + dash_place(s.drop_first())
    }
}

/// The year and the month that a text of the form `YYYY-MM` gives, or what is
/// said of a text that gives none.
pub open spec fn period_of_text(s: Seq<char>) -> Result<(u16, u8), Seq<char>> {
    let dash = dash_place(s);
    if dash >= s.len() {
        Err("period must be YYYY-MM, got `"@ + s + "`"@)
    } else {
        let year = s.take(dash);
        let month = s.skip(dash + 1);
        match text::int_value(year, 0, u16::MAX as int) {
            Err(e) => Err("invalid year `"@ + year + "`: "@ + text::int_fault_text(e)),
            Ok(y) => match text::int_value(month, 0, u8::MAX as int) {
                Err(e) => Err("invalid month `"@ + month + "`: "@ + text::int_fault_text(e)),
                Ok(m) => if 1 <= m <= 12 {
                    Ok((y as u16, m as u8))
                } else {
                    Err("month must be 1..=12, got "@ + text::decimal(m))
                },
            },
        }
    }
}

/// A result with a text as its error, by its contents.
pub open spec fn period_view(r: Result<(u16, u8), String>) -> Result<(u16, u8), Seq<char>> {
    match r {
        Ok(p) => Ok(p),
        Err(e) => Err(e@),
    }
}

fn number_fault(what: &str, part: &str, e: IntFault) -> (r: String)
    ensures
        r@ == what@ + part@ + "`: "@ + text::int_fault_text(e),
{
    let head = join3(what, part, "`: ");
    join2(head.as_str(), e.message().as_str())
}

proof fn lemma_number_range(s: Seq<char>, max: int)
    requires
        0 <= max,
    ensures
        text::int_value(s, 0, max) matches Ok(n) ==> 0 <= n <= max,
{
    if s.len() > 0 {
        lemma_digits_range(s.drop_first(), false, 0, max);
        lemma_digits_range(s, false, 0, max);
    }
}

proof fn lemma_digits_range(s: Seq<char>, negative: bool, acc: int, max: int)
    requires
        0 <= acc <= max,
    ensures
        text::digits_value(s, negative, acc, 0, max) matches Ok(n) ==> 0 <= n <= max,
    decreases s.len(),
{
    if s.len() > 0 && text::is_digit(s[0]) {
        let d = s[0] as int - 48;
        let next = if negative {
            acc * 10 - d
        } else {
            acc * 10 + d
        };
        if 0 <= next <= max {
            lemma_digits_range(s.drop_first(), negative, next, max);
        }
    }
}

/// Reads a period of the form `YYYY-MM`.
pub fn parse_period(s: &str) -> (r: Result<(u16, u8), String>)
    ensures
        period_view(r) == period_of_text(s@),
{
    let chars = chars_of(s);
    let n: usize = chars.len();
    let mut dash: usize = 0;
    assert(s@.skip(0) =~= s@);
    while dash < n && chars[dash] != '-'
        invariant
            chars@ == s@,
            n == chars@.len(),
            dash <= n,
            dash_place(s@) == dash + dash_place(s@.skip(dash as int)),
        decreases n - dash,
    {
        assert(s@.skip(dash as int).drop_first() =~= s@.skip(dash + 1));
        dash = dash + 1;
    }
    if dash >= n {
        return Err(join3("period must be YYYY-MM, got `", s, "`"));
    }
    let mut year_chars: Vec<char> = Vec::new();
    for i in 0..dash
        invariant
            chars@ == s@,
            dash <= chars@.len(),
            year_chars@ == s@.take(i as int),
    {
        year_chars.push(chars[i]);
        assert(s@.take(i + 1) =~= s@.take(i as int).push(s@[i as int]));
    }
    let mut month_chars: Vec<char> = Vec::new();
    for i in dash + 1..n
        invariant
            chars@ == s@,
            n == chars@.len(),
            dash < n,
            month_chars@ == s@.subrange(dash + 1, i as int),
    {
        month_chars.push(chars[i]);
        assert(s@.subrange(dash + 1, i + 1) =~= s@.subrange(dash + 1, i as int).push(s@[i as int]));
    }
    assert(s@.subrange(dash + 1, n as int) =~= s@.skip(dash + 1));
    let year_text = string_of(&year_chars);
    let month_text = string_of(&month_chars);
    proof {
        lemma_number_range(year_text@, u16::MAX as int);
        lemma_number_range(month_text@, u8::MAX as int);
    }
    let year: i128 = match parse_int(year_text.as_str(), 0, u16::MAX as i128) {
        Ok(y) => y,
        Err(e) => return Err(number_fault("invalid year `", year_text.as_str(), e)),
    };
    let month: i128 = match parse_int(month_text.as_str(), 0, u8::MAX as i128) {
        Ok(m) => m,
        Err(e) => return Err(number_fault("invalid month `", month_text.as_str(), e)),
    };
    if month < 1 || month > 12 {
        let shown = decimal_of(month as u128);
        return Err(join2("month must be 1..=12, got ", shown.as_str()));
    }
    Ok((year as u16, month as u8))
}

// ---------------------------------------------------------------------------
// Closing and reopening
// ---------------------------------------------------------------------------

/// A manifest after an attempt to close a month: with a further entry, and as it
/// was where the month had been closed before.
pub open spec fn closed_manifest(m: ManifestModel, entry: ClosedModel) -> ManifestModel {
    if is_closed(m.closed_periods, entry.account_id, entry.year, entry.month) {
        m
    } else {
        ManifestModel { closed_periods: m.closed_periods.push(entry), ..m }
    }
}

/// What is known after an attempt to close a month: whether it had been closed
/// before, and its entry.
#[derive(Debug)]
pub struct CloseOutcome {
    pub already_closed: bool,
    pub entry: ClosedPeriod,
}

/// Closes a month with the totals that the entry holds. A month that has been
/// closed before keeps its own entry.
pub fn close_period(manifest: &mut Manifest, entry: ClosedPeriod) -> (r: CloseOutcome)
    ensures
        r.already_closed == is_closed(
            old(manifest)@.closed_periods,
            entry.account_id@,
            entry.year,
            entry.month,
        ),
        final(manifest)@ == closed_manifest(old(manifest)@, entry@),
        closed_entry(
            final(manifest)@.closed_periods,
            entry.account_id@,
            entry.year,
            entry.month,
        ) == Some(r.entry@),
        !r.already_closed ==> r.entry@ == entry@,
{
    let ghost before = manifest@;
    proof {
        lemma_closed_entry(before.closed_periods, entry.account_id@, entry.year, entry.month);
    }
    match find_closed(manifest, entry.account_id.as_str(), entry.year, entry.month) {
        Some(p) => CloseOutcome { already_closed: true, entry: p.clone() },
        None => {
            let kept = entry.clone();
            let ghost was = manifest.closed_periods@;
            manifest.closed_periods.push(entry);
            proof {
                assert(manifest::closed_views(was.push(entry)) =~= manifest::closed_views(
                    was,
                ).push(entry@));
                assert(manifest@ =~= closed_manifest(before, entry@));
                lemma_entry_at_end(before.closed_periods, entry@);
            }
            CloseOutcome { already_closed: false, entry: kept }
        },
    }
}

proof fn lemma_entry_at_end(periods: Seq<ClosedModel>, entry: ClosedModel)
    requires
        !is_closed(periods, entry.account_id, entry.year, entry.month),
    ensures
        closed_entry(periods.push(entry), entry.account_id, entry.year, entry.month) == Some(entry),
    decreases periods.len(),
{
    let all = periods.push(entry);
    if periods.len() > 0 {
        assert(all[0] == periods[0]);
        assert(!is_entry(periods[0], entry.account_id, entry.year, entry.month));
        assert(all.drop_first() =~= periods.drop_first().push(entry));
        assert forall|i: int| 0 <= i < periods.drop_first().len() implies !is_entry(
            #[trigger] periods.drop_first()[i],
            entry.account_id,
            entry.year,
            entry.month,
        ) by {
            assert(periods.drop_first()[i] == periods[i + 1]);
        }
        lemma_entry_at_end(periods.drop_first(), entry);
    }
}

/// The entries other than those for that account's month, in their order.
pub open spec fn without_entry(
    periods: Seq<ClosedModel>,
    account: Seq<char>,
    year: u16,
    month: u8,
) -> Seq<ClosedModel>
    decreases periods.len(),
{
    if periods.len() == 0 {
        Seq::empty()
    } else {
        let before = without_entry(periods.drop_last(), account, year, month);
        if is_entry(periods.last(), account, year, month) {
            before
        } else {
            before.push(periods.last())
        }
    }
}

/// Opens a month again, and says whether it had been closed.
pub fn reopen_period(manifest: &mut Manifest, account: &str, year: u16, month: u8) -> (removed: bool)
    ensures
        removed == is_closed(old(manifest)@.closed_periods, account@, year, month),
        final(manifest)@ == (ManifestModel {
            closed_periods: without_entry(old(manifest)@.closed_periods, account@, year, month),
            ..old(manifest)@
        }),
{
    let ghost before = manifest@;
    let ghost all = before.closed_periods;
    let removed = is_period_closed(manifest, account, year, month);
    let mut kept: Vec<ClosedPeriod> = Vec::new();
    assert(manifest::closed_views(kept@) =~= Seq::empty());
    for i in 0..manifest.closed_periods.len()
        invariant
            manifest@ == before,
            all == manifest::closed_views(manifest.closed_periods@),
            manifest::closed_views(kept@) == without_entry(
                all.take(i as int),
                account@,
                year,
                month,
            ),
    {
        let p = &manifest.closed_periods[i];
        assert(all.take(i + 1).drop_last() =~= all.take(i as int));
        assert(all.take(i + 1).last() == p@);
        if !(same_text(p.account_id.as_str(), account) && p.year == year && p.month == month) {
            let ghost was = kept@;
            let copy = p.clone();
            kept.push(copy);
            assert(manifest::closed_views(kept@) =~= manifest::closed_views(was).push(p@));
        }
    }
    assert(all.take(all.len() as int) =~= all);
    manifest.closed_periods = kept;
    assert(manifest@ =~= (ManifestModel {
        closed_periods: without_entry(all, account@, year, month),
        ..before
    }));
    removed
}

proof fn lemma_without_entry(
    periods: Seq<ClosedModel>,
    account: Seq<char>,
    year: u16,
    month: u8,
)
    ensures
        forall|a: Seq<char>, y: u16, m: u8|
            #![trigger is_closed(without_entry(periods, account, year, month), a, y, m)]
            is_closed(without_entry(periods, account, year, month), a, y, m) <==> (is_closed(
                periods,
                a,
                y,
                m,
            ) && !(a == account && y == year && m == month)),
        forall|i: int|
            0 <= i < without_entry(periods, account, year, month).len() ==> periods.contains(
                #[trigger] without_entry(periods, account, year, month)[i],
            ),
    decreases periods.len(),
{
    let kept = without_entry(periods, account, year, month);
    if periods.len() > 0 {
        let rest = periods.drop_last();
        let before = without_entry(rest, account, year, month);
        lemma_without_entry(rest, account, year, month);
        assert forall|a: Seq<char>, y: u16, m: u8| #[trigger] is_closed(kept, a, y, m) <==> (
        is_closed(periods, a, y, m) && !(a == account && y == year && m == month)) by {
            assert(is_closed(before, a, y, m) <==> (is_closed(rest, a, y, m) && !(a == account && y
                == year && m == month)));
            if is_closed(kept, a, y, m) {
                let i = choose|i: int| 0 <= i < kept.len() && is_entry(#[trigger] kept[i], a, y, m);
                if i < before.len() {
                    assert(before[i] == kept[i]);
                    assert(is_closed(before, a, y, m));
                    let j = choose|j: int|
                        0 <= j < rest.len() && is_entry(#[trigger] rest[j], a, y, m);
                    assert(periods[j] == rest[j]);
                } else {
                    assert(periods[periods.len() - 1] == kept[i]);
                }
            }
            if is_closed(periods, a, y, m) && !(a == account && y == year && m == month) {
                let i = choose|i: int|
                    0 <= i < periods.len() && is_entry(#[trigger] periods[i], a, y, m);
                if i < rest.len() {
                    assert(rest[i] == periods[i]);
                    assert(is_closed(before, a, y, m));
                    let j = choose|j: int|
                        0 <= j < before.len() && is_entry(#[trigger] before[j], a, y, m);
                    assert(kept[j] == before[j]);
                } else {
                    assert(kept[kept.len() - 1] == periods[i]);
                }
            }
        }
        assert forall|i: int| 0 <= i < kept.len() implies periods.contains(#[trigger] kept[i]) by {
            if i < before.len() {
                assert(before[i] == kept[i]);
                let j = choose|j: int| 0 <= j < rest.len() && rest[j] == before[i];
                assert(periods[j] == kept[i]);
            } else {
                assert(periods[periods.len() - 1] == kept[i]);
            }
        }
    }
}

/// A month that is closed is closed, no other month's state is touched, and
/// closing it once more changes nothing.
pub proof fn law_closing_a_period(m: ManifestModel, entry: ClosedModel, again: ClosedModel)
    requires
        again.account_id == entry.account_id,
        again.year == entry.year,
        again.month == entry.month,
    ensures
        is_closed(
            closed_manifest(m, entry).closed_periods,
            entry.account_id,
            entry.year,
            entry.month,
        ),
        forall|a: Seq<char>, y: u16, mo: u8|
            !(a == entry.account_id && y == entry.year && mo == entry.month) ==> (#[trigger] is_closed(
                closed_manifest(m, entry).closed_periods,
                a,
                y,
                mo,
            ) == is_closed(m.closed_periods, a, y, mo)),
        closed_manifest(closed_manifest(m, entry), again) == closed_manifest(m, entry),
{
    let after = closed_manifest(m, entry);
    if !is_closed(m.closed_periods, entry.account_id, entry.year, entry.month) {
        assert(after.closed_periods[m.closed_periods.len() as int] == entry);
        assert(is_entry(entry, entry.account_id, entry.year, entry.month));
        assert forall|a: Seq<char>, y: u16, mo: u8|
            !(a == entry.account_id && y == entry.year && mo == entry.month) implies (
        #[trigger] is_closed(after.closed_periods, a, y, mo) == is_closed(
            m.closed_periods,
            a,
            y,
            mo,
        )) by {
            if is_closed(m.closed_periods, a, y, mo) {
                let i = choose|i: int|
                    0 <= i < m.closed_periods.len() && is_entry(
                        #[trigger] m.closed_periods[i],
                        a,
                        y,
                        mo,
                    );
                assert(after.closed_periods[i] == m.closed_periods[i]);
            }
            if is_closed(after.closed_periods, a, y, mo) {
                let i = choose|i: int|
                    0 <= i < after.closed_periods.len() && is_entry(
                        #[trigger] after.closed_periods[i],
                        a,
                        y,
                        mo,
                    );
                assert(m.closed_periods[i] == after.closed_periods[i]);
            }
        }
    }
}

/// A month that is reopened is open, no other month's state is touched, and
/// closing it anew takes the new totals.
pub proof fn law_reopening_a_period(
    periods: Seq<ClosedModel>,
    account: Seq<char>,
    year: u16,
    month: u8,
    m: ManifestModel,
    entry: ClosedModel,
)
    requires
        m.closed_periods == without_entry(periods, account, year, month),
        entry.account_id == account,
        entry.year == year,
        entry.month == month,
    ensures
        !is_closed(m.closed_periods, account, year, month),
        forall|a: Seq<char>, y: u16, mo: u8|
            !(a == account && y == year && mo == month) ==> (#[trigger] is_closed(
                m.closed_periods,
                a,
                y,
                mo,
            ) == is_closed(periods, a, y, mo)),
        closed_entry(closed_manifest(m, entry).closed_periods, account, year, month) == Some(entry),
{
    lemma_without_entry(periods, account, year, month);
    assert(!is_closed(without_entry(periods, account, year, month), account, year, month));
    lemma_entry_at_end(m.closed_periods, entry);
}

// ---------------------------------------------------------------------------
// What a closed month refuses
// ---------------------------------------------------------------------------

/// Whether a month that has been closed refuses an event: usage, but neither a
/// correction nor a retraction, at a time in that month of that account.
pub open spec fn refused(periods: Seq<ClosedModel>, e: EventModel) -> bool {
    &&& e.kind == EventKind::Usage
    &&& calendar::month_of(e.timestamp_ms as int) matches Some((year, month)) && is_closed(
        periods,
        e.account_id,
        year,
        month,
    )
}

/// Whether a month that has been closed refuses the event.
pub fn refused_by_close(manifest: &Manifest, e: &UsageEvent) -> (r: bool)
    ensures
        r == refused(manifest@.closed_periods, e@),
{
    match e.kind {
        EventKind::Usage => match period_for_ts(e.timestamp_ms) {
            Some((year, month)) => is_period_closed(
                manifest,
                e.account_id.0.as_str(),
                year,
                month,
            ),
            None => false,
        },
        _ => false,
    }
}

/// Once a month has been closed, none of its usage is taken in; corrections and
/// retractions are.
pub proof fn law_closed_months_take_no_usage(
    m: ManifestModel,
    entry: ClosedModel,
    e: EventModel,
)
    requires
        e.account_id == entry.account_id,
        calendar::month_of(e.timestamp_ms as int) == Some((entry.year, entry.month)),
    ensures
        refused(closed_manifest(m, entry).closed_periods, e) == (e.kind == EventKind::Usage),
{
    law_closing_a_period(m, entry, entry);
}

// ---------------------------------------------------------------------------
// Reading a period
// ---------------------------------------------------------------------------

/// Whether an event adjusts a month that was closed at `closed_at`: a correction
/// or a retraction that was taken in since.
pub open spec fn adjusts(e: EventModel, closed_at: int) -> bool {
    e.kind != EventKind::Usage && e.ingested_at_ms >= closed_at
}

/// The events that adjust a month, in their order.
pub open spec fn adjustments(events: Seq<EventModel>, closed_at: int) -> Seq<EventModel>
    decreases events.len(),
{
    if events.len() == 0 {
        Seq::empty()
    } else if adjusts(events.last(), closed_at) {
        adjustments(events.drop_last(), closed_at).push(events.last())
    } else {
        adjustments(events.drop_last(), closed_at)
    }
}

/// The sum of events' quantities, held within what a quantity can be.
pub open spec fn total(events: Seq<EventModel>) -> int
    decreases events.len(),
{
    if events.len() == 0 {
        0
    } else {
        quantity::bounded(total(events.drop_last()) + events.last().quantity)
    }
}

/// What there is to say of a month.
#[derive(Debug)]
pub struct PeriodReport {
    /// When the month was closed, where it was.
    pub closed_at_ms: Option<i64>,
    /// The total at the time of the close, where it was kept.
    pub frozen_quantity: Option<i128>,
    pub frozen_event_count: Option<u64>,
    pub watermark_at_close_ms: Option<i64>,
    /// The total as it stood at the close, and of a month without one the total as
    /// it stands.
    pub total_quantity: i128,
    pub pending_adjustments: Vec<UsageEvent>,
    pub adjustments_quantity: i128,
    /// The total at the close with what has been adjusted since.
    pub net_total: i128,
}

/// The report on a month whose entry is `entry`, whose corrections and
/// retractions are `corrections`, and whose total now is `live`.
pub open spec fn reports(
    r: PeriodReport,
    entry: Option<ClosedModel>,
    corrections: Seq<EventModel>,
    live: int,
) -> bool {
    match entry {
        Some(p) => {
            let since = adjustments(corrections, p.closed_at_ms as int);
            let start = match p.frozen_quantity {
                Some(q) => q as int,
                None => live,
            };
            &&& r.closed_at_ms == Some(p.closed_at_ms)
            &&& r.frozen_quantity == p.frozen_quantity
            &&& r.frozen_event_count == p.frozen_event_count
            &&& r.watermark_at_close_ms == p.watermark_at_close_ms
            &&& r.total_quantity == start
            &&& event::event_views(r.pending_adjustments@) == since
            &&& r.adjustments_quantity == total(since)
            &&& r.net_total == if p.frozen_quantity is Some {
                quantity::bounded(start + total(since))
            } else {
                live
            }
        },
        None => {
            &&& r.closed_at_ms is None
            &&& r.frozen_quantity is None
            &&& r.frozen_event_count is None
            &&& r.watermark_at_close_ms is None
            &&& r.total_quantity == live
            &&& r.pending_adjustments@.len() == 0
            &&& r.adjustments_quantity == 0
            &&& r.net_total == live
        },
    }
}

/// Says how a month stands: `corrections` are its corrections and retractions,
/// and `live_total` is its total now.
pub fn report_period(
    manifest: &Manifest,
    account: &str,
    year: u16,
    month: u8,
    corrections: &Vec<UsageEvent>,
    live_total: i128,
) -> (r: PeriodReport)
    ensures
        reports(
            r,
            closed_entry(manifest@.closed_periods, account@, year, month),
            event::event_views(corrections@),
            live_total as int,
        ),
{
    match find_closed(manifest, account, year, month) {
        Some(p) => {
            let mut pending: Vec<UsageEvent> = Vec::new();
            let mut sum: i128 = 0;
            let ghost all = event::event_views(corrections@);
            let closed_at: i64 = p.closed_at_ms;
            assert(event::event_views(pending@) =~= Seq::empty());
            for i in 0..corrections.len()
                invariant
                    all == event::event_views(corrections@),
                    event::event_views(pending@) == adjustments(
                        all.take(i as int),
                        closed_at as int,
                    ),
                    sum == total(adjustments(all.take(i as int), closed_at as int)),
            {
                let e = &corrections[i];
                assert(all.take(i + 1).drop_last() =~= all.take(i as int));
                assert(all.take(i + 1).last() == e@);
                let counts = match e.kind {
                    EventKind::Usage => false,
                    _ => e.ingested_at_ms >= closed_at,
                };
                if counts {
                    let copy = e.clone();
                    proof {
                        event::lemma_views_push(pending@, copy);
                        let before = adjustments(all.take(i as int), closed_at as int);
                        assert(before.push(e@).drop_last() =~= before);
                    }
                    sum = saturating_plus(sum, copy.quantity);
                    pending.push(copy);
                }
            }
            assert(all.take(all.len() as int) =~= all);
            let total_quantity: i128 = match p.frozen_quantity {
                Some(q) => q,
                None => live_total,
            };
            let net_total: i128 = match p.frozen_quantity {
                Some(q) => saturating_plus(q, sum),
                None => live_total,
            };
            PeriodReport {
                closed_at_ms: Some(p.closed_at_ms),
                frozen_quantity: p.frozen_quantity,
                frozen_event_count: p.frozen_event_count,
                watermark_at_close_ms: p.watermark_at_close_ms,
                total_quantity,
                pending_adjustments: pending,
                adjustments_quantity: sum,
                net_total,
            }
        },
        None => PeriodReport {
            closed_at_ms: None,
            frozen_quantity: None,
            frozen_event_count: None,
            watermark_at_close_ms: None,
            total_quantity: live_total,
            pending_adjustments: Vec::new(),
            adjustments_quantity: 0,
            net_total: live_total,
        },
    }
}

/// Two reports on one closed month with its totals kept differ in what was
/// adjusted at most: what was frozen stays.
pub proof fn law_frozen_totals_stay(
    a: PeriodReport,
    b: PeriodReport,
    entry: ClosedModel,
    corrections_a: Seq<EventModel>,
    corrections_b: Seq<EventModel>,
    live_a: int,
    live_b: int,
)
    requires
        entry.frozen_quantity is Some,
        reports(a, Some(entry), corrections_a, live_a),
        reports(b, Some(entry), corrections_b, live_b),
    ensures
        a.total_quantity == b.total_quantity,
        a.frozen_quantity == b.frozen_quantity,
        a.frozen_event_count == b.frozen_event_count,
        a.closed_at_ms == b.closed_at_ms,
        a.net_total == quantity::bounded(a.total_quantity + a.adjustments_quantity),
{
}

/// What is found for a month is an entry of that account's month, the first one; where
/// nothing is found there is none.
pub proof fn law_entries_of_months(
    periods: Seq<ClosedModel>,
    account: Seq<char>,
    year: u16,
    month: u8,
)
    ensures
        match closed_entry(periods, account, year, month) {
            Some(p) => {
                &&& p.account_id == account && p.year == year && p.month == month
                &&& exists|i: int|
                    0 <= i < periods.len() && #[trigger] periods[i] == p && forall|j: int|
                        0 <= j < i ==> !((#[trigger] periods[j]).account_id == account
                            && periods[j].year == year && periods[j].month == month)
            },
            None => forall|i: int|
                0 <= i < periods.len() ==> !((#[trigger] periods[i]).account_id == account
                    && periods[i].year == year && periods[i].month == month),
        },
        is_closed(periods, account, year, month) <==> closed_entry(periods, account, year, month)
            is Some,
    decreases periods.len(),
{
    lemma_closed_entry(periods, account, year, month);
    if periods.len() > 0 {
        let rest = periods.drop_first();
        law_entries_of_months(rest, account, year, month);
        if is_entry(periods[0], account, year, month) {
            assert(periods[0] == periods[0]);
        } else {
            match closed_entry(rest, account, year, month) {
                Some(p) => {
                    let i = choose|i: int|
                        0 <= i < rest.len() && #[trigger] rest[i] == p && forall|j: int|
                            0 <= j < i ==> !((#[trigger] rest[j]).account_id == account
                                && rest[j].year == year && rest[j].month == month);
                    assert(periods[i + 1] == p);
                    assert forall|j: int| 0 <= j < i + 1 implies !((
                    #[trigger] periods[j]).account_id == account && periods[j].year == year
                        && periods[j].month == month) by {
                        if j > 0 {
                            assert(periods[j] == rest[j - 1]);
                        }
                    }
                },
                None => {
                    assert forall|i: int| 0 <= i < periods.len() implies !((
                    #[trigger] periods[i]).account_id == account && periods[i].year == year
                        && periods[i].month == month) by {
                        if i > 0 {
                            assert(periods[i] == rest[i - 1]);
                        }
                    }
                },
            }
        }
    }
}

/// Closing an open month keeps the entry with its totals, behind all others; a month
/// that was closed keeps the entry that it had. Nothing else changes.
pub proof fn law_closing_keeps_totals(m: ManifestModel, entry: ClosedModel)
    ensures
        ({
            let before = closed_entry(
                m.closed_periods,
                entry.account_id,
                entry.year,
                entry.month,
            );
            let after = closed_manifest(m, entry);
            &&& closed_entry(after.closed_periods, entry.account_id, entry.year, entry.month)
                == if before is Some {
                before
            } else {
                Some(entry)
            }
            &&& after.closed_periods == if before is Some {
                m.closed_periods
            } else {
                m.closed_periods.push(entry)
            }
            &&& after == (ManifestModel { closed_periods: after.closed_periods, ..m })
        }),
{
    lemma_closed_entry(m.closed_periods, entry.account_id, entry.year, entry.month);
    if !is_closed(m.closed_periods, entry.account_id, entry.year, entry.month) {
        lemma_entry_at_end(m.closed_periods, entry);
    }
}

/// Reopening a month takes its entries away and keeps all others, in their order.
pub proof fn law_reopening_keeps_other_months(
    periods: Seq<ClosedModel>,
    account: Seq<char>,
    year: u16,
    month: u8,
)
    ensures
        without_entry(periods, account, year, month) == periods.filter(
            |p: ClosedModel| !(p.account_id == account && p.year == year && p.month == month),
        ),
    decreases periods.len(),
{
    reveal(Seq::filter);
    let others = |p: ClosedModel|
        !(p.account_id == account && p.year == year && p.month == month);
    if periods.len() > 0 {
        law_reopening_keeps_other_months(periods.drop_last(), account, year, month);
    } else {
        assert(without_entry(periods, account, year, month) =~= periods.filter(others));
    }
}

/// The report on a month that was closed with its total: every correction and every
/// retraction that was taken in at the time of the close or since is an adjustment,
/// and nothing else is; the net total is the total at the close and the quantities of
/// exactly these. (The quantities must fit: their sum without signs is at most the
/// greatest quantity.)
pub proof fn law_adjustments_of_closed_months(
    r: PeriodReport,
    entry: ClosedModel,
    frozen: i128,
    corrections: Seq<EventModel>,
    live: int,
)
    requires
        entry.frozen_quantity == Some(frozen),
        reports(r, Some(entry), corrections, live),
        reconcile::magnitude(frozen as int) + reconcile::turnover(corrections) <= i128::MAX,
    ensures
        ({
            let since = corrections.filter(
                |e: EventModel|
                    (e.kind == EventKind::Correction || e.kind == EventKind::Retraction)
                        && e.ingested_at_ms >= entry.closed_at_ms,
            );
            &&& event::event_views(r.pending_adjustments@) == since
            &&& r.adjustments_quantity == totals::event_total(since)
            &&& r.net_total == frozen + totals::event_total(since)
            &&& r.total_quantity == frozen
            &&& r.frozen_quantity == Some(frozen)
            &&& r.frozen_event_count == entry.frozen_event_count
            &&& r.closed_at_ms == Some(entry.closed_at_ms)
            &&& r.watermark_at_close_ms == entry.watermark_at_close_ms
        }),
{
    lemma_adjustments(corrections, entry.closed_at_ms as int);
}

proof fn lemma_adjustments(corrections: Seq<EventModel>, closed_at: int)
    ensures
        adjustments(corrections, closed_at) == corrections.filter(
            |e: EventModel|
                (e.kind == EventKind::Correction || e.kind == EventKind::Retraction)
                    && e.ingested_at_ms >= closed_at,
        ),
        reconcile::turnover(corrections) <= i128::MAX ==> total(
            adjustments(corrections, closed_at),
        ) == totals::event_total(adjustments(corrections, closed_at)),
        reconcile::magnitude(totals::event_total(adjustments(corrections, closed_at)))
            <= reconcile::turnover(corrections),
    decreases corrections.len(),
{
    reveal(Seq::filter);
    let since = |e: EventModel|
        (e.kind == EventKind::Correction || e.kind == EventKind::Retraction) && e.ingested_at_ms
            >= closed_at;
    if corrections.len() > 0 {
        let init = corrections.drop_last();
        lemma_adjustments(init, closed_at);
        let before = adjustments(init, closed_at);
        assert(before.push(corrections.last()).drop_last() =~= before);
    } else {
        assert(adjustments(corrections, closed_at) =~= corrections.filter(since));
    }
}

/// The report on a month that is open, and on one that was closed without its total,
/// gives the total as it stands.
pub proof fn law_reports_on_other_months(
    r: PeriodReport,
    entry: Option<ClosedModel>,
    corrections: Seq<EventModel>,
    live: int,
)
    requires
        entry matches Some(p) ==> p.frozen_quantity is None,
        reports(r, entry, corrections, live),
    ensures
        r.total_quantity == live,
        r.net_total == live,
        r.frozen_quantity is None,
        entry is None ==> r.closed_at_ms is None && r.pending_adjustments@.len() == 0
            && r.adjustments_quantity == 0 && r.frozen_event_count is None
            && r.watermark_at_close_ms is None,
        entry matches Some(p) ==> r.closed_at_ms == Some(p.closed_at_ms),
{
}

/// A period is a year and a month with a dash between them, each a number in its
/// range; nothing else is one.
pub proof fn law_texts_of_periods(year_text: Seq<char>, month_text: Seq<char>)
    requires
        !year_text.contains('-'),
    ensures
        ({
            let year = text::int_value(year_text, 0, 65_535);
            let month = text::int_value(month_text, 0, 255);
            let read = period_of_text(year_text + seq!['-'] + month_text);
            &&& read is Ok <==> year is Ok && month is Ok && 1 <= month->Ok_0 <= 12
            &&& read is Ok ==> read == Ok::<(u16, u8), Seq<char>>(
                (year->Ok_0 as u16, month->Ok_0 as u8),
            )
        }),
        period_of_text(year_text) is Err,
{
    let s = year_text + seq!['-'] + month_text;
    lemma_dash(year_text, month_text);
    assert(s.take(year_text.len() as int) =~= year_text);
    assert(s.skip(year_text.len() as int + 1) =~= month_text);
    lemma_no_dash(year_text);
}

proof fn lemma_dash(front: Seq<char>, back: Seq<char>)
    requires
        !front.contains('-'),
    ensures
        dash_place(front + seq!['-'] + back) == front.len(),
    decreases front.len(),
{
    let s = front + seq!['-'] + back;
    if front.len() == 0 {
        assert(s[0] == '-');
    } else {
        assert(s[0] == front[0]);
        assert(front.contains(front[0]));
        let rest = front.drop_first();
        assert(!rest.contains('-')) by {
            if rest.contains('-') {
                let i = choose|i: int| 0 <= i < rest.len() && rest[i] == '-';
                assert(front[i + 1] == '-');
            }
        }
        lemma_dash(rest, back);
        assert(s.drop_first() =~= rest + seq!['-'] + back);
    }
}

proof fn lemma_no_dash(s: Seq<char>)
    requires
        !s.contains('-'),
    ensures
        dash_place(s) == s.len(),
    decreases s.len(),
{
    if s.len() > 0 {
        assert(s.contains(s[0]));
        let rest = s.drop_first();
        assert(!rest.contains('-')) by {
            if rest.contains('-') {
                let i = choose|i: int| 0 <= i < rest.len() && rest[i] == '-';
                assert(s[i + 1] == '-');
            }
        }
        lemma_no_dash(rest);
    }
}

} // verus!
