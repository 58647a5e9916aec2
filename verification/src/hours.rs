//! Hours and days in milliseconds since the epoch.

use vstd::prelude::*;

verus! {

pub const HOUR_MS: i64 = 3_600_000;

pub const DAY_MS: i64 = 86_400_000;

/// The multiple of `unit` next to `ts` towards zero: for a time since the epoch,
/// the start of the hour or the day that it falls into.
pub open spec fn start_of(ts: int, unit: int) -> int {
    if ts >= 0 {
        ts - ts % unit
    } else {
        -(-ts - (-ts) % unit)
    }
}

pub proof fn lemma_start_of(ts: int, unit: int)
    requires
        unit > 0,
    ensures
        ts >= 0 ==> 0 <= start_of(ts, unit) <= ts < start_of(ts, unit) + unit,
        ts < 0 ==> start_of(ts, unit) - unit < ts <= start_of(ts, unit) <= 0,
        start_of(ts, unit) % unit == 0,
{
    if ts >= 0 {
        vstd::arithmetic::div_mod::lemma_fundamental_div_mod(ts, unit);
        vstd::arithmetic::div_mod::lemma_mod_bound(ts, unit);
        assert(ts - ts % unit == unit * (ts / unit));
        vstd::arithmetic::div_mod::lemma_mod_multiples_basic(ts / unit, unit);
        assert(unit * (ts / unit) == (ts / unit) * unit) by (nonlinear_arith);
        assert(ts - ts % unit >= 0) by (nonlinear_arith)
            requires
                ts >= 0,
                unit > 0,
                ts - ts % unit == unit * (ts / unit),
                ts / unit >= 0,
        ;
    } else {
        let m = -ts;
        vstd::arithmetic::div_mod::lemma_fundamental_div_mod(m, unit);
        vstd::arithmetic::div_mod::lemma_mod_bound(m, unit);
        assert(m - m % unit == unit * (m / unit));
        assert(-(unit * (m / unit)) == (-(m / unit)) * unit) by (nonlinear_arith);
        vstd::arithmetic::div_mod::lemma_mod_multiples_basic(-(m / unit), unit);
        vstd::arithmetic::div_mod::lemma_div_pos_is_pos(m, unit);
        assert(unit * (m / unit) >= 0) by (nonlinear_arith)
            requires
                unit > 0,
                m / unit >= 0,
        ;
    }
}

/// The start of the hour or day of `ts`.
pub fn start_of_unit(ts: i64, unit: i64) -> (r: i64)
    requires
        unit > 0,
    ensures
        r == start_of(ts as int, unit as int),
{
    proof {
        lemma_start_of(ts as int, unit as int);
    }
    if ts >= 0 {
        ts - ts % unit
    } else {
        let m: i128 = -(ts as i128);
        (-(m - m % (unit as i128))) as i64
    }
}

/// The unit of time that holds a point in time begins at the multiple of its length that
/// is not behind the point and less than a length before it, where the point is not
/// before the epoch.
pub proof fn law_beginnings_of_units(ts: int)
    requires
        ts >= 0,
    ensures
        start_of(ts, HOUR_MS as int) == ts / 3_600_000 * 3_600_000,
        start_of(ts, DAY_MS as int) == ts / 86_400_000 * 86_400_000,
        start_of(ts, HOUR_MS as int) <= ts < start_of(ts, HOUR_MS as int) + 3_600_000,
        start_of(ts, DAY_MS as int) <= ts < start_of(ts, DAY_MS as int) + 86_400_000,
{
}

} // verus!
