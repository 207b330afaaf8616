//! Coverage evaluation: `covers(instant, tz)`.
//!
//! One calendar-field extraction in the evaluation zone, then per-component
//! integer tests. No date-object iteration.

use vstd::prelude::*;

use crate::arith::{floor_div, floor_mod, trunc_div};
use crate::ast::{Atom, Bounds, CadUnit, Cadence, Desig, Endpoint, Expr, ExprV, Selector, SelectorV, TimeInterval, TimeSel};
use crate::civil::{
    civil_from_days, day_of_quarter, day_of_year, days_in_month, days_in_quarter, days_in_year,
    iso_week, iso_weekday, lemma_civil_from_days_valid, lemma_civil_year_bound, lemma_day_of_year_bounds, lemma_days_from_civil_bound,
    quarter_of_month, spec_civil_from_days, spec_day_of_quarter,
    spec_day_of_year, spec_days_from_civil, spec_days_in_month, spec_days_in_quarter,
    spec_days_in_year, spec_iso_week, spec_iso_weekday, spec_quarter_of_month,
    spec_weeks_in_iso_year, valid_civil, weeks_in_iso_year, Naive, MS_PER_DAY, MS_PER_HOUR, MS_PER_MIN,
    MS_PER_SEC,
};
use crate::tz::{table_has_offset, table_local_to_instant, table_offset_at, table_sorted, OffsetSource, Tz, MAX_LOCAL_MS};
use crate::grammar::spec_duration_lt_period;

verus! {

/// Largest instant magnitude (ms since the epoch) evaluated for an
/// expression with a calendar cadence: two periods and a duration of up to
/// ten million years past it, its occurrence windows stay inside `i64`.
pub const MAX_INSTANT_MS: i64 = 8_000_000_000_000_000_000;

/// Room an instant needs from the ends of `i64` for its local time: any UTC
/// offset (up to 2^31 seconds) added.
pub const OFFSET_MARGIN_MS: i64 = 2_147_483_648_000;

/// Room an instant needs from the ends of `i64` for an hour or minute
/// cadence: its distance from the instant the anchor (years 0-9999) resolves
/// to.
pub const ANCHOR_MARGIN_MS: i64 = 300_000_000_000_000;

/// Which parent instance day indices and weekday ordinals count within.
#[derive(Clone, Copy, PartialEq, Eq, Structural)]
pub enum Scope {
    Month,
    Quarter,
    Year,
}

/// The local calendar fields of an instant.
#[derive(Clone, Copy)]
pub struct Fields {
    pub local_ms: i64,
    pub year_cal: i64,
    pub week_year: i64,
    pub week: i64,
    pub quarter: i64,
    pub month: i64,
    pub dom: i64,
    pub doy: i64,
    pub doq: i64,
    pub weekday: i64,
    pub tod_ms: i64,
    pub hour: i64,
    pub minute: i64,
    pub second: i64,
}

// ---- well-formedness of what is evaluated ------------------------------------

/// Literal values as the parser reads them.
pub open spec fn value_ok(v: i64) -> bool {
    -10_000_000 <= v <= 10_000_000
}

pub open spec fn endpoint_ok(e: Endpoint, year: bool) -> bool {
    match e {
        Endpoint::Value(v) => value_ok(v) && (year ==> v >= 0),
        Endpoint::Star => true,
    }
}

/// An atom the evaluator can match without overflow: literal values in the
/// parser's range (non-negative on the domain-unbounded year), and a positive
/// stride interval.
pub open spec fn atom_ok(a: Atom, year: bool) -> bool {
    match a {
        Atom::All => true,
        Atom::Single(v) => value_ok(v) && (year ==> v >= 0),
        Atom::Range { start, end, wrap } => endpoint_ok(start, year) && endpoint_ok(end, year),
        Atom::Stride { start, end, interval, duration } => value_ok(start) && endpoint_ok(end, year)
            && interval >= 1,
    }
}

pub open spec fn selector_ok(s: SelectorV) -> bool {
    &&& forall|i: int| 0 <= i < s.atoms.len() ==> atom_ok(#[trigger] s.atoms[i], s.desig == Desig::Year)
    &&& s.ordinal matches Some((wd, ord)) ==> value_ok(ord)
}

/// A cadence as the parser builds it: a real anchor date in years 0-9999,
/// period and duration counts in the parser's range, a duration shorter than
/// the period, and a month/year duration only on a month/year period.
pub open spec fn cadence_ok(c: Cadence) -> bool {
    &&& c.anchor.is_valid()
    &&& 0 <= c.anchor.y <= 9999
    &&& 1 <= c.period_n <= 10_000_000
    &&& 1 <= c.duration_n <= 10_000_000
    &&& spec_duration_lt_period(c.duration_n as int, c.duration_unit, c.period_n as int, c.period_unit)
    &&& c.duration_unit.spec_is_month_or_year() ==> c.period_unit.spec_is_month_or_year()
}

/// An expression the evaluator accepts.
pub open spec fn expr_ok(e: ExprV) -> bool {
    &&& forall|i: int| 0 <= i < e.selectors.len() ==> selector_ok(#[trigger] e.selectors[i])
    &&& e.cadence matches Some(c) ==> cadence_ok(c)
}

/// The expression holds a cadence with an hour or minute period, whose anchor
/// is resolved to an instant in the evaluation zone.
pub open spec fn has_absolute_cadence(e: ExprV) -> bool {
    e.cadence matches Some(c) && !c.period_unit.spec_is_calendar()
}

/// The expression holds a cadence with a calendar (year, month, week or day)
/// period.
pub open spec fn has_calendar_cadence(e: ExprV) -> bool {
    e.cadence matches Some(c) && c.period_unit.spec_is_calendar()
}

/// The instants the branch `e` is evaluated at: every instant whose local
/// times and cadence arithmetic stay inside `i64`.
pub open spec fn instant_in_reach(e: ExprV, instant_ms: int) -> bool {
    if has_calendar_cadence(e) {
        -MAX_INSTANT_MS <= instant_ms <= MAX_INSTANT_MS
    } else if has_absolute_cadence(e) {
        i64::MIN + ANCHOR_MARGIN_MS <= instant_ms <= i64::MAX - ANCHOR_MARGIN_MS
    } else {
        i64::MIN + OFFSET_MARGIN_MS <= instant_ms <= i64::MAX - OFFSET_MARGIN_MS
    }
}

/// The naive ordinal of the expression's cadence anchor (0 without a cadence).
pub open spec fn anchor_ordinal(e: ExprV) -> int {
    match e.cadence {
        Some(c) => c.anchor.spec_ordinal_ms(),
        None => 0,
    }
}

// ---- the semantics -------------------------------------------------------------

#[verifier::opaque]
pub open spec fn spec_fields(local_ms: int) -> Fields {
    let days = local_ms / (MS_PER_DAY as int);
    let tod = local_ms % (MS_PER_DAY as int);
    let c = spec_civil_from_days(days);
    let w = spec_iso_week(c.0, c.1, c.2);
    Fields {
        local_ms: local_ms as i64,
        year_cal: c.0 as i64,
        week_year: w.0 as i64,
        week: w.1 as i64,
        quarter: spec_quarter_of_month(c.1) as i64,
        month: c.1 as i64,
        dom: c.2 as i64,
        doy: spec_day_of_year(c.0, c.1, c.2) as i64,
        doq: spec_day_of_quarter(c.0, c.1, c.2) as i64,
        weekday: spec_iso_weekday(days) as i64,
        tod_ms: tod as i64,
        hour: (tod / (MS_PER_HOUR as int)) as i64,
        minute: ((tod % (MS_PER_HOUR as int)) / (MS_PER_MIN as int)) as i64,
        second: ((tod % (MS_PER_MIN as int)) / (MS_PER_SEC as int)) as i64,
    }
}

pub open spec fn has_desig(sels: Seq<SelectorV>, d: Desig) -> bool {
    exists|i: int| 0 <= i < sels.len() && (#[trigger] sels[i]).desig == d
}

/// Month scope unless a month selector is absent and a quarter (then year)
/// selector is present.
pub open spec fn spec_scope_of(sels: Seq<SelectorV>) -> Scope {
    if has_desig(sels, Desig::Month) {
        Scope::Month
    } else if has_desig(sels, Desig::Quarter) {
        Scope::Quarter
    } else if has_desig(sels, Desig::Year) {
        Scope::Year
    } else {
        Scope::Month
    }
}

/// `(min, max, field)`: the domain a designator's values range over and the
/// field of `f` it tests.
pub open spec fn spec_domain_and_field(desig: Desig, f: Fields, scope: Scope, has_week: bool) -> (int, int, int) {
    match desig {
        Desig::Year => (i64::MIN as int, i64::MAX as int, if has_week {
            f.week_year as int
        } else {
            f.year_cal as int
        }),
        Desig::Quarter => (1, 4, f.quarter as int),
        Desig::Month => (1, 12, f.month as int),
        Desig::Week => (1, spec_weeks_in_iso_year(f.week_year as int), f.week as int),
        Desig::Weekday => (1, 7, f.weekday as int),
        Desig::Hour => (0, 23, f.hour as int),
        Desig::Minute => (0, 59, f.minute as int),
        Desig::Second => (0, 59, f.second as int),
        Desig::Day => match scope {
            Scope::Month => (1, spec_days_in_month(f.year_cal as int, f.month as int), f.dom as int),
            Scope::Quarter => (1, spec_days_in_quarter(f.year_cal as int, f.quarter as int), f.doq as int),
            Scope::Year => (1, spec_days_in_year(f.year_cal as int), f.doy as int),
        },
    }
}

/// A negative value counts back from the domain's upper edge.
pub open spec fn spec_resolve(v: int, maxv: int) -> int {
    if v < 0 {
        maxv + 1 + v
    } else {
        v
    }
}

pub open spec fn spec_endpoint(e: Endpoint, edge: int, maxv: int) -> int {
    match e {
        Endpoint::Star => edge,
        Endpoint::Value(v) => spec_resolve(v as int, maxv),
    }
}

/// Does `atom` select `field` within the domain `[minv, maxv]`?
pub open spec fn spec_atom_match(atom: Atom, minv: int, maxv: int, field: int) -> bool {
    match atom {
        Atom::All => true,
        Atom::Single(v) => field == spec_resolve(v as int, maxv),
        Atom::Range { start, end, wrap } => {
            let s = spec_endpoint(start, minv, maxv);
            let e = spec_endpoint(end, maxv, maxv);
            if wrap {
                field >= s || field <= e
            } else {
                s <= field && field <= e
            }
        },
        Atom::Stride { start, end, interval, duration } => {
            let e = spec_endpoint(end, maxv, maxv);
            if field < start || field > e {
                false
            } else {
                (field - start) % (interval as int) < duration
            }
        },
    }
}

/// Some atom of `atoms` selects `field`.
pub open spec fn atoms_hit(atoms: Seq<Atom>, minv: int, maxv: int, field: int) -> bool {
    exists|i: int| 0 <= i < atoms.len() && spec_atom_match(#[trigger] atoms[i], minv, maxv, field)
}

/// The weekday `wd` occurring as the `ord`-th (counting back when negative)
/// of its kind in the scope's parent instance.
pub open spec fn spec_ordinal_covers(wd: i64, ord: i64, f: Fields, scope: Scope) -> bool {
    let (day_index, total) = match scope {
        Scope::Month => (f.dom as int, spec_days_in_month(f.year_cal as int, f.month as int)),
        Scope::Quarter => (f.doq as int, spec_days_in_quarter(f.year_cal as int, f.quarter as int)),
        Scope::Year => (f.doy as int, spec_days_in_year(f.year_cal as int)),
    };
    if f.weekday != wd {
        false
    } else if ord > 0 {
        trunc_div(day_index - 1, 7) + 1 == ord
    } else {
        trunc_div(total - day_index, 7) + 1 == -ord
    }
}

pub open spec fn spec_selector_covers(s: SelectorV, f: Fields, scope: Scope, has_week: bool) -> bool {
    match s.ordinal {
        Some((wd, ord)) => spec_ordinal_covers(wd, ord, f, scope),
        None => {
            let (minv, maxv, field) = spec_domain_and_field(s.desig, f, scope, has_week);
            let hit = atoms_hit(s.atoms, minv, maxv, field);
            if s.exclude {
                !hit
            } else {
                hit
            }
        },
    }
}

pub open spec fn interval_covers(iv: TimeInterval, tod: int) -> bool {
    if iv.wrap {
        tod >= iv.start || tod < iv.end
    } else {
        iv.start <= tod && tod < iv.end
    }
}

pub open spec fn spec_time_covers(ivs: Seq<TimeInterval>, tod: int) -> bool {
    exists|i: int| 0 <= i < ivs.len() && interval_covers(#[trigger] ivs[i], tod)
}

pub open spec fn spec_bounds_covers(b: Bounds, local_ms: int) -> bool {
    (b.start matches Some(s) ==> local_ms >= s) && (b.end matches Some(e) ==> local_ms < e)
}

/// `base` moved by `n` units: calendar units (Y/M) with `constrain` overflow,
/// W/D as whole days, H/m as exact spans of naive time.
pub open spec fn spec_add_units(base: Naive, n: int, unit: CadUnit) -> Naive {
    match unit {
        CadUnit::Year => base.spec_add_years_constrain(n),
        CadUnit::Month => base.spec_add_months_constrain(n),
        CadUnit::Week => base.spec_add_days(n * 7),
        CadUnit::Day => base.spec_add_days(n),
        CadUnit::Hour => Naive::spec_from_ordinal_ms(base.spec_ordinal_ms() + n * MS_PER_HOUR),
        CadUnit::Minute => Naive::spec_from_ordinal_ms(base.spec_ordinal_ms() + n * MS_PER_MIN),
    }
}

/// Whole `unit`s of naive wall-clock time from `anchor` to `t` (floored).
pub open spec fn spec_elapsed_units(unit: CadUnit, anchor: Naive, t: Naive) -> int {
    let span = t.spec_ordinal_ms() - anchor.spec_ordinal_ms();
    match unit {
        CadUnit::Year => t.y - anchor.y,
        CadUnit::Month => (t.y * 12 + t.mo) - (anchor.y * 12 + anchor.mo),
        CadUnit::Week => span / (7 * MS_PER_DAY as int),
        CadUnit::Day => span / (MS_PER_DAY as int),
        CadUnit::Hour => span / (MS_PER_HOUR as int),
        CadUnit::Minute => span / (MS_PER_MIN as int),
    }
}

pub open spec fn occurrence_start(c: Cadence, k: int) -> Naive {
    spec_add_units(c.anchor, k * c.period_n, c.period_unit)
}

pub open spec fn occurrence_end(c: Cadence, k: int) -> int {
    spec_add_units(occurrence_start(c, k), c.duration_n as int, c.duration_unit).spec_ordinal_ms()
}

#[verifier::opaque]
pub open spec fn occurrence_covers(c: Cadence, k: int, local_ms: int) -> bool {
    occurrence_start(c, k).spec_ordinal_ms() <= local_ms && local_ms < occurrence_end(c, k)
}

/// The occurrence index the elapsed calendar units suggest for `local_ms`.
#[verifier::opaque]
pub open spec fn occurrence_estimate(c: Cadence, local_ms: int) -> int {
    spec_elapsed_units(c.period_unit, c.anchor, Naive::spec_from_ordinal_ms(local_ms)) / (c.period_n as int)
}

/// Calendar-period (Y/M/W/D) cadence: one of the occurrences within two of
/// the estimate (never before the anchor) holds `local_ms` in its naive
/// wall-clock window.
pub open spec fn spec_cadence_calendar(c: Cadence, local_ms: int) -> bool {
    let k_est = occurrence_estimate(c, local_ms);
    let lo = if k_est - 2 > 0 { k_est - 2 } else { 0 };
    let hi = if k_est + 2 > 0 { k_est + 2 } else { 0 };
    exists|k: int| lo <= k <= hi && #[trigger] occurrence_covers(c, k, local_ms)
}

/// Absolute (H/m period) cadence: a fixed grid from the anchor instant.
pub open spec fn spec_cadence_absolute(c: Cadence, instant_ms: int, anchor_instant: int) -> bool {
    let anchor_ord = c.anchor.spec_ordinal_ms();
    let elapsed = instant_ms - anchor_instant;
    let period_ms = spec_add_units(c.anchor, c.period_n as int, c.period_unit).spec_ordinal_ms() - anchor_ord;
    let duration_ms = spec_add_units(c.anchor, c.duration_n as int, c.duration_unit).spec_ordinal_ms() - anchor_ord;
    elapsed >= 0 && elapsed % period_ms < duration_ms
}

pub open spec fn spec_cadence_covers(c: Cadence, instant_ms: int, local_ms: int, anchor_instant: int) -> bool {
    if c.period_unit.spec_is_calendar() {
        spec_cadence_calendar(c, local_ms)
    } else {
        spec_cadence_absolute(c, instant_ms, anchor_instant)
    }
}

/// Does the branch `e` cover `instant_ms`, observed with UTC offset `offset`
/// (seconds), its cadence anchor (if absolute) resolving to `anchor_instant`?
pub open spec fn spec_expr_covers(e: ExprV, instant_ms: int, offset: int, anchor_instant: int) -> bool {
    let local = instant_ms + offset * 1000;
    let f = spec_fields(local);
    let scope = spec_scope_of(e.selectors);
    &&& forall|i: int| 0 <= i < e.selectors.len() ==> spec_selector_covers(#[trigger] e.selectors[i], f, scope, e.has_week)
    &&& e.time matches Some(t) ==> spec_time_covers(t, f.tod_ms as int)
    &&& e.cadence matches Some(c) ==> spec_cadence_covers(c, instant_ms, local, anchor_instant)
    &&& e.bounds matches Some(b) ==> spec_bounds_covers(b, local)
}

/// Coverage in a table zone: the zone's offset at the instant and its
/// resolution of the cadence anchor.
pub open spec fn zone_covers<H: OffsetSource>(e: ExprV, instant_ms: int, tz: Tz<H>) -> bool {
    table_covers(e, instant_ms, tz.table(), tz.first())
}

/// In a host zone, `off` is an offset the host lookup may answer for the
/// instant, and `ai` an instant it may resolve the branch's cadence anchor
/// to (when the anchor is resolved through the zone at all).
pub open spec fn host_observation<H: OffsetSource>(e: ExprV, instant_ms: i64, tz: Tz<H>, off: i32, ai: i64) -> bool {
    &&& tz.host_answers(instant_ms, off)
    &&& has_absolute_cadence(e) ==> tz.host_resolves(anchor_ordinal(e), ai as int)
}

/// Coverage in the zone of transition table `ts` and initial offset `first`.
pub open spec fn table_covers(e: ExprV, instant_ms: int, ts: Seq<(i64, i32)>, first: i32) -> bool {
    spec_expr_covers(e, instant_ms, table_offset_at(ts, first, instant_ms), table_local_to_instant(ts, first, anchor_ordinal(e)))
}


// ---- bounds the evaluation stays within ----------------------------------------

/// Calendar fields as [`spec_fields`] yields them for a local time within
/// [`MAX_LOCAL_MS`].
pub open spec fn fields_ok(f: Fields) -> bool {
    &&& -300_000_000 <= f.year_cal <= 300_000_000
    &&& f.week_year == f.year_cal - 1 || f.week_year == f.year_cal || f.week_year == f.year_cal + 1
    &&& 1 <= f.month <= 12
    &&& 1 <= f.quarter <= 4
    &&& 1 <= f.weekday <= 7
    &&& f.quarter == spec_quarter_of_month(f.month as int)
    &&& 1 <= f.dom <= 31
    &&& f.dom <= spec_days_in_month(f.year_cal as int, f.month as int)
    &&& 1 <= f.week <= 53
    &&& f.week <= spec_weeks_in_iso_year(f.week_year as int)
    &&& 0 <= f.hour < 24
    &&& 0 <= f.minute < 60
    &&& 0 <= f.second < 60
    &&& 1 <= f.doy <= spec_days_in_year(f.year_cal as int)
    &&& 1 <= f.doq <= spec_days_in_quarter(f.year_cal as int, f.quarter as int)
}

/// A naive date-time the cadence arithmetic can move and measure.
pub open spec fn naive_bounded(n: Naive, max_year: int) -> bool {
    n.is_valid() && -max_year <= n.y <= max_year
}

pub proof fn lemma_fields_ok(local_ms: int)
    requires
        i64::MIN <= local_ms <= i64::MAX,
    ensures
        fields_ok(spec_fields(local_ms)),
{
    reveal(spec_fields);
    let days = local_ms / (MS_PER_DAY as int);
    assert(-107_000_000_000 <= days <= 107_000_000_000);
    lemma_civil_from_days_valid(days);
    lemma_civil_year_bound(days);
    let c = spec_civil_from_days(days);
    assert(-300_000_000 <= c.0 <= 300_000_000);
    lemma_day_of_year_bounds(c.0, c.1, c.2);
}

// ---- executable -----------------------------------------------------------------

/// The local calendar fields of the local time `local_ms` (naive ms).
fn fields_at(local_ms: i64) -> (f: Fields)
    ensures
        f == spec_fields(local_ms as int),
        fields_ok(f),
{
    reveal(spec_fields);
    proof {
        lemma_fields_ok(local_ms as int);
    }
    let days = floor_div(local_ms, MS_PER_DAY);
    let tod = floor_mod(local_ms, MS_PER_DAY);
    proof {
        lemma_civil_from_days_valid(days as int);
        lemma_civil_year_bound(days as int);
    }
    let (y, m, d) = civil_from_days(days);
    let (wy, wk) = iso_week(y, m, d);
    Fields {
        local_ms,
        year_cal: y,
        week_year: wy,
        week: wk,
        quarter: quarter_of_month(m),
        month: m,
        dom: d,
        doy: day_of_year(y, m, d),
        doq: day_of_quarter(y, m, d),
        weekday: iso_weekday(days),
        tod_ms: tod,
        hour: tod / MS_PER_HOUR,
        minute: (tod % MS_PER_HOUR) / MS_PER_MIN,
        second: (tod % MS_PER_MIN) / MS_PER_SEC,
    }
}

/// Does some selector of `sels` carry designator `d`?
pub(crate) fn has_desig_exec(sels: &Vec<Selector>, d: Desig) -> (r: bool)
    ensures
        r == has_desig(sels@.map_values(|s: Selector| s@), d),
{
    let ghost v = sels@.map_values(|s: Selector| s@);
    let mut i: usize = 0;
    while i < sels.len()
        invariant
            i <= sels.len(),
            v == sels@.map_values(|s: Selector| s@),
            forall|j: int| 0 <= j < i ==> (#[trigger] v[j]).desig != d,
        decreases sels.len() - i,
    {
        if sels[i].desig == d {
            assert(v[i as int].desig == d);
            return true;
        }
        i = i + 1;
    }
    false
}

pub(crate) fn scope_of(expr: &Expr) -> (r: Scope)
    ensures
        r == spec_scope_of(expr@.selectors),
{
    if has_desig_exec(&expr.selectors, Desig::Month) {
        Scope::Month
    } else if has_desig_exec(&expr.selectors, Desig::Quarter) {
        Scope::Quarter
    } else if has_desig_exec(&expr.selectors, Desig::Year) {
        Scope::Year
    } else {
        Scope::Month
    }
}

/// The domain a designator ranges over in the scope, and the field it tests.
fn domain_and_field(desig: Desig, f: &Fields, scope: Scope, has_week: bool) -> (r: (i64, i64, i64))
    requires
        fields_ok(*f),
    ensures
        (r.0 as int, r.1 as int, r.2 as int) == spec_domain_and_field(desig, *f, scope, has_week),
        desig != Desig::Year ==> -1000 <= r.1 <= 1000,
        -1_000_000_000_000 <= r.2 <= 1_000_000_000_000,
{
    match desig {
        Desig::Year => (i64::MIN, i64::MAX, if has_week { f.week_year } else { f.year_cal }),
        Desig::Quarter => (1, 4, f.quarter),
        Desig::Month => (1, 12, f.month),
        Desig::Week => (1, weeks_in_iso_year(f.week_year), f.week),
        Desig::Weekday => (1, 7, f.weekday),
        Desig::Hour => (0, 23, f.hour),
        Desig::Minute => (0, 59, f.minute),
        Desig::Second => (0, 59, f.second),
        Desig::Day => match scope {
            Scope::Month => (1, days_in_month(f.year_cal, f.month), f.dom),
            Scope::Quarter => (1, days_in_quarter(f.year_cal, f.quarter), f.doq),
            Scope::Year => (1, days_in_year(f.year_cal), f.doy),
        },
    }
}

/// A negative value counts back from the domain's upper edge.
pub fn resolve(v: i64, maxv: i64) -> (r: i64)
    requires
        v < 0 ==> -1000 <= maxv <= 1000 && value_ok(v),
    ensures
        r == spec_resolve(v as int, maxv as int),
{
    if v < 0 {
        maxv + 1 + v
    } else {
        v
    }
}

fn endpoint_value(e: Endpoint, edge: i64, maxv: i64) -> (r: i64)
    requires
        endpoint_ok(e, !(-1000 <= maxv <= 1000)),
    ensures
        r == spec_endpoint(e, edge as int, maxv as int),
{
    match e {
        Endpoint::Star => edge,
        Endpoint::Value(v) => resolve(v, maxv),
    }
}

/// Does `atom` select `field` within the domain `[minv, maxv]`?
pub fn atom_match(atom: &Atom, minv: i64, maxv: i64, field: i64) -> (r: bool)
    requires
        atom_ok(*atom, !(-1000 <= maxv <= 1000)),
        -1_000_000_000_000 <= field <= 1_000_000_000_000,
    ensures
        r == spec_atom_match(*atom, minv as int, maxv as int, field as int),
{
    match *atom {
        Atom::All => true,
        Atom::Single(v) => field == resolve(v, maxv),
        Atom::Range { start, end, wrap } => {
            let s = endpoint_value(start, minv, maxv);
            let e = endpoint_value(end, maxv, maxv);
            if wrap {
                field >= s || field <= e
            } else {
                s <= field && field <= e
            }
        },
        Atom::Stride { start, end, interval, duration } => {
            let e = endpoint_value(end, maxv, maxv);
            if field < start || field > e {
                false
            } else {
                floor_mod(field - start, interval) < duration
            }
        },
    }
}

fn ordinal_covers(wd: i64, ord: i64, f: &Fields, scope: Scope) -> (r: bool)
    requires
        fields_ok(*f),
        value_ok(ord),
    ensures
        r == spec_ordinal_covers(wd, ord, *f, scope),
{
    if f.weekday != wd {
        return false;
    }
    let (day_index, total) = match scope {
        Scope::Month => (f.dom, days_in_month(f.year_cal, f.month)),
        Scope::Quarter => (f.doq, days_in_quarter(f.year_cal, f.quarter)),
        Scope::Year => (f.doy, days_in_year(f.year_cal)),
    };
    if ord > 0 {
        (day_index - 1) / 7 + 1 == ord
    } else {
        (total - day_index) / 7 + 1 == -ord
    }
}


/// Does some atom of `atoms` select `field`?
pub(crate) fn atoms_hit_exec(atoms: &Vec<Atom>, minv: i64, maxv: i64, field: i64, year: bool) -> (r: bool)
    requires
        forall|i: int| 0 <= i < atoms@.len() ==> atom_ok(#[trigger] atoms@[i], year),
        year == !(-1000 <= maxv <= 1000),
        -1_000_000_000_000 <= field <= 1_000_000_000_000,
    ensures
        r == atoms_hit(atoms@, minv as int, maxv as int, field as int),
{
    let mut i: usize = 0;
    while i < atoms.len()
        invariant
            i <= atoms@.len(),
            forall|j: int| 0 <= j < atoms@.len() ==> atom_ok(#[trigger] atoms@[j], year),
            year == !(-1000 <= maxv <= 1000),
            -1_000_000_000_000 <= field <= 1_000_000_000_000,
            forall|j: int| 0 <= j < i ==> !spec_atom_match(#[trigger] atoms@[j], minv as int, maxv as int, field as int),
        decreases atoms@.len() - i,
    {
        if atom_match(&atoms[i], minv, maxv, field) {
            return true;
        }
        i = i + 1;
    }
    false
}

fn selector_covers(sel: &Selector, f: &Fields, scope: Scope, has_week: bool) -> (r: bool)
    requires
        selector_ok(sel@),
        fields_ok(*f),
    ensures
        r == spec_selector_covers(sel@, *f, scope, has_week),
{
    // A weekday ordinal is its own test.
    if let Some((wd, ord)) = sel.ordinal {
        return ordinal_covers(wd, ord, f, scope);
    }
    let (minv, maxv, field) = domain_and_field(sel.desig, f, scope, has_week);
    let is_year = sel.desig == Desig::Year;
    assert(forall|i: int| 0 <= i < sel.atoms@.len() ==> atom_ok(#[trigger] sel.atoms@[i], is_year)) by {
        assert forall|i: int| 0 <= i < sel.atoms@.len() implies atom_ok(#[trigger] sel.atoms@[i], is_year) by {
            assert(sel@.atoms[i] == sel.atoms@[i]);
        }
    }
    let hit = atoms_hit_exec(&sel.atoms, minv, maxv, field, is_year);
    if sel.exclude {
        !hit
    } else {
        hit
    }
}

fn time_covers(t: &TimeSel, tod: i64) -> (r: bool)
    ensures
        r == spec_time_covers(t@, tod as int),
{
    let mut i: usize = 0;
    while i < t.intervals.len()
        invariant
            i <= t@.len(),
            forall|j: int| 0 <= j < i ==> !interval_covers(#[trigger] t@[j], tod as int),
        decreases t@.len() - i,
    {
        let iv = t.intervals[i];
        let hit = if iv.wrap {
            tod >= iv.start || tod < iv.end
        } else {
            iv.start <= tod && tod < iv.end
        };
        if hit {
            assert(interval_covers(t@[i as int], tod as int));
            return true;
        }
        i = i + 1;
    }
    false
}

fn bounds_covers(b: &Bounds, local_ms: i64) -> (r: bool)
    ensures
        r == spec_bounds_covers(*b, local_ms as int),
{
    let after_start = match b.start {
        Some(s) => local_ms >= s,
        None => true,
    };
    let before_end = match b.end {
        Some(e) => local_ms < e,
        None => true,
    };
    after_start && before_end
}


// ---- cadences ---------------------------------------------------------------------

/// Step counts [`add_units`] takes: its result stays far inside `i64`.
pub open spec fn units_ok(n: int, unit: CadUnit) -> bool {
    if unit == CadUnit::Week || unit == CadUnit::Day {
        -100_000_000_000 <= n <= 100_000_000_000
    } else {
        -10_000_000_000 <= n <= 10_000_000_000
    }
}

/// Moving a bounded date-time forward by at most ten million units keeps it a
/// real date-time and bounded.
proof fn lemma_add_units_small(base: Naive, n: int, unit: CadUnit)
    requires
        naive_bounded(base, 280_000_000),
        0 <= n <= 10_000_000,
    ensures
        naive_bounded(spec_add_units(base, n, unit), 290_000_000),
{
    let days = spec_days_from_civil(base.y as int, base.mo as int, base.d as int);
    lemma_days_from_civil_bound(base.y as int, base.mo as int, base.d as int);
    assert(-102_500_000_000 <= days <= 102_500_000_000);
    match unit {
        CadUnit::Year => {},
        CadUnit::Month => {},
        CadUnit::Week => {
            let z = days + n * 7;
            lemma_civil_from_days_valid(z);
            lemma_civil_year_bound(z);
        },
        CadUnit::Day => {
            let z = days + n;
            lemma_civil_from_days_valid(z);
            lemma_civil_year_bound(z);
        },
        CadUnit::Hour => {
            let v = base.spec_ordinal_ms() + n * MS_PER_HOUR;
            assert(-9_000_000_000_000_000_000 <= v <= 9_000_000_000_000_000_000);
            Naive::lemma_ordinal_round_trip(v);
        },
        CadUnit::Minute => {
            let v = base.spec_ordinal_ms() + n * MS_PER_MIN;
            assert(-9_000_000_000_000_000_000 <= v <= 9_000_000_000_000_000_000);
            Naive::lemma_ordinal_round_trip(v);
        },
    }
}

/// `base` moved by `n` units: calendar units (Y/M) with `constrain` overflow,
/// W/D as whole days, H/m as exact spans of naive time.
fn add_units(base: Naive, n: i64, unit: CadUnit) -> (r: Naive)
    requires
        naive_bounded(base, 280_000_000),
        units_ok(n as int, unit),
    ensures
        r == spec_add_units(base, n as int, unit),
{
    proof {
        lemma_days_from_civil_bound(base.y as int, base.mo as int, base.d as int);
    }
    match unit {
        CadUnit::Year => base.add_years_constrain(n),
        CadUnit::Month => base.add_months_constrain(n),
        CadUnit::Week => base.add_days(n * 7),
        CadUnit::Day => base.add_days(n),
        CadUnit::Hour => Naive::from_ordinal_ms(base.ordinal_ms() + n * MS_PER_HOUR),
        CadUnit::Minute => Naive::from_ordinal_ms(base.ordinal_ms() + n * MS_PER_MIN),
    }
}


/// Whole `unit`s of naive wall-clock time elapsed from `anchor` to `t` (may be
/// negative). Fixed-length units divide the ordinal-ms span (flooring);
/// calendar units (M/Y) count calendar steps.
pub fn elapsed_units(unit: CadUnit, anchor: Naive, t: Naive) -> (r: i64)
    requires
        anchor.in_range(),
        t.in_range(),
        i64::MIN <= t.spec_ordinal_ms() - anchor.spec_ordinal_ms() <= i64::MAX,
    ensures
        r == spec_elapsed_units(unit, anchor, t),
{
    let span = t.ordinal_ms() - anchor.ordinal_ms();
    match unit {
        CadUnit::Year => t.y - anchor.y,
        CadUnit::Month => (t.y * 12 + t.mo) - (anchor.y * 12 + anchor.mo),
        CadUnit::Week => floor_div(span, 7 * MS_PER_DAY),
        CadUnit::Day => floor_div(span, MS_PER_DAY),
        CadUnit::Hour => floor_div(span, MS_PER_HOUR),
        CadUnit::Minute => floor_div(span, MS_PER_MIN),
    }
}

/// Moving a date `n` days forward from day number `da`, where `da` plus the
/// days of `n` stay below a bounded local time, gives a bounded date.
proof fn lemma_days_forward(da: int, n: int, local: int)
    requires
        -10_000_000 <= da,
        0 <= n,
        (da + n) * MS_PER_DAY <= local + 200_000_000 * MS_PER_DAY,
        local <= MAX_LOCAL_MS,
    ensures
        ({
            let c = spec_civil_from_days(da + n);
            valid_civil(c.0, c.1, c.2) && -260_000_000 <= c.0 <= 260_000_000
        }),
{
    let z = da + n;
    assert(z <= 93_000_000_000);
    lemma_civil_from_days_valid(z);
    lemma_civil_year_bound(z);
}

/// An occurrence no later than two past the estimate for a bounded local
/// time (or the first one) starts at a bounded date-time, reached in a
/// bounded number of steps.
proof fn lemma_occurrence_start(c: Cadence, local: int, k: int)
    requires
        cadence_ok(c),
        c.period_unit.spec_is_calendar(),
        -MAX_LOCAL_MS <= local <= MAX_LOCAL_MS,
        0 <= k,
        k <= occurrence_estimate(c, local) + 2 || k == 0,
    ensures
        units_ok(k * c.period_n, c.period_unit),
        naive_bounded(occurrence_start(c, k), 280_000_000),
{
    let a = c.anchor;
    let p = c.period_n as int;
    lemma_days_from_civil_bound(a.y as int, a.mo as int, a.d as int);
    if k == 0 {
        assert(k * p == 0);
        lemma_add_units_small(a, 0, c.period_unit);
        return;
    }
    reveal(occurrence_estimate);
    let t = Naive::spec_from_ordinal_ms(local);
    Naive::lemma_ordinal_round_trip(local);
    let el = spec_elapsed_units(c.period_unit, a, t);
    let ke = el / p;
    vstd::arithmetic::div_mod::lemma_fundamental_div_mod(el, p);
    assert(0 <= k * p <= el + 2 * p) by (nonlinear_arith)
        requires
            0 <= k <= ke + 2,
            el == ke * p + el % p,
            0 <= el % p,
            p >= 1,
    ;
    let da = spec_days_from_civil(a.y as int, a.mo as int, a.d as int);
    assert(-254_000_000 <= t.y <= 254_000_000);
    if c.period_unit == CadUnit::Week {
        let span = local - a.spec_ordinal_ms();
        vstd::arithmetic::div_mod::lemma_fundamental_div_mod(span, 7 * MS_PER_DAY);
        assert(el * (7 * MS_PER_DAY) <= span);
        lemma_days_forward(da, k * p * 7, local);
    } else if c.period_unit == CadUnit::Day {
        let span = local - a.spec_ordinal_ms();
        vstd::arithmetic::div_mod::lemma_fundamental_div_mod(span, MS_PER_DAY as int);
        assert(el * MS_PER_DAY <= span);
        lemma_days_forward(da, k * p, local);
    }
}

fn start_of_occurrence(anchor: Naive, c: &Cadence, k: i64) -> (r: Naive)
    requires
        anchor == c.anchor,
        cadence_ok(*c),
        units_ok(k * c.period_n, c.period_unit),
        -100_000_000_000 <= k * c.period_n <= 100_000_000_000,
    ensures
        r == occurrence_start(*c, k as int),
{
    proof {
        lemma_days_from_civil_bound(anchor.y as int, anchor.mo as int, anchor.d as int);
    }
    add_units(anchor, k * c.period_n, c.period_unit)
}

fn end_of_occurrence(start: Naive, c: &Cadence) -> (r: i64)
    requires
        cadence_ok(*c),
        naive_bounded(start, 280_000_000),
    ensures
        r == spec_add_units(start, c.duration_n as int, c.duration_unit).spec_ordinal_ms(),
{
    proof {
        lemma_add_units_small(start, c.duration_n as int, c.duration_unit);
    }
    add_units(start, c.duration_n, c.duration_unit).ordinal_ms()
}

/// The calendar units elapsed from a cadence anchor to a bounded local time
/// are bounded.
proof fn lemma_elapsed_bound(c: Cadence, local: int)
    requires
        cadence_ok(c),
        c.period_unit.spec_is_calendar(),
        -MAX_LOCAL_MS <= local <= MAX_LOCAL_MS,
    ensures
        ({
            let t = Naive::spec_from_ordinal_ms(local);
            &&& t.in_range()
            &&& t.spec_ordinal_ms() == local
            &&& -95_000_000_000 <= spec_elapsed_units(c.period_unit, c.anchor, t) <= 95_000_000_000
        }),
{
    let t = Naive::spec_from_ordinal_ms(local);
    Naive::lemma_ordinal_round_trip(local);
    assert(-254_000_000 <= t.y <= 254_000_000);
    let a = c.anchor;
    lemma_days_from_civil_bound(a.y as int, a.mo as int, a.d as int);
    let span = t.spec_ordinal_ms() - a.spec_ordinal_ms();
    assert(-8_001_000_000_000_000_000 <= span <= 8_001_000_000_000_000_000);
    let el = spec_elapsed_units(c.period_unit, a, t);
    if c.period_unit == CadUnit::Week {
        assert(el == span / (7 * MS_PER_DAY as int));
    } else if c.period_unit == CadUnit::Day {
        assert(el == span / (MS_PER_DAY as int));
    } else if c.period_unit == CadUnit::Month {
        assert(el == (t.y * 12 + t.mo) - (a.y * 12 + a.mo));
    } else {
        assert(el == t.y - a.y);
    }
}

/// The occurrence index the elapsed calendar units suggest for `local_ms`.
fn estimate(c: &Cadence, local_ms: i64) -> (r: i64)
    requires
        cadence_ok(*c),
        c.period_unit.spec_is_calendar(),
        -MAX_LOCAL_MS <= local_ms <= MAX_LOCAL_MS,
    ensures
        r == occurrence_estimate(*c, local_ms as int),
        -100_000_000_000 <= r <= 100_000_000_000,
{
    reveal(occurrence_estimate);
    let t = Naive::from_ordinal_ms(local_ms);
    proof {
        lemma_elapsed_bound(*c, local_ms as int);
        lemma_days_from_civil_bound(c.anchor.y as int, c.anchor.mo as int, c.anchor.d as int);
    }
    let el = elapsed_units(c.period_unit, c.anchor, t);
    let q = floor_div(el, c.period_n);
    proof {
        let p = c.period_n as int;
        vstd::arithmetic::div_mod::lemma_fundamental_div_mod(el as int, p);
        assert(-100_000_000_000 <= q <= 100_000_000_000) by (nonlinear_arith)
            requires
                el as int == q * p + (el as int) % p,
                0 <= (el as int) % p < p,
                p >= 1,
                -95_000_000_000 <= el <= 95_000_000_000,
        ;
    }
    q
}

/// Does occurrence `k` of the cadence hold `local_ms` in its window?
fn occurrence_hit(c: &Cadence, k: i64, local_ms: i64) -> (r: bool)
    requires
        cadence_ok(*c),
        c.period_unit.spec_is_calendar(),
        -MAX_LOCAL_MS <= local_ms <= MAX_LOCAL_MS,
        0 <= k,
        k <= occurrence_estimate(*c, local_ms as int) + 2 || k == 0,
    ensures
        r == occurrence_covers(*c, k as int, local_ms as int),
{
    reveal(occurrence_covers);
    proof {
        lemma_occurrence_start(*c, local_ms as int, k as int);
    }
    let start = start_of_occurrence(c.anchor, c, k);
    let end = end_of_occurrence(start, c);
    let ws = start.ordinal_ms();
    local_ms >= ws && local_ms < end
}

/// Calendar-period (Y/M/W/D) cadence: naive local wall-clock windows. The
/// elapsed units give only an estimate of the occurrence (`constrain`
/// overflow makes occurrence starts slightly non-linear), so a window of two
/// occurrences either side of it is scanned.
fn cadence_calendar(c: &Cadence, local_ms: i64) -> (r: bool)
    requires
        cadence_ok(*c),
        c.period_unit.spec_is_calendar(),
        -MAX_LOCAL_MS <= local_ms <= MAX_LOCAL_MS,
    ensures
        r == spec_cadence_calendar(*c, local_ms as int),
{
    let k_est = estimate(c, local_ms);
    let lo = if k_est - 2 > 0 { k_est - 2 } else { 0 };
    let hi = if k_est + 2 > 0 { k_est + 2 } else { 0 };
    let mut k = lo;
    while k <= hi
        invariant
            cadence_ok(*c),
            c.period_unit.spec_is_calendar(),
            -MAX_LOCAL_MS <= local_ms <= MAX_LOCAL_MS,
            k_est == occurrence_estimate(*c, local_ms as int),
            -100_000_000_000 <= k_est <= 100_000_000_000,
            lo == (if k_est - 2 > 0 { k_est - 2 } else { 0 }),
            hi == (if k_est + 2 > 0 { k_est + 2 } else { 0 }),
            lo <= k <= hi + 1,
            forall|j: int| lo <= j < k ==> !#[trigger] occurrence_covers(*c, j, local_ms as int),
        decreases hi + 1 - k,
    {
        if occurrence_hit(c, k, local_ms) {
            return true;
        }
        k = k + 1;
    }
    false
}

/// Absolute (H/m period) cadence: a fixed grid of instants from the instant
/// the anchor resolves to. An absolute grid has no calendar anchor to
/// constrain against, so period and duration are the fixed naive spans of
/// their units.
#[verifier::spinoff_prover]
#[verifier::rlimit(40)]
fn cadence_absolute(c: &Cadence, instant_ms: i64, anchor_instant: i64) -> (r: bool)
    requires
        cadence_ok(*c),
        !c.period_unit.spec_is_calendar(),
        i64::MIN <= instant_ms - anchor_instant <= i64::MAX,
    ensures
        r == spec_cadence_absolute(*c, instant_ms as int, anchor_instant as int),
{
    let a = c.anchor;
    proof {
        lemma_days_from_civil_bound(a.y as int, a.mo as int, a.d as int);
        lemma_add_units_small(a, c.period_n as int, c.period_unit);
        lemma_add_units_small(a, c.duration_n as int, c.duration_unit);
        let step = if c.period_unit == CadUnit::Hour { MS_PER_HOUR } else { MS_PER_MIN };
        Naive::lemma_ordinal_round_trip(a.spec_ordinal_ms() + c.period_n * step);
    }
    let anchor_ord = a.ordinal_ms();
    let elapsed = instant_ms - anchor_instant;
    if elapsed < 0 {
        return false;
    }
    let period_ms = add_units(a, c.period_n, c.period_unit).ordinal_ms() - anchor_ord;
    let duration_ms = add_units(a, c.duration_n, c.duration_unit).ordinal_ms() - anchor_ord;
    floor_mod(elapsed, period_ms) < duration_ms
}

/// Does the cadence cover the instant: a calendar period by naive local
/// windows, an hour or minute period by a grid from the anchor instant?
fn cadence_covers(c: &Cadence, instant_ms: i64, local_ms: i64, anchor_instant: i64) -> (r: bool)
    requires
        cadence_ok(*c),
        i64::MIN <= instant_ms - anchor_instant <= i64::MAX,
        c.period_unit.spec_is_calendar() ==> -MAX_LOCAL_MS <= local_ms <= MAX_LOCAL_MS,
    ensures
        r == spec_cadence_covers(*c, instant_ms as int, local_ms as int, anchor_instant as int),
{
    if c.period_unit.is_calendar() {
        cadence_calendar(c, local_ms)
    } else {
        cadence_absolute(c, instant_ms, anchor_instant)
    }
}

/// Does every selector of `sels` cover the fields `f`?
fn selectors_cover(sels: &Vec<Selector>, f: &Fields, scope: Scope, has_week: bool) -> (r: bool)
    requires
        forall|j: int| 0 <= j < sels@.len() ==> selector_ok(#[trigger] sels@[j]@),
        fields_ok(*f),
    ensures
        r == forall|j: int| 0 <= j < sels@.len() ==> spec_selector_covers((#[trigger] sels@[j])@, *f, scope, has_week),
{
    let mut i: usize = 0;
    while i < sels.len()
        invariant
            i <= sels@.len(),
            forall|j: int| 0 <= j < sels@.len() ==> selector_ok(#[trigger] sels@[j]@),
            fields_ok(*f),
            forall|j: int| 0 <= j < i ==> spec_selector_covers((#[trigger] sels@[j])@, *f, scope, has_week),
        decreases sels@.len() - i,
    {
        assert(selector_ok(sels@[i as int]@));
        if !selector_covers(&sels[i], f, scope, has_week) {
            assert(!spec_selector_covers(sels@[i as int]@, *f, scope, has_week));
            return false;
        }
        i = i + 1;
    }
    true
}

/// Does the branch `expr` cover `instant_ms`, observed with UTC offset
/// `offset` (seconds east), its cadence anchor (if the cadence has an hour or
/// minute period) resolving to the instant `anchor_instant`?
pub fn covers_observed(expr: &Expr, instant_ms: i64, offset: i32, anchor_instant: i64) -> (r: bool)
    requires
        expr_ok(expr@),
        instant_in_reach(expr@, instant_ms as int),
        i64::MIN <= instant_ms - anchor_instant <= i64::MAX,
    ensures
        r == spec_expr_covers(expr@, instant_ms as int, offset as int, anchor_instant as int),
{
    let local_ms = instant_ms + (offset as i64) * MS_PER_SEC;
    let f = fields_at(local_ms);
    let scope = scope_of(expr);
    proof {
        assert forall|j: int| 0 <= j < expr.selectors@.len() implies selector_ok(#[trigger] expr.selectors@[j]@) by {
            assert(expr@.selectors[j] == expr.selectors@[j]@);
        }
    }
    let all = selectors_cover(&expr.selectors, &f, scope, expr.has_week);
    proof {
        assert forall|j: int| 0 <= j < expr@.selectors.len() implies #[trigger] expr@.selectors[j] == expr.selectors@[j]@ by {}
    }
    if !all {
        proof {
            let j = choose|j: int| 0 <= j < expr.selectors@.len() && !spec_selector_covers((#[trigger] expr.selectors@[j])@, f, scope, expr.has_week);
            assert(expr@.selectors[j] == expr.selectors@[j]@);
        }
        return false;
    }
    if let Some(t) = &expr.time {
        if !time_covers(t, f.tod_ms) {
            return false;
        }
    }
    if let Some(c) = &expr.cadence {
        if !cadence_covers(c, instant_ms, local_ms, anchor_instant) {
            return false;
        }
    }
    if let Some(b) = &expr.bounds {
        if !bounds_covers(b, local_ms) {
            return false;
        }
    }
    true
}

/// Does the expression branch `expr` cover `instant_ms` (ms since the Unix
/// epoch) in the zone `tz`? One calendar-field extraction in the zone, then
/// per-component integer tests.
pub fn expr_covers<H: OffsetSource>(expr: &Expr, instant_ms: i64, tz: &Tz<H>) -> (r: bool)
    requires
        expr_ok(expr@),
        instant_in_reach(expr@, instant_ms as int),
        tz.well_formed() || !has_absolute_cadence(expr@),
    ensures
        !tz.is_host() && table_sorted(tz.table()) ==> r == zone_covers(expr@, instant_ms as int, *tz),
        tz.is_host() ==> exists|off: i32, ai: i64|
            host_observation(expr@, instant_ms, *tz, off, ai) && r == spec_expr_covers(
                expr@,
                instant_ms as int,
                off as int,
                ai as int,
            ),
        exists|off: i32, ai: i64| r == spec_expr_covers(expr@, instant_ms as int, off as int, ai as int),
{
    let offset = tz.offset_at_ms(instant_ms);
    let mut anchor_instant: i64 = 0;
    if let Some(c) = &expr.cadence {
        if !c.period_unit.is_calendar() {
            proof {
                lemma_days_from_civil_bound(c.anchor.y as int, c.anchor.mo as int, c.anchor.d as int);
            }
            let anchor_ord = c.anchor.ordinal_ms();
            proof {
                assert forall|o: int| table_has_offset(tz.table(), tz.first(), o) implies i64::MIN <= anchor_ord - o * 1000
                    <= i64::MAX by {
                    if o != tz.first() {
                        let i = choose|i: int| 0 <= i < tz.table().len() && tz.table()[i].1 == o;
                    }
                }
            }
            anchor_instant = tz.local_to_instant_ms(anchor_ord);
        }
    }
    let r = covers_observed(expr, instant_ms, offset, anchor_instant);
    proof {
        if !tz.is_host() && table_sorted(tz.table()) && !has_absolute_cadence(expr@) {
            let ai = tz.spec_local_to_instant(anchor_ordinal(expr@));
            assert(spec_expr_covers(expr@, instant_ms as int, offset as int, anchor_instant as int)
                == spec_expr_covers(expr@, instant_ms as int, offset as int, ai));
        }
        if tz.is_host() {
            assert(host_observation(expr@, instant_ms, *tz, offset, anchor_instant));
        }
    }
    r
}

} // verus!
