//! Properties of the library as a whole, over the specifications its
//! functions are verified against.

use vstd::prelude::*;

use crate::ast::{Atom, CadUnit, Cadence, Desig, Endpoint, ExprV, SelectorV};
use crate::civil::{
    lemma_civil_from_days_valid, lemma_civil_year_bound, lemma_date_bounds,
    lemma_days_from_civil_bound, lemma_days_from_civil_from_days, lemma_month_first_grows,
    lemma_year_first_grows, month_first_day, spec_days_from_civil, spec_iso_weekday,
    valid_civil, year_first_day, iso_year_marker, lemma_year_step, spec_is_leap, spec_civil_from_days, spec_iso_week, spec_days_in_month, spec_days_in_quarter, spec_days_in_year, Naive, MS_PER_DAY, MS_PER_HOUR, MS_PER_MIN,
};
use crate::eval::{
    cadence_ok, occurrence_covers, occurrence_end, occurrence_estimate, occurrence_start,
    spec_add_units, spec_cadence_absolute, spec_cadence_calendar, spec_elapsed_units,
    anchor_ordinal, atoms_hit, lemma_fields_ok, spec_atom_match, spec_domain_and_field,
    spec_expr_covers, spec_fields, spec_ordinal_covers, fields_ok, spec_scope_of, spec_selector_covers, table_covers, Fields,
    Scope,
};
use crate::civil::spec_weeks_in_iso_year;
use crate::tz::{
    body_transitions, is_v2, spec_be_i64, spec_be_u32, spec_be_i32, counts_at, types_start, type_index_at, spec_parse_tzif, spec_v1_body, time_at,
    names_utc, spec_load, table_has_offset, table_local_to_instant, table_offset_at,
    table_valid_offset, transitions_upto, MAX_LOCAL_MS,
};
use crate::eval::has_desig;
use crate::grammar::{
    at, digit_at, digit_run, dval, is_digit, parsed_ok, selector_syntax_ok, spec_cad_lengths, spec_duration_lt_period,
    spec_finish_bounds, spec_parse_cadence, spec_parse_date, spec_parse_time_item, spec_parse_timeval, spec_valid_date, two, raw_atom, DateLit, Raw,
};
use crate::eval::interval_covers;
use crate::arith::trunc_div;
use crate::validate::{
    spec_selector_warning, first_desig, quarter_sizes, year_sizes, fits_some, lemma_first_desig, matched_set, matches_some, month_sizes, sel_hit,
    spec_day_sizes, spec_disjoint_warning, spec_domain_info, spec_enumerate_years, value_set,
    week_counts, year_atom_holds, year_enumerable, years_of,
};

verus! {

/// The UTC zone (no transitions, offset 0) observes offset 0 at every
/// instant and maps every wall-clock time to the same instant.
pub proof fn lemma_utc_is_identity(instant_ms: int, local: int)
    ensures
        table_offset_at(Seq::empty(), 0, instant_ms) == 0,
        table_local_to_instant(Seq::empty(), 0, local) == local,
{
    let ts = Seq::<(i64, i32)>::empty();
    assert(transitions_upto(ts, instant_ms / 1000) == 0);
    assert(transitions_upto(ts, (local - 0) / 1000) == 0);
    assert(table_valid_offset(ts, 0, local, 0));
    assert forall|o: int| table_valid_offset(ts, 0, local, o) implies o == 0 by {}
    let o = choose|o: int|
        table_valid_offset(ts, 0, local, o) && forall|o2: int| table_valid_offset(ts, 0, local, o2) ==> o2 <= o;
    assert(o == 0);
}

/// The identifiers of UTC (`""`, `"UTC"`, `"Etc/UTC"`) load the UTC zone
/// whatever the database holds, and a branch covers an instant there exactly
/// as it does at offset 0 with its cadence anchor read as UTC.
pub proof fn lemma_utc_aliases(id: Seq<char>, entry: Option<Seq<u8>>, e: ExprV, instant_ms: int)
    requires
        names_utc(id),
    ensures
        spec_load(id, entry) == Ok::<(Seq<(i64, i32)>, i32), Seq<char>>((Seq::empty(), 0i32)),
        table_covers(e, instant_ms, Seq::empty(), 0) == spec_expr_covers(e, instant_ms, 0, anchor_ordinal(e)),
{
    lemma_utc_is_identity(instant_ms, anchor_ordinal(e));
}

/// A table counts at most its own transitions at or before an instant.
proof fn lemma_transitions_upto_len(ts: Seq<(i64, i32)>, secs: int)
    ensures
        0 <= transitions_upto(ts, secs) <= ts.len(),
    decreases ts.len(),
{
    if ts.len() > 0 {
        lemma_transitions_upto_len(ts.drop_first(), secs);
    }
}

/// The offset a table gives any instant is one of its own offsets.
proof fn lemma_offset_in_table(ts: Seq<(i64, i32)>, first: i32, t: int)
    ensures
        table_has_offset(ts, first, table_offset_at(ts, first, t)),
{
    let idx = transitions_upto(ts, t / 1000);
    lemma_transitions_upto_len(ts, t / 1000);
    if idx > 0 {
        assert(ts[idx - 1].1 == table_offset_at(ts, first, t));
    }
}

/// Among the first `n` candidates, if some satisfies `p`, one of them is the
/// largest that does.
proof fn lemma_largest_among(cands: Seq<int>, p: spec_fn(int) -> bool, n: int)
    requires
        0 <= n <= cands.len(),
        exists|j: int| 0 <= j < n && p(#[trigger] cands[j]),
    ensures
        exists|j: int|
            0 <= j < n && p(#[trigger] cands[j]) && forall|k: int| 0 <= k < n && p(#[trigger] cands[k]) ==> cands[k] <= cands[j],
    decreases n,
{
    let last = n - 1;
    if exists|j: int| 0 <= j < last && p(#[trigger] cands[j]) {
        lemma_largest_among(cands, p, last);
        let j = choose|j: int|
            0 <= j < last && p(#[trigger] cands[j]) && forall|k: int| 0 <= k < last && p(#[trigger] cands[k]) ==> cands[k] <= cands[j];
        if p(cands[last]) && cands[last] > cands[j] {
            assert forall|k: int| 0 <= k < n && p(#[trigger] cands[k]) implies cands[k] <= cands[last] by {
                if k < last {
                    assert(cands[k] <= cands[j]);
                }
            }
        } else {
            assert forall|k: int| 0 <= k < n && p(#[trigger] cands[k]) implies cands[k] <= cands[j] by {}
        }
    } else {
        assert(p(cands[last]));
        assert forall|k: int| 0 <= k < n && p(#[trigger] cands[k]) implies cands[k] <= cands[last] by {
            if k < last {
                assert(false);
            }
        }
    }
}

/// A wall-clock time that occurs in a table zone resolves to an instant that
/// shows it (that instant plus the offset in effect there is the wall-clock
/// time), and to the earliest such instant: resolving a wall-clock time
/// undoes reading one.
#[verifier::rlimit(30)]
pub proof fn lemma_local_round_trip(ts: Seq<(i64, i32)>, first: i32, local: int, t: int)
    requires
        exists|o: int| table_valid_offset(ts, first, local, o),
    ensures
        ({
            let r = table_local_to_instant(ts, first, local);
            r + table_offset_at(ts, first, r) * 1000 == local
        }),
        t + table_offset_at(ts, first, t) * 1000 == local ==> table_local_to_instant(ts, first, local) <= t,
{
    let p = |o: int| table_valid_offset(ts, first, local, o);
    let cands = Seq::new((ts.len() + 1) as nat, |j: int| if j == 0 { first as int } else { ts[j - 1].1 as int });
    let o0 = choose|o: int| table_valid_offset(ts, first, local, o);
    if o0 == first {
        assert(p(cands[0]));
    } else {
        let i = choose|i: int| 0 <= i < ts.len() && ts[i].1 == o0;
        assert(cands[i + 1] == o0);
        assert(p(cands[i + 1]));
    }
    lemma_largest_among(cands, p, ts.len() + 1int);
    let j = choose|j: int|
        0 <= j < ts.len() + 1 && p(#[trigger] cands[j]) && forall|k: int| 0 <= k < ts.len() + 1 && p(#[trigger] cands[k]) ==> cands[k] <= cands[j];
    let m = cands[j];
    assert forall|o2: int| table_valid_offset(ts, first, local, o2) implies o2 <= m by {
        assert(p(o2));
        if o2 == first {
            assert(cands[0] == o2);
        } else {
            let i = choose|i: int| 0 <= i < ts.len() && ts[i].1 == o2;
            assert(cands[i + 1] == o2);
        }
    }
    assert(table_valid_offset(ts, first, local, m));
    let o = choose|o: int|
        table_valid_offset(ts, first, local, o) && forall|o2: int| table_valid_offset(ts, first, local, o2) ==> o2 <= o;
    assert(o == m);
    if t + table_offset_at(ts, first, t) * 1000 == local {
        let ot = table_offset_at(ts, first, t);
        lemma_offset_in_table(ts, first, t);
        assert(local - ot * 1000 == t);
        assert(table_valid_offset(ts, first, local, ot));
        assert(ot <= m);
    }
}

// ---- the occurrence scan of calendar cadences --------------------------------

/// Moving a date-time by `k` days moves its ordinal by `k` days, onto a real
/// date.
proof fn lemma_add_days_exact(n: Naive, k: int)
    requires
        -1_000_000_000_000_000 <= spec_days_from_civil(n.y as int, n.mo as int, n.d as int) + k
            <= 1_000_000_000_000_000,
    ensures
        n.spec_add_days(k).spec_ordinal_ms() == n.spec_ordinal_ms() + k * MS_PER_DAY,
        valid_civil(n.spec_add_days(k).y as int, n.spec_add_days(k).mo as int, n.spec_add_days(k).d as int),
        n.spec_add_days(k).h == n.h && n.spec_add_days(k).mi == n.mi && n.spec_add_days(k).s == n.s
            && n.spec_add_days(k).ms == n.ms,
{
    let z = spec_days_from_civil(n.y as int, n.mo as int, n.d as int) + k;
    lemma_civil_from_days_valid(z);
    lemma_civil_year_bound(z);
    lemma_days_from_civil_from_days(z);
}

/// Moving a real date by `k` months moves its month index by `k`, onto a
/// real date.
proof fn lemma_add_months_exact(n: Naive, k: int)
    requires
        0 <= n.y <= 10_000_000_000_000,
        1 <= n.mo <= 12,
        1 <= n.d <= 31,
        0 <= k <= 100_000_000_000_000,
    ensures
        ({
            let r = n.spec_add_months_constrain(k);
            &&& r.y * 12 + r.mo == n.y * 12 + n.mo + k
            &&& 0 <= r.y
            &&& valid_civil(r.y as int, r.mo as int, r.d as int)
            &&& r.h == n.h && r.mi == n.mi && r.s == n.s && r.ms == n.ms
        }),
{
    let total = n.y * 12 + (n.mo - 1) + k;
    vstd::arithmetic::div_mod::lemma_fundamental_div_mod(total, 12);
}

/// Moving a real date by `k` years keeps its month, onto a real date.
proof fn lemma_add_years_exact(n: Naive, k: int)
    requires
        0 <= n.y <= 10_000_000_000_000,
        1 <= n.mo <= 12,
        1 <= n.d <= 31,
        0 <= k <= 100_000_000_000_000,
    ensures
        ({
            let r = n.spec_add_years_constrain(k);
            &&& r.y == n.y + k
            &&& r.mo == n.mo
            &&& valid_civil(r.y as int, r.mo as int, r.d as int)
            &&& r.h == n.h && r.mi == n.mi && r.s == n.s && r.ms == n.ms
        }),
{
}

/// The time of day of a date-time on the clock.
spec fn tod(n: Naive) -> int {
    n.h * MS_PER_HOUR + n.mi * MS_PER_MIN + n.s * 1000 + n.ms
}

/// A real date-time on the clock.
spec fn on_clock(n: Naive) -> bool {
    &&& valid_civil(n.y as int, n.mo as int, n.d as int)
    &&& 0 <= n.h < 24
    &&& 0 <= n.mi < 60
    &&& 0 <= n.s < 60
    &&& 0 <= n.ms < 1000
}

/// How long a duration of `dn` days, weeks, hours or minutes is, in
/// milliseconds.
pub open spec fn fixed_span(dn: int, du: CadUnit) -> int {
    match du {
        CadUnit::Week => dn * 7 * MS_PER_DAY,
        CadUnit::Day => dn * MS_PER_DAY,
        CadUnit::Hour => dn * MS_PER_HOUR,
        CadUnit::Minute => dn * MS_PER_MIN,
        _ => 0,
    }
}

/// A fixed-length duration shorter than its period is shorter than the
/// period's shortest length.
proof fn lemma_fixed_span_lt(dn: int, du: CadUnit, p: int, pu: CadUnit)
    requires
        spec_duration_lt_period(dn, du, p, pu),
        !du.spec_is_month_or_year(),
        1 <= dn,
    ensures
        fixed_span(dn, du) < p * spec_cad_lengths(pu).1 * 1000,
{
    let lp = spec_cad_lengths(pu).1;
    if du == pu {
        assert(dn < p);
        assert(fixed_span(dn, du) == dn * lp * 1000);
        assert(dn * lp * 1000 < p * lp * 1000) by (nonlinear_arith)
            requires
                dn < p,
                lp > 0,
        ;
    } else {
        assert(fixed_span(dn, du) == dn * spec_cad_lengths(du).0 * 1000);
    }
}

/// Where an occurrence window of `dn` days, weeks, hours or minutes that
/// starts at `s` ends: that fixed span after `s`.
proof fn lemma_window_end_fixed(s: Naive, dn: int, du: CadUnit)
    requires
        on_clock(s),
        -MAX_LOCAL_MS <= s.spec_ordinal_ms() <= MAX_LOCAL_MS,
        1 <= dn <= 10_000_000,
        !du.spec_is_month_or_year(),
    ensures
        spec_add_units(s, dn, du).spec_ordinal_ms() == s.spec_ordinal_ms() + fixed_span(dn, du),
{
    let sd = spec_days_from_civil(s.y as int, s.mo as int, s.d as int);
    assert(s.spec_ordinal_ms() == sd * MS_PER_DAY + tod(s));
    assert(-100_000_000_000 <= sd <= 100_000_000_000);
    match du {
        CadUnit::Day => {
            lemma_add_days_exact(s, dn);
        },
        CadUnit::Week => {
            lemma_add_days_exact(s, dn * 7);
        },
        CadUnit::Hour => {
            Naive::lemma_ordinal_round_trip(s.spec_ordinal_ms() + dn * MS_PER_HOUR);
        },
        CadUnit::Minute => {
            Naive::lemma_ordinal_round_trip(s.spec_ordinal_ms() + dn * MS_PER_MIN);
        },
        _ => {},
    }
}

/// Where an occurrence window of `dn` months or years that starts at `s`
/// ends: a real date that many months or years on, at the same time of day.
proof fn lemma_window_end_calendar(s: Naive, dn: int, du: CadUnit)
    requires
        on_clock(s),
        0 <= s.y <= 10_000_000_000_000,
        1 <= dn <= 10_000_000,
        du.spec_is_month_or_year(),
    ensures
        ({
            let e = spec_add_units(s, dn, du);
            &&& du == CadUnit::Month ==> e.y * 12 + e.mo == s.y * 12 + s.mo + dn && on_clock(e) && tod(e) == tod(s)
            &&& du == CadUnit::Year ==> e.y == s.y + dn && e.mo == s.mo && on_clock(e) && tod(e) == tod(s)
        }),
{
    if du == CadUnit::Month {
        lemma_add_months_exact(s, dn);
    } else {
        lemma_add_years_exact(s, dn);
    }
}

/// The day number of a local time at or after a date-time is at least that
/// date-time's.
proof fn lemma_day_at_or_after(sd: int, t: int, local: int)
    requires
        0 <= t < 86_400_000,
        sd * 86_400_000 + t <= local,
    ensures
        sd <= local / 86_400_000,
{
    vstd::arithmetic::div_mod::lemma_fundamental_div_mod(local, 86_400_000);
}

/// The day number of a local time before a date-time `n` days on from day
/// `ed` is at most `ed + n`.
proof fn lemma_day_before(ed: int, t: int, n: int, local: int)
    requires
        0 <= t < 86_400_000,
        local < ed * 86_400_000 + t + n * 86_400_000,
    ensures
        local / 86_400_000 <= ed + n,
{
    vstd::arithmetic::div_mod::lemma_fundamental_div_mod(local, 86_400_000);
}

/// `q` between `k` and `k + 1` whole periods `p` gives the estimate `k`, or
/// `k + 1` at the upper end.
proof fn lemma_estimate_of(q: int, p: int, k: int)
    requires
        1 <= p,
        k * p <= q <= k * p + p,
    ensures
        q / p == k || q / p == k + 1,
        q < k * p + p ==> q / p == k,
{
    if q < k * p + p {
        vstd::arithmetic::div_mod::lemma_fundamental_div_mod_converse(q, p, k, q - k * p);
    } else {
        assert((k + 1) * p == k * p + p) by (nonlinear_arith);
        vstd::arithmetic::div_mod::lemma_fundamental_div_mod_converse(q, p, k + 1, 0);
    }
}

/// The anchor of a parsed cadence is a real date-time within the years
/// 0-9999, its ordinal far inside the evaluated range.
proof fn lemma_anchor_facts(c: Cadence)
    requires
        cadence_ok(c),
    ensures
        on_clock(c.anchor),
        -600_000_000_000_000 <= c.anchor.spec_ordinal_ms() <= 600_000_000_000_000,
        -6_000_000 <= spec_days_from_civil(c.anchor.y as int, c.anchor.mo as int, c.anchor.d as int) <= 6_000_000,
{
    let a = c.anchor;
    lemma_days_from_civil_bound(a.y as int, a.mo as int, a.d as int);
}

/// A covering occurrence of a day or week cadence is the one the elapsed
/// days or weeks give.
proof fn lemma_estimate_days(c: Cadence, local: int, k: int)
    requires
        cadence_ok(c),
        c.period_unit == CadUnit::Day || c.period_unit == CadUnit::Week,
        -MAX_LOCAL_MS <= local <= MAX_LOCAL_MS,
        0 <= k,
        k * c.period_n <= 100_000_000_000_000,
        occurrence_start(c, k).spec_ordinal_ms() <= local < occurrence_end(c, k),
    ensures
        occurrence_estimate(c, local) == k,
{
    reveal(occurrence_estimate);
    let a = c.anchor;
    let p = c.period_n as int;
    let kp = k * p;
    let w: int = if c.period_unit == CadUnit::Week { 7 } else { 1 };
    lemma_anchor_facts(c);
    lemma_add_days_exact(a, kp * w);
    let s = occurrence_start(c, k);
    assert(s == a.spec_add_days(kp * w));
    assert(s.spec_ordinal_ms() == a.spec_ordinal_ms() + kp * w * MS_PER_DAY);
    let dn = c.duration_n as int;
    let du = c.duration_unit;
    assert(!du.spec_is_month_or_year());
    lemma_window_end_fixed(s, dn, du);
    lemma_fixed_span_lt(dn, du, p, c.period_unit);
    let x = local - a.spec_ordinal_ms();
    assert(kp * w * MS_PER_DAY <= x);
    assert(x < kp * w * MS_PER_DAY + p * w * MS_PER_DAY);
    let t = Naive::spec_from_ordinal_ms(local);
    Naive::lemma_ordinal_round_trip(local);
    let unit = w * MS_PER_DAY;
    vstd::arithmetic::div_mod::lemma_fundamental_div_mod(x, unit);
    let q = x / unit;
    if w == 7 {
        assert(spec_elapsed_units(c.period_unit, a, t) == x / (7 * MS_PER_DAY as int));
        assert(kp <= q < kp + p);
    } else {
        assert(spec_elapsed_units(c.period_unit, a, t) == x / (MS_PER_DAY as int));
        assert(kp <= q < kp + p);
    }
    lemma_estimate_of(q, p, k);
}

/// A day on or after the start of month `si`, and before the start of month
/// `si + p + 1`, lies in one of the months `si` to `si + p`.
proof fn lemma_month_sandwich(si: int, mt: int, l: int, p: int)
    requires
        0 <= p,
        month_first_day(si) <= l,
        month_first_day(mt) <= l < month_first_day(mt + 1),
        l < month_first_day(si + p + 1),
    ensures
        si <= mt <= si + p,
{
    if mt + 1 <= si {
        lemma_month_first_grows(mt + 1, si);
    }
    if mt >= si + p + 1 {
        lemma_month_first_grows(si + p + 1, mt);
    }
}

/// A wall-clock time before the end of a window of `dn` days, weeks, hours
/// or minutes that starts at `s` (in month `si`) falls before the month `p`
/// months after `si` ends, when the window is shorter than `p` months.
proof fn lemma_month_window_end_fixed(s: Naive, dn: int, du: CadUnit, p: int, local: int)
    requires
        on_clock(s),
        1 <= dn <= 10_000_000,
        1 <= p,
        !du.spec_is_month_or_year(),
        spec_duration_lt_period(dn, du, p, CadUnit::Month),
        -MAX_LOCAL_MS <= s.spec_ordinal_ms() <= local <= MAX_LOCAL_MS,
        local < spec_add_units(s, dn, du).spec_ordinal_ms(),
    ensures
        local / 86_400_000 < month_first_day(s.y * 12 + s.mo - 1 + p + 1),
{
    let si = s.y * 12 + s.mo - 1;
    let sd = spec_days_from_civil(s.y as int, s.mo as int, s.d as int);
    lemma_date_bounds(s.y as int, s.mo as int, s.d as int);
    assert(s.spec_ordinal_ms() == sd * MS_PER_DAY + tod(s));
    lemma_window_end_fixed(s, dn, du);
    lemma_fixed_span_lt(dn, du, p, CadUnit::Month);
    assert(local < s.spec_ordinal_ms() + 28 * p * MS_PER_DAY);
    lemma_day_before(sd, tod(s), 28 * p, local);
    lemma_month_first_grows(si + 1, si + p + 1);
}

/// A window of `dn` months or years shorter than `p` months spans fewer
/// than `p` months.
proof fn lemma_calendar_duration_months(dn: int, du: CadUnit, p: int)
    requires
        spec_duration_lt_period(dn, du, p, CadUnit::Month),
        du.spec_is_month_or_year(),
        0 <= dn,
    ensures
        du == CadUnit::Month ==> dn < p,
        du == CadUnit::Year ==> 12 * dn < p,
{
}

/// A wall-clock time before a date-time `e` in month `ei` falls before the
/// month after `ei` starts.
proof fn lemma_before_month_end(e: Naive, local: int)
    requires
        on_clock(e),
        local < e.spec_ordinal_ms(),
    ensures
        local / 86_400_000 < month_first_day(e.y * 12 + e.mo),
{
    let ed = spec_days_from_civil(e.y as int, e.mo as int, e.d as int);
    lemma_date_bounds(e.y as int, e.mo as int, e.d as int);
    assert(e.spec_ordinal_ms() == ed * MS_PER_DAY + tod(e));
    lemma_day_before(ed, tod(e), 0, local);
}

/// A wall-clock time inside a month-cadence window that starts at `s`
/// (in month `si`) falls before the month `p` months after `si` ends.
proof fn lemma_month_window_end(c: Cadence, s: Naive, local: int)
    requires
        cadence_ok(c),
        c.period_unit == CadUnit::Month,
        on_clock(s),
        0 <= s.y <= 10_000_000_000_000,
        -MAX_LOCAL_MS <= s.spec_ordinal_ms() <= local <= MAX_LOCAL_MS,
        local < spec_add_units(s, c.duration_n as int, c.duration_unit).spec_ordinal_ms(),
    ensures
        local / 86_400_000 < month_first_day(s.y * 12 + s.mo - 1 + c.period_n + 1),
{
    let dn = c.duration_n as int;
    let du = c.duration_unit;
    let p = c.period_n as int;
    if du.spec_is_month_or_year() {
        let si = s.y * 12 + s.mo - 1;
        lemma_window_end_calendar(s, dn, du);
        let e = spec_add_units(s, dn, du);
        lemma_calendar_duration_months(dn, du, p);
        lemma_before_month_end(e, local);
        assert(e.y * 12 + e.mo <= si + p + 1);
        lemma_month_first_grows(e.y * 12 + e.mo, si + p + 1);
    } else {
        lemma_month_window_end_fixed(s, dn, du, p, local);
    }
}

/// A covering occurrence of a month cadence is the one the elapsed months
/// give, or the one before when it ends in the next occurrence's month.
proof fn lemma_estimate_months(c: Cadence, local: int, k: int)
    requires
        cadence_ok(c),
        c.period_unit == CadUnit::Month,
        -MAX_LOCAL_MS <= local <= MAX_LOCAL_MS,
        0 <= k,
        k * c.period_n <= 100_000_000_000_000,
        occurrence_start(c, k).spec_ordinal_ms() <= local < occurrence_end(c, k),
    ensures
        occurrence_estimate(c, local) == k || occurrence_estimate(c, local) == k + 1,
{
    reveal(occurrence_estimate);
    let a = c.anchor;
    let p = c.period_n as int;
    let kp = k * p;
    lemma_anchor_facts(c);
    lemma_add_months_exact(a, kp);
    let s = occurrence_start(c, k);
    let ai = a.y * 12 + a.mo - 1;
    let si = s.y * 12 + s.mo - 1;
    assert(si == ai + kp);
    let sd = spec_days_from_civil(s.y as int, s.mo as int, s.d as int);
    lemma_date_bounds(s.y as int, s.mo as int, s.d as int);
    assert(s.spec_ordinal_ms() == sd * MS_PER_DAY + tod(s));
    let t = Naive::spec_from_ordinal_ms(local);
    Naive::lemma_ordinal_round_trip(local);
    let l = local / (MS_PER_DAY as int);
    let mt = t.y * 12 + t.mo - 1;
    lemma_date_bounds(t.y as int, t.mo as int, t.d as int);
    lemma_day_at_or_after(sd, tod(s), local);
    assert(-MAX_LOCAL_MS <= s.spec_ordinal_ms()) by {
        lemma_month_first_grows(ai, si);
        lemma_date_bounds(a.y as int, a.mo as int, a.d as int);
    }
    lemma_month_window_end(c, s, local);
    lemma_month_sandwich(si, mt, l, p);
    assert(spec_elapsed_units(c.period_unit, a, t) == mt - ai);
    lemma_estimate_of(mt - ai, p, k);
}

/// A wall-clock time inside a year-cadence window that starts at `s` falls
/// before the year `p` years after `s`'s ends.
#[verifier::spinoff_prover]
proof fn lemma_year_window_end(c: Cadence, s: Naive, local: int)
    requires
        cadence_ok(c),
        c.period_unit == CadUnit::Year,
        on_clock(s),
        0 <= s.y <= 10_000_000_000_000,
        -MAX_LOCAL_MS <= s.spec_ordinal_ms() <= local <= MAX_LOCAL_MS,
        local < spec_add_units(s, c.duration_n as int, c.duration_unit).spec_ordinal_ms(),
    ensures
        local / 86_400_000 < year_first_day(s.y + c.period_n + 1),
{
    let p = c.period_n as int;
    let dn = c.duration_n as int;
    let du = c.duration_unit;
    let sd = spec_days_from_civil(s.y as int, s.mo as int, s.d as int);
    lemma_date_bounds(s.y as int, s.mo as int, s.d as int);
    assert(s.spec_ordinal_ms() == sd * MS_PER_DAY + tod(s));
    assert(spec_duration_lt_period(dn, du, p, c.period_unit));
    lemma_year_first_grows(s.y + 1, s.y + p + 1);
    let e = spec_add_units(s, dn, du);
    if du == CadUnit::Year {
        lemma_window_end_calendar(s, dn, du);
        let ed = spec_days_from_civil(e.y as int, e.mo as int, e.d as int);
        lemma_date_bounds(e.y as int, e.mo as int, e.d as int);
        assert(e.spec_ordinal_ms() == ed * MS_PER_DAY + tod(e));
        lemma_day_before(ed, tod(e), 0, local);
        lemma_year_first_grows(e.y + 1, s.y + p + 1);
    } else if du == CadUnit::Month {
        lemma_window_end_calendar(s, dn, du);
        let ei = e.y * 12 + e.mo - 1;
        let ed = spec_days_from_civil(e.y as int, e.mo as int, e.d as int);
        lemma_date_bounds(e.y as int, e.mo as int, e.d as int);
        assert(e.spec_ordinal_ms() == ed * MS_PER_DAY + tod(e));
        lemma_day_before(ed, tod(e), 0, local);
        lemma_date_bounds(s.y + p + 1, 1, 1);
        assert(ei + 1 <= (s.y + p + 1) * 12);
        lemma_month_first_grows(ei + 1, (s.y + p + 1) * 12);
    } else {
        lemma_window_end_fixed(s, dn, du);
        lemma_fixed_span_lt(dn, du, p, c.period_unit);
        lemma_day_before(sd, tod(s), 365 * p, local);
    }
}

/// A covering occurrence of a year cadence is the one the elapsed years
/// give, or the one before when it ends in the next occurrence's year.
proof fn lemma_estimate_years(c: Cadence, local: int, k: int)
    requires
        cadence_ok(c),
        c.period_unit == CadUnit::Year,
        -MAX_LOCAL_MS <= local <= MAX_LOCAL_MS,
        0 <= k,
        k * c.period_n <= 100_000_000_000_000,
        occurrence_start(c, k).spec_ordinal_ms() <= local < occurrence_end(c, k),
    ensures
        occurrence_estimate(c, local) == k || occurrence_estimate(c, local) == k + 1,
{
    reveal(occurrence_estimate);
    let a = c.anchor;
    let p = c.period_n as int;
    let kp = k * p;
    lemma_anchor_facts(c);
    lemma_add_years_exact(a, kp);
    let s = occurrence_start(c, k);
    assert(s.y == a.y + kp);
    let sd = spec_days_from_civil(s.y as int, s.mo as int, s.d as int);
    lemma_date_bounds(s.y as int, s.mo as int, s.d as int);
    assert(tod(s) == tod(a));
    assert(s.spec_ordinal_ms() == sd * MS_PER_DAY + tod(s));
    let t = Naive::spec_from_ordinal_ms(local);
    Naive::lemma_ordinal_round_trip(local);
    let l = local / (MS_PER_DAY as int);
    lemma_date_bounds(t.y as int, t.mo as int, t.d as int);
    lemma_day_at_or_after(sd, tod(s), local);
    assert(t.y >= s.y) by {
        if t.y + 1 <= s.y {
            lemma_year_first_grows(t.y + 1, s.y as int);
        }
    }
    lemma_year_first_grows(s.y + 1, s.y + p + 1);
    assert(-MAX_LOCAL_MS <= s.spec_ordinal_ms()) by {
        lemma_year_first_grows(a.y as int, s.y as int);
        lemma_date_bounds(a.y as int, a.mo as int, a.d as int);
    }
    lemma_year_window_end(c, s, local);
    assert(t.y <= s.y + p) by {
        if t.y >= s.y + p + 1 {
            lemma_year_first_grows(s.y + p + 1, t.y as int);
        }
    }
    assert(spec_elapsed_units(c.period_unit, a, t) == t.y - a.y);
    lemma_estimate_of(t.y - a.y, p, k);
}

/// The occurrence scan of a calendar cadence is exact: a wall-clock time
/// lies in the cadence exactly when some occurrence at or after the anchor
/// holds it. Checking only the occurrences within two of the estimate that
/// the elapsed days, weeks, months or years give misses none, although
/// `constrain` overflow (January 31 plus a month is February 28 or 29) makes
/// month and year occurrences uneven: the estimate is the covering
/// occurrence's index, or (months and years) the next one. Occurrence
/// indices are taken up to 10^14 periods' units, beyond every wall-clock
/// time the library evaluates.
pub proof fn lemma_calendar_scan_exact(c: Cadence, local: int)
    requires
        cadence_ok(c),
        c.period_unit.spec_is_calendar(),
        -MAX_LOCAL_MS <= local <= MAX_LOCAL_MS,
    ensures
        spec_cadence_calendar(c, local) <==> exists|k: int|
            0 <= k && k * c.period_n <= 100_000_000_000_000 && #[trigger] occurrence_covers(c, k, local),
        forall|k: int|
            0 <= k && k * c.period_n <= 100_000_000_000_000 && #[trigger] occurrence_covers(c, k, local) ==> {
                let k_est = occurrence_estimate(c, local);
                &&& k <= k_est <= k + 1
                &&& (c.period_unit == CadUnit::Day || c.period_unit == CadUnit::Week) ==> k_est == k
            },
{
    reveal(occurrence_covers);
    reveal(occurrence_estimate);
    let a = c.anchor;
    let p = c.period_n as int;
    let k_est = occurrence_estimate(c, local);
    let lo = if k_est - 2 > 0 { k_est - 2 } else { 0 };
    let hi = if k_est + 2 > 0 { k_est + 2 } else { 0 };
    lemma_anchor_facts(c);
    let t = Naive::spec_from_ordinal_ms(local);
    Naive::lemma_ordinal_round_trip(local);
    let el = spec_elapsed_units(c.period_unit, a, t);
    assert(el <= 95_000_000_000) by {
        let x = local - a.spec_ordinal_ms();
        vstd::arithmetic::div_mod::lemma_fundamental_div_mod(x, 86_400_000);
        vstd::arithmetic::div_mod::lemma_fundamental_div_mod(x, 604_800_000);
    }
    vstd::arithmetic::div_mod::lemma_fundamental_div_mod(el, p);
    if spec_cadence_calendar(c, local) {
        let k = choose|k: int| lo <= k <= hi && #[trigger] occurrence_covers(c, k, local);
        assert(k * p <= 100_000_000_000_000) by (nonlinear_arith)
            requires
                k <= hi,
                hi == k_est + 2 || (hi == 0 && k_est + 2 <= 0),
                k_est == el / p,
                el == p * (el / p) + el % p,
                0 <= el % p,
                el <= 95_000_000_000,
                1 <= p <= 10_000_000,
        ;
        assert(0 <= k * p) by (nonlinear_arith)
            requires
                0 <= lo <= k,
                1 <= p,
        ;
    }
    assert forall|k: int| 0 <= k && k * p <= 100_000_000_000_000 && #[trigger] occurrence_covers(c, k, local) implies lo <= k
        <= hi && k <= k_est <= k + 1 && ((c.period_unit == CadUnit::Day || c.period_unit == CadUnit::Week) ==> k_est == k) by {
        if c.period_unit == CadUnit::Day || c.period_unit == CadUnit::Week {
            lemma_estimate_days(c, local, k);
        } else if c.period_unit == CadUnit::Month {
            lemma_estimate_months(c, local, k);
        } else {
            lemma_estimate_years(c, local, k);
        }
    }
}

/// An hour or minute cadence is a fixed grid from the instant its anchor
/// resolves to: it covers an instant exactly when that instant is at or after
/// the anchor and the time elapsed since it, modulo the period, is less than
/// the duration; so it repeats every period.
pub proof fn lemma_absolute_grid(c: Cadence, instant: int, anchor_instant: int)
    requires
        cadence_ok(c),
        !c.period_unit.spec_is_calendar(),
    ensures
        spec_cadence_absolute(c, instant, anchor_instant) == (instant >= anchor_instant && (instant
            - anchor_instant) % fixed_span(c.period_n as int, c.period_unit) < fixed_span(
            c.duration_n as int,
            c.duration_unit,
        )),
        instant >= anchor_instant ==> spec_cadence_absolute(
            c,
            instant + fixed_span(c.period_n as int, c.period_unit),
            anchor_instant,
        ) == spec_cadence_absolute(c, instant, anchor_instant),
{
    lemma_absolute_spans(c);
    let period = fixed_span(c.period_n as int, c.period_unit);
    let x = instant - anchor_instant;
    if x >= 0 {
        vstd::arithmetic::div_mod::lemma_mod_add_multiples_vanish(x, period);
    }
}

/// The period and duration of an hour or minute cadence are fixed spans of
/// naive time from its anchor.
#[verifier::spinoff_prover]
proof fn lemma_absolute_spans(c: Cadence)
    requires
        cadence_ok(c),
        !c.period_unit.spec_is_calendar(),
    ensures
        spec_add_units(c.anchor, c.period_n as int, c.period_unit).spec_ordinal_ms()
            - c.anchor.spec_ordinal_ms() == fixed_span(c.period_n as int, c.period_unit),
        spec_add_units(c.anchor, c.duration_n as int, c.duration_unit).spec_ordinal_ms()
            - c.anchor.spec_ordinal_ms() == fixed_span(c.duration_n as int, c.duration_unit),
        fixed_span(c.period_n as int, c.period_unit) > 0,
{
    let a = c.anchor;
    lemma_anchor_facts(c);
    lemma_window_end_fixed(a, c.period_n as int, c.period_unit);
    assert(!c.duration_unit.spec_is_month_or_year());
    lemma_window_end_fixed(a, c.duration_n as int, c.duration_unit);
}

// ---- what the parts of an expression mean --------------------------------------

/// A parsed `T` item covers a time of day `tod` (of one day) as its two ends
/// say: `a:b` with `a` before `b` covers `[a, b)`; with `a` after `b` it
/// wraps past midnight and covers `tod >= a` or `tod < b` (`T2200:0600`
/// covers 23:00 and 02:00, not 12:00). Its ends never coincide.
pub proof fn lemma_time_item_wraps(b: Seq<u8>, i: int, tod: int)
    requires
        0 <= tod < 86_400_000,
    ensures
        spec_parse_time_item(b, i) matches Ok((iv, _)) ==> {
            &&& iv.start != iv.end
            &&& 0 <= iv.start < 86_400_000
            &&& interval_covers(iv, tod) == if iv.start < iv.end {
                iv.start <= tod < iv.end
            } else {
                tod >= iv.start || tod < iv.end
            }
        },
{
    lemma_timeval_range(b, i, false);
    if let Ok((start, k)) = spec_parse_timeval(b, i, false) {
        if at(b, k) == Some(58u8) && at(b, k + 1) != Some(42u8) {
            lemma_timeval_range(b, k + 1, true);
        }
    }
}

/// A time value is a time of one day, or `2400` at the day's end.
proof fn lemma_timeval_range(b: Seq<u8>, i: int, allow_2400: bool)
    ensures
        spec_parse_timeval(b, i, allow_2400) matches Ok((v, _)) ==> {
            &&& v.is_2400 ==> v.ms == 86_400_000
            &&& !v.is_2400 ==> 0 <= v.ms && v.ms + v.unit <= 86_400_000 && v.unit > 0
        },
{
    let j = digit_run(b, i);
    lemma_digit_run(b, i);
    if j - i >= 2 {
        assert(digit_at(b, i) && digit_at(b, i + 1));
        assert(0 <= dval(b, i) <= 9 && 0 <= dval(b, i + 1) <= 9);
    }
    if j - i >= 4 {
        assert(digit_at(b, i + 2) && digit_at(b, i + 3));
        assert(0 <= dval(b, i + 2) <= 9 && 0 <= dval(b, i + 3) <= 9);
    }
    if j - i == 6 {
        assert(digit_at(b, i + 4) && digit_at(b, i + 5));
        assert(0 <= dval(b, i + 4) <= 9 && 0 <= dval(b, i + 5) <= 9);
        let k = digit_run(b, j + 1);
        lemma_digit_run(b, j + 1);
        if at(b, j) == Some(46u8) && k - (j + 1) == 3 {
            assert(digit_at(b, j + 1) && digit_at(b, j + 2) && digit_at(b, j + 3));
            assert(0 <= dval(b, j + 1) <= 9 && 0 <= dval(b, j + 2) <= 9 && 0 <= dval(b, j + 3) <= 9);
        }
    }
}

/// The digits from `i` to [`digit_run`] are digits.
proof fn lemma_digit_run(b: Seq<u8>, i: int)
    ensures
        digit_run(b, i) >= i,
        forall|k: int| i <= k < digit_run(b, i) ==> digit_at(b, k),
    decreases b.len() - i,
{
    if digit_at(b, i) {
        lemma_digit_run(b, i + 1);
    }
}

/// The length of one step of a time value's last digit: an hour for `hh`, a
/// minute for `hhmm`, a second for `hhmmss`, a millisecond for
/// `hhmmss.fff`.
pub open spec fn precision_ms(b: Seq<u8>, i: int) -> int {
    let n = digit_run(b, i) - i;
    if n == 2 {
        3_600_000
    } else if n == 4 {
        60_000
    } else if at(b, i + 6) == Some(46u8) {
        1
    } else {
        1000
    }
}

/// The time of day the digits of a time value at `i` name.
pub open spec fn named_time(b: Seq<u8>, i: int) -> int {
    let n = digit_run(b, i) - i;
    let hms = two(b, i) * 3_600_000 + (if n >= 4 { two(b, i + 2) * 60_000 } else { 0 }) + (if n >= 6 {
        two(b, i + 4) * 1000
    } else {
        0
    });
    hms + if n == 6 && at(b, i + 6) == Some(46u8) {
        dval(b, i + 7) * 100 + dval(b, i + 8) * 10 + dval(b, i + 9)
    } else {
        0
    }
}

/// A single `T` value (no `:` after it) covers exactly one step of its own
/// precision from the time its digits name: `T09` the hour 09:00-10:00,
/// `T0930` the minute 09:30:00-09:30:59.999, `T093015` one second,
/// `T093015.250` one millisecond.
pub proof fn lemma_time_value_precision(b: Seq<u8>, i: int)
    ensures
        spec_parse_timeval(b, i, false) matches Ok((v, k)) ==> at(b, k) != Some(58u8) ==> {
            &&& v.ms == named_time(b, i)
            &&& spec_parse_time_item(b, i) == Ok::<(crate::ast::TimeInterval, int), (int, Seq<char>)>((
                crate::ast::TimeInterval {
                    start: named_time(b, i) as i64,
                    end: (named_time(b, i) + precision_ms(b, i)) as i64,
                    wrap: false,
                },
                k,
            ))
        },
{
}

/// A `T` range `a:b` runs from the time of day `a` names to the time `b`
/// names, `b` itself not included (`2400` names the end of the day):
/// `T0900:1730` starts at 09:00 and stops at 17:30.
pub proof fn lemma_time_range_ends(b: Seq<u8>, i: int)
    ensures
        spec_parse_timeval(b, i, false) matches Ok((v, k)) ==> at(b, k) == Some(58u8) ==> (spec_parse_time_item(
            b,
            i,
        ) matches Ok((iv, _)) ==> iv.start == named_time(b, i) && iv.end == named_time(b, k + 1)),
{
}

/// The week lint is complete and exact: when the year selector enumerates
/// the week-years `ys`, a week selector draws the warning exactly when it
/// takes no week `1..n` for the ISO week count `n` of any of them (`Y2021
/// W53` warns: 2021 has 52 weeks); when the years are not enumerable, exactly
/// when it takes no week of a 52- or a 53-week year.
pub proof fn lemma_week_warning_exact(s: SelectorV, e: ExprV, scope: Scope)
    requires
        s.desig == Desig::Week,
    ensures
        spec_enumerate_years(e.selectors) matches Some(ys) ==> (spec_selector_warning(s, e, scope) is Some
            <==> forall|y: int| ys.contains(y) ==> !matches_some(s, 1, spec_weeks_in_iso_year(y))),
        spec_enumerate_years(e.selectors) is None ==> (spec_selector_warning(s, e, scope) is Some
            <==> !matches_some(s, 1, 52) && !matches_some(s, 1, 53)),
{
    match spec_enumerate_years(e.selectors) {
        Some(ys) => {
            let counts = week_counts(Some(ys));
            if fits_some(s, counts) {
                let z = choose|z: int| counts.contains(z) && #[trigger] matches_some(s, 1, z);
                let y = choose|y: int| ys.contains(y) && z == spec_weeks_in_iso_year(y);
                assert(matches_some(s, 1, spec_weeks_in_iso_year(y)));
            } else {
                assert forall|y: int| ys.contains(y) implies !matches_some(s, 1, spec_weeks_in_iso_year(y)) by {
                    assert(counts.contains(spec_weeks_in_iso_year(y)));
                }
            }
        },
        None => {
            let counts = week_counts(None);
            assert(counts.contains(52) && counts.contains(53));
            if fits_some(s, counts) {
                let z = choose|z: int| counts.contains(z) && #[trigger] matches_some(s, 1, z);
                assert(z == 52 || z == 53);
            }
        },
    }
}

/// The months a branch's day selector ranges over: those of its month
/// selector, or all twelve.
pub open spec fn covered_months(e: ExprV) -> Set<int> {
    match value_set(e.selectors, Desig::Month, 12) {
        Some(ms) => ms,
        None => Set::new(|m: int| 1 <= m <= 12),
    }
}

/// The years a branch's day lengths are taken over: those its year selector
/// lists, else a common year and a leap year.
pub open spec fn covered_years(e: ExprV) -> Set<int> {
    match spec_enumerate_years(e.selectors) {
        Some(ys) => ys,
        None => set![2000, 2001],
    }
}

/// The day lint is exact for days of the month and of the year: a `D`
/// selector (in a branch without `W`) draws the warning exactly when it
/// takes no day `1..n` for the length `n` of any covered month in any
/// covered year (`Y2021 M2 D29` warns, February 2021 having 28 days), or of
/// any covered year for days of the year.
pub proof fn lemma_day_warning_exact(s: SelectorV, e: ExprV, scope: Scope)
    requires
        s.desig == Desig::Day,
        !e.has_week,
    ensures
        scope == Scope::Month ==> (spec_selector_warning(s, e, scope) is Some <==> forall|m: int, y: int|
            covered_months(e).contains(m) && covered_years(e).contains(y) ==> !#[trigger] matches_some(
                s,
                1,
                spec_days_in_month(y, m),
            )),
        scope == Scope::Year ==> (spec_selector_warning(s, e, scope) is Some <==> forall|y: int|
            covered_years(e).contains(y) ==> !#[trigger] matches_some(s, 1, spec_days_in_year(y))),
{
    let years = spec_enumerate_years(e.selectors);
    let ms = covered_months(e);
    let ys = covered_years(e);
    let sizes = spec_day_sizes(scope, value_set(e.selectors, Desig::Month, 12), value_set(e.selectors, Desig::Quarter, 4), years);
    if scope == Scope::Month {
        if fits_some(s, sizes) {
            let z = choose|z: int| sizes.contains(z) && #[trigger] matches_some(s, 1, z);
            let m = choose|m: int| ms.contains(m) && #[trigger] month_sizes(m, years).contains(z);
            if years is Some {
                let y = choose|y: int| ys.contains(y) && z == spec_days_in_month(y, m);
                assert(matches_some(s, 1, spec_days_in_month(y, m)));
            } else {
                assert(ys.contains(2000) && ys.contains(2001));
                if z == spec_days_in_month(2001, m) {
                    assert(matches_some(s, 1, spec_days_in_month(2001, m)));
                } else {
                    assert(matches_some(s, 1, spec_days_in_month(2000, m)));
                }
            }
        } else {
            assert forall|m: int, y: int| ms.contains(m) && ys.contains(y) implies !#[trigger] matches_some(
                s,
                1,
                spec_days_in_month(y, m),
            ) by {
                let z = spec_days_in_month(y, m);
                if years is None {
                    assert(y == 2000 || y == 2001);
                }
                assert(month_sizes(m, years).contains(z));
                assert(sizes.contains(z));
            }
        }
    }
    if scope == Scope::Year {
        if fits_some(s, sizes) {
            let z = choose|z: int| sizes.contains(z) && #[trigger] matches_some(s, 1, z);
            if years is Some {
                let y = choose|y: int| ys.contains(y) && z == spec_days_in_year(y);
                assert(matches_some(s, 1, spec_days_in_year(y)));
            } else {
                assert(spec_days_in_year(2001) == 365 && spec_days_in_year(2000) == 366);
                assert(ys.contains(2000) && ys.contains(2001));
                if z == 365 {
                    assert(matches_some(s, 1, spec_days_in_year(2001)));
                } else {
                    assert(matches_some(s, 1, spec_days_in_year(2000)));
                }
            }
        } else {
            assert forall|y: int| ys.contains(y) implies !#[trigger] matches_some(s, 1, spec_days_in_year(y)) by {
                let z = spec_days_in_year(y);
                if years is None {
                    assert(y == 2000 || y == 2001);
                    assert(spec_days_in_year(2001) == 365 && spec_days_in_year(2000) == 366);
                }
                assert(sizes.contains(z));
            }
        }
    }
}

/// The signed big-endian 64-bit integer the eight bytes at `p` hold.
pub open spec fn be_signed64(d: Seq<u8>, p: int) -> int {
    let u = d[p] * 72057594037927936 + d[p + 1] * 281474976710656 + d[p + 2] * 1099511627776 + d[p
        + 3] * 4294967296 + d[p + 4] * 16777216 + d[p + 5] * 65536 + d[p + 6] * 256 + d[p + 7];
    if d[p] >= 128 {
        u - 18446744073709551616
    } else {
        u
    }
}

/// Decoding a version 2 or 3 TZif buffer gives each transition its full
/// signed 64-bit time: transition `i` takes place at the big-endian `i64`
/// stored at byte `8 * i` of the second (64-bit) data block.
pub proof fn lemma_v2_transition_times(d: Seq<u8>)
    ensures
        spec_parse_tzif(d) matches Ok((ts, _)) ==> is_v2(d) ==> forall|i: int|
            0 <= i < ts.len() ==> #[trigger] ts[i].0 == be_signed64(d, spec_v1_body(d) + 44 + 8 * i),
{
    if let Ok((ts, _)) = spec_parse_tzif(d) {
        if is_v2(d) {
            assert forall|i: int| 0 <= i < ts.len() implies #[trigger] ts[i].0 == be_signed64(d, spec_v1_body(d) + 44 + 8 * i) by {
                let p = spec_v1_body(d) + 44 + 8 * i;
                let start = spec_v1_body(d) + 44;
                assert(ts[i].0 == time_at(d, start, 8, i));
                lemma_be_signed64(d, p);
            }
        }
    }
}

/// The 64-bit reading of the decoder is the signed big-endian value of the
/// eight bytes.
proof fn lemma_be_signed64(d: Seq<u8>, p: int)
    requires
        0 <= p,
        p + 8 <= d.len(),
    ensures
        spec_be_i64(d, p) == be_signed64(d, p),
        i64::MIN <= be_signed64(d, p) <= i64::MAX,
{
    let hi = spec_be_u32(d, p);
    let lo = spec_be_u32(d, p + 4);
    assert(0 <= lo < 4294967296);
    assert(d[p] * 16777216 <= hi < d[p] * 16777216 + 16777216);
}

/// An instant carries the offset of the last transition at or before it,
/// or the initial offset when no transition is: for a table split at `k`
/// (the transitions before `k` at or before the instant, the others after
/// it), the offset is the one transition `k - 1` set.
pub proof fn lemma_offset_of_last_transition(ts: Seq<(i64, i32)>, first: i32, instant_ms: int, k: int)
    requires
        0 <= k <= ts.len(),
        forall|i: int| 0 <= i < k ==> #[trigger] ts[i].0 * 1000 <= instant_ms,
        forall|i: int| k <= i < ts.len() ==> #[trigger] ts[i].0 * 1000 > instant_ms,
    ensures
        table_offset_at(ts, first, instant_ms) == if k == 0 {
            first as int
        } else {
            ts[k - 1].1 as int
        },
{
    let secs = instant_ms / 1000;
    vstd::arithmetic::div_mod::lemma_fundamental_div_mod(instant_ms, 1000);
    assert forall|i: int| 0 <= i < k implies #[trigger] ts[i].0 <= secs by {
        assert(ts[i].0 * 1000 <= instant_ms);
    }
    assert forall|i: int| k <= i < ts.len() implies #[trigger] ts[i].0 > secs by {
        assert(ts[i].0 * 1000 > instant_ms);
    }
    crate::tz::lemma_transitions_upto(ts, secs, k);
}

/// The unsigned big-endian 32-bit integer the four bytes at `p` hold.
pub open spec fn be_unsigned32(d: Seq<u8>, p: int) -> int {
    d[p] * 16777216 + d[p + 1] * 65536 + d[p + 2] * 256 + d[p + 3]
}

/// The signed big-endian 32-bit integer the four bytes at `p` hold.
pub open spec fn be_signed32(d: Seq<u8>, p: int) -> int {
    if d[p] >= 128 {
        be_unsigned32(d, p) - 4294967296
    } else {
        be_unsigned32(d, p)
    }
}

/// Where the header of the data block a TZif buffer is decoded from stands:
/// the first header for version 1; for versions 2 and 3 the second one,
/// right after the 32-bit block whose size the first header's counts give
/// (`isutcnt`, `isstdcnt`, `leapcnt`, `timecnt`, `typecnt`, `charcnt` at
/// bytes 20, 24, .., 40).
pub open spec fn tzif_block_header(d: Seq<u8>) -> int {
    if d[4] == 50 || d[4] == 51 {
        44 + 5 * be_unsigned32(d, 32) + 6 * be_unsigned32(d, 36) + be_unsigned32(d, 40) + 8 * be_unsigned32(d, 28)
            + be_unsigned32(d, 24) + be_unsigned32(d, 20)
    } else {
        0
    }
}

/// A decoded TZif buffer holds one transition per entry of the block's
/// `timecnt`: entry `i` takes place at the block's `i`-th time (a signed
/// 64-bit value in version 2 and 3 blocks, 32-bit in version 1) and carries
/// the UT offset, a signed 32-bit value, that opens the six-byte local time
/// type record its type index byte names.
pub proof fn lemma_tzif_layout(d: Seq<u8>)
    ensures
        spec_parse_tzif(d) matches Ok((ts, _)) ==> {
            let h = tzif_block_header(d);
            let w: int = if d[4] == 50 || d[4] == 51 { 8 } else { 4 };
            let n = be_unsigned32(d, h + 32);
            let start = h + 44;
            let types_at = start + n * w + n;
            &&& ts.len() == n
            &&& forall|i: int| 0 <= i < n ==> #[trigger] ts[i] == (
                (if w == 8 { be_signed64(d, start + 8 * i) } else { be_signed32(d, start + 4 * i) }) as i64,
                be_signed32(d, types_at + 6 * d[start + n * w + i]) as i32,
            )
        },
{
    if let Ok((ts, _)) = spec_parse_tzif(d) {
        let h = tzif_block_header(d);
        let w: int = if d[4] == 50 || d[4] == 51 { 8 } else { 4 };
        let c0 = counts_at(d, 0);
        lemma_u32_fits(d, 20);
        lemma_u32_fits(d, 24);
        lemma_u32_fits(d, 28);
        lemma_u32_fits(d, 32);
        lemma_u32_fits(d, 36);
        lemma_u32_fits(d, 40);
        if is_v2(d) {
            assert(spec_v1_body(d) == h);
        }
        let c = counts_at(d, h);
        lemma_u32_fits(d, h + 32);
        lemma_u32_fits(d, h + 36);
        let n = be_unsigned32(d, h + 32);
        assert(c.timecnt == n);
        let start = h + 44;
        let idx_at = start + n * w;
        let types_at = start + n * w + n;
        assert(types_start(start, w, c) == types_at);
        assert forall|i: int| 0 <= i < n implies #[trigger] ts[i] == (
            (if w == 8 { be_signed64(d, start + 8 * i) } else { be_signed32(d, start + 4 * i) }) as i64,
            be_signed32(d, types_at + 6 * d[start + n * w + i]) as i32,
        ) by {
            let k = type_index_at(d, idx_at, i) as int;
            assert(k < c.typecnt);
            assert(i * w <= n * w - w) by (nonlinear_arith)
                requires 0 <= i < n, w == 4 || w == 8;
            if w == 8 {
                lemma_be_signed64(d, start + 8 * i);
            } else {
                lemma_be_signed32(d, start + 4 * i);
            }
            assert(6 * k <= 6 * c.typecnt - 6);
            lemma_be_signed32(d, types_at + 6 * k);
        }
    }
}

/// A count read from four bytes fits any `usize`.
proof fn lemma_u32_fits(d: Seq<u8>, p: int)
    ensures
        0 <= be_unsigned32(d, p) < 4294967296,
        spec_be_u32(d, p) == be_unsigned32(d, p),
{
}

/// The 32-bit reading of the decoder is the signed big-endian value of the
/// four bytes.
proof fn lemma_be_signed32(d: Seq<u8>, p: int)
    ensures
        spec_be_i32(d, p) == be_signed32(d, p),
        i32::MIN <= be_signed32(d, p) <= i32::MAX,
{
    let u = be_unsigned32(d, p);
    assert(d[p] * 16777216 <= u < d[p] * 16777216 + 16777216);
}

/// The naive millisecond the date literal at `p` names by its digits:
/// `yyyymmdd` at midnight, or with `Thhmm[ss]` at that time of day.
pub open spec fn literal_ms(b: Seq<u8>, p: int) -> int {
    let y = dval(b, p) * 1000 + dval(b, p + 1) * 100 + dval(b, p + 2) * 10 + dval(b, p + 3);
    let days = spec_days_from_civil(y, two(b, p + 4), two(b, p + 6));
    let time = if at(b, p + 8) == Some(84u8) {
        two(b, p + 9) * 3_600_000 + two(b, p + 11) * 60_000 + if digit_run(b, p + 9) - (p + 9) == 6 {
            two(b, p + 13) * 1000
        } else {
            0
        }
    } else {
        0
    };
    days * 86_400_000 + time
}

/// Occurrence 0 of a cadence starts at its anchor, whatever the period.
proof fn lemma_first_occurrence(c: Cadence)
    requires
        on_clock(c.anchor),
        0 <= c.anchor.y <= 9999,
    ensures
        occurrence_start(c, 0) == c.anchor,
{
    let a = c.anchor;
    assert(0 * c.period_n == 0);
    let s = occurrence_start(c, 0);
    match c.period_unit {
        CadUnit::Day | CadUnit::Week => {
            crate::civil::lemma_civil_from_days_from_civil(a.y as int, a.mo as int, a.d as int);
        },
        CadUnit::Month => {
            lemma_add_months_exact(a, 0);
        },
        CadUnit::Year => {
            lemma_add_years_exact(a, 0);
        },
        CadUnit::Hour | CadUnit::Minute => {
            Naive::lemma_naive_round_trip(a);
        },
    }
}

/// A parsed date literal holds the values of its digits: a real date of
/// years 0..9999 and, after `T`, a time of day.
proof fn lemma_date_literal_fields(b: Seq<u8>, pos: int, date: DateLit, i: int)
    requires
        spec_parse_date(b, pos) == Ok::<(DateLit, int), (int, Seq<char>)>((date, i)),
    ensures
        date.y == dval(b, pos) * 1000 + dval(b, pos + 1) * 100 + dval(b, pos + 2) * 10 + dval(b, pos + 3),
        date.m == two(b, pos + 4),
        date.d == two(b, pos + 6),
        0 <= date.y <= 9999,
        valid_civil(date.y as int, date.m as int, date.d as int),
        (at(b, pos + 8) == Some(84u8)) == (date.time is Some),
        date.time matches Some(tp) ==> {
            &&& tp.h == two(b, pos + 9) && 0 <= tp.h <= 23
            &&& tp.mi == two(b, pos + 11) && 0 <= tp.mi <= 59
            &&& (digit_run(b, pos + 9) - (pos + 9) == 6) == (tp.s is Some)
            &&& tp.s matches Some(sv) ==> sv == two(b, pos + 13) && 0 <= sv <= 59
        },
{
    assert(digit_at(b, pos) && digit_at(b, pos + 1) && digit_at(b, pos + 2) && digit_at(b, pos + 3));
    assert(digit_at(b, pos + 4) && digit_at(b, pos + 5) && digit_at(b, pos + 6) && digit_at(b, pos + 7));
    let y = dval(b, pos) * 1000 + dval(b, pos + 1) * 100 + dval(b, pos + 2) * 10 + dval(b, pos + 3);
    assert(spec_valid_date(y, two(b, pos + 4), two(b, pos + 6)));
    if at(b, pos + 8) == Some(84u8) {
        lemma_digit_run(b, pos + 9);
        assert(digit_at(b, pos + 9) && digit_at(b, pos + 10) && digit_at(b, pos + 11) && digit_at(b, pos + 12));
        if digit_run(b, pos + 9) - (pos + 9) == 6 {
            assert(digit_at(b, pos + 13) && digit_at(b, pos + 14));
        }
    }
}

/// A cadence's occurrences start at the full date-time of its anchor
/// literal, time part included: for `yyyymmddThhmm[ss]/P/D`, occurrence 0
/// starts at yyyy-mm-dd hh:mm[:ss].
pub proof fn lemma_cadence_starts_at_literal(b: Seq<u8>, pos: int, i: int, e: ExprV, date: DateLit)
    requires
        spec_parse_date(b, pos) == Ok::<(DateLit, int), (int, Seq<char>)>((date, i)),
    ensures
        spec_parse_cadence(b, i, e, date, pos) matches Ok((e2, _)) ==> (e2.cadence matches Some(c)
            && occurrence_start(c, 0).spec_ordinal_ms() == literal_ms(b, pos)),
{
    if let Ok((e2, _)) = spec_parse_cadence(b, i, e, date, pos) {
        let c = e2.cadence->0;
        assert(c.anchor == date.spec_anchor());
        lemma_date_literal_fields(b, pos, date, i);
        assert(on_clock(c.anchor));
        lemma_first_occurrence(c);
    }
}

/// How much naive time a date literal at `p` spans: a day for `yyyymmdd`,
/// a minute with `Thhmm`, a second with `Thhmmss`.
pub open spec fn literal_precision(b: Seq<u8>, p: int) -> int {
    if at(b, p + 8) != Some(84u8) {
        86_400_000
    } else if digit_run(b, p + 9) - (p + 9) == 6 {
        1000
    } else {
        60_000
    }
}

/// A date literal denotes the naive span from the moment its digits name
/// to one step of its precision later: `20240301` the whole day,
/// `20240301T0930` the minute 09:30, `20240301T093015` one second.
pub proof fn lemma_date_literal_span(b: Seq<u8>, pos: int, date: DateLit, i: int)
    requires
        spec_parse_date(b, pos) == Ok::<(DateLit, int), (int, Seq<char>)>((date, i)),
    ensures
        date.spec_span_start() == literal_ms(b, pos),
        date.spec_span_end() == literal_ms(b, pos) + literal_precision(b, pos),
{
    lemma_date_literal_fields(b, pos, date, i);
}

/// A bounds component starts at the first moment of its start literal and
/// ends after the last moment of its end literal: `a:b` is
/// `[start of a, end of b)`, `a:*` is open after the start of `a`, and a
/// lone literal `a` is its own span.
pub proof fn lemma_bounds_from_literals(b: Seq<u8>, pos: int, i: int, e: ExprV, date: DateLit)
    requires
        spec_parse_date(b, pos) == Ok::<(DateLit, int), (int, Seq<char>)>((date, i)),
    ensures
        spec_finish_bounds(b, i, e, date, pos) matches Ok((e2, _)) ==> (e2.bounds matches Some(bd) && {
            &&& bd.start == Some(literal_ms(b, pos) as i64)
            &&& bd.end == if at(b, i) != Some(58u8) {
                Some((literal_ms(b, pos) + literal_precision(b, pos)) as i64)
            } else if at(b, i + 1) == Some(42u8) {
                None::<i64>
            } else {
                Some((literal_ms(b, i + 1) + literal_precision(b, i + 1)) as i64)
            }
        }),
{
    lemma_date_literal_span(b, pos, date, i);
    if at(b, i) == Some(58u8) && at(b, i + 1) != Some(42u8) {
        if let Ok((end, k)) = spec_parse_date(b, i + 1) {
            lemma_date_literal_span(b, i + 1, end, k);
        }
    }
}

/// A weekday ordinal covers the days of that weekday that fall in its week
/// of the parent (month, quarter or year): `#n` the `n`-th seven days from
/// the start, `#-n` the `n`-th seven days back from the end (`E1#2` is a
/// Monday on days 8..14, `E7#-1` a Sunday among the last seven days).
pub proof fn lemma_ordinal_weeks(wd: i64, ord: i64, f: Fields)
    requires
        fields_ok(f),
        ord != 0,
    ensures
        ord > 0 ==> (spec_ordinal_covers(wd, ord, f, Scope::Month) <==> f.weekday == wd && 7 * (ord - 1)
            < f.dom <= 7 * ord),
        ord > 0 ==> (spec_ordinal_covers(wd, ord, f, Scope::Quarter) <==> f.weekday == wd && 7 * (ord - 1)
            < f.doq <= 7 * ord),
        ord > 0 ==> (spec_ordinal_covers(wd, ord, f, Scope::Year) <==> f.weekday == wd && 7 * (ord - 1)
            < f.doy <= 7 * ord),
        ord < 0 ==> (spec_ordinal_covers(wd, ord, f, Scope::Month) <==> f.weekday == wd && 7 * (-ord - 1)
            <= spec_days_in_month(f.year_cal as int, f.month as int) - f.dom < 7 * (-ord)),
        ord < 0 ==> (spec_ordinal_covers(wd, ord, f, Scope::Quarter) <==> f.weekday == wd && 7 * (-ord - 1)
            <= spec_days_in_quarter(f.year_cal as int, f.quarter as int) - f.doq < 7 * (-ord)),
        ord < 0 ==> (spec_ordinal_covers(wd, ord, f, Scope::Year) <==> f.weekday == wd && 7 * (-ord - 1)
            <= spec_days_in_year(f.year_cal as int) - f.doy < 7 * (-ord)),
{
    lemma_week_slot(f.dom - 1, ord as int);
    lemma_week_slot(f.doq - 1, ord as int);
    lemma_week_slot(f.doy - 1, ord as int);
    lemma_week_slot(spec_days_in_month(f.year_cal as int, f.month as int) - f.dom, -ord);
    lemma_week_slot(spec_days_in_quarter(f.year_cal as int, f.quarter as int) - f.doq, -ord);
    lemma_week_slot(spec_days_in_year(f.year_cal as int) - f.doy, -ord);
}

/// The `n`-th block of seven (from 1) is the one `x / 7 + 1` names.
proof fn lemma_week_slot(x: int, n: int)
    requires
        x >= 0,
    ensures
        (x / 7 + 1 == n) <==> (7 * (n - 1) <= x < 7 * n),
{
    vstd::arithmetic::div_mod::lemma_fundamental_div_mod(x, 7);
}

/// The calendar fields of a local moment name it exactly: its date is the
/// day the moment falls on, counted from 1970-01-01; hour, minute and second
/// are its time of day, short of at most the leftover milliseconds; the day
/// of year and of quarter count from the year's and the quarter's first day;
/// the weekday runs 1 (Monday) to 7 (Sunday), 1970-01-01 being a Thursday;
/// the ISO week is the one of its week-year that holds the day.
pub proof fn lemma_fields_name_the_moment(local_ms: int)
    requires
        i64::MIN <= local_ms <= i64::MAX,
    ensures
        ({
            let f = spec_fields(local_ms);
            let z = spec_days_from_civil(f.year_cal as int, f.month as int, f.dom as int);
            &&& valid_civil(f.year_cal as int, f.month as int, f.dom as int)
            &&& f.tod_ms == local_ms - z * 86_400_000
            &&& 0 <= f.tod_ms < 86_400_000
            &&& 0 <= f.tod_ms - (f.hour * 3_600_000 + f.minute * 60_000 + f.second * 1000) < 1000
            &&& f.doy == z - spec_days_from_civil(f.year_cal as int, 1, 1) + 1
            &&& f.quarter == (f.month - 1) / 3 + 1
            &&& f.doq == z - spec_days_from_civil(f.year_cal as int, 3 * (f.quarter - 1) + 1, 1) + 1
            &&& f.weekday == (z + 3) % 7 + 1
            &&& week_one_monday(f.week_year as int) + 7 * (f.week - 1) <= z < week_one_monday(
                f.week_year as int,
            ) + 7 * f.week
        }),
{
    reveal(spec_fields);
    lemma_fields_ok(local_ms);
    let days = local_ms / 86_400_000;
    let tod = local_ms % 86_400_000;
    lemma_days_from_civil_from_days(days);
    lemma_civil_from_days_valid(days);
    let c = spec_civil_from_days(days);
    lemma_iso_week_counts_mondays(c.0, c.1, c.2);
    vstd::arithmetic::div_mod::lemma_fundamental_div_mod(local_ms, 86_400_000);
    let f = spec_fields(local_ms);
    assert(f.hour == tod / 3_600_000);
    assert(f.minute == (tod % 3_600_000) / 60_000);
    assert(f.second == (tod % 60_000) / 1000);
    vstd::arithmetic::div_mod::lemma_fundamental_div_mod(tod, 3_600_000);
    vstd::arithmetic::div_mod::lemma_fundamental_div_mod(tod % 3_600_000, 60_000);
    vstd::arithmetic::div_mod::lemma_mod_mod(tod, 60_000, 60);
    vstd::arithmetic::div_mod::lemma_fundamental_div_mod(tod % 60_000, 1000);
}

/// The day number of the Monday that starts ISO week 1 of `y`: the Monday
/// on or before January 4.
pub open spec fn week_one_monday(y: int) -> int {
    let j4 = spec_days_from_civil(y, 1, 4);
    j4 - (spec_iso_weekday(j4) - 1)
}

/// January 1 of `y + 1` in closed form: `365 y` days plus the leap days of
/// years `1..=y`, from a fixed origin.
proof fn lemma_jan1_closed(y: int)
    ensures
        year_first_day(y + 1) == 365 * y + y / 4 - y / 100 + y / 400 - 719162,
{
    let e = y / 400;
    let r = y % 400;
    vstd::arithmetic::div_mod::lemma_fundamental_div_mod(y, 400);
    vstd::arithmetic::div_mod::lemma_fundamental_div_mod(r, 4);
    vstd::arithmetic::div_mod::lemma_fundamental_div_mod(r, 100);
    assert(y / 4 == 100 * e + r / 4) by {
        vstd::arithmetic::div_mod::lemma_fundamental_div_mod_converse(y, 4, 100 * e + r / 4, r % 4);
    }
    assert(y / 100 == 4 * e + r / 100) by {
        vstd::arithmetic::div_mod::lemma_fundamental_div_mod_converse(y, 100, 4 * e + r / 100, r % 100);
    }
    assert(trunc_div(1532int, 5int) == 306);
}

/// The weekday of January 1 of `y + 1` is one past the year marker of `y`
/// (the marker is the weekday of December 31, Sunday counted as 0).
proof fn lemma_jan1_weekday(y: int)
    ensures
        (year_first_day(y + 1) + 3) % 7 == iso_year_marker(y),
{
    lemma_jan1_closed(y);
    let p = y + y / 4 - y / 100 + y / 400;
    assert(year_first_day(y + 1) + 3 == p + 7 * (52 * y - 102737));
    vstd::arithmetic::div_mod::lemma_mod_multiples_vanish(52 * y - 102737, p, 7);
}

/// An ISO year has as many weeks as lie between its week-1 Monday and the
/// next year's: 53 when it starts on a Thursday or is a leap year starting
/// on a Wednesday, else 52.
pub proof fn lemma_weeks_in_iso_year(y: int)
    ensures
        7 * spec_weeks_in_iso_year(y) == week_one_monday(y + 1) - week_one_monday(y),
        52 <= spec_weeks_in_iso_year(y) <= 53,
        spec_weeks_in_iso_year(y) == 53 <==> (spec_iso_weekday(year_first_day(y)) == 4 || (spec_is_leap(y)
            && spec_iso_weekday(year_first_day(y)) == 3)),
{
    let j1 = year_first_day(y);
    let j2 = year_first_day(y + 1);
    lemma_year_step(y);
    lemma_jan1_weekday(y);
    lemma_jan1_weekday(y - 1);
    assert(spec_days_from_civil(y, 1, 4) == j1 + 3);
    assert(spec_days_from_civil(y + 1, 1, 4) == j2 + 3);
    let q = (j1 + 3) % 7;
    let q2 = (j2 + 3) % 7;
    vstd::arithmetic::div_mod::lemma_fundamental_div_mod(j1 + 3, 7);
    vstd::arithmetic::div_mod::lemma_fundamental_div_mod(j2 + 3, 7);
    let k = (j1 + 3) / 7;
    let k2 = (j2 + 3) / 7;
    if q <= 3 {
        assert((j1 + 6) % 7 == q + 3) by {
            vstd::arithmetic::div_mod::lemma_fundamental_div_mod_converse(j1 + 6, 7, k, q + 3);
        }
    } else {
        assert((j1 + 6) % 7 == q - 4) by {
            vstd::arithmetic::div_mod::lemma_fundamental_div_mod_converse(j1 + 6, 7, k + 1, q - 4);
        }
    }
    if q2 <= 3 {
        assert((j2 + 6) % 7 == q2 + 3) by {
            vstd::arithmetic::div_mod::lemma_fundamental_div_mod_converse(j2 + 6, 7, k2, q2 + 3);
        }
    } else {
        assert((j2 + 6) % 7 == q2 - 4) by {
            vstd::arithmetic::div_mod::lemma_fundamental_div_mod_converse(j2 + 6, 7, k2 + 1, q2 - 4);
        }
    }
    let n = spec_days_in_year(y) - 364;
    assert(j2 + 3 == 7 * (k + 52) + q + n);
    if q + n < 7 {
        assert(q2 == q + n) by {
            vstd::arithmetic::div_mod::lemma_fundamental_div_mod_converse(j2 + 3, 7, k + 52, q + n);
        }
    } else {
        assert(q2 == q + n - 7) by {
            vstd::arithmetic::div_mod::lemma_fundamental_div_mod_converse(j2 + 3, 7, k + 53, q + n - 7);
        }
    }
}

/// The ISO week of a date is the week, counted from 1 at its week-year's
/// week-1 Monday, that holds the date's day, and is one of that year's
/// weeks: January 1 2021 (a Friday) is in week 53 of 2020, December 30 2024
/// (a Monday) in week 1 of 2025.
pub proof fn lemma_iso_week_counts_mondays(y: int, m: int, d: int)
    requires
        valid_civil(y, m, d),
    ensures
        ({
            let (wy, w) = spec_iso_week(y, m, d);
            let z = spec_days_from_civil(y, m, d);
            &&& 1 <= w <= spec_weeks_in_iso_year(wy)
            &&& week_one_monday(wy) + 7 * (w - 1) <= z < week_one_monday(wy) + 7 * w
            &&& y - 1 <= wy <= y + 1
        }),
{
    let z = spec_days_from_civil(y, m, d);
    let j1 = year_first_day(y);
    lemma_date_bounds(y, m, d);
    lemma_year_step(y);
    lemma_weeks_in_iso_year(y);
    lemma_weeks_in_iso_year(y - 1);
    assert(spec_days_from_civil(y, 1, 4) == j1 + 3);
    let r = (z + 3) % 7;
    let kk = (z + 3) / 7;
    vstd::arithmetic::div_mod::lemma_fundamental_div_mod(z + 3, 7);
    let s = (j1 + 6) % 7;
    let l = (j1 + 6) / 7;
    vstd::arithmetic::div_mod::lemma_fundamental_div_mod(j1 + 6, 7);
    let doy = z - j1 + 1;
    let x = doy - (r + 1) + 10;
    assert(x == 7 * (kk - l) + 13 - s);
    assert(x / 7 == kk - l + 1) by {
        vstd::arithmetic::div_mod::lemma_fundamental_div_mod_converse(x, 7, kk - l + 1, 6 - s);
    }
    let t = z - week_one_monday(y);
    assert(t == 7 * (kk - l) + r);
    assert(x >= 0);
}

/// A value-list item selects what its written values say: `v` the value
/// `v`, a negative `v` the `-v`-th value from the domain's top (`D-1` the
/// last day); a range `a:b` of non-negative values `a..=b` when `a <= b`,
/// else it wraps past the top (`M11:2` is November to February); a range
/// with a negative end runs between the resolved values and never wraps
/// (`D-7:-1` the last seven days); `*:b` runs from the bottom, `a:*` to the
/// top, and `*` takes everything.
pub proof fn lemma_item_selects(r: Raw, minv: int, maxv: int, field: int)
    ensures
        r matches Raw::Value(v) ==> (spec_atom_match(raw_atom(r), minv, maxv, field) == (field == if v < 0 {
            maxv + 1 + v
        } else {
            v as int
        })),
        r matches Raw::Range { start: Endpoint::Value(a), end: Endpoint::Value(b) } ==> (0 <= a && 0 <= b)
            ==> (spec_atom_match(raw_atom(r), minv, maxv, field) == if a <= b {
            a <= field <= b
        } else {
            field >= a || field <= b
        }),
        r matches Raw::Range { start: Endpoint::Value(a), end: Endpoint::Value(b) } ==> (a < 0 || b < 0)
            ==> (spec_atom_match(raw_atom(r), minv, maxv, field) == ((if a < 0 {
            maxv + 1 + a
        } else {
            a as int
        }) <= field <= (if b < 0 {
            maxv + 1 + b
        } else {
            b as int
        }))),
        r matches Raw::Range { start: Endpoint::Star, end: Endpoint::Value(b) } ==> 0 <= b ==> (
        spec_atom_match(raw_atom(r), minv, maxv, field) == (minv <= field <= b)),
        r matches Raw::Range { start: Endpoint::Value(a), end: Endpoint::Star } ==> 0 <= a ==> (
        spec_atom_match(raw_atom(r), minv, maxv, field) == (a <= field <= maxv)),
        r is Star ==> spec_atom_match(raw_atom(r), minv, maxv, field),
{
}

/// The last day of the month `(y, m)` caps a day of the month.
pub open spec fn capped_day(d: int, y: int, m: int) -> int {
    if d <= spec_days_in_month(y, m) {
        d
    } else {
        spec_days_in_month(y, m)
    }
}

/// Occurrence `k` of a cadence every `P` units starts `k * P` units after
/// its anchor: months and years keep the anchor's time of day and its day of
/// the month where that month has it, else take the month's last day
/// (January 31 plus one month is February 28 or 29); days and weeks move by
/// whole days of naive time, hours and minutes by exact spans. Taken for
/// occurrences up to two billion units from the anchor.
pub proof fn lemma_occurrence_starts(c: Cadence, k: int)
    requires
        cadence_ok(c),
        0 <= k,
        k * c.period_n <= 2_000_000_000,
    ensures
        ({
            let a = c.anchor;
            let s = occurrence_start(c, k);
            let n = k * c.period_n;
            let same_time = s.h == a.h && s.mi == a.mi && s.s == a.s && s.ms == a.ms;
            match c.period_unit {
                CadUnit::Month => s.y * 12 + s.mo == a.y * 12 + a.mo + n && 1 <= s.mo <= 12 && s.d
                    == capped_day(a.d as int, s.y as int, s.mo as int) && same_time,
                CadUnit::Year => s.y == a.y + n && s.mo == a.mo && s.d == capped_day(
                    a.d as int,
                    s.y as int,
                    s.mo as int,
                ) && same_time,
                CadUnit::Week => s.spec_ordinal_ms() == a.spec_ordinal_ms() + n * 7 * 86_400_000
                    && same_time,
                CadUnit::Day => s.spec_ordinal_ms() == a.spec_ordinal_ms() + n * 86_400_000 && same_time,
                CadUnit::Hour => s.spec_ordinal_ms() == a.spec_ordinal_ms() + n * 3_600_000,
                CadUnit::Minute => s.spec_ordinal_ms() == a.spec_ordinal_ms() + n * 60_000,
            }
        }),
{
    let a = c.anchor;
    let n = k * c.period_n;
    lemma_anchor_facts(c);
    assert(0 <= n);
    match c.period_unit {
        CadUnit::Month => {
            lemma_add_months_exact(a, n);
        },
        CadUnit::Year => {
            lemma_add_years_exact(a, n);
        },
        CadUnit::Week => {
            lemma_add_days_exact(a, n * 7);
        },
        CadUnit::Day => {
            lemma_add_days_exact(a, n);
        },
        CadUnit::Hour => {
            Naive::lemma_ordinal_round_trip(a.spec_ordinal_ms() + n * 3_600_000);
        },
        CadUnit::Minute => {
            Naive::lemma_ordinal_round_trip(a.spec_ordinal_ms() + n * 60_000);
        },
    }
}

/// Validation bounds each designator's values by exactly the domain the
/// evaluator meets: the same lower edge, and as upper edge the largest one
/// any day reaches (31 days of a month, 92 of a quarter, 366 of a year, 53
/// ISO weeks, 24 hours, 60 minutes and seconds), every field of a real day
/// lying within its domain.
pub proof fn lemma_validation_domains(desig: Desig, scope: Scope, f: Fields, has_week: bool)
    requires
        desig != Desig::Year,
        fields_ok(f),
    ensures
        ({
            let (zero_based, minv, maxv, size) = spec_domain_info(desig, scope);
            let (emin, emax, field) = spec_domain_and_field(desig, f, scope, has_week);
            &&& size == maxv - minv + 1
            &&& zero_based == (minv == 0)
            &&& emin == minv && emax <= maxv
            &&& emin <= field <= emax
            &&& exists|g: Fields| #[trigger] fields_ok(g) && spec_domain_and_field(desig, g, scope, has_week).1 == maxv
        }),
{
    let maxv = spec_domain_info(desig, scope).2;
    let g = Fields {
        local_ms: 0,
        year_cal: 2020,
        week_year: 2020,
        week: 1,
        quarter: 3,
        month: 7,
        dom: 1,
        doy: 1,
        doq: 1,
        weekday: 1,
        tod_ms: 0,
        hour: 0,
        minute: 0,
        second: 0,
    };
    assert(spec_is_leap(2020));
    assert(iso_year_marker(2020) == 4);
    assert(spec_weeks_in_iso_year(2020) == 53);
    assert(trunc_div(6, 3) == 2);
    assert(fields_ok(g));
    assert(spec_domain_and_field(desig, g, scope, has_week).1 == maxv);
    if desig == Desig::Day && scope == Scope::Quarter {
        assert(1 <= f.quarter <= 4);
        assert(spec_days_in_quarter(f.year_cal as int, f.quarter as int) <= 92);
    }
}

/// In a parsed branch the year selector tests the ISO week-year when the
/// branch has a week selector (`Y2020 W53`) and the calendar year otherwise.
pub proof fn lemma_year_field(e: ExprV, f: Fields, scope: Scope)
    requires
        parsed_ok(e),
    ensures
        spec_domain_and_field(Desig::Year, f, scope, e.has_week).2 == if has_desig(e.selectors, Desig::Week) {
            f.week_year as int
        } else {
            f.year_cal as int
        },
{
}

/// Occurrence `k` of a cadence ends its duration after its own start: a
/// fixed span for days, weeks, hours and minutes; for months and years the
/// same time of day that many months or years on, on the start's day of
/// the month or the last day of a shorter month. Taken for occurrences up
/// to a hundred million units from the anchor.
pub proof fn lemma_occurrence_window(c: Cadence, k: int)
    requires
        cadence_ok(c),
        0 <= k,
        k * c.period_n <= 100_000_000,
    ensures
        ({
            let s = occurrence_start(c, k);
            let dn = c.duration_n as int;
            let time = s.h * 3_600_000 + s.mi * 60_000 + s.s * 1000 + s.ms;
            let t = s.y * 12 + s.mo - 1 + dn;
            match c.duration_unit {
                CadUnit::Month => occurrence_end(c, k) == spec_days_from_civil(
                    t / 12,
                    t % 12 + 1,
                    capped_day(s.d as int, t / 12, t % 12 + 1),
                ) * 86_400_000 + time,
                CadUnit::Year => occurrence_end(c, k) == spec_days_from_civil(
                    s.y + dn,
                    s.mo as int,
                    capped_day(s.d as int, s.y + dn, s.mo as int),
                ) * 86_400_000 + time,
                _ => occurrence_end(c, k) == s.spec_ordinal_ms() + fixed_span(dn, c.duration_unit),
            }
        }),
{
    let a = c.anchor;
    let n = k * c.period_n;
    let s = occurrence_start(c, k);
    let dn = c.duration_n as int;
    lemma_anchor_facts(c);
    lemma_occurrence_starts(c, k);
    match c.period_unit {
        CadUnit::Month => {
            lemma_add_months_exact(a, n);
        },
        CadUnit::Year => {
            lemma_add_years_exact(a, n);
        },
        CadUnit::Week => {
            lemma_add_days_exact(a, n * 7);
        },
        CadUnit::Day => {
            lemma_add_days_exact(a, n);
        },
        CadUnit::Hour => {
            Naive::lemma_ordinal_round_trip(a.spec_ordinal_ms() + n * 3_600_000);
        },
        CadUnit::Minute => {
            Naive::lemma_ordinal_round_trip(a.spec_ordinal_ms() + n * 60_000);
        },
    }
    assert(on_clock(s));
    if c.period_unit.spec_is_month_or_year() {
        assert(0 <= s.y <= 100_010_000);
        lemma_days_from_civil_bound(s.y as int, s.mo as int, s.d as int);
    }
    assert(-MAX_LOCAL_MS <= s.spec_ordinal_ms() <= MAX_LOCAL_MS);
    match c.duration_unit {
        CadUnit::Month => {
            lemma_add_months_exact(s, dn);
        },
        CadUnit::Year => {
            lemma_add_years_exact(s, dn);
        },
        _ => {
            lemma_window_end_fixed(s, dn, c.duration_unit);
        },
    }
}

/// A stride `a/n/d` (`a/n` keeping one value per step) covers, from `a`
/// up to its end (the domain's top unless a range gives one), the first `d`
/// values of every step of `n`: `H8:18/2` covers 8, 10, .., 18, `m0/15/5`
/// the minutes 0-4, 15-19, 30-34 and 45-49.
pub proof fn lemma_stride_steps(start: i64, end: Endpoint, interval: i64, duration: i64, minv: int, maxv: int, field: int)
    requires
        interval >= 1,
        duration >= 1,
    ensures
        spec_atom_match(Atom::Stride { start, end, interval, duration }, minv, maxv, field) == (start <= field
            <= (match end {
            Endpoint::Star => maxv,
            Endpoint::Value(v) => if v < 0 {
                maxv + 1 + v
            } else {
                v as int
            },
        }) && exists|j: int| 0 <= j && #[trigger] (start + j * interval) <= field < start + j * interval + duration),
{
    let x = field - start;
    if x >= 0 {
        vstd::arithmetic::div_mod::lemma_fundamental_div_mod(x, interval as int);
        vstd::arithmetic::div_mod::lemma_mod_pos_bound(x, interval as int);
        let j0 = x / (interval as int);
        assert(j0 >= 0) by {
            vstd::arithmetic::div_mod::lemma_div_pos_is_pos(x, interval as int);
        }
        assert(start + j0 * interval + x % (interval as int) == field);
        if x % (interval as int) < duration {
            assert(0 <= j0 && (start + j0 * interval) <= field < start + j0 * interval + duration);
        }
        if exists|j: int| 0 <= j && #[trigger] (start + j * interval) <= field < start + j * interval + duration {
            let j = choose|j: int| 0 <= j && #[trigger] (start + j * interval) <= field < start + j * interval + duration;
            let r = field - (start + j * interval);
            if r < interval {
                vstd::arithmetic::div_mod::lemma_fundamental_div_mod_converse(x, interval as int, j, r);
            } else {
                assert(r >= interval);
                assert(duration > interval);
            }
        }
    }
}

/// The lengths the duration rule weighs cadence units by are the
/// calendar's: a month is 28 to 31 days and a year 365 or 366, each extreme
/// reached (February and January 2001, the years 2001 and 2000); weeks,
/// days, hours and minutes have one length.
pub proof fn lemma_unit_lengths(y: int, m: int)
    requires
        1 <= m <= 12,
    ensures
        spec_cad_lengths(CadUnit::Month).1 <= spec_days_in_month(y, m) * 86_400 <= spec_cad_lengths(CadUnit::Month).0,
        spec_cad_lengths(CadUnit::Month).1 == spec_days_in_month(2001, 2) * 86_400,
        spec_cad_lengths(CadUnit::Month).0 == spec_days_in_month(2001, 1) * 86_400,
        spec_cad_lengths(CadUnit::Year).1 <= spec_days_in_year(y) * 86_400 <= spec_cad_lengths(CadUnit::Year).0,
        spec_cad_lengths(CadUnit::Year).1 == spec_days_in_year(2001) * 86_400,
        spec_cad_lengths(CadUnit::Year).0 == spec_days_in_year(2000) * 86_400,
        spec_cad_lengths(CadUnit::Week) == (7 * 86_400int, 7 * 86_400int),
        spec_cad_lengths(CadUnit::Day) == (86_400int, 86_400int),
        spec_cad_lengths(CadUnit::Hour) == (3_600int, 3_600int),
        spec_cad_lengths(CadUnit::Minute) == (60int, 60int),
{
}

/// The windows of a cadence with a fixed period (days, weeks, hours or
/// minutes) never overlap: each occurrence ends no later than the next one
/// starts, the duration being shorter than the period.
pub proof fn lemma_fixed_windows_apart(c: Cadence, k: int)
    requires
        cadence_ok(c),
        !c.period_unit.spec_is_month_or_year(),
        0 <= k,
        (k + 1) * c.period_n <= 100_000_000,
    ensures
        occurrence_end(c, k) <= occurrence_start(c, k + 1).spec_ordinal_ms(),
{
    assert(k * c.period_n <= (k + 1) * c.period_n) by (nonlinear_arith)
        requires
            c.period_n >= 1,
            k >= 0,
    ;
    assert((k + 1) * c.period_n == k * c.period_n + c.period_n) by (nonlinear_arith);
    lemma_occurrence_window(c, k);
    lemma_occurrence_starts(c, k);
    lemma_occurrence_starts(c, k + 1);
    assert(!c.duration_unit.spec_is_month_or_year());
    lemma_fixed_span_lt(c.duration_n as int, c.duration_unit, c.period_n as int, c.period_unit);
}

/// `!` exclusion covers exactly what the same value list without it does
/// not (`M!7` is every month but July).
pub proof fn lemma_exclusion_complements(s: SelectorV, f: Fields, scope: Scope, has_week: bool)
    requires
        s.ordinal is None,
    ensures
        spec_selector_covers(SelectorV { exclude: !s.exclude, ..s }, f, scope, has_week) == !spec_selector_covers(s, f, scope, has_week),
{
}

/// Weekdays repeat every seven days and run from 1 (Monday) to 7 (Sunday);
/// day 0, 1970-01-01, is a Thursday.
pub proof fn lemma_weekday_period(days: int)
    ensures
        spec_iso_weekday(days + 7) == spec_iso_weekday(days),
        1 <= spec_iso_weekday(days) <= 7,
        spec_iso_weekday(0) == 4,
{
}

/// The designators whose domain is the same at every instant.
pub open spec fn fixed_domain(d: Desig) -> bool {
    d == Desig::Quarter || d == Desig::Month || d == Desig::Weekday || d == Desig::Hour || d
        == Desig::Minute || d == Desig::Second
}

/// The unsatisfiability warning on a fixed-domain selector is sound: a
/// selector that takes no value of its domain covers no instant.
pub proof fn lemma_fixed_warning_sound(s: SelectorV, local_ms: int, scope: Scope, has_week: bool)
    requires
        fixed_domain(s.desig),
        s.ordinal is None,
        !matches_some(s, spec_domain_info(s.desig, Scope::Month).1, spec_domain_info(s.desig, Scope::Month).2),
        i64::MIN <= local_ms <= i64::MAX,
    ensures
        !spec_selector_covers(s, spec_fields(local_ms), scope, has_week),
{
    let f = spec_fields(local_ms);
    lemma_fields_ok(local_ms);
    let (minv, maxv, field) = spec_domain_and_field(s.desig, f, scope, has_week);
    assert(minv == spec_domain_info(s.desig, Scope::Month).1);
    assert(maxv == spec_domain_info(s.desig, Scope::Month).2);
    assert(minv <= field <= maxv);
    assert(!sel_hit(s, minv, maxv, field));
}


/// Ordinals stand only on weekday selectors, as the parser and validation
/// leave them.
pub open spec fn ordinals_on_weekdays(e: ExprV) -> bool {
    forall|j: int| 0 <= j < e.selectors.len() ==> (#[trigger] e.selectors[j]).ordinal is Some ==> e.selectors[j].desig
        == Desig::Weekday
}

/// A covered instant is covered by every selector of the branch.
proof fn lemma_selector_of_cover(e: ExprV, j: int, instant_ms: int, off: int, ai: int)
    requires
        spec_expr_covers(e, instant_ms, off, ai),
        0 <= j < e.selectors.len(),
    ensures
        spec_selector_covers(e.selectors[j], spec_fields(instant_ms + off * 1000), spec_scope_of(e.selectors), e.has_week),
{
}

/// The year a covering instant shows lies in the years an enumerable year
/// selector lists.
proof fn lemma_year_in_enumeration(e: ExprV, instant_ms: int, off: int, ai: int)
    requires
        spec_expr_covers(e, instant_ms, off, ai),
        ordinals_on_weekdays(e),
        spec_enumerate_years(e.selectors) is Some,
        i64::MIN <= instant_ms + off * 1000 <= i64::MAX,
        -2_147_483_648 <= off <= 2_147_483_647,
    ensures
        ({
            let f = spec_fields(instant_ms + off * 1000);
            spec_enumerate_years(e.selectors)->0.contains(if e.has_week { f.week_year as int } else { f.year_cal as int })
        }),
{
    let local = instant_ms + off * 1000;
    let f = spec_fields(local);
    lemma_fields_ok(local);
    lemma_first_desig(e.selectors, Desig::Year, 0);
    let k = first_desig(e.selectors, Desig::Year, 0)->0;
    let s = e.selectors[k];
    lemma_selector_of_cover(e, k, instant_ms, off, ai);
    let y = if e.has_week { f.week_year as int } else { f.year_cal as int };
    let (minv, maxv, field) = spec_domain_and_field(Desig::Year, f, spec_scope_of(e.selectors), e.has_week);
    assert(field == y);
    assert(atoms_hit(s.atoms, minv, maxv, y));
    let a = choose|a: int| 0 <= a < s.atoms.len() && spec_atom_match(#[trigger] s.atoms[a], minv, maxv, y);
    assert(year_enumerable(s.atoms[a]));
    assert(year_atom_holds(s.atoms[a], y));
    assert(years_of(s).contains(y));
}

/// The week warning is sound: a branch whose week selector takes no week
/// in any week-year its year selector allows covers no instant.
pub proof fn lemma_week_warning_sound(e: ExprV, i: int, instant_ms: int, off: i32, ai: int)
    requires
        0 <= i < e.selectors.len(),
        e.selectors[i].desig == Desig::Week,
        e.has_week,
        ordinals_on_weekdays(e),
        !fits_some(e.selectors[i], week_counts(spec_enumerate_years(e.selectors))),
        i64::MIN <= instant_ms + off * 1000 <= i64::MAX,
    ensures
        !spec_expr_covers(e, instant_ms, off as int, ai),
{
    if spec_expr_covers(e, instant_ms, off as int, ai) {
        let local = instant_ms + off * 1000;
        let f = spec_fields(local);
        lemma_fields_ok(local);
        let s = e.selectors[i];
        lemma_selector_of_cover(e, i, instant_ms, off as int, ai);
        let z = spec_weeks_in_iso_year(f.week_year as int);
        assert(sel_hit(s, 1, z, f.week as int));
        assert(matches_some(s, 1, z));
        if spec_enumerate_years(e.selectors) is Some {
            lemma_year_in_enumeration(e, instant_ms, off as int, ai);
        }
        assert(week_counts(spec_enumerate_years(e.selectors)).contains(z));
        assert(fits_some(s, week_counts(spec_enumerate_years(e.selectors))));
    }
}

/// The month of a covering instant lies among the months the branch's month
/// selector takes (all months, without one).
proof fn lemma_month_in_selection(e: ExprV, instant_ms: int, off: int, ai: int)
    requires
        spec_expr_covers(e, instant_ms, off, ai),
        ordinals_on_weekdays(e),
        i64::MIN <= instant_ms + off * 1000 <= i64::MAX,
        -2_147_483_648 <= off <= 2_147_483_647,
    ensures
        ({
            let f = spec_fields(instant_ms + off * 1000);
            &&& value_set(e.selectors, Desig::Month, 12) matches Some(ms) ==> ms.contains(f.month as int)
            &&& value_set(e.selectors, Desig::Quarter, 4) matches Some(qs) ==> qs.contains(f.quarter as int)
        }),
{
    let local = instant_ms + off * 1000;
    let f = spec_fields(local);
    lemma_fields_ok(local);
    lemma_first_desig(e.selectors, Desig::Month, 0);
    lemma_first_desig(e.selectors, Desig::Quarter, 0);
    if let Some(k) = first_desig(e.selectors, Desig::Month, 0) {
        lemma_selector_of_cover(e, k, instant_ms, off, ai);
        assert(sel_hit(e.selectors[k], 1, 12, f.month as int));
        assert(matched_set(e.selectors[k], 1, 12).contains(f.month as int));
    }
    if let Some(k) = first_desig(e.selectors, Desig::Quarter, 0) {
        lemma_selector_of_cover(e, k, instant_ms, off, ai);
        assert(sel_hit(e.selectors[k], 1, 4, f.quarter as int));
        assert(matched_set(e.selectors[k], 1, 4).contains(f.quarter as int));
    }
}

/// The day warning is sound: a branch whose day selector takes no day of any
/// month, quarter or year its other selectors allow covers no instant.
pub proof fn lemma_day_warning_sound(e: ExprV, i: int, instant_ms: int, off: i32, ai: int)
    requires
        0 <= i < e.selectors.len(),
        e.selectors[i].desig == Desig::Day,
        ordinals_on_weekdays(e),
        !fits_some(
            e.selectors[i],
            spec_day_sizes(
                spec_scope_of(e.selectors),
                value_set(e.selectors, Desig::Month, 12),
                value_set(e.selectors, Desig::Quarter, 4),
                if e.has_week { None } else { spec_enumerate_years(e.selectors) },
            ),
        ),
        i64::MIN <= instant_ms + off * 1000 <= i64::MAX,
    ensures
        !spec_expr_covers(e, instant_ms, off as int, ai),
{
    if spec_expr_covers(e, instant_ms, off as int, ai) {
        let local = instant_ms + off * 1000;
        let f = spec_fields(local);
        lemma_fields_ok(local);
        let s = e.selectors[i];
        let scope = spec_scope_of(e.selectors);
        lemma_selector_of_cover(e, i, instant_ms, off as int, ai);
        lemma_month_in_selection(e, instant_ms, off as int, ai);
        let years = if e.has_week { None } else { spec_enumerate_years(e.selectors) };
        if years is Some {
            lemma_year_in_enumeration(e, instant_ms, off as int, ai);
        }
        let sizes = spec_day_sizes(
            scope,
            value_set(e.selectors, Desig::Month, 12),
            value_set(e.selectors, Desig::Quarter, 4),
            years,
        );
        let (minv, z, field) = spec_domain_and_field(Desig::Day, f, scope, e.has_week);
        assert(sel_hit(s, 1, z, field));
        assert(matches_some(s, 1, z));
        match scope {
            Scope::Month => {
                assert(month_sizes(f.month as int, years).contains(z));
            },
            Scope::Quarter => {
                assert(quarter_sizes(f.quarter as int, years).contains(z));
            },
            Scope::Year => {
                assert(year_sizes(years).contains(z));
            },
        }
        assert(sizes.contains(z));
        assert(fits_some(s, sizes));
    }
}

/// The month/quarter warning is sound: a branch whose month and quarter
/// selectors share no month covers no instant.
pub proof fn lemma_disjoint_warning_sound(e: ExprV, instant_ms: int, off: i32, ai: int)
    requires
        spec_disjoint_warning(e) is Some,
        parsed_ok(e),
        i64::MIN <= instant_ms + off * 1000 <= i64::MAX,
    ensures
        !spec_expr_covers(e, instant_ms, off as int, ai),
{
    if spec_expr_covers(e, instant_ms, off as int, ai) {
        let local = instant_ms + off * 1000;
        let f = spec_fields(local);
        lemma_fields_ok(local);
        assert(ordinals_on_weekdays(e)) by {
            assert forall|j: int| 0 <= j < e.selectors.len() && (#[trigger] e.selectors[j]).ordinal is Some implies e.selectors[j].desig
                == Desig::Weekday by {
                assert(selector_syntax_ok(e.selectors[j]));
            }
        }
        lemma_month_in_selection(e, instant_ms, off as int, ai);
        let m = f.month as int;
        assert(f.quarter == (m - 1) / 3 + 1);
    }
}


/// The unsatisfiability lint is sound: a selector of a parsed branch that
/// draws a warning leaves the branch covering no instant, whatever offset the
/// zone observes.
pub proof fn lemma_warning_sound(e: ExprV, i: int, instant_ms: int, off: i32, ai: int)
    requires
        0 <= i < e.selectors.len(),
        spec_selector_warning(e.selectors[i], e, spec_scope_of(e.selectors)) is Some,
        parsed_ok(e),
        i64::MIN <= instant_ms + off * 1000 <= i64::MAX,
    ensures
        !spec_expr_covers(e, instant_ms, off as int, ai),
{
    let s = e.selectors[i];
    assert(ordinals_on_weekdays(e)) by {
        assert forall|j: int| 0 <= j < e.selectors.len() && (#[trigger] e.selectors[j]).ordinal is Some implies e.selectors[j].desig
            == Desig::Weekday by {
            assert(selector_syntax_ok(e.selectors[j]));
        }
    }
    if s.desig == Desig::Week {
        assert(has_desig(e.selectors, Desig::Week));
        lemma_week_warning_sound(e, i, instant_ms, off, ai);
    } else if s.desig == Desig::Day {
        lemma_day_warning_sound(e, i, instant_ms, off, ai);
    } else if spec_expr_covers(e, instant_ms, off as int, ai) {
        let local = instant_ms + off * 1000;
        lemma_selector_of_cover(e, i, instant_ms, off as int, ai);
        lemma_fixed_warning_sound(s, local, spec_scope_of(e.selectors), e.has_week);
    }
}

} // verus!
