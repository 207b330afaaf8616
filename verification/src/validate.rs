//! Static validation: hard domain and stride errors (returned as
//! [`ParseError`]), plus the satisfiability warnings: expressions that parse
//! but can never match.

use vstd::prelude::*;

use crate::ast::{Atom, Desig, Endpoint, Expr, ExprV, Selector, SelectorV};
use crate::error::{decimal, push_decimal, ParseError, Warning};
use vstd::string::StringExecFns;
use crate::civil::{
    days_in_month, days_in_quarter, days_in_year, spec_days_in_month, spec_days_in_quarter,
    spec_days_in_year, spec_weeks_in_iso_year, weeks_in_iso_year,
};
use crate::eval::{atom_ok, atoms_hit, atoms_hit_exec, expr_ok, scope_of, selector_ok, spec_scope_of, Scope};
use crate::grammar::{atom_syntax_ok, selector_syntax_ok, syntax_ok};

verus! {

// ---- the rules --------------------------------------------------------------------

/// `(zero_based, min, max, size)` of a designator's domain in the scope.
pub open spec fn spec_domain_info(desig: Desig, scope: Scope) -> (bool, int, int, int) {
    match desig {
        Desig::Quarter => (false, 1, 4, 4),
        Desig::Month => (false, 1, 12, 12),
        Desig::Week => (false, 1, 53, 53),
        Desig::Weekday => (false, 1, 7, 7),
        Desig::Hour => (true, 0, 23, 24),
        Desig::Minute => (true, 0, 59, 60),
        Desig::Second => (true, 0, 59, 60),
        Desig::Day => match scope {
            Scope::Month => (false, 1, 31, 31),
            Scope::Quarter => (false, 1, 92, 92),
            Scope::Year => (false, 1, 366, 366),
        },
        Desig::Year => (false, 1, i64::MAX as int, i64::MAX as int),
    }
}

/// The first of two checks that fails.
pub open spec fn or_else(a: Option<Seq<char>>, b: Option<Seq<char>>) -> Option<Seq<char>> {
    if a is Some {
        a
    } else {
        b
    }
}

/// The first element of `s` from `k` on that is present.
pub open spec fn first_some<T>(s: Seq<Option<T>>, k: int) -> Option<T>
    decreases s.len() - k,
{
    if k < 0 || k >= s.len() {
        None
    } else if s[k] is Some {
        s[k]
    } else {
        first_some(s, k + 1)
    }
}

/// A literal value out of a (non-year) domain.
pub open spec fn value_error(v: int, zero_based: bool, maxv: int, size: int) -> Option<Seq<char>> {
    if v >= 0 {
        if !zero_based && v == 0 {
            Some("zero value"@)
        } else if v > maxv {
            Some("value out of domain"@)
        } else {
            None
        }
    } else if v < -size {
        Some("negative value out of domain (symmetric parse-time check)"@)
    } else {
        None
    }
}

pub open spec fn endpoint_error(e: Endpoint, zero_based: bool, maxv: int, size: int) -> Option<Seq<char>> {
    match e {
        Endpoint::Value(v) => value_error(v as int, zero_based, maxv, size),
        Endpoint::Star => None,
    }
}

/// A stride's interval and duration: at least two and within the parent
/// domain, covering at least one unit and less than the interval.
pub open spec fn stride_error(interval: int, duration: int, size: int) -> Option<Seq<char>> {
    if interval < 2 {
        Some("stride interval must be >= 2"@)
    } else if interval > size {
        Some("stride interval exceeds parent domain — use a cadence"@)
    } else if duration < 1 || duration >= interval {
        Some("stride duration must be in 1..interval"@)
    } else {
        None
    }
}

/// What is wrong with an atom of a (non-year) selector, checked in order.
pub open spec fn atom_error(a: Atom, zero_based: bool, maxv: int, size: int) -> Option<Seq<char>> {
    match a {
        Atom::All => None,
        Atom::Single(v) => value_error(v as int, zero_based, maxv, size),
        Atom::Range { start, end, wrap } => or_else(
            endpoint_error(start, zero_based, maxv, size),
            endpoint_error(end, zero_based, maxv, size),
        ),
        Atom::Stride { start, end, interval, duration } => or_else(
            value_error(start as int, zero_based, maxv, size),
            or_else(
                endpoint_error(end, zero_based, maxv, size),
                stride_error(interval as int, duration as int, size),
            ),
        ),
    }
}

/// `Y` takes 4-digit ISO years (1-9999) and has no edge to count back from.
pub open spec fn year_value_error(v: int) -> Option<Seq<char>> {
    if v < 0 {
        Some("negative value on Y — no edge to count back from"@)
    } else if !(1 <= v <= 9999) {
        Some("year out of domain (1-9999)"@)
    } else {
        None
    }
}

pub open spec fn year_endpoint_error(e: Endpoint) -> Option<Seq<char>> {
    match e {
        Endpoint::Value(v) => year_value_error(v as int),
        Endpoint::Star => None,
    }
}

/// What is wrong with an atom of a year selector, checked in order.
pub open spec fn year_atom_error(a: Atom) -> Option<Seq<char>> {
    match a {
        Atom::All => None,
        Atom::Single(v) => year_value_error(v as int),
        Atom::Range { start, end, wrap } => if wrap {
            Some("Y range cannot wrap — no edge to wrap around"@)
        } else {
            or_else(year_endpoint_error(start), year_endpoint_error(end))
        },
        Atom::Stride { start, end, interval, duration } => or_else(
            year_value_error(start as int),
            or_else(
                year_endpoint_error(end),
                if interval < 2 {
                    Some("stride interval must be >= 2"@)
                } else if duration < 1 || duration >= interval {
                    Some("stride duration must be in 1..interval"@)
                } else {
                    None
                },
            ),
        ),
    }
}

/// The error of a selector: the message of the first failing check, at the
/// selector's position.
pub open spec fn selector_error(s: SelectorV, scope: Scope) -> Option<(int, Seq<char>)> {
    let m = if s.desig == Desig::Year {
        match s.ordinal {
            Some((wd, _)) => Some("ordinal not valid here ("@ + decimal(wd as int) + ")"@),
            None => first_some(s.atoms.map_values(|a: Atom| year_atom_error(a)), 0),
        }
    } else {
        let (zero_based, _minv, maxv, size) = spec_domain_info(s.desig, scope);
        match s.ordinal {
            Some((wd, _)) => if !(1 <= wd <= 7) {
                Some("weekday out of domain (1-7)"@)
            } else {
                None
            },
            None => first_some(s.atoms.map_values(|a: Atom| atom_error(a, zero_based, maxv, size)), 0),
        }
    };
    match m {
        Some(msg) => Some((s.pos as int, msg)),
        None => None,
    }
}

/// A selector that passed validation: its atoms can be evaluated.
pub open spec fn selector_checked(s: SelectorV) -> bool {
    forall|i: int| 0 <= i < s.atoms.len() ==> atom_ok(#[trigger] s.atoms[i], s.desig == Desig::Year)
}


// ---- satisfiability -----------------------------------------------------------------

/// Does the selector take the value `v` of the domain `[minv, maxv]`?
pub open spec fn sel_hit(s: SelectorV, minv: int, maxv: int, v: int) -> bool {
    atoms_hit(s.atoms, minv, maxv, v) != s.exclude
}

/// The values of `[minv, maxv]` the selector takes.
pub open spec fn matched_set(s: SelectorV, minv: int, maxv: int) -> Set<int> {
    Set::new(|v: int| minv <= v <= maxv && sel_hit(s, minv, maxv, v))
}

/// The selector takes some value of `[minv, maxv]`.
pub open spec fn matches_some(s: SelectorV, minv: int, maxv: int) -> bool {
    exists|v: int| minv <= v <= maxv && #[trigger] sel_hit(s, minv, maxv, v)
}

/// The values an integer sequence holds.
pub open spec fn vset(v: Seq<i64>) -> Set<int> {
    Set::new(|x: int| exists|k: int| 0 <= k < v.len() && v[k] == x)
}

/// Index of the first selector from `k` on with designator `d`.
pub open spec fn first_desig(sels: Seq<SelectorV>, d: Desig, k: int) -> Option<int>
    decreases sels.len() - k,
{
    if k < 0 || k >= sels.len() {
        None
    } else if sels[k].desig == d {
        Some(k)
    } else {
        first_desig(sels, d, k + 1)
    }
}

/// The selector [`first_desig`] finds carries the designator.
pub proof fn lemma_first_desig(sels: Seq<SelectorV>, d: Desig, k: int)
    requires
        0 <= k,
    ensures
        first_desig(sels, d, k) matches Some(j) ==> k <= j < sels.len() && sels[j].desig == d,
    decreases sels.len() - k,
{
    if k < sels.len() && sels[k].desig != d {
        lemma_first_desig(sels, d, k + 1);
    }
}

/// The values the first `d` selector takes in `[1, maxv]`, if there is one.
pub open spec fn value_set(sels: Seq<SelectorV>, d: Desig, maxv: int) -> Option<Set<int>> {
    match first_desig(sels, d, 0) {
        Some(k) => Some(matched_set(sels[k], 1, maxv)),
        None => None,
    }
}

/// A year atom that lists its years: a positive year, or an ascending range
/// of positive years spanning at most 1000.
pub open spec fn year_enumerable(a: Atom) -> bool {
    match a {
        Atom::Single(v) => v > 0,
        Atom::Range { start, end, wrap } => match (start, end) {
            (Endpoint::Value(a), Endpoint::Value(b)) => !wrap && a > 0 && b >= a && b - a <= 1000,
            _ => false,
        },
        _ => false,
    }
}

pub open spec fn year_atom_holds(a: Atom, y: int) -> bool {
    match a {
        Atom::Single(v) => y == v,
        Atom::Range { start, end, wrap } => match (start, end) {
            (Endpoint::Value(a), Endpoint::Value(b)) => a <= y <= b,
            _ => false,
        },
        _ => false,
    }
}

pub open spec fn years_of(s: SelectorV) -> Set<int> {
    Set::new(|y: int| exists|i: int| 0 <= i < s.atoms.len() && year_atom_holds(#[trigger] s.atoms[i], y))
}

/// The years of the first `Y` selector as a closed set spanning at most 1000
/// years; `None` for open, excluded or otherwise unenumerable years.
pub open spec fn spec_enumerate_years(sels: Seq<SelectorV>) -> Option<Set<int>> {
    match first_desig(sels, Desig::Year, 0) {
        None => None,
        Some(k) => {
            let s = sels[k];
            let ys = years_of(s);
            if s.exclude || s.atoms.len() == 0 || !(forall|i: int| 0 <= i < s.atoms.len() ==> year_enumerable(#[trigger] s.atoms[i]))
                || (exists|y1: int, y2: int| ys.contains(y1) && ys.contains(y2) && y2 - y1 > 1000) {
                None
            } else {
                Some(ys)
            }
        },
    }
}

/// The day counts month `m` has over `years`, or over a common and a leap
/// year.
pub open spec fn month_sizes(m: int, years: Option<Set<int>>) -> Set<int> {
    match years {
        Some(ys) => Set::new(|z: int| exists|y: int| ys.contains(y) && z == spec_days_in_month(y, m)),
        None => set![spec_days_in_month(2001, m), spec_days_in_month(2000, m)],
    }
}

pub open spec fn quarter_sizes(q: int, years: Option<Set<int>>) -> Set<int> {
    match years {
        Some(ys) => Set::new(|z: int| exists|y: int| ys.contains(y) && z == spec_days_in_quarter(y, q)),
        None => set![spec_days_in_quarter(2001, q), spec_days_in_quarter(2000, q)],
    }
}

pub open spec fn year_sizes(years: Option<Set<int>>) -> Set<int> {
    match years {
        Some(ys) => Set::new(|z: int| exists|y: int| ys.contains(y) && z == spec_days_in_year(y)),
        None => set![365, 366],
    }
}

/// Every size the day domain of the scope takes over the selected months or
/// quarters (all, when none is selected) and years.
pub open spec fn spec_day_sizes(scope: Scope, months: Option<Set<int>>, quarters: Option<Set<int>>, years: Option<Set<int>>) -> Set<int> {
    match scope {
        Scope::Month => {
            let ms = match months {
                Some(m) => m,
                None => Set::new(|m: int| 1 <= m <= 12),
            };
            Set::new(|z: int| exists|m: int| ms.contains(m) && #[trigger] month_sizes(m, years).contains(z))
        },
        Scope::Quarter => {
            let qs = match quarters {
                Some(q) => q,
                None => Set::new(|q: int| 1 <= q <= 4),
            };
            Set::new(|z: int| exists|q: int| qs.contains(q) && #[trigger] quarter_sizes(q, years).contains(z))
        },
        Scope::Year => year_sizes(years),
    }
}

/// The week counts of the week-years, or both counts.
pub open spec fn week_counts(years: Option<Set<int>>) -> Set<int> {
    match years {
        Some(ys) => Set::new(|z: int| exists|y: int| ys.contains(y) && z == spec_weeks_in_iso_year(y)),
        None => set![52, 53],
    }
}

/// The selector takes a value in a domain `[1, z]` of some size `z`.
pub open spec fn fits_some(s: SelectorV, sizes: Set<int>) -> bool {
    exists|z: int| sizes.contains(z) && #[trigger] matches_some(s, 1, z)
}

/// The warning on a selector of `e` that can never match.
pub open spec fn spec_selector_warning(s: SelectorV, e: ExprV, scope: Scope) -> Option<(usize, Seq<char>)> {
    if s.desig == Desig::Year {
        None
    } else if s.desig == Desig::Weekday && s.ordinal is Some {
        None
    } else if s.desig == Desig::Day {
        // With W present, Y is the week-year: day-of-year is cross-selector.
        let years = if e.has_week { None } else { spec_enumerate_years(e.selectors) };
        let sizes = spec_day_sizes(scope, value_set(e.selectors, Desig::Month, 12), value_set(e.selectors, Desig::Quarter, 4), years);
        if fits_some(s, sizes) {
            None
        } else {
            Some((s.pos, "unsatisfiable — day never exists in the covered instances"@))
        }
    } else if s.desig == Desig::Week {
        if fits_some(s, week_counts(spec_enumerate_years(e.selectors))) {
            None
        } else {
            Some((s.pos, "unsatisfiable — week never exists in the covered week-years"@))
        }
    } else {
        let (_, minv, maxv, _) = spec_domain_info(s.desig, Scope::Month);
        if matches_some(s, minv, maxv) {
            None
        } else {
            Some((s.pos, "unsatisfiable — selector matches nothing in its domain"@))
        }
    }
}

/// The warning when the month and quarter selectors take no month in common.
pub open spec fn spec_disjoint_warning(e: ExprV) -> Option<(usize, Seq<char>)> {
    match value_set(e.selectors, Desig::Month, 12) {
        Some(ms) => match value_set(e.selectors, Desig::Quarter, 4) {
            Some(qs) => if months_disjoint(ms, qs) {
                Some((e.selectors[first_desig(e.selectors, Desig::Month, 0)->0].pos, "unsatisfiable — M and Q select disjoint months"@))
            } else {
                None
            },
            None => None,
        },
        None => None,
    }
}

/// Both sets are non-empty and no month of `ms` lies in a quarter of `qs`.
pub open spec fn months_disjoint(ms: Set<int>, qs: Set<int>) -> bool {
    (exists|m: int| ms.contains(m)) && (exists|q: int| qs.contains(q)) && !(exists|m: int|
        ms.contains(m) && qs.contains((m - 1) / 3 + 1))
}

/// The present elements of `s`, in order.
pub open spec fn somes<T>(s: Seq<Option<T>>) -> Seq<T>
    decreases s.len(),
{
    if s.len() == 0 {
        Seq::empty()
    } else {
        let rest = somes(s.drop_last());
        match s.last() {
            Some(x) => rest.push(x),
            None => rest,
        }
    }
}

/// The warnings of `e`: each selector's, in order, then the month/quarter
/// one.
pub open spec fn spec_warnings(e: ExprV, scope: Scope) -> Seq<(usize, Seq<char>)> {
    somes(e.selectors.map_values(|s: SelectorV| spec_selector_warning(s, e, scope))) + match spec_disjoint_warning(e) {
        Some(w) => seq![w],
        None => Seq::empty(),
    }
}

/// What validating `e` gives: the first selector error, else the warnings.
pub open spec fn spec_check(e: ExprV) -> Result<Seq<(usize, Seq<char>)>, (int, Seq<char>)> {
    let scope = spec_scope_of(e.selectors);
    match first_some(e.selectors.map_values(|s: SelectorV| selector_error(s, scope)), 0) {
        Some(x) => Err(x),
        None => Ok(spec_warnings(e, scope)),
    }
}

// ---- executable: errors ---------------------------------------------------------

fn domain_info(desig: Desig, scope: Scope) -> (r: (bool, i64, i64, i64))
    ensures
        (r.0, r.1 as int, r.2 as int, r.3 as int) == spec_domain_info(desig, scope),
{
    match desig {
        Desig::Quarter => (false, 1, 4, 4),
        Desig::Month => (false, 1, 12, 12),
        Desig::Week => (false, 1, 53, 53),
        Desig::Weekday => (false, 1, 7, 7),
        Desig::Hour => (true, 0, 23, 24),
        Desig::Minute => (true, 0, 59, 60),
        Desig::Second => (true, 0, 59, 60),
        Desig::Day => match scope {
            Scope::Month => (false, 1, 31, 31),
            Scope::Quarter => (false, 1, 92, 92),
            Scope::Year => (false, 1, 366, 366),
        },
        Desig::Year => (false, 1, i64::MAX, i64::MAX),
    }
}

/// The message for an ordinal on `Y`, the weekday in decimal.
fn ordinal_message(wd: i64) -> (s: String)
    ensures
        s@ == "ordinal not valid here ("@ + decimal(wd as int) + ")"@,
{
    let mut s = "ordinal not valid here (".to_owned();
    push_decimal(&mut s, wd);
    s.append(")");
    s
}

fn year_value(pos: usize, v: i64) -> (r: Result<(), ParseError>)
    ensures
        match year_value_error(v as int) {
            Some(m) => r matches Err(e) && e@ == (pos, m),
            None => r is Ok,
        },
{
    if v < 0 {
        Err(ParseError::new(pos, "negative value on Y — no edge to count back from"))
    } else if !(1 <= v && v <= 9999) {
        // Y takes 4-digit ISO years: 1-9999.
        Err(ParseError::new(pos, "year out of domain (1-9999)"))
    } else {
        Ok(())
    }
}

fn year_endpoint(pos: usize, e: Endpoint) -> (r: Result<(), ParseError>)
    ensures
        match year_endpoint_error(e) {
            Some(m) => r matches Err(x) && x@ == (pos, m),
            None => r is Ok,
        },
{
    match e {
        Endpoint::Value(v) => year_value(pos, v),
        Endpoint::Star => Ok(()),
    }
}

fn year_atom(pos: usize, atom: Atom) -> (r: Result<(), ParseError>)
    ensures
        match year_atom_error(atom) {
            Some(m) => r matches Err(x) && x@ == (pos, m),
            None => r is Ok,
        },
        r is Ok ==> atom_ok(atom, true),
{
    match atom {
        Atom::All => Ok(()),
        Atom::Single(v) => year_value(pos, v),
        Atom::Range { start, end, wrap } => {
            if wrap {
                return Err(ParseError::new(pos, "Y range cannot wrap — no edge to wrap around"));
            }
            year_endpoint(pos, start)?;
            year_endpoint(pos, end)
        },
        Atom::Stride { start, end, interval, duration } => {
            year_value(pos, start)?;
            year_endpoint(pos, end)?;
            if interval < 2 {
                return Err(ParseError::new(pos, "stride interval must be >= 2"));
            }
            if duration < 1 || duration >= interval {
                return Err(ParseError::new(pos, "stride duration must be in 1..interval"));
            }
            Ok(())
        },
    }
}

fn check_year(sel: &Selector) -> (r: Result<(), ParseError>)
    requires
        sel.desig == Desig::Year,
    ensures
        forall|scope: Scope| match #[trigger] selector_error(sel@, scope) {
            Some((p, m)) => r matches Err(e) && e.pos as int == p && e.message@ == m,
            None => r is Ok,
        },
        r is Ok ==> selector_checked(sel@),
{
    if let Some((wd, _)) = sel.ordinal {
        // Ordinals are E-only: the parser never puts one on Y.
        return Err(ParseError { pos: sel.pos, message: ordinal_message(wd) });
    }
    let ghost errs = sel@.atoms.map_values(|a: Atom| year_atom_error(a));
    let mut k: usize = 0;
    while k < sel.atoms.len()
        invariant
            k <= sel.atoms@.len(),
            sel.desig == Desig::Year,
            sel.ordinal is None,
            errs == sel@.atoms.map_values(|a: Atom| year_atom_error(a)),
            first_some(errs, 0) == first_some(errs, k as int),
            forall|q: int| 0 <= q < k ==> atom_ok(#[trigger] sel.atoms@[q], true),
        decreases sel.atoms@.len() - k,
    {
        let ghost a = sel.atoms@[k as int];
        assert(errs[k as int] == year_atom_error(a));
        year_atom(sel.pos, sel.atoms[k])?;
        k = k + 1;
    }
    Ok(())
}

fn check_value(pos: usize, v: i64, zero_based: bool, maxv: i64, size: i64) -> (r: Result<(), ParseError>)
    requires
        0 <= maxv <= 366,
        0 <= size <= 366,
    ensures
        match value_error(v as int, zero_based, maxv as int, size as int) {
            Some(m) => r matches Err(e) && e@ == (pos, m),
            None => r is Ok,
        },
{
    if v >= 0 {
        if !zero_based && v == 0 {
            return Err(ParseError::new(pos, "zero value"));
        }
        if v > maxv {
            return Err(ParseError::new(pos, "value out of domain"));
        }
    } else if v < -size {
        return Err(ParseError::new(pos, "negative value out of domain (symmetric parse-time check)"));
    }
    Ok(())
}

fn check_endpoint(pos: usize, e: Endpoint, zero_based: bool, maxv: i64, size: i64) -> (r: Result<(), ParseError>)
    requires
        0 <= maxv <= 366,
        0 <= size <= 366,
    ensures
        match endpoint_error(e, zero_based, maxv as int, size as int) {
            Some(m) => r matches Err(x) && x@ == (pos, m),
            None => r is Ok,
        },
{
    match e {
        Endpoint::Value(v) => check_value(pos, v, zero_based, maxv, size),
        Endpoint::Star => Ok(()),
    }
}

fn check_atom(pos: usize, atom: Atom, zero_based: bool, maxv: i64, size: i64) -> (r: Result<(), ParseError>)
    requires
        0 <= maxv <= 366,
        0 <= size <= 366,
    ensures
        match atom_error(atom, zero_based, maxv as int, size as int) {
            Some(m) => r matches Err(x) && x@ == (pos, m),
            None => r is Ok,
        },
        r is Ok ==> atom_ok(atom, false),
{
    match atom {
        Atom::All => Ok(()),
        Atom::Single(v) => check_value(pos, v, zero_based, maxv, size),
        Atom::Range { start, end, .. } => {
            check_endpoint(pos, start, zero_based, maxv, size)?;
            check_endpoint(pos, end, zero_based, maxv, size)
        },
        Atom::Stride { start, end, interval, duration } => {
            check_value(pos, start, zero_based, maxv, size)?;
            check_endpoint(pos, end, zero_based, maxv, size)?;
            if interval < 2 {
                return Err(ParseError::new(pos, "stride interval must be >= 2"));
            }
            if interval > size {
                return Err(ParseError::new(pos, "stride interval exceeds parent domain — use a cadence"));
            }
            if duration < 1 || duration >= interval {
                return Err(ParseError::new(pos, "stride duration must be in 1..interval"));
            }
            Ok(())
        },
    }
}

fn check_selector(sel: &Selector, scope: Scope) -> (r: Result<(), ParseError>)
    requires
        sel.desig != Desig::Year,
        sel.ordinal is Some ==> sel.atoms@.len() == 0,
    ensures
        match selector_error(sel@, scope) {
            Some((p, m)) => r matches Err(e) && e.pos as int == p && e.message@ == m,
            None => r is Ok,
        },
        r is Ok ==> selector_checked(sel@),
{
    let (zero_based, _minv, maxv, size) = domain_info(sel.desig, scope);
    if let Some((wd, _)) = sel.ordinal {
        if !(1 <= wd && wd <= 7) {
            return Err(ParseError::new(sel.pos, "weekday out of domain (1-7)"));
        }
        return Ok(());
    }
    let ghost errs = sel@.atoms.map_values(|a: Atom| atom_error(a, zero_based, maxv as int, size as int));
    let mut k: usize = 0;
    while k < sel.atoms.len()
        invariant
            k <= sel.atoms@.len(),
            sel.desig != Desig::Year,
            sel.ordinal is None,
            (zero_based, _minv as int, maxv as int, size as int) == spec_domain_info(sel.desig, scope),
            errs == sel@.atoms.map_values(|a: Atom| atom_error(a, zero_based, maxv as int, size as int)),
            first_some(errs, 0) == first_some(errs, k as int),
            forall|q: int| 0 <= q < k ==> atom_ok(#[trigger] sel.atoms@[q], false),
        decreases sel.atoms@.len() - k,
    {
        let ghost a = sel.atoms@[k as int];
        assert(errs[k as int] == atom_error(a, zero_based, maxv as int, size as int));
        check_atom(sel.pos, sel.atoms[k], zero_based, maxv, size)?;
        k = k + 1;
    }
    Ok(())
}


// ---- executable: warnings ----------------------------------------------------------

proof fn lemma_vset_push(s: Seq<i64>, v: i64)
    ensures
        vset(s.push(v)) == vset(s).insert(v as int),
{
    assert forall|x: int| vset(s.push(v)).contains(x) <==> vset(s).insert(v as int).contains(x) by {
        if vset(s).contains(x) {
            let k = choose|k: int| 0 <= k < s.len() && s[k] == x;
            assert(s.push(v)[k] == x);
        }
        if x == v {
            assert(s.push(v)[s.len() as int] == x);
        }
        if vset(s.push(v)).contains(x) && x != v {
            let k = choose|k: int| 0 <= k < s.len() + 1 && s.push(v)[k] == x;
            assert(k < s.len());
            assert(s[k] == x);
        }
    }
    assert(vset(s.push(v)) =~= vset(s).insert(v as int));
}

/// The values in `[minv, maxv]` a (non-year) selector takes, ascending.
fn matched_values(sel: &Selector, minv: i64, maxv: i64) -> (r: Vec<i64>)
    requires
        forall|i: int| 0 <= i < sel.atoms@.len() ==> atom_ok(#[trigger] sel.atoms@[i], false),
        0 <= minv <= maxv + 1,
        maxv <= 366,
    ensures
        vset(r@) == matched_set(sel@, minv as int, maxv as int),
        (r@.len() > 0) == matches_some(sel@, minv as int, maxv as int),
        forall|k: int| 0 <= k < r@.len() ==> minv <= #[trigger] r@[k] <= maxv,
{
    let mut out: Vec<i64> = Vec::new();
    let mut v = minv;
    assert(vset(out@) =~= Set::new(|x: int| minv <= x < v && sel_hit(sel@, minv as int, maxv as int, x)));
    while v <= maxv
        invariant
            forall|i: int| 0 <= i < sel.atoms@.len() ==> atom_ok(#[trigger] sel.atoms@[i], false),
            0 <= minv <= v <= maxv + 1,
            maxv <= 366,
            vset(out@) == Set::new(|x: int| minv <= x < v && sel_hit(sel@, minv as int, maxv as int, x)),
            forall|k: int| 0 <= k < out@.len() ==> minv <= #[trigger] out@[k] < v,
        decreases maxv + 1 - v,
    {
        let hit = atoms_hit_exec(&sel.atoms, minv, maxv, v, false);
        let ghost prev = out@;
        if hit != sel.exclude {
            out.push(v);
            proof {
                lemma_vset_push(prev, v);
            }
        }
        proof {
            assert(vset(out@) =~= Set::new(|x: int| minv <= x < v + 1 && sel_hit(sel@, minv as int, maxv as int, x)));
        }
        v = v + 1;
    }
    proof {
        assert(vset(out@) =~= matched_set(sel@, minv as int, maxv as int));
        if out@.len() > 0 {
            assert(vset(out@).contains(out@[0] as int));
            assert(sel_hit(sel@, minv as int, maxv as int, out@[0] as int));
        }
        if matches_some(sel@, minv as int, maxv as int) {
            let x = choose|x: int| minv <= x <= maxv && #[trigger] sel_hit(sel@, minv as int, maxv as int, x);
            assert(matched_set(sel@, minv as int, maxv as int).contains(x));
        }
    }
    out
}

/// Index of the first selector with designator `d`.
fn find_desig(sels: &Vec<Selector>, d: Desig) -> (r: Option<usize>)
    ensures
        r matches Some(k) ==> first_desig(sels@.map_values(|s: Selector| s@), d, 0) == Some(k as int),
        r is None ==> first_desig(sels@.map_values(|s: Selector| s@), d, 0) is None,
        r matches Some(k) ==> k < sels@.len(),
{
    let ghost v = sels@.map_values(|s: Selector| s@);
    let mut i: usize = 0;
    while i < sels.len()
        invariant
            i <= sels@.len(),
            v == sels@.map_values(|s: Selector| s@),
            first_desig(v, d, 0) == first_desig(v, d, i as int),
        decreases sels@.len() - i,
    {
        assert(v[i as int] == sels@[i as int]@);
        if sels[i].desig == d {
            return Some(i);
        }
        i = i + 1;
    }
    None
}


/// The years of the first `Y` selector as a closed, enumerable set (spanning
/// at most 1000 years), else `None` for open, unbounded or unenumerable
/// years.
fn enumerate_years(expr: &Expr) -> (r: Option<Vec<i64>>)
    requires
        syntax_ok(expr@),
    ensures
        match spec_enumerate_years(expr@.selectors) {
            Some(ys) => r matches Some(v) && vset(v@) == ys,
            None => r is None,
        },
        r matches Some(v) ==> forall|k: int| 0 <= k < v@.len() ==> 1 <= #[trigger] v@[k] <= 10_000_000,
{
    let idx = match find_desig(&expr.selectors, Desig::Year) {
        Some(i) => i,
        None => {
            return None;
        },
    };
    let sel = &expr.selectors[idx];
    let ghost sv = sel@;
    let ghost sels = expr@.selectors;
    proof {
        assert(sels == expr.selectors@.map_values(|s: Selector| s@));
        assert(sels[idx as int] == sv);
        assert(selector_syntax_ok(sv));
    }
    if sel.exclude {
        return None;
    }
    let mut years: Vec<i64> = Vec::new();
    let mut k: usize = 0;
    assert(vset(years@) =~= Set::new(|y: int| exists|i: int| 0 <= i < k && year_atom_holds(#[trigger] sv.atoms[i], y)));
    while k < sel.atoms.len()
        invariant
            sv == sel@,
            sels == expr@.selectors,
            first_desig(sels, Desig::Year, 0) == Some(idx as int),
            sels[idx as int] == sv,
            !sv.exclude,
            selector_syntax_ok(sv),
            k <= sv.atoms.len(),
            forall|i: int| 0 <= i < k ==> year_enumerable(#[trigger] sv.atoms[i]),
            vset(years@) == Set::new(|y: int| exists|i: int| 0 <= i < k && year_atom_holds(#[trigger] sv.atoms[i], y)),
            forall|q: int| 0 <= q < years@.len() ==> 1 <= #[trigger] years@[q] <= 10_000_000,
        decreases sv.atoms.len() - k,
    {
        let atom = sel.atoms[k];
        assert(atom == sv.atoms[k as int]);
        assert(atom_syntax_ok(atom));
        let ghost before = vset(years@);
        match atom {
            Atom::Single(v) => {
                if v <= 0 {
                    return None;
                }
                let ghost prev = years@;
                years.push(v);
                proof {
                    lemma_vset_push(prev, v);
                }
            },
            Atom::Range { start: Endpoint::Value(a), end: Endpoint::Value(b), wrap: false } => {
                if !(a > 0 && b >= a) {
                    return None;
                }
                if b - a > 1000 {
                    return None;
                }
                let mut y = a;
                while y <= b
                    invariant
                        a <= y <= b + 1,
                        0 < a <= b <= 10_000_000,
                        vset(years@) == before.union(Set::new(|x: int| a <= x < y)),
                        forall|q: int| 0 <= q < years@.len() ==> 1 <= #[trigger] years@[q] <= 10_000_000,
                    decreases b + 1 - y,
                {
                    let ghost prev = years@;
                    years.push(y);
                    proof {
                        lemma_vset_push(prev, y);
                        assert(vset(years@) =~= before.union(Set::new(|x: int| a <= x < y + 1)));
                    }
                    y = y + 1;
                }
            },
            _ => {
                return None;
            },
        }
        proof {
            assert(vset(years@) =~= Set::new(|y: int| exists|i: int| 0 <= i < k + 1 && year_atom_holds(#[trigger] sv.atoms[i], y))) by {
                assert forall|y: int| vset(years@).contains(y) implies exists|i: int| 0 <= i < k + 1 && year_atom_holds(#[trigger] sv.atoms[i], y) by {
                    if !before.contains(y) {
                        assert(year_atom_holds(sv.atoms[k as int], y));
                    }
                }
                assert forall|y: int| (exists|i: int| 0 <= i < k + 1 && year_atom_holds(#[trigger] sv.atoms[i], y)) implies vset(years@).contains(y) by {
                    let i = choose|i: int| 0 <= i < k + 1 && year_atom_holds(#[trigger] sv.atoms[i], y);
                    if i < k {
                        assert(before.contains(y));
                    }
                }
            }
        }
        k = k + 1;
    }
    assert(vset(years@) =~= years_of(sv));
    if years.len() == 0 {
        proof {
            if sv.atoms.len() > 0 {
                let a0 = sv.atoms[0];
                assert(year_enumerable(a0));
                match a0 {
                    Atom::Single(v) => assert(vset(years@).contains(v as int)),
                    Atom::Range { start, end, wrap } => match (start, end) {
                        (Endpoint::Value(a), Endpoint::Value(b)) => assert(vset(years@).contains(a as int)),
                        _ => {},
                    },
                    _ => {},
                }
                assert(false);
            }
        }
        return None;
    }
    let mut lo = years[0];
    let mut hi = years[0];
    let mut q: usize = 1;
    while q < years.len()
        invariant
            1 <= q <= years@.len(),
            exists|a: int| 0 <= a < years@.len() && years@[a] == lo,
            exists|a: int| 0 <= a < years@.len() && years@[a] == hi,
            forall|a: int| 0 <= a < q ==> lo <= #[trigger] years@[a] <= hi,
        decreases years@.len() - q,
    {
        if years[q] < lo {
            lo = years[q];
        }
        if years[q] > hi {
            hi = years[q];
        }
        q = q + 1;
    }
    proof {
        let ys = vset(years@);
        assert(ys.contains(lo as int));
        assert(ys.contains(hi as int));
        assert forall|y1: int, y2: int| ys.contains(y1) && ys.contains(y2) implies y2 - y1 <= hi - lo by {
            let a1 = choose|a: int| 0 <= a < years@.len() && years@[a] == y1;
            let a2 = choose|a: int| 0 <= a < years@.len() && years@[a] == y2;
            assert(lo <= years@[a1] <= hi);
            assert(lo <= years@[a2] <= hi);
        }
    }
    if hi - lo > 1000 {
        return None;
    }
    proof {
        assert(sv.atoms.len() > 0) by {
            if sv.atoms.len() == 0 {
                assert(vset(years@).contains(years@[0] as int));
            }
        }
    }
    Some(years)
}


/// The integer set an optional sequence holds.
pub open spec fn opt_vset(o: Option<&Vec<i64>>) -> Option<Set<int>> {
    match o {
        Some(v) => Some(vset(v@)),
        None => None,
    }
}

/// The view of an optional list.
pub open spec fn opt_seq(o: Option<&Vec<i64>>) -> Option<Seq<i64>> {
    match o {
        Some(v) => Some(v@),
        None => None,
    }
}

/// The day counts of month `m` in each of `years`, in order, or in a common
/// year (2001) and then a leap year (2000).
pub open spec fn month_size_list(m: int, years: Option<Seq<i64>>) -> Seq<i64> {
    match years {
        Some(ys) => Seq::new(ys.len(), |j: int| spec_days_in_month(ys[j] as int, m) as i64),
        None => seq![spec_days_in_month(2001, m) as i64, spec_days_in_month(2000, m) as i64],
    }
}

/// The day counts of quarter `q` in each of `years`, in order, or in a
/// common year (2001) and then a leap year (2000).
pub open spec fn quarter_size_list(q: int, years: Option<Seq<i64>>) -> Seq<i64> {
    match years {
        Some(ys) => Seq::new(ys.len(), |j: int| spec_days_in_quarter(ys[j] as int, q) as i64),
        None => seq![spec_days_in_quarter(2001, q) as i64, spec_days_in_quarter(2000, q) as i64],
    }
}

/// The day counts of each of `years`, in order, or 365 and then 366.
pub open spec fn year_size_list(years: Option<Seq<i64>>) -> Seq<i64> {
    match years {
        Some(ys) => Seq::new(ys.len(), |j: int| spec_days_in_year(ys[j] as int) as i64),
        None => seq![365i64, 366i64],
    }
}

/// [`month_size_list`] of each month of `ms`, one after the other.
pub open spec fn month_lists(ms: Seq<i64>, years: Option<Seq<i64>>) -> Seq<i64>
    decreases ms.len(),
{
    if ms.len() == 0 {
        Seq::empty()
    } else {
        month_lists(ms.drop_last(), years) + month_size_list(ms.last() as int, years)
    }
}

/// [`quarter_size_list`] of each quarter of `qs`, one after the other.
pub open spec fn quarter_lists(qs: Seq<i64>, years: Option<Seq<i64>>) -> Seq<i64>
    decreases qs.len(),
{
    if qs.len() == 0 {
        Seq::empty()
    } else {
        quarter_lists(qs.drop_last(), years) + quarter_size_list(qs.last() as int, years)
    }
}

/// The numbers 1 to `n`, in order.
pub open spec fn one_to(n: int) -> Seq<i64> {
    Seq::new(n as nat, |i: int| (i + 1) as i64)
}

/// The day-domain sizes of the scope, in order: per selected month (all
/// twelve when none is selected) or quarter (all four), the sizes over the
/// years; for the year scope, the sizes of the years.
pub open spec fn spec_day_size_list(
    scope: Scope,
    months: Option<Seq<i64>>,
    quarters: Option<Seq<i64>>,
    years: Option<Seq<i64>>,
) -> Seq<i64> {
    match scope {
        Scope::Month => month_lists(
            match months {
                Some(m) => m,
                None => one_to(12),
            },
            years,
        ),
        Scope::Quarter => quarter_lists(
            match quarters {
                Some(q) => q,
                None => one_to(4),
            },
            years,
        ),
        Scope::Year => year_size_list(years),
    }
}

/// Adds the day counts month `m` has over `years` (or over a common and a
/// leap year).
fn push_month_sizes(sizes: &mut Vec<i64>, m: i64, years: Option<&Vec<i64>>)
    requires
        forall|k: int| 0 <= k < old(sizes)@.len() ==> 0 <= #[trigger] old(sizes)@[k] <= 366,
    ensures
        vset(final(sizes)@) == vset(old(sizes)@).union(month_sizes(m as int, opt_vset(years))),
        final(sizes)@ == old(sizes)@ + month_size_list(m as int, opt_seq(years)),
        forall|k: int| 0 <= k < final(sizes)@.len() ==> 0 <= #[trigger] final(sizes)@[k] <= 366,
{
    let ghost start = vset(sizes@);
    let ghost s0 = sizes@;
    match years {
        Some(ys) => {
            let mut k: usize = 0;
            assert(vset(sizes@) =~= start.union(Set::new(|z: int| exists|j: int| 0 <= j < k && z == spec_days_in_month(ys@[j] as int, m as int))));
            while k < ys.len()
                invariant
                    k <= ys@.len(),
                    forall|q: int| 0 <= q < sizes@.len() ==> 0 <= #[trigger] sizes@[q] <= 366,
                    vset(sizes@) == start.union(Set::new(|z: int| exists|j: int| 0 <= j < k && z == spec_days_in_month(ys@[j] as int, m as int))),
                    sizes@ == s0 + Seq::new(k as nat, |j: int| spec_days_in_month(ys@[j] as int, m as int) as i64),
                decreases ys@.len() - k,
            {
                let ghost prev = sizes@;
                let z = days_in_month(ys[k], m);
                sizes.push(z);
                proof {
                    lemma_vset_push(prev, z);
                    assert(vset(sizes@) =~= start.union(Set::new(|z: int| exists|j: int| 0 <= j < k + 1 && z == spec_days_in_month(ys@[j] as int, m as int))));
                    assert(sizes@ =~= s0 + Seq::new((k + 1) as nat, |j: int| spec_days_in_month(ys@[j] as int, m as int) as i64));
                }
                k = k + 1;
            }
            proof {
                assert(sizes@ =~= s0 + month_size_list(m as int, opt_seq(years)));
                assert(vset(sizes@) =~= start.union(month_sizes(m as int, opt_vset(years)))) by {
                    assert forall|z: int| (exists|j: int| 0 <= j < ys@.len() && z == spec_days_in_month(ys@[j] as int, m as int))
                        <==> month_sizes(m as int, opt_vset(years)).contains(z) by {
                        if month_sizes(m as int, opt_vset(years)).contains(z) {
                            let y = choose|y: int| vset(ys@).contains(y) && z == spec_days_in_month(y, m as int);
                            let j = choose|j: int| 0 <= j < ys@.len() && ys@[j] == y;
                            assert(z == spec_days_in_month(ys@[j] as int, m as int));
                        }
                        if exists|j: int| 0 <= j < ys@.len() && z == spec_days_in_month(ys@[j] as int, m as int) {
                            let j = choose|j: int| 0 <= j < ys@.len() && z == spec_days_in_month(ys@[j] as int, m as int);
                            assert(vset(ys@).contains(ys@[j] as int));
                        }
                    }
                }
            }
        },
        None => {
            let ghost prev = sizes@;
            let common = days_in_month(2001, m);
            sizes.push(common);
            let ghost mid = sizes@;
            let leap = days_in_month(2000, m);
            sizes.push(leap);
            proof {
                lemma_vset_push(prev, common);
                lemma_vset_push(mid, leap);
                assert(vset(sizes@) =~= start.union(month_sizes(m as int, opt_vset(years))));
                assert(sizes@ =~= s0 + month_size_list(m as int, opt_seq(years)));
            }
        },
    }
}

/// Adds the day counts quarter `q` has over `years` (or over a common and a
/// leap year).
fn push_quarter_sizes(sizes: &mut Vec<i64>, q: i64, years: Option<&Vec<i64>>)
    requires
        1 <= q <= 4,
        forall|k: int| 0 <= k < old(sizes)@.len() ==> 0 <= #[trigger] old(sizes)@[k] <= 366,
    ensures
        vset(final(sizes)@) == vset(old(sizes)@).union(quarter_sizes(q as int, opt_vset(years))),
        final(sizes)@ == old(sizes)@ + quarter_size_list(q as int, opt_seq(years)),
        forall|k: int| 0 <= k < final(sizes)@.len() ==> 0 <= #[trigger] final(sizes)@[k] <= 366,
{
    let ghost start = vset(sizes@);
    let ghost s0 = sizes@;
    match years {
        Some(ys) => {
            let mut k: usize = 0;
            assert(vset(sizes@) =~= start.union(Set::new(|z: int| exists|j: int| 0 <= j < k && z == spec_days_in_quarter(ys@[j] as int, q as int))));
            while k < ys.len()
                invariant
                    1 <= q <= 4,
                    k <= ys@.len(),
                    forall|p: int| 0 <= p < sizes@.len() ==> 0 <= #[trigger] sizes@[p] <= 366,
                    vset(sizes@) == start.union(Set::new(|z: int| exists|j: int| 0 <= j < k && z == spec_days_in_quarter(ys@[j] as int, q as int))),
                    sizes@ == s0 + Seq::new(k as nat, |j: int| spec_days_in_quarter(ys@[j] as int, q as int) as i64),
                decreases ys@.len() - k,
            {
                let ghost prev = sizes@;
                let z = days_in_quarter(ys[k], q);
                sizes.push(z);
                proof {
                    lemma_vset_push(prev, z);
                    assert(vset(sizes@) =~= start.union(Set::new(|z: int| exists|j: int| 0 <= j < k + 1 && z == spec_days_in_quarter(ys@[j] as int, q as int))));
                    assert(sizes@ =~= s0 + Seq::new((k + 1) as nat, |j: int| spec_days_in_quarter(ys@[j] as int, q as int) as i64));
                }
                k = k + 1;
            }
            proof {
                assert(sizes@ =~= s0 + quarter_size_list(q as int, opt_seq(years)));
                assert(vset(sizes@) =~= start.union(quarter_sizes(q as int, opt_vset(years)))) by {
                    assert forall|z: int| (exists|j: int| 0 <= j < ys@.len() && z == spec_days_in_quarter(ys@[j] as int, q as int))
                        <==> quarter_sizes(q as int, opt_vset(years)).contains(z) by {
                        if quarter_sizes(q as int, opt_vset(years)).contains(z) {
                            let y = choose|y: int| vset(ys@).contains(y) && z == spec_days_in_quarter(y, q as int);
                            let j = choose|j: int| 0 <= j < ys@.len() && ys@[j] == y;
                            assert(z == spec_days_in_quarter(ys@[j] as int, q as int));
                        }
                        if exists|j: int| 0 <= j < ys@.len() && z == spec_days_in_quarter(ys@[j] as int, q as int) {
                            let j = choose|j: int| 0 <= j < ys@.len() && z == spec_days_in_quarter(ys@[j] as int, q as int);
                            assert(vset(ys@).contains(ys@[j] as int));
                        }
                    }
                }
            }
        },
        None => {
            let ghost prev = sizes@;
            let common = days_in_quarter(2001, q);
            sizes.push(common);
            let ghost mid = sizes@;
            let leap = days_in_quarter(2000, q);
            sizes.push(leap);
            proof {
                lemma_vset_push(prev, common);
                lemma_vset_push(mid, leap);
                assert(vset(sizes@) =~= start.union(quarter_sizes(q as int, opt_vset(years))));
                assert(sizes@ =~= s0 + quarter_size_list(q as int, opt_seq(years)));
            }
        },
    }
}


/// The months 1 to 12.
fn all_values(n: i64) -> (r: Vec<i64>)
    requires
        0 <= n <= 12,
    ensures
        vset(r@) == Set::new(|m: int| 1 <= m <= n),
        r@ == one_to(n as int),
        forall|k: int| 0 <= k < r@.len() ==> 1 <= #[trigger] r@[k] <= n,
{
    let mut v: Vec<i64> = Vec::new();
    let mut m: i64 = 1;
    assert(vset(v@) =~= Set::new(|x: int| 1 <= x < m));
    assert(v@ =~= one_to(0));
    while m <= n
        invariant
            1 <= m <= n + 1,
            n <= 12,
            vset(v@) == Set::new(|x: int| 1 <= x < m),
            forall|k: int| 0 <= k < v@.len() ==> 1 <= #[trigger] v@[k] < m,
            v@ == one_to(m - 1),
        decreases n + 1 - m,
    {
        let ghost prev = v@;
        v.push(m);
        proof {
            lemma_vset_push(prev, m);
            assert(vset(v@) =~= Set::new(|x: int| 1 <= x < m + 1));
            assert(v@ =~= one_to(m as int));
        }
        m = m + 1;
    }
    assert(vset(v@) =~= Set::new(|x: int| 1 <= x <= n));
    v
}

/// Every size the day domain of the scope takes over the selected months or
/// quarters (all, when none is selected) and years (a common and a leap
/// year, when they are not enumerable).
fn day_domain_sizes(
    scope: Scope,
    month_set: Option<&Vec<i64>>,
    quarter_set: Option<&Vec<i64>>,
    years: Option<&Vec<i64>>,
) -> (r: Vec<i64>)
    requires
        quarter_set matches Some(qs) ==> forall|k: int| 0 <= k < qs@.len() ==> 1 <= #[trigger] qs@[k] <= 4,
    ensures
        vset(r@) == spec_day_sizes(scope, opt_vset(month_set), opt_vset(quarter_set), opt_vset(years)),
        r@ == spec_day_size_list(scope, opt_seq(month_set), opt_seq(quarter_set), opt_seq(years)),
        forall|k: int| 0 <= k < r@.len() ==> 0 <= #[trigger] r@[k] <= 366,
{
    let mut sizes: Vec<i64> = Vec::new();
    let ghost ys = opt_vset(years);
    let ghost yq = opt_seq(years);
    match scope {
        Scope::Month => {
            let all = all_values(12);
            let months = match month_set {
                Some(m) => m,
                None => &all,
            };
            let ghost ms = vset(months@);
            assert(ms == match opt_vset(month_set) {
                Some(m) => m,
                None => Set::new(|m: int| 1 <= m <= 12),
            });
            let mut i: usize = 0;
            assert(vset(sizes@) =~= Set::new(|z: int| exists|j: int| 0 <= j < i && #[trigger] month_sizes(months@[j] as int, ys).contains(z)));
            assert(months@.take(0) =~= Seq::<i64>::empty());
            while i < months.len()
                invariant
                    i <= months@.len(),
                    ys == opt_vset(years),
                    forall|k: int| 0 <= k < sizes@.len() ==> 0 <= #[trigger] sizes@[k] <= 366,
                    vset(sizes@) == Set::new(|z: int| exists|j: int| 0 <= j < i && #[trigger] month_sizes(months@[j] as int, ys).contains(z)),
                    yq == opt_seq(years),
                    sizes@ == month_lists(months@.take(i as int), yq),
                decreases months@.len() - i,
            {
                let ghost before = vset(sizes@);
                push_month_sizes(&mut sizes, months[i], years);
                proof {
                    assert(months@.take(i + 1).drop_last() =~= months@.take(i as int));
                    assert(vset(sizes@) =~= Set::new(|z: int| exists|j: int| 0 <= j < i + 1 && #[trigger] month_sizes(months@[j] as int, ys).contains(z))) by {
                        assert forall|z: int| #![trigger vset(sizes@).contains(z)] vset(sizes@).contains(z) implies exists|j: int| 0 <= j < i + 1 && #[trigger] month_sizes(months@[j] as int, ys).contains(z) by {
                            if !before.contains(z) {
                                assert(month_sizes(months@[i as int] as int, ys).contains(z));
                            }
                        }
                    }
                }
                i = i + 1;
            }
            proof {
                assert(months@.take(months@.len() as int) =~= months@);
                assert(vset(sizes@) =~= spec_day_sizes(scope, opt_vset(month_set), opt_vset(quarter_set), ys)) by {
                    assert forall|z: int| vset(sizes@).contains(z) <==> spec_day_sizes(scope, opt_vset(month_set), opt_vset(quarter_set), ys).contains(z) by {
                        if vset(sizes@).contains(z) {
                            let j = choose|j: int| 0 <= j < months@.len() && #[trigger] month_sizes(months@[j] as int, ys).contains(z);
                            assert(ms.contains(months@[j] as int));
                        }
                        if spec_day_sizes(scope, opt_vset(month_set), opt_vset(quarter_set), ys).contains(z) {
                            let m = choose|m: int| ms.contains(m) && #[trigger] month_sizes(m, ys).contains(z);
                            let j = choose|j: int| 0 <= j < months@.len() && months@[j] == m;
                            assert(month_sizes(months@[j] as int, ys).contains(z));
                        }
                    }
                }
            }
        },
        Scope::Quarter => {
            let all = all_values(4);
            let quarters = match quarter_set {
                Some(q) => q,
                None => &all,
            };
            let ghost qs = vset(quarters@);
            assert(qs == match opt_vset(quarter_set) {
                Some(q) => q,
                None => Set::new(|q: int| 1 <= q <= 4),
            });
            let mut i: usize = 0;
            assert(vset(sizes@) =~= Set::new(|z: int| exists|j: int| 0 <= j < i && #[trigger] quarter_sizes(quarters@[j] as int, ys).contains(z)));
            assert(quarters@.take(0) =~= Seq::<i64>::empty());
            while i < quarters.len()
                invariant
                    i <= quarters@.len(),
                    ys == opt_vset(years),
                    forall|k: int| 0 <= k < sizes@.len() ==> 0 <= #[trigger] sizes@[k] <= 366,
                    forall|k: int| 0 <= k < quarters@.len() ==> 1 <= #[trigger] quarters@[k] <= 4,
                    vset(sizes@) == Set::new(|z: int| exists|j: int| 0 <= j < i && #[trigger] quarter_sizes(quarters@[j] as int, ys).contains(z)),
                    yq == opt_seq(years),
                    sizes@ == quarter_lists(quarters@.take(i as int), yq),
                decreases quarters@.len() - i,
            {
                let ghost before = vset(sizes@);
                push_quarter_sizes(&mut sizes, quarters[i], years);
                proof {
                    assert(quarters@.take(i + 1).drop_last() =~= quarters@.take(i as int));
                    assert(vset(sizes@) =~= Set::new(|z: int| exists|j: int| 0 <= j < i + 1 && #[trigger] quarter_sizes(quarters@[j] as int, ys).contains(z))) by {
                        assert forall|z: int| #![trigger vset(sizes@).contains(z)] vset(sizes@).contains(z) implies exists|j: int| 0 <= j < i + 1 && #[trigger] quarter_sizes(quarters@[j] as int, ys).contains(z) by {
                            if !before.contains(z) {
                                assert(quarter_sizes(quarters@[i as int] as int, ys).contains(z));
                            }
                        }
                    }
                }
                i = i + 1;
            }
            proof {
                assert(quarters@.take(quarters@.len() as int) =~= quarters@);
                assert(vset(sizes@) =~= spec_day_sizes(scope, opt_vset(month_set), opt_vset(quarter_set), ys)) by {
                    assert forall|z: int| vset(sizes@).contains(z) <==> spec_day_sizes(scope, opt_vset(month_set), opt_vset(quarter_set), ys).contains(z) by {
                        if vset(sizes@).contains(z) {
                            let j = choose|j: int| 0 <= j < quarters@.len() && #[trigger] quarter_sizes(quarters@[j] as int, ys).contains(z);
                            assert(qs.contains(quarters@[j] as int));
                        }
                        if spec_day_sizes(scope, opt_vset(month_set), opt_vset(quarter_set), ys).contains(z) {
                            let q = choose|q: int| qs.contains(q) && #[trigger] quarter_sizes(q, ys).contains(z);
                            let j = choose|j: int| 0 <= j < quarters@.len() && quarters@[j] == q;
                            assert(quarter_sizes(quarters@[j] as int, ys).contains(z));
                        }
                    }
                }
            }
        },
        Scope::Year => match years {
            Some(yv) => {
                let mut k: usize = 0;
                assert(vset(sizes@) =~= Set::new(|z: int| exists|j: int| 0 <= j < k && z == spec_days_in_year(yv@[j] as int)));
                assert(sizes@ =~= Seq::new(0, |j: int| spec_days_in_year(yv@[j] as int) as i64));
                while k < yv.len()
                    invariant
                        k <= yv@.len(),
                        forall|q: int| 0 <= q < sizes@.len() ==> 0 <= #[trigger] sizes@[q] <= 366,
                        vset(sizes@) == Set::new(|z: int| exists|j: int| 0 <= j < k && z == spec_days_in_year(yv@[j] as int)),
                        sizes@ == Seq::new(k as nat, |j: int| spec_days_in_year(yv@[j] as int) as i64),
                    decreases yv@.len() - k,
                {
                    let ghost prev = sizes@;
                    let z = days_in_year(yv[k]);
                    sizes.push(z);
                    proof {
                        lemma_vset_push(prev, z);
                        assert(vset(sizes@) =~= Set::new(|z: int| exists|j: int| 0 <= j < k + 1 && z == spec_days_in_year(yv@[j] as int)));
                        assert(sizes@ =~= Seq::new((k + 1) as nat, |j: int| spec_days_in_year(yv@[j] as int) as i64));
                    }
                    k = k + 1;
                }
                proof {
                    assert(sizes@ =~= year_size_list(yq));
                    assert(vset(sizes@) =~= year_sizes(ys)) by {
                        assert forall|z: int| vset(sizes@).contains(z) <==> year_sizes(ys).contains(z) by {
                            if year_sizes(ys).contains(z) {
                                let y = choose|y: int| vset(yv@).contains(y) && z == spec_days_in_year(y);
                                let j = choose|j: int| 0 <= j < yv@.len() && yv@[j] == y;
                                assert(z == spec_days_in_year(yv@[j] as int));
                            }
                            if vset(sizes@).contains(z) {
                                let j = choose|j: int| 0 <= j < yv@.len() && z == spec_days_in_year(yv@[j] as int);
                                assert(vset(yv@).contains(yv@[j] as int));
                            }
                        }
                    }
                }
            },
            None => {
                sizes.push(365);
                sizes.push(366);
                proof {
                    lemma_vset_push(seq![365i64], 366);
                    lemma_vset_push(Seq::<i64>::empty(), 365);
                    assert(seq![365i64] == Seq::<i64>::empty().push(365));
                    assert(sizes@ == seq![365i64].push(366));
                    assert(vset(Seq::<i64>::empty()) =~= Set::<int>::empty());
                    assert(vset(sizes@) =~= year_sizes(ys));
                    assert(sizes@ =~= year_size_list(yq));
                }
            },
        },
    }
    sizes
}


/// The atoms of a checked selector other than `Y` can be matched in any
/// small domain.
proof fn lemma_checked_atoms(sel: Selector)
    requires
        selector_checked(sel@),
        sel.desig != Desig::Year,
    ensures
        forall|i: int| 0 <= i < sel.atoms@.len() ==> atom_ok(#[trigger] sel.atoms@[i], false),
{
    assert forall|i: int| 0 <= i < sel.atoms@.len() implies atom_ok(#[trigger] sel.atoms@[i], false) by {
        assert(atom_ok(sel@.atoms[i], sel.desig == Desig::Year));
    }
}

/// `p` is the position of a selector of `e`.
pub open spec fn selector_position(e: ExprV, p: usize) -> bool {
    exists|j: int| 0 <= j < e.selectors.len() && (#[trigger] e.selectors[j]).pos == p
}

/// The view of an optional warning.
pub open spec fn warning_view(w: Option<Warning>) -> Option<(usize, Seq<char>)> {
    match w {
        Some(x) => Some(x@),
        None => None,
    }
}

/// Does the selector take a value in a domain `[1, z]` for some `z` of
/// `sizes`?
fn fits_any(sel: &Selector, sizes: &Vec<i64>) -> (r: bool)
    requires
        forall|i: int| 0 <= i < sel.atoms@.len() ==> atom_ok(#[trigger] sel.atoms@[i], false),
        forall|k: int| 0 <= k < sizes@.len() ==> 0 <= #[trigger] sizes@[k] <= 366,
    ensures
        r == fits_some(sel@, vset(sizes@)),
{
    let mut k: usize = 0;
    while k < sizes.len()
        invariant
            k <= sizes@.len(),
            forall|i: int| 0 <= i < sel.atoms@.len() ==> atom_ok(#[trigger] sel.atoms@[i], false),
            forall|q: int| 0 <= q < sizes@.len() ==> 0 <= #[trigger] sizes@[q] <= 366,
            forall|q: int| 0 <= q < k ==> !matches_some(sel@, 1, #[trigger] sizes@[q] as int),
        decreases sizes@.len() - k,
    {
        if matched_values(sel, 1, sizes[k]).len() > 0 {
            assert(vset(sizes@).contains(sizes@[k as int] as int));
            return true;
        }
        k = k + 1;
    }
    proof {
        assert forall|z: int| vset(sizes@).contains(z) implies !#[trigger] matches_some(sel@, 1, z) by {
            let q = choose|q: int| 0 <= q < sizes@.len() && sizes@[q] == z;
            assert(!matches_some(sel@, 1, sizes@[q] as int));
        }
    }
    false
}

/// A fixed-domain selector (Q/M/E/H/m/s) that matches nothing can never be
/// satisfied.
fn fixed_unsat(sel: &Selector) -> (r: Option<Warning>)
    requires
        sel.desig != Desig::Year,
        forall|i: int| 0 <= i < sel.atoms@.len() ==> atom_ok(#[trigger] sel.atoms@[i], false),
    ensures
        warning_view(r) == ({
            let (_, minv, maxv, _) = spec_domain_info(sel.desig, Scope::Month);
            if matches_some(sel@, minv, maxv) {
                None
            } else {
                Some((sel.pos, "unsatisfiable — selector matches nothing in its domain"@))
            }
        }),
{
    let (_, minv, maxv, _) = domain_info(sel.desig, Scope::Month);
    if matched_values(sel, minv, maxv).len() == 0 {
        Some(Warning::new(sel.pos, "unsatisfiable — selector matches nothing in its domain"))
    } else {
        None
    }
}

/// A day selector is unsatisfiable when it is empty against every size its
/// domain can take.
fn day_unsat(
    sel: &Selector,
    expr: &Expr,
    scope: Scope,
    month_set: Option<&Vec<i64>>,
    quarter_set: Option<&Vec<i64>>,
) -> (r: Option<Warning>)
    requires
        syntax_ok(expr@),
        forall|i: int| 0 <= i < sel.atoms@.len() ==> atom_ok(#[trigger] sel.atoms@[i], false),
        quarter_set matches Some(qs) ==> forall|k: int| 0 <= k < qs@.len() ==> 1 <= #[trigger] qs@[k] <= 4,
    ensures
        warning_view(r) == ({
            let years = if expr@.has_week { None } else { spec_enumerate_years(expr@.selectors) };
            let sizes = spec_day_sizes(scope, opt_vset(month_set), opt_vset(quarter_set), years);
            if fits_some(sel@, sizes) {
                None
            } else {
                Some((sel.pos, "unsatisfiable — day never exists in the covered instances"@))
            }
        }),
{
    // With W present, Y is the week-year: day-of-year is cross-selector, so
    // the years stay open.
    let years = if expr.has_week { None } else { enumerate_years(expr) };
    let sizes = day_domain_sizes(scope, month_set, quarter_set, years.as_ref());
    if fits_any(sel, &sizes) {
        None
    } else {
        Some(Warning::new(sel.pos, "unsatisfiable — day never exists in the covered instances"))
    }
}

/// A week selector is unsatisfiable when it is empty against every week
/// count of the week-years.
fn week_unsat(sel: &Selector, expr: &Expr) -> (r: Option<Warning>)
    requires
        syntax_ok(expr@),
        forall|i: int| 0 <= i < sel.atoms@.len() ==> atom_ok(#[trigger] sel.atoms@[i], false),
    ensures
        warning_view(r) == (if fits_some(sel@, week_counts(spec_enumerate_years(expr@.selectors))) {
            None
        } else {
            Some((sel.pos, "unsatisfiable — week never exists in the covered week-years"@))
        }),
{
    // When W is present, Y (if any) is the ISO week-year.
    let counts: Vec<i64> = match enumerate_years(expr) {
        Some(ys) => {
            let mut c: Vec<i64> = Vec::new();
            let mut k: usize = 0;
            assert(vset(c@) =~= Set::new(|z: int| exists|j: int| 0 <= j < k && z == spec_weeks_in_iso_year(ys@[j] as int)));
            while k < ys.len()
                invariant
                    k <= ys@.len(),
                    forall|q: int| 0 <= q < ys@.len() ==> 1 <= #[trigger] ys@[q] <= 10_000_000,
                    forall|q: int| 0 <= q < c@.len() ==> 0 <= #[trigger] c@[q] <= 366,
                    vset(c@) == Set::new(|z: int| exists|j: int| 0 <= j < k && z == spec_weeks_in_iso_year(ys@[j] as int)),
                decreases ys@.len() - k,
            {
                let ghost prev = c@;
                let w = weeks_in_iso_year(ys[k]);
                c.push(w);
                proof {
                    lemma_vset_push(prev, w);
                    assert(vset(c@) =~= Set::new(|z: int| exists|j: int| 0 <= j < k + 1 && z == spec_weeks_in_iso_year(ys@[j] as int)));
                }
                k = k + 1;
            }
            proof {
                let yset = vset(ys@);
                assert(vset(c@) =~= week_counts(Some(yset))) by {
                    assert forall|z: int| vset(c@).contains(z) <==> week_counts(Some(yset)).contains(z) by {
                        if week_counts(Some(yset)).contains(z) {
                            let y = choose|y: int| yset.contains(y) && z == spec_weeks_in_iso_year(y);
                            let j = choose|j: int| 0 <= j < ys@.len() && ys@[j] == y;
                            assert(z == spec_weeks_in_iso_year(ys@[j] as int));
                        }
                        if vset(c@).contains(z) {
                            let j = choose|j: int| 0 <= j < ys@.len() && z == spec_weeks_in_iso_year(ys@[j] as int);
                            assert(yset.contains(ys@[j] as int));
                        }
                    }
                }
            }
            c
        },
        None => {
            let c = vec![52, 53];
            proof {
                assert(c@ == seq![52i64, 53i64]);
                assert(vset(c@) =~= week_counts(None)) by {
                    assert(c@[0] == 52 && c@[1] == 53);
                }
            }
            c
        },
    };
    if fits_any(sel, &counts) {
        None
    } else {
        Some(Warning::new(sel.pos, "unsatisfiable — week never exists in the covered week-years"))
    }
}

/// Does `v` hold `x`?
fn holds_value(v: &Vec<i64>, x: i64) -> (r: bool)
    ensures
        r == vset(v@).contains(x as int),
{
    let mut k: usize = 0;
    while k < v.len()
        invariant
            k <= v@.len(),
            forall|q: int| 0 <= q < k ==> v@[q] != x,
        decreases v@.len() - k,
    {
        if v[k] == x {
            return true;
        }
        k = k + 1;
    }
    false
}

/// The month and quarter selectors take no month in common.
fn disjoint_months(ms: &Vec<i64>, qs: &Vec<i64>) -> (r: bool)
    requires
        forall|k: int| 0 <= k < ms@.len() ==> 1 <= #[trigger] ms@[k] <= 12,
    ensures
        r == months_disjoint(vset(ms@), vset(qs@)),
{
    if ms.len() == 0 {
        assert(!exists|m: int| vset(ms@).contains(m));
        return false;
    }
    if qs.len() == 0 {
        assert(vset(ms@).contains(ms@[0] as int));
        assert(!exists|q: int| vset(qs@).contains(q));
        return false;
    }
    assert(vset(ms@).contains(ms@[0] as int));
    assert(vset(qs@).contains(qs@[0] as int));
    let mut k: usize = 0;
    while k < ms.len()
        invariant
            k <= ms@.len(),
            forall|q: int| 0 <= q < ms@.len() ==> 1 <= #[trigger] ms@[q] <= 12,
            forall|q: int| 0 <= q < k ==> !vset(qs@).contains((#[trigger] ms@[q] - 1) / 3 + 1),
        decreases ms@.len() - k,
    {
        let m = ms[k];
        if holds_value(qs, (m - 1) / 3 + 1) {
            assert(vset(ms@).contains(m as int));
            return false;
        }
        k = k + 1;
    }
    proof {
        assert forall|m: int| vset(ms@).contains(m) implies !vset(qs@).contains((m - 1) / 3 + 1) by {
            let q = choose|q: int| 0 <= q < ms@.len() && ms@[q] == m;
            assert(!vset(qs@).contains((ms@[q] - 1) / 3 + 1));
        }
    }
    true
}

/// The satisfiability warnings of a validated expression.
fn warnings(expr: &Expr, scope: Scope) -> (r: Vec<Warning>)
    requires
        syntax_ok(expr@),
        forall|k: int| 0 <= k < expr@.selectors.len() ==> selector_checked(#[trigger] expr@.selectors[k]),
    ensures
        r@.map_values(|w: Warning| w@) == spec_warnings(expr@, scope),
        forall|q: int| 0 <= q < r@.len() ==> selector_position(expr@, (#[trigger] r@[q]).pos),
{
    let ghost sels = expr@.selectors;
    proof {
        assert(sels == expr.selectors@.map_values(|s: Selector| s@));
    }
    proof {
        lemma_first_desig(sels, Desig::Month, 0);
        lemma_first_desig(sels, Desig::Quarter, 0);
    }
    let month_set = match find_desig(&expr.selectors, Desig::Month) {
        Some(i) => {
            assert(sels[i as int] == expr.selectors@[i as int]@);
            proof {
                lemma_checked_atoms(expr.selectors@[i as int]);
            }
            Some(matched_values(&expr.selectors[i], 1, 12))
        },
        None => None,
    };
    let quarter_set = match find_desig(&expr.selectors, Desig::Quarter) {
        Some(i) => {
            assert(sels[i as int] == expr.selectors@[i as int]@);
            proof {
                lemma_checked_atoms(expr.selectors@[i as int]);
            }
            Some(matched_values(&expr.selectors[i], 1, 4))
        },
        None => None,
    };
    let ms_ref = month_set.as_ref();
    let qs_ref = quarter_set.as_ref();
    proof {
        assert(opt_vset(ms_ref) == value_set(sels, Desig::Month, 12));
        assert(opt_vset(qs_ref) == value_set(sels, Desig::Quarter, 4));
    }
    let ghost each = sels.map_values(|s: SelectorV| spec_selector_warning(s, expr@, scope));
    let mut ws: Vec<Warning> = Vec::new();
    let mut k: usize = 0;
    assert(each.subrange(0, 0) =~= Seq::<Option<(usize, Seq<char>)>>::empty());
    assert(ws@.map_values(|w: Warning| w@) =~= Seq::<(usize, Seq<char>)>::empty());
    while k < expr.selectors.len()
        invariant
            k <= sels.len(),
            sels == expr@.selectors,
            sels == expr.selectors@.map_values(|s: Selector| s@),
            syntax_ok(expr@),
            forall|q: int| 0 <= q < sels.len() ==> selector_checked(#[trigger] sels[q]),
            each == sels.map_values(|s: SelectorV| spec_selector_warning(s, expr@, scope)),
            opt_vset(ms_ref) == value_set(sels, Desig::Month, 12),
            opt_vset(qs_ref) == value_set(sels, Desig::Quarter, 4),
            ms_ref matches Some(ms) ==> forall|q: int| 0 <= q < ms@.len() ==> 1 <= #[trigger] ms@[q] <= 12,
            qs_ref matches Some(qs) ==> forall|q: int| 0 <= q < qs@.len() ==> 1 <= #[trigger] qs@[q] <= 4,
            ws@.map_values(|w: Warning| w@) == somes(each.subrange(0, k as int)),
            forall|q: int| 0 <= q < ws@.len() ==> selector_position(expr@, (#[trigger] ws@[q]).pos),
        decreases sels.len() - k,
    {
        let sel = &expr.selectors[k];
        assert(sels[k as int] == sel@);
        assert(selector_checked(sel@));
        assert(forall|i: int| 0 <= i < sel.atoms@.len() ==> atom_ok(#[trigger] sel.atoms@[i], false)) by {
            assert forall|i: int| 0 <= i < sel.atoms@.len() implies atom_ok(#[trigger] sel.atoms@[i], false) by {
                assert(atom_ok(sel@.atoms[i], sel.desig == Desig::Year));
            }
        }
        let w = if sel.desig == Desig::Year {
            None
        } else if sel.desig == Desig::Weekday && sel.ordinal.is_some() {
            None
        } else if sel.desig == Desig::Day {
            day_unsat(sel, expr, scope, ms_ref, qs_ref)
        } else if sel.desig == Desig::Week {
            week_unsat(sel, expr)
        } else {
            fixed_unsat(sel)
        };
        assert(warning_view(w) == each[k as int]);
        let ghost before = ws@.map_values(|w: Warning| w@);
        proof {
            assert(each.subrange(0, k + 1).drop_last() =~= each.subrange(0, k as int));
            assert(each.subrange(0, k + 1).last() == each[k as int]);
        }
        match w {
            Some(x) => {
                let ghost xv = x@;
                assert(x.pos == sels[k as int].pos);
                let ghost prev = ws@;
                ws.push(x);
                proof {
                    assert(ws@.map_values(|w: Warning| w@) =~= before.push(xv));
                    assert forall|q: int| 0 <= q < ws@.len() implies selector_position(expr@, (#[trigger] ws@[q]).pos) by {
                        if q < prev.len() {
                            assert(ws@[q] == prev[q]);
                        } else {
                            assert(sels[k as int].pos == ws@[q].pos);
                        }
                    }
                }
            },
            None => {},
        }
        k = k + 1;
    }
    proof {
        assert(each.subrange(0, sels.len() as int) =~= each);
    }
    // Month and quarter selectors that share no month.
    if let (Some(ms), Some(qs)) = (ms_ref, qs_ref) {
        if disjoint_months(ms, qs) {
            let pos = match find_desig(&expr.selectors, Desig::Month) {
                Some(i) => {
                    assert(sels[i as int] == expr.selectors@[i as int]@);
                    expr.selectors[i].pos
                },
                None => 0,
            };
            let ghost prev = ws@;
            proof {
                assert(value_set(sels, Desig::Month, 12) == Some(vset(ms@)));
                assert(value_set(sels, Desig::Quarter, 4) == Some(vset(qs@)));
                let mset = vset(ms@);
                let qset = vset(qs@);
                assert(value_set(expr@.selectors, Desig::Month, 12) == Some(mset));
                assert(value_set(expr@.selectors, Desig::Quarter, 4) == Some(qset));
                assert(expr@.selectors[first_desig(expr@.selectors, Desig::Month, 0)->0].pos == pos);
                assert(spec_disjoint_warning(expr@) is Some);
                assert(spec_disjoint_warning(expr@) == Some((pos, "unsatisfiable — M and Q select disjoint months"@)));
            }
            let ghost before = ws@.map_values(|w: Warning| w@);
            let x = Warning::new(pos, "unsatisfiable — M and Q select disjoint months");
            ws.push(x);
            proof {
                assert(ws@.map_values(|w: Warning| w@) =~= before.push(x@));
                assert(ws@.map_values(|w: Warning| w@) =~= spec_warnings(expr@, scope));
                let fi = first_desig(sels, Desig::Month, 0)->0;
                assert forall|q: int| 0 <= q < ws@.len() implies selector_position(expr@, (#[trigger] ws@[q]).pos) by {
                    if q < prev.len() {
                        assert(ws@[q] == prev[q]);
                    } else {
                        assert(sels[fi].pos == ws@[q].pos);
                    }
                }
            }
            return ws;
        }
    }
    proof {
        assert(ws@.map_values(|w: Warning| w@) =~= spec_warnings(expr@, scope));
    }
    ws
}

/// Run the hard validation (errors) on one branch, then collect its
/// warnings.
pub fn check(expr: &Expr) -> (r: Result<Vec<Warning>, ParseError>)
    requires
        syntax_ok(expr@),
    ensures
        match spec_check(expr@) {
            Ok(ws) => r matches Ok(v) && v@.map_values(|w: Warning| w@) == ws,
            Err((p, m)) => r matches Err(e) && e.pos as int == p && e.message@ == m,
        },
        r is Ok ==> expr_ok(expr@),
        r matches Err(e) ==> selector_position(expr@, e.pos),
        r matches Ok(v) ==> forall|q: int| 0 <= q < v@.len() ==> selector_position(expr@, (#[trigger] v@[q]).pos),
{
    let scope = scope_of(expr);
    let ghost sels = expr@.selectors;
    let ghost errs = sels.map_values(|s: SelectorV| selector_error(s, scope));
    let mut k: usize = 0;
    while k < expr.selectors.len()
        invariant
            k <= sels.len(),
            sels == expr@.selectors,
            syntax_ok(expr@),
            scope == spec_scope_of(sels),
            errs == sels.map_values(|s: SelectorV| selector_error(s, scope)),
            first_some(errs, 0) == first_some(errs, k as int),
            forall|q: int| 0 <= q < k ==> selector_checked(#[trigger] sels[q]),
        decreases sels.len() - k,
    {
        let sel = &expr.selectors[k];
        assert(sels[k as int] == sel@);
        assert(selector_syntax_ok(sel@));
        assert(errs[k as int] == selector_error(sel@, scope));
        let checked = if sel.desig == Desig::Year {
            check_year(sel)
        } else {
            check_selector(sel, scope)
        };
        if let Err(e) = checked {
            assert(sels[k as int].pos == e.pos);
            return Err(e);
        }
        k = k + 1;
    }
    proof {
        assert forall|q: int| 0 <= q < sels.len() implies selector_ok(#[trigger] sels[q]) by {
            assert(selector_checked(sels[q]));
            assert(selector_syntax_ok(sels[q]));
        }
    }
    Ok(warnings(expr, scope))
}

} // verus!
