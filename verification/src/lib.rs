//! DTRExp: a compact string expression for date-time ranges and recurrence,
//! evaluated by coverage ("is this instant inside the set?") rather than by
//! enumeration.
//!
//! Instants are milliseconds since the Unix epoch (UTC). The evaluation time
//! zone is a parameter; the default is [`Tz::utc`].

mod arith;
pub mod ast;
pub mod civil;
pub mod error;
pub mod eval;
pub mod grammar;
pub mod laws;
pub mod parser;
mod text;
pub mod tz;
pub mod validate;

pub use error::{ParseError, UnknownTimeZone, Warning};
pub use tz::Tz;

use vstd::prelude::*;
use vstd::string::StringSliceAdditionalSpecFns;

use crate::ast::{Expr, ExprV};
use crate::eval::{
    expr_covers, expr_ok, has_absolute_cadence, host_observation, instant_in_reach,
    spec_expr_covers, table_covers, ANCHOR_MARGIN_MS, MAX_INSTANT_MS, OFFSET_MARGIN_MS,
};
use crate::grammar::{parsed_ok, positions_within, spec_parse_branches};
use crate::tz::{spec_load, spec_parse_tzif, table_sorted, OffsetSource};
use crate::validate::{check, selector_position, spec_check};

verus! {

/// The branches' checks in order: the first error, else all their warnings.
pub open spec fn spec_check_all(brs: Seq<ExprV>, k: int) -> Result<Seq<(usize, Seq<char>)>, (int, Seq<char>)>
    decreases brs.len() - k,
{
    if k < 0 || k >= brs.len() {
        Ok(Seq::empty())
    } else {
        match spec_check(brs[k]) {
            Err(x) => Err(x),
            Ok(ws) => match spec_check_all(brs, k + 1) {
                Err(x) => Err(x),
                Ok(rest) => Ok(ws + rest),
            },
        }
    }
}

/// What parsing the input bytes `b` gives: its branches and their warnings,
/// or the first error.
pub open spec fn spec_parse(b: Seq<u8>) -> Result<(Seq<ExprV>, Seq<(usize, Seq<char>)>), (int, Seq<char>)> {
    match spec_parse_branches(b) {
        Err(x) => Err(x),
        Ok(brs) => match spec_check_all(brs, 0) {
            Err(x) => Err(x),
            Ok(ws) => Ok((brs, ws)),
        },
    }
}

/// Every branch of `brs` is evaluated at the instant.
pub open spec fn in_reach(brs: Seq<ExprV>, instant_ms: int) -> bool {
    forall|k: int| 0 <= k < brs.len() ==> instant_in_reach(#[trigger] brs[k], instant_ms)
}

/// Some branch of `brs` has a cadence whose anchor resolves through the zone.
pub open spec fn any_absolute(brs: Seq<ExprV>) -> bool {
    exists|k: int| 0 <= k < brs.len() && has_absolute_cadence(#[trigger] brs[k])
}

/// Coverage by a union of branches in a table zone.
pub open spec fn branches_cover(brs: Seq<ExprV>, instant_ms: int, ts: Seq<(i64, i32)>, first: i32) -> bool {
    exists|k: int| 0 <= k < brs.len() && table_covers(#[trigger] brs[k], instant_ms, ts, first)
}

/// Some observation of the zone (an offset, an anchor resolution) leaves
/// the instant uncovered by the branch `e`.
pub open spec fn may_miss(e: ExprV, instant_ms: int) -> bool {
    exists|off: i32, ai: i64| !spec_expr_covers(e, instant_ms, off as int, ai as int)
}

/// Some observation of the zone has the branch `e` cover the instant.
pub open spec fn may_cover(e: ExprV, instant_ms: int) -> bool {
    exists|off: i32, ai: i64| spec_expr_covers(e, instant_ms, off as int, ai as int)
}

/// In the host zone `tz`, the branch `e` covers the instant under some
/// offset the host lookup may answer for it (and some instant it may
/// resolve the cadence anchor to).
pub open spec fn host_may_cover<H: OffsetSource>(e: ExprV, instant_ms: i64, tz: Tz<H>) -> bool {
    exists|off: i32, ai: i64| host_observation(e, instant_ms, tz, off, ai) && spec_expr_covers(e, instant_ms as int, off as int, ai as int)
}

/// In the host zone `tz`, the branch `e` misses the instant under some
/// offset the host lookup may answer for it (and some instant it may
/// resolve the cadence anchor to).
pub open spec fn host_may_miss<H: OffsetSource>(e: ExprV, instant_ms: i64, tz: Tz<H>) -> bool {
    exists|off: i32, ai: i64| host_observation(e, instant_ms, tz, off, ai) && !spec_expr_covers(e, instant_ms as int, off as int, ai as int)
}

/// A TZif entry whose transitions, when a cadence needs them to resolve
/// wall-clock times, come in ascending order.
pub open spec fn entry_fits(d: Seq<u8>, needs_order: bool) -> bool {
    needs_order ==> (spec_parse_tzif(d) matches Ok((ts, _)) ==> table_sorted(ts))
}

/// A parsed, validated DTRExp.
#[derive(Debug)]
pub struct Dtrexp {
    branches: Vec<Expr>,
    warnings: Vec<Warning>,
}

impl View for Dtrexp {
    type V = (Seq<ExprV>, Seq<(usize, Seq<char>)>);

    closed spec fn view(&self) -> (Seq<ExprV>, Seq<(usize, Seq<char>)>) {
        (self.branches@.map_values(|e: Expr| e@), self.warnings@.map_values(|w: Warning| w@))
    }
}

impl Clone for Dtrexp {
    fn clone(&self) -> (r: Dtrexp)
        ensures
            r@ == self@,
    {
        proof {
            use_type_invariant(self);
        }
        let branches = self.branches.clone();
        let warnings = self.warnings.clone();
        assert(branches@.map_values(|e: Expr| e@) =~= self.branches@.map_values(|e: Expr| e@)) by {
            assert forall|i: int| 0 <= i < branches@.len() implies #[trigger] branches@[i]@ == self.branches@[i]@ by {
                assert(cloned::<Expr>(self.branches@[i], branches@[i]));
            }
        }
        assert(warnings@.map_values(|w: Warning| w@) =~= self.warnings@.map_values(|w: Warning| w@)) by {
            assert forall|i: int| 0 <= i < warnings@.len() implies #[trigger] warnings@[i]@ == self.warnings@[i]@ by {
                assert(cloned::<Warning>(self.warnings@[i], warnings@[i]));
            }
        }
        Dtrexp { branches, warnings }
    }
}

impl Dtrexp {
    /// Every branch parsed and passed validation.
    #[verifier::type_invariant]
    closed spec fn inv(self) -> bool {
        forall|k: int| 0 <= k < self.branches@.len() ==> expr_ok(#[trigger] self.branches@[k]@)
    }

    /// Does some branch carry a cadence with an hour or minute period, whose
    /// anchor is resolved through the evaluation zone?
    pub fn resolves_wall_clock(&self) -> (r: bool)
        ensures
            r == any_absolute(self@.0),
    {
        let ghost brs = self@.0;
        let mut k: usize = 0;
        while k < self.branches.len()
            invariant
                k <= self.branches@.len(),
                brs == self@.0,
                brs == self.branches@.map_values(|e: Expr| e@),
                forall|q: int| 0 <= q < k ==> !has_absolute_cadence(#[trigger] brs[q]),
            decreases self.branches@.len() - k,
        {
            assert(brs[k as int] == self.branches@[k as int]@);
            if let Some(c) = &self.branches[k].cadence {
                if !c.period_unit.is_calendar() {
                    assert(has_absolute_cadence(brs[k as int]));
                    return true;
                }
            }
            k = k + 1;
        }
        false
    }

    /// Is every branch evaluated at the instant? Branches with a calendar
    /// cadence take instants up to [`MAX_INSTANT_MS`] either side of the
    /// epoch; others every instant whose local times (and hour or minute
    /// cadence anchor distances) stay inside `i64`.
    pub fn reaches(&self, instant_ms: i64) -> (r: bool)
        ensures
            r == in_reach(self@.0, instant_ms as int),
    {
        let ghost brs = self@.0;
        let mut k: usize = 0;
        while k < self.branches.len()
            invariant
                k <= self.branches@.len(),
                brs == self@.0,
                brs == self.branches@.map_values(|e: Expr| e@),
                forall|q: int| 0 <= q < k ==> instant_in_reach(#[trigger] brs[q], instant_ms as int),
            decreases self.branches@.len() - k,
        {
            assert(brs[k as int] == self.branches@[k as int]@);
            let (calendar, absolute) = match &self.branches[k].cadence {
                Some(c) => (c.period_unit.is_calendar(), !c.period_unit.is_calendar()),
                None => (false, false),
            };
            let ok = if calendar {
                -MAX_INSTANT_MS <= instant_ms && instant_ms <= MAX_INSTANT_MS
            } else if absolute {
                i64::MIN + ANCHOR_MARGIN_MS <= instant_ms && instant_ms <= i64::MAX - ANCHOR_MARGIN_MS
            } else {
                i64::MIN + OFFSET_MARGIN_MS <= instant_ms && instant_ms <= i64::MAX - OFFSET_MARGIN_MS
            };
            if !ok {
                return false;
            }
            k = k + 1;
        }
        true
    }

    /// Static-validation warnings (unsatisfiable selectors). Empty for a
    /// clean expression.
    pub fn warnings(&self) -> (r: &[Warning])
        ensures
            r@.map_values(|w: Warning| w@) == self@.1,
    {
        self.warnings.as_slice()
    }

    /// Does the expression cover `instant_ms` (ms since the Unix epoch) in
    /// the preloaded zone `tz`? Any branch covering it suffices. In a
    /// transition-table zone the answer is exactly the union of the
    /// branches' coverage; through a host offset callback each branch is
    /// evaluated with what the callback reports.
    pub fn covers_in<H: OffsetSource>(&self, instant_ms: i64, tz: &Tz<H>) -> (r: bool)
        requires
            in_reach(self@.0, instant_ms as int),
            tz.well_formed() || !any_absolute(self@.0),
        ensures
            !tz.is_host() && table_sorted(tz.table()) ==> r == branches_cover(self@.0, instant_ms as int, tz.table(), tz.first()),
            r ==> exists|k: int| 0 <= k < self@.0.len() && may_cover(#[trigger] self@.0[k], instant_ms as int),
            !r ==> forall|k: int| 0 <= k < self@.0.len() ==> may_miss(#[trigger] self@.0[k], instant_ms as int),
            tz.is_host() && r ==> exists|k: int| 0 <= k < self@.0.len() && host_may_cover(#[trigger] self@.0[k], instant_ms, *tz),
            tz.is_host() && !r ==> forall|k: int| 0 <= k < self@.0.len() ==> host_may_miss(#[trigger] self@.0[k], instant_ms, *tz),
    {
        proof {
            use_type_invariant(self);
        }
        let ghost brs = self@.0;
        let mut k: usize = 0;
        while k < self.branches.len()
            invariant
                k <= self.branches@.len(),
                brs == self@.0,
                brs == self.branches@.map_values(|e: Expr| e@),
                forall|q: int| 0 <= q < self.branches@.len() ==> expr_ok(#[trigger] self.branches@[q]@),
                in_reach(brs, instant_ms as int),
                tz.well_formed() || !any_absolute(brs),
                forall|q: int| 0 <= q < k ==> may_miss(#[trigger] brs[q], instant_ms as int),
                tz.is_host() ==> forall|q: int| 0 <= q < k ==> host_may_miss(#[trigger] brs[q], instant_ms, *tz),
                !tz.is_host() && table_sorted(tz.table()) ==> forall|q: int| 0 <= q < k ==> !table_covers(#[trigger] brs[q], instant_ms as int, tz.table(), tz.first()),
            decreases self.branches@.len() - k,
        {
            let b = &self.branches[k];
            assert(brs[k as int] == b@);
            assert(tz.well_formed() || !has_absolute_cadence(b@));
            let hit = expr_covers(b, instant_ms, tz);
            let ghost (o, a) = choose|off: i32, ai: i64| hit == spec_expr_covers(b@, instant_ms as int, off as int, ai as int);
            if hit {
                assert(spec_expr_covers(brs[k as int], instant_ms as int, o as int, a as int));
                assert(may_cover(brs[k as int], instant_ms as int));
                proof {
                    if tz.is_host() {
                        let (o2, a2) = choose|off: i32, ai: i64|
                            host_observation(b@, instant_ms, *tz, off, ai) && hit == spec_expr_covers(b@, instant_ms as int, off as int, ai as int);
                        assert(host_may_cover(brs[k as int], instant_ms, *tz));
                    }
                }
                return true;
            }
            assert(!spec_expr_covers(brs[k as int], instant_ms as int, o as int, a as int));
            assert(may_miss(brs[k as int], instant_ms as int));
            proof {
                if tz.is_host() {
                    let (o2, a2) = choose|off: i32, ai: i64|
                        host_observation(b@, instant_ms, *tz, off, ai) && hit == spec_expr_covers(b@, instant_ms as int, off as int, ai as int);
                    assert(host_may_miss(brs[k as int], instant_ms, *tz));
                }
            }
            k = k + 1;
        }
        assert(k == brs.len());
        false
    }

    /// Does the expression cover `instant_ms` in the IANA zone `tz_id`, whose
    /// zone-database entry is `entry` (the bytes of the TZif file of that
    /// name, `None` when there is none)? An empty identifier, `"UTC"` and
    /// `"Etc/UTC"` select UTC without any entry. Fails with
    /// [`UnknownTimeZone`] exactly when the identifier does not resolve.
    pub fn covers(&self, instant_ms: i64, tz_id: &str, entry: Option<&[u8]>) -> (r: Result<bool, UnknownTimeZone>)
        requires
            in_reach(self@.0, instant_ms as int),
            entry matches Some(d) ==> entry_fits(d@, any_absolute(self@.0)),
        ensures
            match spec_load(tz_id@, match entry { Some(d) => Some(d@), None => None }) {
                Ok((ts, first)) => r matches Ok(b) && (table_sorted(ts) ==> b == branches_cover(self@.0, instant_ms as int, ts, first)),
                Err(m) => r matches Err(e) && e@ == (tz_id@, m),
            },
    {
        let tz = Tz::load_entry(tz_id, entry)?;
        proof {
            if !tz.well_formed() {
                assert(!any_absolute(self@.0));
            }
        }
        Ok(self.covers_in(instant_ms, &tz))
    }
}

/// Parse and statically validate a DTRExp string. Returns a positioned
/// [`ParseError`] for syntactically or statically invalid input; on success,
/// non-fatal diagnostics are available through [`Dtrexp::warnings`].
pub fn parse(input: &str) -> (r: Result<Dtrexp, ParseError>)
    ensures
        match spec_parse(input.spec_bytes()) {
            Ok(v) => r matches Ok(d) && d@ == v,
            Err((p, m)) => r matches Err(e) && e.pos as int == p && e.message@ == m,
        },
        r matches Err(e) ==> e.pos <= input.spec_bytes().len(),
        r matches Ok(d) ==> forall|q: int| 0 <= q < d@.1.len() ==> (#[trigger] d@.1[q]).0 < input.spec_bytes().len(),
        r matches Ok(d) ==> forall|k: int| 0 <= k < d@.0.len() ==> parsed_ok(#[trigger] d@.0[k]) && expr_ok(d@.0[k]),
{
    let branches = parser::parse_branches(input)?;
    let ghost brs = branches@.map_values(|e: Expr| e@);
    let mut warnings: Vec<Warning> = Vec::new();
    let mut k: usize = 0;
    assert(warnings@.map_values(|w: Warning| w@) =~= Seq::<(usize, Seq<char>)>::empty());
    let ghost n = input.spec_bytes().len();
    while k < branches.len()
        invariant
            k <= branches@.len(),
            n == input.spec_bytes().len(),
            spec_parse_branches(input.spec_bytes()) == Ok::<Seq<ExprV>, (int, Seq<char>)>(brs),
            brs == branches@.map_values(|e: Expr| e@),
            forall|q: int| 0 <= q < branches@.len() ==> positions_within(#[trigger] branches@[q]@, n as int),
            forall|q: int| 0 <= q < warnings@.len() ==> (#[trigger] warnings@[q]).pos < n,
            forall|q: int| 0 <= q < branches@.len() ==> parsed_ok(#[trigger] branches@[q]@),
            forall|q: int| 0 <= q < k ==> expr_ok(#[trigger] branches@[q]@),
            spec_check_all(brs, 0) == match spec_check_all(brs, k as int) {
                Err(x) => Err(x),
                Ok(rest) => Ok(warnings@.map_values(|w: Warning| w@) + rest),
            },
        decreases branches@.len() - k,
    {
        assert(brs[k as int] == branches@[k as int]@);
        assert(positions_within(branches@[k as int]@, n as int));
        let ws = match check(&branches[k]) {
            Ok(ws) => ws,
            Err(e) => {
                return Err(e);
            },
        };
        assert(forall|q: int| 0 <= q < ws@.len() ==> (#[trigger] ws@[q]).pos < n) by {
            assert forall|q: int| 0 <= q < ws@.len() implies (#[trigger] ws@[q]).pos < n by {
                assert(selector_position(branches@[k as int]@, ws@[q].pos));
            }
        }
        let ghost prev_w = warnings@;
        let ghost before = warnings@.map_values(|w: Warning| w@);
        let ghost added = ws@.map_values(|w: Warning| w@);
        let mut ws = ws;
        warnings.append(&mut ws);
        proof {
            assert forall|q: int| 0 <= q < warnings@.len() implies (#[trigger] warnings@[q]).pos < n by {
                if q < prev_w.len() {
                    assert(warnings@[q] == prev_w[q]);
                }
            }
            assert(warnings@.map_values(|w: Warning| w@) =~= before + added);
            assert(before + added + Seq::<(usize, Seq<char>)>::empty() =~= before + added);
            match spec_check_all(brs, k + 1) {
                Ok(rest) => {
                    assert(before + (added + rest) =~= (before + added) + rest);
                },
                Err(_) => {},
            }
        }
        k = k + 1;
    }
    proof {
        assert(warnings@.map_values(|w: Warning| w@) + Seq::<(usize, Seq<char>)>::empty() =~= warnings@.map_values(|w: Warning| w@));
    }
    let d = Dtrexp { branches, warnings };
    proof {
        assert forall|q: int| 0 <= q < d@.0.len() implies parsed_ok(#[trigger] d@.0[q]) && expr_ok(d@.0[q]) by {
            assert(d@.0[q] == d.branches@[q]@);
        }
    }
    Ok(d)
}

/// Parse and return only the warnings (errors are still returned as `Err`):
/// the same warnings as [`Dtrexp::warnings`] of [`parse`].
pub fn validate(input: &str) -> (r: Result<Vec<Warning>, ParseError>)
    ensures
        match spec_parse(input.spec_bytes()) {
            Ok((_, ws)) => r matches Ok(v) && v@.map_values(|w: Warning| w@) == ws,
            Err((p, m)) => r matches Err(e) && e.pos as int == p && e.message@ == m,
        },
{
    let d = parse(input)?;
    proof {
        use_type_invariant(&d);
    }
    Ok(d.warnings)
}

} // verus!
