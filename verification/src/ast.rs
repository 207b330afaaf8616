//! The parsed abstract syntax of a DTRExp expression.

use vstd::prelude::*;

use crate::civil::Naive;

verus! {

/// The nine field designators (`T` is modelled separately as [`TimeSel`]).
#[derive(Clone, Copy, Debug, PartialEq, Eq, Structural)]
pub enum Desig {
    Year,
    Quarter,
    Month,
    Week,
    Day,
    Weekday,
    Hour,
    Minute,
    Second,
}

/// One endpoint of a range: a literal value (possibly negative) or `*` (edge).
#[derive(Clone, Copy, Debug, PartialEq, Eq, Structural)]
pub enum Endpoint {
    Value(i64),
    Star,
}

/// A single item within a selector's value list.
#[derive(Clone, Copy, Debug, PartialEq, Eq, Structural)]
pub enum Atom {
    /// The whole domain (`M*`).
    All,
    /// A single value; negative counts back from the parent instance's edge.
    Single(i64),
    /// An inclusive range. `wrap` is decided syntactically at parse time (only
    /// when both endpoints are literal non-negative and start > end).
    Range { start: Endpoint, end: Endpoint, wrap: bool },
    /// A stride: from `start`, every `interval`-th unit, covering `duration`,
    /// stopping at `end`.
    Stride { start: i64, end: Endpoint, interval: i64, duration: i64 },
}

/// A field selector such as `M3:7`, `D-7:*`, `E7#-1`, `H0/4`.
#[derive(Debug)]
pub struct Selector {
    pub desig: Desig,
    /// The value list (empty when `ordinal` is set).
    pub atoms: Vec<Atom>,
    /// `!` exclusion: the covered set is the domain minus `atoms`.
    pub exclude: bool,
    /// `E`-only weekday ordinal: `(weekday 1-7, ord in -5..-1|1..5)`.
    pub ordinal: Option<(i64, i64)>,
    /// Byte offset of this component (for diagnostics).
    pub pos: usize,
}

/// The mathematical content of a [`Selector`].
pub struct SelectorV {
    pub desig: Desig,
    pub atoms: Seq<Atom>,
    pub exclude: bool,
    pub ordinal: Option<(i64, i64)>,
    pub pos: usize,
}

impl View for Selector {
    type V = SelectorV;

    open spec fn view(&self) -> SelectorV {
        SelectorV {
            desig: self.desig,
            atoms: self.atoms@,
            exclude: self.exclude,
            ordinal: self.ordinal,
            pos: self.pos,
        }
    }
}

/// A half-open time-of-day interval in milliseconds since local midnight.
/// `end` may equal one day (the `2400` token).
#[derive(Clone, Copy, Debug)]
pub struct TimeInterval {
    pub start: i64,
    pub end: i64,
    pub wrap: bool,
}

/// The `T` time-of-day component.
#[derive(Debug)]
pub struct TimeSel {
    pub intervals: Vec<TimeInterval>,
}

impl Clone for Selector {
    fn clone(&self) -> (r: Selector)
        ensures
            r@ == self@,
    {
        let atoms = self.atoms.clone();
        assert(atoms@ =~= self.atoms@);
        Selector { desig: self.desig, atoms, exclude: self.exclude, ordinal: self.ordinal, pos: self.pos }
    }
}

impl Clone for TimeSel {
    fn clone(&self) -> (r: TimeSel)
        ensures
            r@ == self@,
    {
        let intervals = self.intervals.clone();
        assert(intervals@ =~= self.intervals@);
        TimeSel { intervals }
    }
}

impl View for TimeSel {
    type V = Seq<TimeInterval>;

    open spec fn view(&self) -> Seq<TimeInterval> {
        self.intervals@
    }
}

#[derive(Clone, Copy, Debug, PartialEq, Eq, Structural)]
pub enum CadUnit {
    Year,
    Month,
    Week,
    Day,
    Hour,
    Minute,
}

impl CadUnit {
    pub open spec fn spec_is_month_or_year(self) -> bool {
        self == CadUnit::Year || self == CadUnit::Month
    }

    pub open spec fn spec_is_calendar(self) -> bool {
        self == CadUnit::Year || self == CadUnit::Month || self == CadUnit::Week || self
            == CadUnit::Day
    }

    pub fn is_month_or_year(self) -> (r: bool)
        ensures
            r == self.spec_is_month_or_year(),
    {
        match self {
            CadUnit::Year | CadUnit::Month => true,
            _ => false,
        }
    }

    pub fn is_calendar(self) -> (r: bool)
        ensures
            r == self.spec_is_calendar(),
    {
        match self {
            CadUnit::Year | CadUnit::Month | CadUnit::Week | CadUnit::Day => true,
            _ => false,
        }
    }
}

/// An anchor-based cadence such as `20200106/10D/3D`.
#[derive(Clone, Copy, Debug)]
pub struct Cadence {
    pub anchor: Naive,
    pub period_n: i64,
    pub period_unit: CadUnit,
    pub duration_n: i64,
    pub duration_unit: CadUnit,
}

/// Absolute bounds: a naive local wall-clock window `[start, end)` in ordinal
/// milliseconds. `None` means unbounded on that side.
#[derive(Clone, Copy, Debug)]
pub struct Bounds {
    pub start: Option<i64>,
    pub end: Option<i64>,
}

/// One `|`-separated expression (a set of intersected components).
#[derive(Debug)]
pub struct Expr {
    pub selectors: Vec<Selector>,
    pub time: Option<TimeSel>,
    pub cadence: Option<Cadence>,
    pub bounds: Option<Bounds>,
    /// True when a `W` selector is present (then `Y` tests the ISO week-year).
    pub has_week: bool,
}

/// The mathematical content of an [`Expr`].
pub struct ExprV {
    pub selectors: Seq<SelectorV>,
    pub time: Option<Seq<TimeInterval>>,
    pub cadence: Option<Cadence>,
    pub bounds: Option<Bounds>,
    pub has_week: bool,
}

pub open spec fn time_view(t: Option<TimeSel>) -> Option<Seq<TimeInterval>> {
    match t {
        Some(ts) => Some(ts@),
        None => None,
    }
}

impl View for Expr {
    type V = ExprV;

    open spec fn view(&self) -> ExprV {
        ExprV {
            selectors: self.selectors@.map_values(|s: Selector| s@),
            time: time_view(self.time),
            cadence: self.cadence,
            bounds: self.bounds,
            has_week: self.has_week,
        }
    }
}

impl Clone for Expr {
    fn clone(&self) -> (r: Expr)
        ensures
            r@ == self@,
    {
        let selectors = self.selectors.clone();
        assert(selectors@.map_values(|s: Selector| s@) =~= self.selectors@.map_values(|s: Selector| s@)) by {
            assert forall|i: int| 0 <= i < selectors@.len() implies #[trigger] selectors@[i]@ == self.selectors@[i]@ by {
                assert(cloned::<Selector>(self.selectors@[i], selectors@[i]));
            }
        }
        let time = match &self.time {
            Some(t) => Some(t.clone()),
            None => None,
        };
        Expr { selectors, time, cadence: self.cadence, bounds: self.bounds, has_week: self.has_week }
    }
}

impl ExprV {
    pub open spec fn empty() -> ExprV {
        ExprV { selectors: Seq::empty(), time: None, cadence: None, bounds: None, has_week: false }
    }
}

impl Default for Expr {
    fn default() -> (r: Expr)
        ensures
            r@ == ExprV::empty(),
    {
        let r = Expr { selectors: Vec::new(), time: None, cadence: None, bounds: None, has_week: false };
        assert(r@.selectors =~= Seq::<SelectorV>::empty());
        r
    }
}

} // verus!
