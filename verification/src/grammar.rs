//! The DTRExp grammar as a recursive-descent reading of the input bytes: what
//! each parsing step yields (a value and the position after it) or the error
//! it stops on (a byte position and a message).
//!
//! Loops of the grammar (digit runs aside) carry a step budget: one step per
//! input byte is always enough, since every iteration consumes a byte.

use vstd::prelude::*;

use crate::ast::{Atom, Bounds, CadUnit, Cadence, Desig, Endpoint, ExprV, SelectorV, TimeInterval};
use crate::civil::{
    spec_days_from_civil, spec_days_in_month, Naive, MS_PER_DAY, MS_PER_HOUR, MS_PER_MIN,
    MS_PER_SEC,
};
use crate::error::ParseError;
use crate::eval::{cadence_ok, endpoint_ok, has_desig, value_ok};

verus! {

/// A parse outcome: the value and the position after it, or the position and
/// message of the error.
pub type Parsed<T> = Result<(T, int), (int, Seq<char>)>;

/// A value-list item before it becomes an [`Atom`].
#[derive(Clone, Copy, Debug, PartialEq, Eq, Structural)]
pub enum Raw {
    Star,
    Value(i64),
    Range { start: Endpoint, end: Endpoint },
}

/// A time-of-day value of the `T` component.
#[derive(Clone, Copy, Debug, PartialEq, Eq, Structural)]
pub struct TimeVal {
    pub ms: i64,
    /// Length of the implied unit interval for a single value
    /// (hour/minute/second/millisecond).
    pub unit: i64,
    /// True for the exact `2400` end token (maps to end-of-day).
    pub is_2400: bool,
}

/// The time part of a date literal.
#[derive(Clone, Copy, Debug, PartialEq, Eq, Structural)]
pub struct TimePart {
    pub h: i64,
    pub mi: i64,
    pub s: Option<i64>,
}

/// A date literal `yyyymmdd[Thhmm[ss]]`.
#[derive(Clone, Copy, Debug, PartialEq, Eq, Structural)]
pub struct DateLit {
    pub y: i64,
    pub m: i64,
    pub d: i64,
    pub time: Option<TimePart>,
}

// ---- bytes ----------------------------------------------------------------------

pub open spec fn at(b: Seq<u8>, i: int) -> Option<u8> {
    if 0 <= i < b.len() {
        Some(b[i])
    } else {
        None
    }
}

pub open spec fn is_digit(c: u8) -> bool {
    48 <= c <= 57
}

pub open spec fn digit_at(b: Seq<u8>, i: int) -> bool {
    0 <= i < b.len() && is_digit(b[i])
}

/// The value of the digit at `i`.
pub open spec fn dval(b: Seq<u8>, i: int) -> int {
    b[i] - 48
}

pub open spec fn two(b: Seq<u8>, i: int) -> int {
    dval(b, i) * 10 + dval(b, i + 1)
}

/// The position after the spaces starting at `i`.
pub open spec fn spec_skip_spaces(b: Seq<u8>, i: int) -> int
    decreases b.len() - i,
{
    if 0 <= i < b.len() && b[i] == 32 {
        spec_skip_spaces(b, i + 1)
    } else {
        i
    }
}

/// The position after the run of digits starting at `i`.
pub open spec fn digit_run(b: Seq<u8>, i: int) -> int
    decreases b.len() - i,
{
    if digit_at(b, i) {
        digit_run(b, i + 1)
    } else {
        i
    }
}

// ---- numbers -----------------------------------------------------------------------

/// Reading the digits from `i` on, `v` read so far (`any`: at least one digit)
/// from a number that starts at `pos`.
pub open spec fn spec_read_digits(b: Seq<u8>, pos: int, i: int, v: int, any: bool) -> Parsed<int>
    decreases b.len() - i,
{
    if digit_at(b, i) {
        let v2 = v * 10 + dval(b, i);
        if v2 > 10_000_000 {
            Err((pos, "integer too large"@))
        } else {
            spec_read_digits(b, pos, i + 1, v2, true)
        }
    } else if !any {
        Err((pos, "expected a number"@))
    } else {
        Ok((v, i))
    }
}

/// An unsigned integer of at most ten million.
pub open spec fn spec_read_uint(b: Seq<u8>, i: int) -> Parsed<int> {
    spec_read_digits(b, i, i, 0, false)
}

/// An optionally negative integer; `-0` is no value.
pub open spec fn spec_read_int_signed(b: Seq<u8>, i: int) -> Parsed<int> {
    let neg = at(b, i) == Some(45u8);
    let j = if neg { i + 1 } else { i };
    match spec_read_uint(b, j) {
        Err(e) => Err(e),
        Ok((v, k)) => if neg && v == 0 {
            Err((j, "'-0' is not a value"@))
        } else {
            Ok((if neg { -v } else { v }, k))
        },
    }
}

// ---- selectors ------------------------------------------------------------------------

pub open spec fn spec_parse_endpoint(b: Seq<u8>, i: int) -> Parsed<Endpoint> {
    if at(b, i) == Some(42u8) {
        Ok((Endpoint::Star, i + 1))
    } else {
        match spec_read_int_signed(b, i) {
            Ok((v, k)) => Ok((Endpoint::Value(v as i64), k)),
            Err(e) => Err(e),
        }
    }
}

/// A single value-list item: a value, `*`, or a range.
pub open spec fn spec_parse_item(b: Seq<u8>, i: int) -> Parsed<Raw> {
    if at(b, i) == Some(42u8) {
        if at(b, i + 1) == Some(58u8) {
            match spec_parse_endpoint(b, i + 2) {
                Ok((e, k)) => Ok((Raw::Range { start: Endpoint::Star, end: e }, k)),
                Err(x) => Err(x),
            }
        } else {
            Ok((Raw::Star, i + 1))
        }
    } else {
        match spec_read_int_signed(b, i) {
            Err(x) => Err(x),
            Ok((v, k)) => if at(b, k) == Some(58u8) {
                match spec_parse_endpoint(b, k + 1) {
                    Ok((e, k2)) => Ok((Raw::Range { start: Endpoint::Value(v as i64), end: e }, k2)),
                    Err(x) => Err(x),
                }
            } else {
                Ok((Raw::Value(v as i64), k))
            },
        }
    }
}

/// Further `,`-separated items after `acc`.
pub open spec fn spec_more_items(b: Seq<u8>, i: int, acc: Seq<Raw>, steps: nat) -> Parsed<Seq<Raw>>
    decreases steps,
{
    if at(b, i) == Some(44u8) {
        match spec_parse_item(b, i + 1) {
            Err(x) => Err(x),
            Ok((it, k)) => if steps == 0 {
                Err((k, "expression too long"@))
            } else {
                spec_more_items(b, k, acc.push(it), (steps - 1) as nat)
            },
        }
    } else {
        Ok((acc, i))
    }
}

/// A range wraps when both ends are literal, non-negative and descending.
pub open spec fn raw_wraps(start: Endpoint, end: Endpoint) -> bool {
    match (start, end) {
        (Endpoint::Value(s), Endpoint::Value(e)) => s >= 0 && e >= 0 && s > e,
        _ => false,
    }
}

pub open spec fn raw_atom(r: Raw) -> Atom {
    match r {
        Raw::Star => Atom::All,
        Raw::Value(v) => Atom::Single(v),
        Raw::Range { start, end } => Atom::Range { start, end, wrap: raw_wraps(start, end) },
    }
}

/// The atoms of a value list; a bare `*` stands only alone.
pub open spec fn spec_build_atoms(items: Seq<Raw>, pos: int) -> Result<Seq<Atom>, (int, Seq<char>)> {
    if items.len() != 1 && items.contains(Raw::Star) {
        Err((pos, "bare '*' in a list — the list is already the whole domain"@))
    } else {
        Ok(items.map_values(|r: Raw| raw_atom(r)))
    }
}

pub open spec fn spec_parse_valuelist(b: Seq<u8>, i: int) -> Parsed<Seq<Atom>> {
    match spec_parse_item(b, i) {
        Err(x) => Err(x),
        Ok((first, k)) => match spec_more_items(b, k, seq![first], b.len() as nat) {
            Err(x) => Err(x),
            Ok((items, k2)) => match spec_build_atoms(items, i) {
                Err(x) => Err(x),
                Ok(atoms) => Ok((atoms, k2)),
            },
        },
    }
}

/// The start and end of a stride's base, or the error against it.
pub open spec fn stride_base(first: Raw, stride_pos: int) -> Result<(i64, Endpoint), (int, Seq<char>)> {
    match first {
        Raw::Value(v) => Ok((v, Endpoint::Star)),
        Raw::Range { start, end } => match start {
            Endpoint::Star => Err((stride_pos, "stride start must be an explicit non-negative value"@)),
            Endpoint::Value(s) => if raw_wraps(start, end) {
                Err((stride_pos, "wrap ranges take no stride"@))
            } else {
                Ok((s, end))
            },
        },
        Raw::Star => Err((stride_pos, "anchorless stride — an explicit start is required"@)),
    }
}

/// A stride `/interval[/duration]` at `i` on the base `first`.
pub open spec fn spec_build_stride(b: Seq<u8>, i: int, first: Raw) -> Parsed<Atom> {
    match stride_base(first, i) {
        Err(x) => Err(x),
        Ok((start, end)) => if start < 0 {
            Err((i, "stride start must be non-negative (end-relative anchors shift per parent instance)"@))
        } else {
            match spec_read_uint(b, i + 1) {
                Err(x) => Err(x),
                Ok((interval, k)) => if at(b, k) == Some(47u8) {
                    match spec_read_uint(b, k + 1) {
                        Err(x) => Err(x),
                        Ok((duration, k2)) => Ok((Atom::Stride { start, end, interval: interval as i64, duration: duration as i64 }, k2)),
                    }
                } else {
                    Ok((Atom::Stride { start, end, interval: interval as i64, duration: 1 }, k))
                },
            }
        },
    }
}

/// The weekday of an ordinal base; a negative base resolves against the
/// fixed weekday domain first (`E-1#2` is `E7#2`).
pub open spec fn ordinal_weekday(first: Raw) -> Option<i64> {
    match first {
        Raw::Value(v) => Some(if -7 <= v <= -1 { (8 + v) as i64 } else { v }),
        _ => None,
    }
}

/// The ordinal `#[-]n` at `i` (the `#`) on weekday `wd`, for the selector at
/// `pos`.
pub open spec fn spec_ordinal(b: Seq<u8>, i: int, pos: int) -> Parsed<i64> {
    let neg = at(b, i + 1) == Some(45u8);
    let j = if neg { i + 2 } else { i + 1 };
    match spec_read_uint(b, j) {
        Err(x) => Err(x),
        Ok((n, k)) => {
            let ord = if neg { -n } else { n };
            if ord == 0 || !(-5 <= ord <= 5) {
                Err((pos, "ordinal out of range (-5..-1, 1..5)"@))
            } else {
                Ok((ord as i64, k))
            }
        },
    }
}

/// The value part of a selector (after its designator) that starts at `i`
/// (an `!`, `*`, digit or `-`): exclusion flag, atoms and ordinal.
pub open spec fn spec_selector_body(b: Seq<u8>, i: int, desig: Desig, pos: int) -> Parsed<(bool, Seq<Atom>, Option<(i64, i64)>)> {
    if at(b, i) == Some(33u8) {
        match spec_parse_valuelist(b, i + 1) {
            Err(x) => Err(x),
            Ok((atoms, k)) => if at(b, k) == Some(47u8) {
                Err((k, "a component is either an exclusion or a stride, never both"@))
            } else {
                Ok(((true, atoms, None), k))
            },
        }
    } else if at(b, i) == Some(42u8) && at(b, i + 1) != Some(58u8) {
        Ok(((false, seq![Atom::All], None), i + 1))
    } else {
        match spec_parse_item(b, i) {
            Err(x) => Err(x),
            Ok((first, k)) => if at(b, k) == Some(47u8) {
                match spec_build_stride(b, k, first) {
                    Err(x) => Err(x),
                    Ok((a, k2)) => Ok(((false, seq![a], None), k2)),
                }
            } else if at(b, k) == Some(35u8) {
                if desig != Desig::Weekday {
                    Err((k, "ordinal '#' is valid only on E"@))
                } else {
                    match ordinal_weekday(first) {
                        None => Err((pos, "ordinal weekday must be a value"@)),
                        Some(wd) => match spec_ordinal(b, k, pos) {
                            Err(x) => Err(x),
                            Ok((ord, k2)) => Ok(((false, Seq::empty(), Some((wd, ord))), k2)),
                        },
                    }
                }
            } else if at(b, k) == Some(44u8) {
                match spec_more_items(b, k, seq![first], b.len() as nat) {
                    Err(x) => Err(x),
                    Ok((items, k2)) => if at(b, k2) == Some(47u8) {
                        Err((k2, "a stride attaches to a single value or range, not a list"@))
                    } else {
                        match spec_build_atoms(items, pos) {
                            Err(x) => Err(x),
                            Ok(atoms) => Ok(((false, atoms, None), k2)),
                        }
                    },
                }
            } else {
                Ok(((false, seq![raw_atom(first)], None), k))
            },
        }
    }
}

/// A selector whose designator letter stands at `i`, added to `e`.
pub open spec fn spec_parse_selector(b: Seq<u8>, i: int, e: ExprV, desig: Desig) -> Parsed<ExprV> {
    let j = i + 1;
    if has_desig(e.selectors, desig) {
        Err((i, "duplicate designator in one expression"@))
    } else if !(digit_at(b, j) || at(b, j) == Some(45u8) || at(b, j) == Some(42u8) || at(b, j) == Some(33u8)) {
        Err((j, "designator requires a value"@))
    } else {
        match spec_selector_body(b, j, desig, i) {
            Err(x) => Err(x),
            Ok(((exclude, atoms, ordinal), k)) => Ok((
                ExprV {
                    selectors: e.selectors.push(SelectorV { desig, atoms, exclude, ordinal, pos: i as usize }),
                    ..e
                },
                k,
            )),
        }
    }
}

// ---- time of day ---------------------------------------------------------------------

/// The millisecond part `.ddd` after a six-digit time value ending at `j`.
pub open spec fn spec_millis(b: Seq<u8>, j: int, pos: int, base: int) -> Parsed<TimeVal> {
    if at(b, j) == Some(46u8) {
        let k = digit_run(b, j + 1);
        if k - (j + 1) != 3 {
            Err((pos, "millisecond precision requires exactly 3 digits"@))
        } else {
            Ok((TimeVal { ms: (base + dval(b, j + 1) * 100 + dval(b, j + 2) * 10 + dval(b, j + 3)) as i64, unit: 1, is_2400: false }, k))
        }
    } else {
        Ok((TimeVal { ms: base as i64, unit: MS_PER_SEC, is_2400: false }, j))
    }
}

/// A time value `hh`, `hhmm`, `hhmmss[.fff]` (or `2400` where allowed).
pub open spec fn spec_parse_timeval(b: Seq<u8>, i: int, allow_2400: bool) -> Parsed<TimeVal> {
    let j = digit_run(b, i);
    let n = j - i;
    if n == 2 {
        let hh = two(b, i);
        if hh > 23 {
            Err((i, "hour out of range in time value"@))
        } else {
            Ok((TimeVal { ms: (hh * MS_PER_HOUR) as i64, unit: MS_PER_HOUR, is_2400: false }, j))
        }
    } else if n == 4 {
        let hh = two(b, i);
        let mm = two(b, i + 2);
        if hh == 24 && mm == 0 {
            if !allow_2400 {
                Err((i, "'2400' is valid only in range-end position"@))
            } else {
                Ok((TimeVal { ms: MS_PER_DAY, unit: 0, is_2400: true }, j))
            }
        } else if hh > 23 {
            Err((i, "hour out of range — 24 exists only as the exact token '2400'"@))
        } else if mm > 59 {
            Err((i, "minute out of range in time value"@))
        } else {
            Ok((TimeVal { ms: (hh * MS_PER_HOUR + mm * MS_PER_MIN) as i64, unit: MS_PER_MIN, is_2400: false }, j))
        }
    } else if n == 6 {
        let hh = two(b, i);
        let mm = two(b, i + 2);
        let ss = two(b, i + 4);
        if hh > 23 {
            Err((i, "hour out of range — 24 exists only as the exact token '2400'"@))
        } else if mm > 59 {
            Err((i, "minute out of range in time value"@))
        } else if ss > 59 {
            Err((i, "second out of range (leap seconds are not representable)"@))
        } else {
            spec_millis(b, j, i, hh * MS_PER_HOUR + mm * MS_PER_MIN + ss * MS_PER_SEC)
        }
    } else {
        Err((i, "malformed time value"@))
    }
}

/// A time item: a value (covering its unit) or a `start:end` range.
pub open spec fn spec_parse_time_item(b: Seq<u8>, i: int) -> Parsed<TimeInterval> {
    match spec_parse_timeval(b, i, false) {
        Err(x) => Err(x),
        Ok((start, k)) => if at(b, k) == Some(58u8) {
            if at(b, k + 1) == Some(42u8) {
                Err((k + 1, "T takes no '*'"@))
            } else {
                match spec_parse_timeval(b, k + 1, true) {
                    Err(x) => Err(x),
                    Ok((end, k2)) => {
                        let end_ms = if end.is_2400 { MS_PER_DAY } else { end.ms };
                        if start.ms == end_ms {
                            Err((i, "T range with equal endpoints covers nothing"@))
                        } else {
                            Ok((TimeInterval { start: start.ms, end: end_ms, wrap: start.ms > end_ms }, k2))
                        }
                    },
                }
            }
        } else {
            Ok((TimeInterval { start: start.ms, end: (start.ms + start.unit) as i64, wrap: false }, k))
        },
    }
}

/// The `,`-separated time items from `i` on, after `acc`.
pub open spec fn spec_time_items(b: Seq<u8>, i: int, acc: Seq<TimeInterval>, steps: nat) -> Parsed<Seq<TimeInterval>>
    decreases steps,
{
    match spec_parse_time_item(b, i) {
        Err(x) => Err(x),
        Ok((iv, k)) => if at(b, k) == Some(44u8) {
            if steps == 0 {
                Err((k, "expression too long"@))
            } else {
                spec_time_items(b, k + 1, acc.push(iv), (steps - 1) as nat)
            }
        } else {
            Ok((acc.push(iv), k))
        },
    }
}

/// The `T` component whose letter stands at `i`, added to `e`.
pub open spec fn spec_parse_time(b: Seq<u8>, i: int, e: ExprV) -> Parsed<ExprV> {
    let j = i + 1;
    if e.time is Some {
        Err((i, "duplicate T component"@))
    } else if at(b, j) == Some(33u8) {
        Err((j, "T takes no exclusion — write the complement explicitly"@))
    } else if at(b, j) == Some(42u8) {
        Err((j, "T takes no '*'"@))
    } else if at(b, j) is None {
        Err((j, "T requires a value"@))
    } else {
        match spec_time_items(b, j, Seq::empty(), b.len() as nat) {
            Err(x) => Err(x),
            Ok((ivs, k)) => if at(b, k) == Some(47u8) {
                Err((k, "T takes no stride"@))
            } else {
                Ok((ExprV { time: Some(ivs), ..e }, k))
            },
        }
    }
}

// ---- dates, bounds, cadences ---------------------------------------------------------

/// A real calendar date in years 0-9999.
pub open spec fn spec_valid_date(y: int, m: int, d: int) -> bool {
    1 <= m <= 12 && d >= 1 && d <= spec_days_in_month(y, m) && 0 <= y <= 9999
}

/// The time part of a date literal: exactly four or six digits from `i`, for
/// the literal at `pos`.
pub open spec fn spec_parse_date_time(b: Seq<u8>, i: int, pos: int) -> Parsed<TimePart> {
    let j = digit_run(b, i);
    let n = j - i;
    if n != 4 && n != 6 {
        Err((pos, "malformed time-part in date literal"@))
    } else {
        let h = two(b, i);
        let mi = two(b, i + 2);
        if h > 23 || mi > 59 {
            Err((pos, "time-part out of range in date literal"@))
        } else if n == 6 && two(b, i + 4) > 59 {
            Err((pos, "seconds out of range in date literal"@))
        } else {
            Ok((TimePart { h: h as i64, mi: mi as i64, s: if n == 6 { Some(two(b, i + 4) as i64) } else { None } }, j))
        }
    }
}

/// A date literal `yyyymmdd[Thhmm[ss]]` at `i`.
pub open spec fn spec_parse_date(b: Seq<u8>, i: int) -> Parsed<DateLit> {
    if !(forall|k: int| i <= k < i + 8 ==> #[trigger] digit_at(b, k)) {
        Err((i, "date literal requires 8 digits"@))
    } else {
        let y = dval(b, i) * 1000 + dval(b, i + 1) * 100 + dval(b, i + 2) * 10 + dval(b, i + 3);
        let m = two(b, i + 4);
        let d = two(b, i + 6);
        if !spec_valid_date(y, m, d) {
            Err((i, "date literal is not a real calendar date"@))
        } else if at(b, i + 8) == Some(84u8) {
            match spec_parse_date_time(b, i + 9, i) {
                Err(x) => Err(x),
                Ok((tp, k)) => Ok((DateLit { y: y as i64, m: m as i64, d: d as i64, time: Some(tp) }, k)),
            }
        } else {
            Ok((DateLit { y: y as i64, m: m as i64, d: d as i64, time: None }, i + 8))
        }
    }
}

impl DateLit {
    pub open spec fn spec_days(self) -> int {
        spec_days_from_civil(self.y as int, self.m as int, self.d as int)
    }

    /// The first naive millisecond the literal denotes.
    pub open spec fn spec_span_start(self) -> int {
        let base = self.spec_days() * MS_PER_DAY;
        match self.time {
            None => base,
            Some(tp) => base + tp.h * MS_PER_HOUR + tp.mi * MS_PER_MIN + (match tp.s {
                Some(s) => s as int,
                None => 0,
            }) * MS_PER_SEC,
        }
    }

    /// The naive millisecond after the last one the literal denotes: the end
    /// of its day, minute or second.
    pub open spec fn spec_span_end(self) -> int {
        match self.time {
            None => (self.spec_days() + 1) * MS_PER_DAY,
            Some(tp) => self.spec_span_start() + if tp.s is Some {
                MS_PER_SEC as int
            } else {
                MS_PER_MIN as int
            },
        }
    }

    /// The literal as a cadence anchor.
    pub open spec fn spec_anchor(self) -> Naive {
        match self.time {
            None => Naive { y: self.y, mo: self.m, d: self.d, h: 0, mi: 0, s: 0, ms: 0 },
            Some(tp) => Naive {
                y: self.y,
                mo: self.m,
                d: self.d,
                h: tp.h,
                mi: tp.mi,
                s: match tp.s {
                    Some(s) => s,
                    None => 0,
                },
                ms: 0,
            },
        }
    }
}

/// A bounds component whose start literal `start` began at `pos`, continuing
/// at `i`, added to `e`.
pub open spec fn spec_finish_bounds(b: Seq<u8>, i: int, e: ExprV, start: DateLit, pos: int) -> Parsed<ExprV> {
    let r: Parsed<(Option<i64>, Option<i64>)> = if at(b, i) == Some(58u8) {
        if at(b, i + 1) == Some(42u8) {
            Ok(((Some(start.spec_span_start() as i64), None), i + 2))
        } else {
            match spec_parse_date(b, i + 1) {
                Err(x) => Err(x),
                Ok((end, k)) => Ok(((Some(start.spec_span_start() as i64), Some(end.spec_span_end() as i64)), k)),
            }
        }
    } else {
        Ok(((Some(start.spec_span_start() as i64), Some(start.spec_span_end() as i64)), i))
    };
    match r {
        Err(x) => Err(x),
        Ok(((lo, hi), k)) => if lo is Some && hi is Some && lo->0 >= hi->0 {
            Err((pos, "backwards bounds range"@))
        } else if e.bounds is Some {
            Err((pos, "more than one bounds component per expression"@))
        } else {
            Ok((ExprV { bounds: Some(Bounds { start: lo, end: hi }), ..e }, k))
        },
    }
}

/// A `*:end` bounds component whose `*` stands at `i`, added to `e`.
pub open spec fn spec_parse_bounds_star(b: Seq<u8>, i: int, e: ExprV) -> Parsed<ExprV> {
    if at(b, i + 1) != Some(58u8) {
        Err((i, "'*' is only valid as a bounds start"@))
    } else if at(b, i + 2) == Some(42u8) {
        Err((i, "bounds require at least one date-literal endpoint"@))
    } else {
        match spec_parse_date(b, i + 2) {
            Err(x) => Err(x),
            Ok((end, k)) => if e.bounds is Some {
                Err((i, "more than one bounds component per expression"@))
            } else {
                Ok((ExprV { bounds: Some(Bounds { start: None, end: Some(end.spec_span_end() as i64) }), ..e }, k))
            },
        }
    }
}

pub open spec fn unit_of(c: u8) -> Option<CadUnit> {
    if c == 89 {
        Some(CadUnit::Year)
    } else if c == 77 {
        Some(CadUnit::Month)
    } else if c == 87 {
        Some(CadUnit::Week)
    } else if c == 68 {
        Some(CadUnit::Day)
    } else if c == 72 {
        Some(CadUnit::Hour)
    } else if c == 109 {
        Some(CadUnit::Minute)
    } else {
        None
    }
}

/// A cadence term `n<unit>`.
pub open spec fn spec_read_cadence_term(b: Seq<u8>, i: int) -> Parsed<(int, CadUnit)> {
    match spec_read_uint(b, i) {
        Err(x) => Err(x),
        Ok((n, k)) => match at(b, k) {
            Some(c) => match unit_of(c) {
                Some(u) => Ok(((n, u), k + 1)),
                None => Err((k, "unknown cadence unit"@)),
            },
            None => Err((k, "unknown cadence unit"@)),
        },
    }
}

/// `(longest, shortest)` length of a cadence unit in seconds.
pub open spec fn spec_cad_lengths(u: CadUnit) -> (int, int) {
    match u {
        CadUnit::Year => (31_622_400int, 31_536_000int),
        CadUnit::Month => (2_678_400int, 2_419_200int),
        CadUnit::Week => (604_800int, 604_800int),
        CadUnit::Day => (86_400int, 86_400int),
        CadUnit::Hour => (3_600int, 3_600int),
        CadUnit::Minute => (60int, 60int),
    }
}

/// A duration is shorter than a period: by count in one unit, else even the
/// longest duration against the shortest period.
pub open spec fn spec_duration_lt_period(dn: int, du: CadUnit, pn: int, pu: CadUnit) -> bool {
    if du == pu {
        dn < pn
    } else {
        dn * spec_cad_lengths(du).0 < pn * spec_cad_lengths(pu).1
    }
}

/// A cadence whose `/` stands at `i`, anchored at the literal `date` that
/// began at `pos`, added to `e`.
pub open spec fn spec_parse_cadence(b: Seq<u8>, i: int, e: ExprV, date: DateLit, pos: int) -> Parsed<ExprV> {
    match spec_read_cadence_term(b, i + 1) {
        Err(x) => Err(x),
        Ok(((pn, pu), k)) => if pn < 1 {
            Err((pos, "cadence period must be >= 1"@))
        } else {
            let d: Parsed<(int, CadUnit, bool)> = if at(b, k) == Some(47u8) {
                match spec_read_cadence_term(b, k + 1) {
                    Err(x) => Err(x),
                    Ok(((dn, du), k2)) => Ok(((dn, du, true), k2)),
                }
            } else {
                Ok(((1, pu, false), k))
            };
            match d {
                Err(x) => Err(x),
                Ok(((dn, du, explicit), k2)) => if explicit && dn < 1 {
                    Err((pos, "cadence duration must be >= 1"@))
                } else if du.spec_is_month_or_year() && !pu.spec_is_month_or_year() {
                    Err((pos, "month/year duration unit requires a month/year period"@))
                } else if !spec_duration_lt_period(dn, du, pn, pu) {
                    Err((pos, "cadence duration must be < period"@))
                } else if e.cadence is Some {
                    Err((pos, "more than one cadence per expression"@))
                } else {
                    Ok((
                        ExprV {
                            cadence: Some(Cadence {
                                anchor: date.spec_anchor(),
                                period_n: pn as i64,
                                period_unit: pu,
                                duration_n: dn as i64,
                                duration_unit: du,
                            }),
                            ..e
                        },
                        k2,
                    ))
                },
            }
        },
    }
}

/// A component starting with a date literal at `i`: a cadence or bounds.
pub open spec fn spec_parse_date_component(b: Seq<u8>, i: int, e: ExprV) -> Parsed<ExprV> {
    match spec_parse_date(b, i) {
        Err(x) => Err(x),
        Ok((date, k)) => if at(b, k) == Some(47u8) {
            spec_parse_cadence(b, k, e, date, i)
        } else {
            spec_finish_bounds(b, k, e, date, i)
        },
    }
}

// ---- expressions -------------------------------------------------------------------

pub open spec fn designator_of(c: u8) -> Option<Desig> {
    if c == 89 {
        Some(Desig::Year)
    } else if c == 81 {
        Some(Desig::Quarter)
    } else if c == 77 {
        Some(Desig::Month)
    } else if c == 87 {
        Some(Desig::Week)
    } else if c == 68 {
        Some(Desig::Day)
    } else if c == 69 {
        Some(Desig::Weekday)
    } else if c == 72 {
        Some(Desig::Hour)
    } else if c == 109 {
        Some(Desig::Minute)
    } else if c == 115 {
        Some(Desig::Second)
    } else {
        None
    }
}

/// One component at `i` (a non-space byte), added to `e`.
#[verifier::opaque]
pub open spec fn spec_parse_component(b: Seq<u8>, i: int, e: ExprV) -> Parsed<ExprV> {
    let c = b[i];
    if is_digit(c) {
        spec_parse_date_component(b, i, e)
    } else if c == 42 {
        spec_parse_bounds_star(b, i, e)
    } else if c == 84 {
        spec_parse_time(b, i, e)
    } else {
        match designator_of(c) {
            Some(d) => spec_parse_selector(b, i, e, d),
            None => Err((i, "unknown designator"@)),
        }
    }
}

/// The components from `i` on up to `|` or the end, added to `e`; `n`
/// components were read before. Yields the expression, the component count
/// and the position of the `|` or the end.
pub open spec fn spec_components(b: Seq<u8>, i: int, e: ExprV, n: int, steps: nat) -> Result<(ExprV, int, int), (int, Seq<char>)>
    decreases steps,
{
    let j = spec_skip_spaces(b, i);
    if at(b, j) is None || at(b, j) == Some(124u8) {
        Ok((e, n, j))
    } else {
        match spec_parse_component(b, j, e) {
            Err(x) => Err(x),
            Ok((e2, k)) => if steps == 0 {
                Err((k, "expression too long"@))
            } else {
                spec_components(b, k, e2, n + 1, (steps - 1) as nat)
            },
        }
    }
}

/// One `|`-separated expression at `i`.
#[verifier::opaque]
pub open spec fn spec_parse_expression(b: Seq<u8>, i: int) -> Parsed<ExprV> {
    match spec_components(b, i, ExprV::empty(), 0, b.len() as nat) {
        Err(x) => Err(x),
        Ok((e, n, j)) => if n == 0 {
            Err((j, "empty expression"@))
        } else {
            Ok((ExprV { has_week: has_desig(e.selectors, Desig::Week), ..e }, j))
        },
    }
}

/// The expressions from `i` on, after `acc`.
pub open spec fn spec_branches(b: Seq<u8>, i: int, acc: Seq<ExprV>, steps: nat) -> Result<Seq<ExprV>, (int, Seq<char>)>
    decreases steps,
{
    match spec_parse_expression(b, i) {
        Err(x) => Err(x),
        Ok((e, k)) => {
            let j = spec_skip_spaces(b, k);
            if at(b, j) == Some(124u8) {
                if steps == 0 {
                    Err((j, "expression too long"@))
                } else {
                    spec_branches(b, j + 1, acc.push(e), (steps - 1) as nat)
                }
            } else {
                Ok(acc.push(e))
            }
        },
    }
}

/// The `|`-separated expressions of the whole input `b`.
pub open spec fn spec_parse_branches(b: Seq<u8>) -> Result<Seq<ExprV>, (int, Seq<char>)> {
    spec_branches(b, 0, Seq::empty(), b.len() as nat)
}

// ---- what the parser yields -------------------------------------------------------

/// A step's result `r` is the outcome `s`: the same value and next position,
/// or the same error.
pub open spec fn agrees<T>(r: Result<(T, usize), ParseError>, s: Parsed<T>) -> bool {
    match s {
        Ok((v, k)) => r matches Ok((x, j)) && x == v && j as int == k,
        Err((p, m)) => r matches Err(e) && e.pos as int == p && e.message@ == m,
    }
}

/// [`agrees`] for an integer result.
pub open spec fn agrees_int(r: Result<(i64, usize), ParseError>, s: Parsed<int>) -> bool {
    match s {
        Ok((v, k)) => r matches Ok((x, j)) && x as int == v && j as int == k,
        Err((p, m)) => r matches Err(e) && e.pos as int == p && e.message@ == m,
    }
}

/// [`agrees`] for a step that adds to an expression: `e` is the expression
/// afterwards.
pub open spec fn agrees_expr(r: Result<usize, ParseError>, e: ExprV, s: Parsed<ExprV>) -> bool {
    match s {
        Ok((v, k)) => r matches Ok(j) && e == v && j as int == k,
        Err((p, m)) => r matches Err(x) && x.pos as int == p && x.message@ == m,
    }
}

/// An error lies within the input; a success moved forward within it.
pub open spec fn advances<T>(r: Result<(T, usize), ParseError>, len: int, i: int) -> bool {
    &&& r matches Ok((_, j)) ==> i < j <= len
    &&& r matches Err(e) ==> e.pos <= len
}

pub open spec fn atom_syntax_ok(a: Atom) -> bool {
    match a {
        Atom::All => true,
        Atom::Single(v) => value_ok(v),
        Atom::Range { start, end, wrap } => endpoint_ok(start, false) && endpoint_ok(end, false),
        Atom::Stride { start, end, interval, duration } => 0 <= start <= 10_000_000 && endpoint_ok(end, false)
            && 0 <= interval <= 10_000_000 && 0 <= duration <= 10_000_000,
    }
}

pub open spec fn raw_ok(r: Raw) -> bool {
    match r {
        Raw::Star => true,
        Raw::Value(v) => value_ok(v),
        Raw::Range { start, end } => endpoint_ok(start, false) && endpoint_ok(end, false),
    }
}

pub open spec fn selector_syntax_ok(s: SelectorV) -> bool {
    &&& forall|i: int| 0 <= i < s.atoms.len() ==> atom_syntax_ok(#[trigger] s.atoms[i])
    &&& s.ordinal matches Some((wd, ord)) ==> value_ok(wd) && -5 <= ord <= 5 && s.atoms.len() == 0 && s.desig
        == Desig::Weekday
}

/// Every selector of `e` stands before position `n`.
pub open spec fn positions_within(e: ExprV, n: int) -> bool {
    forall|j: int| 0 <= j < e.selectors.len() ==> (#[trigger] e.selectors[j]).pos < n
}

/// An expression as the parser completes it: [`syntax_ok`], and its week
/// flag set exactly when it has a week selector.
pub open spec fn parsed_ok(e: ExprV) -> bool {
    syntax_ok(e) && e.has_week == has_desig(e.selectors, Desig::Week)
}

/// What the parser guarantees of an expression: literal values within the
/// integer limit, ordinals only on weekdays, and a cadence anchored at a real
/// date with counts of at least one.
pub open spec fn syntax_ok(e: ExprV) -> bool {
    &&& forall|i: int| 0 <= i < e.selectors.len() ==> selector_syntax_ok(#[trigger] e.selectors[i])
    &&& e.cadence matches Some(c) ==> cadence_ok(c)
}

} // verus!
