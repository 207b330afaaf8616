//! Recursive-descent parser producing the structural AST. Domain and
//! satisfiability checks that need the whole expression live in
//! [`crate::validate`].

use vstd::prelude::*;
use vstd::string::StringSliceAdditionalSpecFns;

use crate::ast::{Atom, Bounds, CadUnit, Cadence, Desig, Endpoint, Expr, ExprV, Selector, TimeInterval, TimeSel};
use crate::civil::{days_from_civil, days_in_month, Naive, MS_PER_DAY, MS_PER_HOUR, MS_PER_MIN, MS_PER_SEC};
use crate::error::ParseError;
use crate::eval::{cadence_ok, has_desig_exec};
use crate::grammar::{
    advances, agrees, agrees_expr, agrees_int, designator_of, parsed_ok, positions_within, spec_parse_timeval,
    spec_parse_time_item, spec_time_items, spec_parse_time, spec_valid_date, spec_parse_date_time,
    spec_parse_date, two, DateLit, TimePart, TimeVal, spec_finish_bounds, spec_parse_bounds_star,
    unit_of, spec_read_cadence_term, spec_cad_lengths, spec_duration_lt_period, spec_parse_cadence,
    spec_parse_date_component, spec_parse_component, spec_components, spec_parse_expression,
    spec_branches, spec_parse_branches, selector_syntax_ok, spec_parse_selector, syntax_ok, at, atom_syntax_ok, digit_at, digit_run, dval, is_digit,
    raw_atom, raw_ok, spec_build_atoms, spec_build_stride, spec_more_items,
    spec_parse_endpoint, spec_parse_item, spec_parse_valuelist, spec_read_digits,
    spec_read_int_signed, spec_read_uint, spec_skip_spaces, stride_base, Raw,
};

verus! {

fn peek(b: &[u8], i: usize) -> (r: Option<u8>)
    ensures
        r == at(b@, i as int),
{
    if i < b.len() {
        Some(b[i])
    } else {
        None
    }
}

/// Is the byte at `i` the character `c`?
fn byte_is(b: &[u8], i: usize, c: u8) -> (r: bool)
    ensures
        r == (at(b@, i as int) == Some(c)),
{
    i < b.len() && b[i] == c
}

fn is_ascii_digit(c: u8) -> (r: bool)
    ensures
        r == is_digit(c),
{
    48 <= c && c <= 57
}

/// The position after the spaces at `i`.
fn skip_spaces(b: &[u8], i: usize) -> (r: usize)
    requires
        i <= b.len(),
    ensures
        r == spec_skip_spaces(b@, i as int),
        i <= r <= b@.len(),
{
    let mut j = i;
    while j < b.len() && b[j] == 32
        invariant
            i <= j <= b@.len(),
            spec_skip_spaces(b@, i as int) == spec_skip_spaces(b@, j as int),
        decreases b@.len() - j,
    {
        j = j + 1;
    }
    j
}

/// The position after the digits at `i`.
fn digits_end(b: &[u8], i: usize) -> (r: usize)
    requires
        i <= b.len(),
    ensures
        r == digit_run(b@, i as int),
        i <= r <= b@.len(),
        forall|k: int| i <= k < r ==> #[trigger] digit_at(b@, k),
{
    let mut j = i;
    while j < b.len() && is_ascii_digit(b[j])
        invariant
            i <= j <= b@.len(),
            digit_run(b@, i as int) == digit_run(b@, j as int),
            forall|k: int| i <= k < j ==> #[trigger] digit_at(b@, k),
        decreases b@.len() - j,
    {
        j = j + 1;
    }
    j
}

/// An unsigned integer of at most ten million at `i`.
fn read_uint(b: &[u8], i: usize) -> (r: Result<(i64, usize), ParseError>)
    requires
        i <= b.len(),
    ensures
        agrees_int(r, spec_read_uint(b@, i as int)),
        advances(r, b@.len() as int, i as int),
        r matches Ok((v, _)) ==> 0 <= v <= 10_000_000,
{
    let pos = i;
    let mut j = i;
    let mut v: i64 = 0;
    let mut any = false;
    while j < b.len() && is_ascii_digit(b[j])
        invariant
            pos == i,
            pos <= j <= b.len(),
            0 <= v <= 10_000_000,
            any == (j > pos),
            spec_read_uint(b@, pos as int) == spec_read_digits(b@, pos as int, j as int, v as int, any),
        decreases b@.len() - j,
    {
        let d = (b[j] - 48) as i64;
        assert(d == dval(b@, j as int));
        let v2 = v * 10 + d;
        if v2 > 10_000_000 {
            return Err(ParseError::new(pos, "integer too large"));
        }
        v = v2;
        any = true;
        j = j + 1;
    }
    if !any {
        return Err(ParseError::new(pos, "expected a number"));
    }
    Ok((v, j))
}

/// An optionally negative integer at `i`; `-0` is no value.
fn read_int_signed(b: &[u8], i: usize) -> (r: Result<(i64, usize), ParseError>)
    requires
        i <= b.len(),
    ensures
        agrees_int(r, spec_read_int_signed(b@, i as int)),
        advances(r, b@.len() as int, i as int),
        r matches Ok((v, _)) ==> -10_000_000 <= v <= 10_000_000,
{
    let neg = byte_is(b, i, 45);
    let j = if neg { i + 1 } else { i };
    let (v, k) = read_uint(b, j)?;
    if neg && v == 0 {
        // the sign requires a nonzero integer: '-0' is not a value
        return Err(ParseError::new(j, "'-0' is not a value"));
    }
    Ok((if neg { -v } else { v }, k))
}

fn parse_endpoint(b: &[u8], i: usize) -> (r: Result<(Endpoint, usize), ParseError>)
    requires
        i <= b.len(),
    ensures
        agrees(r, spec_parse_endpoint(b@, i as int)),
        advances(r, b@.len() as int, i as int),
        r matches Ok((e, _)) ==> crate::eval::endpoint_ok(e, false),
{
    if byte_is(b, i, 42) {
        Ok((Endpoint::Star, i + 1))
    } else {
        let (v, k) = read_int_signed(b, i)?;
        Ok((Endpoint::Value(v), k))
    }
}

/// A single value-list item at `i`: a value, `*`, or a range.
fn parse_item(b: &[u8], i: usize) -> (r: Result<(Raw, usize), ParseError>)
    requires
        i <= b.len(),
    ensures
        agrees(r, spec_parse_item(b@, i as int)),
        advances(r, b@.len() as int, i as int),
        r matches Ok((it, _)) ==> raw_ok(it),
{
    if byte_is(b, i, 42) {
        if byte_is(b, i + 1, 58) {
            let (end, k) = parse_endpoint(b, i + 2)?;
            return Ok((Raw::Range { start: Endpoint::Star, end }, k));
        }
        return Ok((Raw::Star, i + 1));
    }
    let (v, k) = read_int_signed(b, i)?;
    if byte_is(b, k, 58) {
        let (end, k2) = parse_endpoint(b, k + 1)?;
        Ok((Raw::Range { start: Endpoint::Value(v), end }, k2))
    } else {
        Ok((Raw::Value(v), k))
    }
}

/// Further `,`-separated items at `i`, after `items`.
fn more_items(b: &[u8], i: usize, items: &mut Vec<Raw>) -> (r: Result<usize, ParseError>)
    requires
        i <= b.len(),
        forall|k: int| 0 <= k < old(items)@.len() ==> raw_ok(#[trigger] old(items)@[k]),
    ensures
        match spec_more_items(b@, i as int, old(items)@, b@.len() as nat) {
            Ok((v, k)) => r matches Ok(j) && final(items)@ == v && j as int == k,
            Err((p, m)) => r matches Err(e) && e.pos as int == p && e.message@ == m,
        },
        r matches Ok(j) ==> i <= j <= b@.len(),
        r matches Err(e) ==> e.pos <= b@.len(),
        r is Ok ==> forall|k: int| 0 <= k < final(items)@.len() ==> raw_ok(#[trigger] final(items)@[k]),
{
    let ghost whole = spec_more_items(b@, i as int, old(items)@, b@.len() as nat);
    let ghost mut steps: nat = b@.len() as nat;
    let mut j = i;
    while byte_is(b, j, 44)
        invariant
            i <= j <= b.len(),
            steps + j >= b@.len(),
            whole == spec_more_items(b@, i as int, old(items)@, b@.len() as nat),
            whole == spec_more_items(b@, j as int, items@, steps),
            forall|k: int| 0 <= k < items@.len() ==> raw_ok(#[trigger] items@[k]),
        decreases b@.len() - j,
    {
        let (it, k) = parse_item(b, j + 1)?;
        items.push(it);
        proof {
            steps = (steps - 1) as nat;
        }
        j = k;
    }
    Ok(j)
}

/// The atoms of the value list `items`; a bare `*` stands only alone.
fn build_atoms(items: Vec<Raw>, pos: usize) -> (r: Result<Vec<Atom>, ParseError>)
    requires
        forall|k: int| 0 <= k < items@.len() ==> raw_ok(#[trigger] items@[k]),
    ensures
        match spec_build_atoms(items@, pos as int) {
            Ok(v) => r matches Ok(a) && a@ == v,
            Err((p, m)) => r matches Err(e) && e.pos as int == p && e.message@ == m,
        },
        r matches Ok(a) ==> forall|k: int| 0 <= k < a@.len() ==> atom_syntax_ok(#[trigger] a@[k]),
{
    let len = items.len();
    let mut atoms: Vec<Atom> = Vec::new();
    let mut n: usize = 0;
    while n < len
        invariant
            len == items@.len(),
            n <= len,
            forall|k: int| 0 <= k < items@.len() ==> raw_ok(#[trigger] items@[k]),
            atoms@ == items@.subrange(0, n as int).map_values(|r: Raw| raw_atom(r)),
            len == 1 || forall|k: int| 0 <= k < n ==> #[trigger] items@[k] != Raw::Star,
        decreases len - n,
    {
        let it = items[n];
        proof {
            assert(items@.subrange(0, n + 1) == items@.subrange(0, n as int).push(it));
        }
        match it {
            Raw::Star => {
                if len != 1 {
                    proof {
                        assert(items@[n as int] == Raw::Star);
                        assert(items@.contains(Raw::Star));
                    }
                    return Err(ParseError::new(
                        pos,
                        "bare '*' in a list — the list is already the whole domain",
                    ));
                }
                atoms.push(Atom::All);
            },
            Raw::Value(v) => atoms.push(Atom::Single(v)),
            Raw::Range { start, end } => {
                let wrap = match (start, end) {
                    (Endpoint::Value(s), Endpoint::Value(e)) => s >= 0 && e >= 0 && s > e,
                    _ => false,
                };
                atoms.push(Atom::Range { start, end, wrap });
            },
        }
        proof {
            assert(atoms@ == items@.subrange(0, n + 1).map_values(|r: Raw| raw_atom(r)));
        }
        n = n + 1;
    }
    proof {
        assert(items@.subrange(0, len as int) == items@);
        if len != 1 {
            assert(!items@.contains(Raw::Star));
        }
        assert forall|k: int| 0 <= k < atoms@.len() implies atom_syntax_ok(#[trigger] atoms@[k]) by {
            assert(raw_ok(items@[k]));
        }
    }
    Ok(atoms)
}

/// A `,`-separated value list at `i`.
fn parse_valuelist(b: &[u8], i: usize) -> (r: Result<(Vec<Atom>, usize), ParseError>)
    requires
        i <= b.len(),
    ensures
        match spec_parse_valuelist(b@, i as int) {
            Ok((v, k)) => r matches Ok((a, j)) && a@ == v && j as int == k,
            Err((p, m)) => r matches Err(e) && e.pos as int == p && e.message@ == m,
        },
        advances(r, b@.len() as int, i as int),
        r matches Ok((a, _)) ==> forall|k: int| 0 <= k < a@.len() ==> atom_syntax_ok(#[trigger] a@[k]),
{
    let pos = i;
    let (first, k) = parse_item(b, i)?;
    let mut items = vec![first];
    proof {
        assert(items@ == seq![first]);
    }
    let k2 = more_items(b, k, &mut items)?;
    let atoms = build_atoms(items, pos)?;
    Ok((atoms, k2))
}

/// A stride at `i` (the `/`) on the base `first`: from its start, every
/// `interval`-th unit, covering `duration`, up to its end.
pub fn build_stride(b: &[u8], i: usize, first: Raw) -> (r: Result<(Atom, usize), ParseError>)
    requires
        i <= b.len(),
        raw_ok(first),
        stride_base(first, i as int) matches Ok((s, _)) && s >= 0 ==> i < b@.len(),
    ensures
        agrees(r, spec_build_stride(b@, i as int, first)),
        r matches Ok((_, j)) ==> j <= b@.len(),
        r matches Ok((_, j)) ==> i < j,
        r matches Err(e) ==> e.pos <= b@.len(),
        r matches Ok((a, _)) ==> atom_syntax_ok(a),
{
    let stride_pos = i;
    let (start, end) = match first {
        Raw::Value(v) => (v, Endpoint::Star),
        Raw::Range { start, end } => {
            let s = match start {
                Endpoint::Value(v) => v,
                Endpoint::Star => {
                    return Err(ParseError::new(
                        stride_pos,
                        "stride start must be an explicit non-negative value",
                    ));
                },
            };
            // A wrap range takes no stride.
            if let Endpoint::Value(e) = end {
                if s >= 0 && e >= 0 && s > e {
                    return Err(ParseError::new(stride_pos, "wrap ranges take no stride"));
                }
            }
            (s, end)
        },
        Raw::Star => {
            return Err(ParseError::new(
                stride_pos,
                "anchorless stride — an explicit start is required",
            ));
        },
    };
    if start < 0 {
        return Err(ParseError::new(
            stride_pos,
            "stride start must be non-negative (end-relative anchors shift per parent instance)",
        ));
    }
    let (interval, k) = read_uint(b, i + 1)?;
    let (duration, k2) = if byte_is(b, k, 47) {
        read_uint(b, k + 1)?
    } else {
        (1, k)
    };
    Ok((Atom::Stride { start, end, interval, duration }, k2))
}


/// The field designator a letter names.
fn designator(c: u8) -> (r: Option<Desig>)
    ensures
        r == designator_of(c),
{
    match c {
        89 => Some(Desig::Year),
        81 => Some(Desig::Quarter),
        77 => Some(Desig::Month),
        87 => Some(Desig::Week),
        68 => Some(Desig::Day),
        69 => Some(Desig::Weekday),
        72 => Some(Desig::Hour),
        109 => Some(Desig::Minute),
        115 => Some(Desig::Second),
        _ => None,
    }
}

/// The selector whose designator letter stands at `i`, added to `expr`.
fn parse_selector(b: &[u8], i: usize, expr: &mut Expr, desig: Desig) -> (r: Result<usize, ParseError>)
    requires
        i < b.len(),
        syntax_ok(old(expr)@),
        positions_within(old(expr)@, b@.len() as int),
    ensures
        agrees_expr(r, final(expr)@, spec_parse_selector(b@, i as int, old(expr)@, desig)),
        r matches Ok(j) ==> i < j <= b@.len(),
        r matches Err(e) ==> e.pos <= b@.len(),
        r is Ok ==> syntax_ok(final(expr)@),
        r is Ok ==> positions_within(final(expr)@, b@.len() as int),
{
    let pos = i;
    let i = i + 1;
    if has_desig_exec(&expr.selectors, desig) {
        return Err(ParseError::new(pos, "duplicate designator in one expression"));
    }
    // The value part must start with a digit, '-', '*' or '!'.
    let starts = match peek(b, i) {
        Some(c) => is_ascii_digit(c) || c == 45 || c == 42 || c == 33,
        None => false,
    };
    if !starts {
        return Err(ParseError::new(i, "designator requires a value"));
    }
    let mut exclude = false;
    let mut ordinal: Option<(i64, i64)> = None;
    let atoms: Vec<Atom>;
    let j: usize;
    if byte_is(b, i, 33) {
        exclude = true;
        let (a, k) = parse_valuelist(b, i + 1)?;
        if byte_is(b, k, 47) {
            return Err(ParseError::new(
                k,
                "a component is either an exclusion or a stride, never both",
            ));
        }
        atoms = a;
        j = k;
    } else if byte_is(b, i, 42) && !byte_is(b, i + 1, 58) {
        atoms = vec![Atom::All];
        j = i + 1;
        proof {
            assert(atoms@ == seq![Atom::All]);
        }
    } else {
        let (first, k) = parse_item(b, i)?;
        if byte_is(b, k, 47) {
            let (a, k2) = build_stride(b, k, first)?;
            atoms = vec![a];
            j = k2;
            proof {
                assert(atoms@ == seq![a]);
            }
        } else if byte_is(b, k, 35) {
            if desig != Desig::Weekday {
                return Err(ParseError::new(k, "ordinal '#' is valid only on E"));
            }
            let wd = match first {
                // a negative base resolves against E's fixed domain first:
                // E-1#2 is E7#2
                Raw::Value(v) => if -7 <= v && v <= -1 {
                    8 + v
                } else {
                    v
                },
                _ => {
                    return Err(ParseError::new(pos, "ordinal weekday must be a value"));
                },
            };
            let mut m = k + 1;
            let mut neg = false;
            if byte_is(b, m, 45) {
                neg = true;
                m = m + 1;
            }
            let (n, k2) = read_uint(b, m)?;
            let ord = if neg { -n } else { n };
            if ord == 0 || !(-5 <= ord && ord <= 5) {
                return Err(ParseError::new(pos, "ordinal out of range (-5..-1, 1..5)"));
            }
            ordinal = Some((wd, ord));
            atoms = Vec::new();
            j = k2;
            proof {
                assert(atoms@ == Seq::<Atom>::empty());
            }
        } else if byte_is(b, k, 44) {
            let mut items = vec![first];
            proof {
                assert(items@ == seq![first]);
            }
            let k2 = more_items(b, k, &mut items)?;
            if byte_is(b, k2, 47) {
                return Err(ParseError::new(
                    k2,
                    "a stride attaches to a single value or range, not a list",
                ));
            }
            atoms = build_atoms(items, pos)?;
            j = k2;
        } else {
            // A single item never trips the bare-`*`-in-a-list guard.
            let items = vec![first];
            proof {
                assert(items@ == seq![first]);
                assert(items@.map_values(|r: Raw| raw_atom(r)) == seq![raw_atom(first)]);
            }
            atoms = build_atoms(items, pos)?;
            j = k;
        }
    }
    let ghost old_sels = expr@.selectors;
    let sel = Selector { desig, atoms, exclude, ordinal, pos };
    let ghost sv = sel@;
    expr.selectors.push(sel);
    proof {
        assert(expr@.selectors == old_sels.push(sv));
        assert forall|q: int| 0 <= q < expr@.selectors.len() implies selector_syntax_ok(#[trigger] expr@.selectors[q]) by {
            if q < old_sels.len() {
                assert(expr@.selectors[q] == old_sels[q]);
            }
        }
        assert forall|q: int| 0 <= q < expr@.selectors.len() implies (#[trigger] expr@.selectors[q]).pos < b@.len() by {
            if q < old_sels.len() {
                assert(expr@.selectors[q] == old_sels[q]);
            }
        }
    }
    Ok(j)
}


// ---- time (T) -------------------------------------------------------------------

/// The two-digit number at `a`.
fn two_digits(b: &[u8], a: usize) -> (r: i64)
    requires
        a + 1 < b@.len(),
        digit_at(b@, a as int),
        digit_at(b@, a + 1),
    ensures
        r == two(b@, a as int),
        0 <= r <= 99,
{
    (b[a] - 48) as i64 * 10 + (b[a + 1] - 48) as i64
}

/// A time value at `i`: `hh`, `hhmm`, `hhmmss[.fff]`, or `2400` where allowed.
fn parse_timeval(b: &[u8], i: usize, allow_2400: bool) -> (r: Result<(TimeVal, usize), ParseError>)
    requires
        i <= b.len(),
    ensures
        agrees(r, spec_parse_timeval(b@, i as int, allow_2400)),
        advances(r, b@.len() as int, i as int),
        r matches Ok((t, _)) ==> 0 <= t.ms <= MS_PER_DAY && 0 <= t.unit <= MS_PER_HOUR,
{
    let pos = i;
    let j = digits_end(b, i);
    let n = j - i;
    if n == 2 {
        let hh = two_digits(b, i);
        if hh > 23 {
            return Err(ParseError::new(pos, "hour out of range in time value"));
        }
        Ok((TimeVal { ms: hh * MS_PER_HOUR, unit: MS_PER_HOUR, is_2400: false }, j))
    } else if n == 4 {
        let hh = two_digits(b, i);
        let mm = two_digits(b, i + 2);
        if hh == 24 && mm == 0 {
            if !allow_2400 {
                return Err(ParseError::new(pos, "'2400' is valid only in range-end position"));
            }
            return Ok((TimeVal { ms: MS_PER_DAY, unit: 0, is_2400: true }, j));
        }
        if hh > 23 {
            return Err(ParseError::new(
                pos,
                "hour out of range — 24 exists only as the exact token '2400'",
            ));
        }
        if mm > 59 {
            return Err(ParseError::new(pos, "minute out of range in time value"));
        }
        Ok((TimeVal { ms: hh * MS_PER_HOUR + mm * MS_PER_MIN, unit: MS_PER_MIN, is_2400: false }, j))
    } else if n == 6 {
        let hh = two_digits(b, i);
        let mm = two_digits(b, i + 2);
        let ss = two_digits(b, i + 4);
        if hh > 23 {
            return Err(ParseError::new(
                pos,
                "hour out of range — 24 exists only as the exact token '2400'",
            ));
        }
        if mm > 59 {
            return Err(ParseError::new(pos, "minute out of range in time value"));
        }
        if ss > 59 {
            return Err(ParseError::new(
                pos,
                "second out of range (leap seconds are not representable)",
            ));
        }
        let ms = hh * MS_PER_HOUR + mm * MS_PER_MIN + ss * MS_PER_SEC;
        if byte_is(b, j, 46) {
            let k = digits_end(b, j + 1);
            if k - (j + 1) != 3 {
                return Err(ParseError::new(pos, "millisecond precision requires exactly 3 digits"));
            }
            assert(digit_at(b@, j + 1) && digit_at(b@, j + 2) && digit_at(b@, j + 3));
            let frac = (b[j + 1] - 48) as i64 * 100 + (b[j + 2] - 48) as i64 * 10 + (b[j + 3] - 48) as i64;
            return Ok((TimeVal { ms: ms + frac, unit: 1, is_2400: false }, k));
        }
        Ok((TimeVal { ms, unit: MS_PER_SEC, is_2400: false }, j))
    } else {
        Err(ParseError::new(pos, "malformed time value"))
    }
}

/// A time item at `i`: a value (covering its unit) or a `start:end` range.
fn parse_time_item(b: &[u8], i: usize) -> (r: Result<(TimeInterval, usize), ParseError>)
    requires
        i <= b.len(),
    ensures
        agrees(r, spec_parse_time_item(b@, i as int)),
        advances(r, b@.len() as int, i as int),
{
    let start_pos = i;
    let (start, k) = parse_timeval(b, i, false)?;
    if byte_is(b, k, 58) {
        if byte_is(b, k + 1, 42) {
            return Err(ParseError::new(k + 1, "T takes no '*'"));
        }
        let (end, k2) = parse_timeval(b, k + 1, true)?;
        let end_ms = if end.is_2400 { MS_PER_DAY } else { end.ms };
        if start.ms == end_ms {
            return Err(ParseError::new(start_pos, "T range with equal endpoints covers nothing"));
        }
        Ok((TimeInterval { start: start.ms, end: end_ms, wrap: start.ms > end_ms }, k2))
    } else {
        Ok((TimeInterval { start: start.ms, end: start.ms + start.unit, wrap: false }, k))
    }
}

/// The `T` component whose letter stands at `i`, added to `expr`.
#[verifier::loop_isolation(false)]
fn parse_time(b: &[u8], i: usize, expr: &mut Expr) -> (r: Result<usize, ParseError>)
    requires
        i < b.len(),
    ensures
        agrees_expr(r, final(expr)@, spec_parse_time(b@, i as int, old(expr)@)),
        r matches Ok(j) ==> i < j <= b@.len(),
        r matches Err(e) ==> e.pos <= b@.len(),
        r is Ok ==> final(expr)@.selectors == old(expr)@.selectors && final(expr)@.cadence == old(expr)@.cadence,
{
    let pos = i;
    let i = i + 1;
    if expr.time.is_some() {
        return Err(ParseError::new(pos, "duplicate T component"));
    }
    if byte_is(b, i, 33) {
        return Err(ParseError::new(i, "T takes no exclusion — write the complement explicitly"));
    }
    if byte_is(b, i, 42) {
        return Err(ParseError::new(i, "T takes no '*'"));
    }
    if i >= b.len() {
        return Err(ParseError::new(i, "T requires a value"));
    }
    let ghost whole = spec_time_items(b@, i as int, Seq::empty(), b@.len() as nat);
    let ghost mut steps: nat = b@.len() as nat;
    let mut intervals: Vec<TimeInterval> = Vec::new();
    let mut j = i;
    loop
        invariant
            i <= j <= b.len(),
            steps + j >= b@.len(),
            whole == spec_time_items(b@, j as int, intervals@, steps),
        decreases b@.len() - j,
    {
        let (iv, k) = parse_time_item(b, j)?;
        intervals.push(iv);
        if byte_is(b, k, 44) {
            proof {
                steps = (steps - 1) as nat;
            }
            j = k + 1;
            continue;
        }
        assert(whole == Ok::<(Seq<TimeInterval>, int), (int, Seq<char>)>((intervals@, k as int)));
        j = k;
        break;
    }
    if byte_is(b, j, 47) {
        return Err(ParseError::new(j, "T takes no stride"));
    }
    expr.time = Some(TimeSel { intervals });
    Ok(j)
}

// ---- dates, bounds, cadences ----------------------------------------------------

/// A real calendar date in years 0-9999.
fn valid_date(y: i64, m: i64, d: i64) -> (r: bool)
    ensures
        r == spec_valid_date(y as int, m as int, d as int),
{
    1 <= m && m <= 12 && d >= 1 && d <= days_in_month(y, m) && 0 <= y && y <= 9999
}

/// The time part of a date literal at `i` (after its `T`), for the literal
/// at `pos`: exactly four or six digits.
fn parse_date_time(b: &[u8], i: usize, pos: usize) -> (r: Result<(TimePart, usize), ParseError>)
    requires
        i <= b.len(),
        pos <= b.len(),
    ensures
        agrees(r, spec_parse_date_time(b@, i as int, pos as int)),
        r matches Ok((_, j)) ==> i < j <= b@.len(),
        r matches Err(e) ==> e.pos <= b@.len(),
        r matches Ok((tp, _)) ==> 0 <= tp.h <= 23 && 0 <= tp.mi <= 59 && (tp.s matches Some(s) ==> 0 <= s <= 59),
{
    // The T-glue is unconditional: exactly 4 digits (hhmm), or 6 (hhmmss).
    let j = digits_end(b, i);
    let n = j - i;
    if n != 4 && n != 6 {
        return Err(ParseError::new(pos, "malformed time-part in date literal"));
    }
    let h = two_digits(b, i);
    let mi = two_digits(b, i + 2);
    if h > 23 || mi > 59 {
        return Err(ParseError::new(pos, "time-part out of range in date literal"));
    }
    let s = if n == 6 {
        let sec = two_digits(b, i + 4);
        if sec > 59 {
            return Err(ParseError::new(pos, "seconds out of range in date literal"));
        }
        Some(sec)
    } else {
        None
    };
    Ok((TimePart { h, mi, s }, j))
}

/// The literal's date and time fit a cadence anchor or bounds.
pub open spec fn date_ok(d: DateLit) -> bool {
    &&& spec_valid_date(d.y as int, d.m as int, d.d as int)
    &&& d.time matches Some(tp) ==> 0 <= tp.h <= 23 && 0 <= tp.mi <= 59 && (tp.s matches Some(s) ==> 0 <= s <= 59)
}

/// A date literal `yyyymmdd[Thhmm[ss]]` at `i`.
fn parse_date(b: &[u8], i: usize) -> (r: Result<(DateLit, usize), ParseError>)
    requires
        i <= b.len(),
    ensures
        agrees(r, spec_parse_date(b@, i as int)),
        advances(r, b@.len() as int, i as int),
        r matches Ok((d, _)) ==> date_ok(d),
{
    let pos = i;
    let mut k: usize = 0;
    while k < 8
        invariant
            pos == i,
            i <= b.len(),
            k <= 8,
            forall|q: int| i <= q < i + k ==> #[trigger] digit_at(b@, q),
        decreases 8 - k,
    {
        if !(k < b.len() - i && is_ascii_digit(b[i + k])) {
            proof {
                assert(!digit_at(b@, i + k));
            }
            return Err(ParseError::new(pos, "date literal requires 8 digits"));
        }
        k = k + 1;
    }
    assert(digit_at(b@, i as int) && digit_at(b@, i + 1) && digit_at(b@, i + 2) && digit_at(b@, i + 3));
    assert(digit_at(b@, i + 4) && digit_at(b@, i + 5) && digit_at(b@, i + 6) && digit_at(b@, i + 7));
    let y = (b[i] - 48) as i64 * 1000 + (b[i + 1] - 48) as i64 * 100 + (b[i + 2] - 48) as i64 * 10
        + (b[i + 3] - 48) as i64;
    let m = two_digits(b, i + 4);
    let d = two_digits(b, i + 6);
    if !valid_date(y, m, d) {
        return Err(ParseError::new(pos, "date literal is not a real calendar date"));
    }
    let (time, j) = if byte_is(b, i + 8, 84) {
        let (tp, j) = parse_date_time(b, i + 9, pos)?;
        (Some(tp), j)
    } else {
        (None, i + 8)
    };
    Ok((DateLit { y, m, d, time }, j))
}

impl DateLit {
    fn days(&self) -> (r: i64)
        requires
            date_ok(*self),
        ensures
            r == self.spec_days(),
            -4_000_000 <= r <= 4_000_000,
    {
        proof {
            crate::civil::lemma_days_from_civil_bound(self.y as int, self.m as int, self.d as int);
        }
        days_from_civil(self.y, self.m, self.d)
    }

    /// The first naive millisecond the literal denotes.
    fn span_start(&self) -> (r: i64)
        requires
            date_ok(*self),
        ensures
            r == self.spec_span_start(),
    {
        let base = self.days() * MS_PER_DAY;
        match &self.time {
            None => base,
            Some(tp) => {
                let s = match tp.s {
                    Some(s) => s,
                    None => 0,
                };
                base + tp.h * MS_PER_HOUR + tp.mi * MS_PER_MIN + s * MS_PER_SEC
            },
        }
    }

    /// The naive millisecond after the last one the literal denotes: the end
    /// of its day, minute or second.
    fn span_end(&self) -> (r: i64)
        requires
            date_ok(*self),
        ensures
            r == self.spec_span_end(),
    {
        match &self.time {
            None => (self.days() + 1) * MS_PER_DAY,
            Some(tp) => {
                let start = self.span_start();
                match tp.s {
                    None => start + MS_PER_MIN,
                    Some(_) => start + MS_PER_SEC,
                }
            },
        }
    }

    /// The literal as a cadence anchor.
    fn anchor(&self) -> (r: Naive)
        ensures
            r == self.spec_anchor(),
    {
        let (h, mi, s) = match &self.time {
            None => (0, 0, 0),
            Some(tp) => (tp.h, tp.mi, match tp.s {
                Some(s) => s,
                None => 0,
            }),
        };
        Naive::new(self.y, self.m, self.d, h, mi, s, 0)
    }
}


/// A `*:end` bounds component whose `*` stands at `i`, added to `expr`.
fn parse_bounds_star(b: &[u8], i: usize, expr: &mut Expr) -> (r: Result<usize, ParseError>)
    requires
        i < b.len(),
    ensures
        agrees_expr(r, final(expr)@, spec_parse_bounds_star(b@, i as int, old(expr)@)),
        r matches Ok(j) ==> i < j <= b@.len(),
        r matches Err(e) ==> e.pos <= b@.len(),
        r is Ok ==> final(expr)@.selectors == old(expr)@.selectors && final(expr)@.cadence == old(expr)@.cadence,
{
    let pos = i;
    if !byte_is(b, i + 1, 58) {
        return Err(ParseError::new(pos, "'*' is only valid as a bounds start"));
    }
    if byte_is(b, i + 2, 42) {
        return Err(ParseError::new(pos, "bounds require at least one date-literal endpoint"));
    }
    let (end, j) = parse_date(b, i + 2)?;
    if expr.bounds.is_some() {
        return Err(ParseError::new(pos, "more than one bounds component per expression"));
    }
    expr.bounds = Some(Bounds { start: None, end: Some(end.span_end()) });
    Ok(j)
}

/// A bounds component whose start literal `start` began at `pos`, continuing
/// at `i`, added to `expr`.
fn finish_bounds(b: &[u8], i: usize, expr: &mut Expr, start: DateLit, pos: usize) -> (r: Result<usize, ParseError>)
    requires
        pos < i <= b.len(),
        date_ok(start),
    ensures
        agrees_expr(r, final(expr)@, spec_finish_bounds(b@, i as int, old(expr)@, start, pos as int)),
        r matches Ok(j) ==> pos < j <= b@.len(),
        r matches Err(e) ==> e.pos <= b@.len(),
        r is Ok ==> final(expr)@.selectors == old(expr)@.selectors && final(expr)@.cadence == old(expr)@.cadence,
{
    let (lo, hi, j) = if byte_is(b, i, 58) {
        if byte_is(b, i + 1, 42) {
            (Some(start.span_start()), None, i + 2)
        } else {
            let (end, k) = parse_date(b, i + 1)?;
            (Some(start.span_start()), Some(end.span_end()), k)
        }
    } else {
        (Some(start.span_start()), Some(start.span_end()), i)
    };
    if let (Some(l), Some(h)) = (lo, hi) {
        if l >= h {
            return Err(ParseError::new(pos, "backwards bounds range"));
        }
    }
    if expr.bounds.is_some() {
        return Err(ParseError::new(pos, "more than one bounds component per expression"));
    }
    expr.bounds = Some(Bounds { start: lo, end: hi });
    Ok(j)
}

/// The cadence unit a letter names.
fn cad_unit(c: u8) -> (r: Option<CadUnit>)
    ensures
        r == unit_of(c),
{
    match c {
        89 => Some(CadUnit::Year),
        77 => Some(CadUnit::Month),
        87 => Some(CadUnit::Week),
        68 => Some(CadUnit::Day),
        72 => Some(CadUnit::Hour),
        109 => Some(CadUnit::Minute),
        _ => None,
    }
}

/// A cadence term `n<unit>` at `i`.
fn read_cadence_term(b: &[u8], i: usize) -> (r: Result<((i64, CadUnit), usize), ParseError>)
    requires
        i <= b.len(),
    ensures
        match spec_read_cadence_term(b@, i as int) {
            Ok(((n, u), k)) => r matches Ok(((x, v), j)) && x as int == n && v == u && j as int == k,
            Err((p, m)) => r matches Err(e) && e.pos as int == p && e.message@ == m,
        },
        advances(r, b@.len() as int, i as int),
        r matches Ok(((n, _), _)) ==> 0 <= n <= 10_000_000,
{
    let (n, k) = read_uint(b, i)?;
    let unit = match peek(b, k) {
        Some(c) => match cad_unit(c) {
            Some(u) => u,
            None => {
                return Err(ParseError::new(k, "unknown cadence unit"));
            },
        },
        None => {
            return Err(ParseError::new(k, "unknown cadence unit"));
        },
    };
    Ok(((n, unit), k + 1))
}

/// `(longest, shortest)` length of a cadence unit in seconds.
fn cad_lengths(u: CadUnit) -> (r: (i64, i64))
    ensures
        (r.0 as int, r.1 as int) == spec_cad_lengths(u),
{
    let day: i64 = 86_400;
    match u {
        CadUnit::Year => (366 * day, 365 * day),
        CadUnit::Month => (31 * day, 28 * day),
        CadUnit::Week => (7 * day, 7 * day),
        CadUnit::Day => (day, day),
        CadUnit::Hour => (3_600, 3_600),
        CadUnit::Minute => (60, 60),
    }
}

/// Is the duration shorter than the period? By count within one unit, else
/// conservatively: even the longest duration against the shortest period.
fn duration_lt_period(dn: i64, du: CadUnit, pn: i64, pu: CadUnit) -> (r: bool)
    requires
        0 <= dn <= 10_000_000,
        0 <= pn <= 10_000_000,
    ensures
        r == spec_duration_lt_period(dn as int, du, pn as int, pu),
{
    if du == pu {
        return dn < pn;
    }
    let (dmax, _) = cad_lengths(du);
    let (_, pmin) = cad_lengths(pu);
    proof {
        assert(0 <= dn * dmax <= 10_000_000 * 31_622_400) by (nonlinear_arith)
            requires
                0 <= dn <= 10_000_000,
                0 <= dmax <= 31_622_400,
        ;
        assert(0 <= pn * pmin <= 10_000_000 * 31_622_400) by (nonlinear_arith)
            requires
                0 <= pn <= 10_000_000,
                0 <= pmin <= 31_622_400,
        ;
    }
    dn * dmax < pn * pmin
}

/// A cadence whose `/` stands at `i`, anchored at the literal `date` that
/// began at `pos`, added to `expr`.
fn parse_cadence(b: &[u8], i: usize, expr: &mut Expr, date: DateLit, pos: usize) -> (r: Result<usize, ParseError>)
    requires
        pos < i < b.len(),
        date_ok(date),
    ensures
        agrees_expr(r, final(expr)@, spec_parse_cadence(b@, i as int, old(expr)@, date, pos as int)),
        r matches Ok(j) ==> pos < j <= b@.len(),
        r matches Err(e) ==> e.pos <= b@.len(),
        r is Ok ==> final(expr)@.selectors == old(expr)@.selectors,
        r is Ok ==> (final(expr)@.cadence matches Some(c) && cadence_ok(c)),
{
    // The anchor is already a validated calendar date: `parse_date` rejects
    // any date that is not real before it ever reaches here.
    let ((period_n, period_unit), k) = read_cadence_term(b, i + 1)?;
    if period_n < 1 {
        return Err(ParseError::new(pos, "cadence period must be >= 1"));
    }
    let (duration_n, duration_unit, explicit, k2) = if byte_is(b, k, 47) {
        let ((n, u), k2) = read_cadence_term(b, k + 1)?;
        (n, u, true, k2)
    } else {
        (1, period_unit, false, k)
    };
    if explicit && duration_n < 1 {
        return Err(ParseError::new(pos, "cadence duration must be >= 1"));
    }
    // Month/year duration units require a month/year period.
    if duration_unit.is_month_or_year() && !period_unit.is_month_or_year() {
        return Err(ParseError::new(pos, "month/year duration unit requires a month/year period"));
    }
    // duration < period, conservatively.
    if !duration_lt_period(duration_n, duration_unit, period_n, period_unit) {
        return Err(ParseError::new(pos, "cadence duration must be < period"));
    }
    if expr.cadence.is_some() {
        return Err(ParseError::new(pos, "more than one cadence per expression"));
    }
    expr.cadence = Some(Cadence { anchor: date.anchor(), period_n, period_unit, duration_n, duration_unit });
    Ok(k2)
}

/// A component starting with a date literal at `i`: a cadence or bounds.
fn parse_date_component(b: &[u8], i: usize, expr: &mut Expr) -> (r: Result<usize, ParseError>)
    requires
        i < b.len(),
    ensures
        agrees_expr(r, final(expr)@, spec_parse_date_component(b@, i as int, old(expr)@)),
        r matches Ok(j) ==> i < j <= b@.len(),
        r matches Err(e) ==> e.pos <= b@.len(),
        r is Ok ==> final(expr)@.selectors == old(expr)@.selectors,
        r is Ok ==> (final(expr)@.cadence == old(expr)@.cadence || (final(expr)@.cadence matches Some(c) && cadence_ok(c))),
{
    let pos = i;
    let (date, k) = parse_date(b, i)?;
    if byte_is(b, k, 47) {
        parse_cadence(b, k, expr, date, pos)
    } else {
        finish_bounds(b, k, expr, date, pos)
    }
}

/// One component at `i`, added to `expr`.
fn parse_component(b: &[u8], i: usize, expr: &mut Expr) -> (r: Result<usize, ParseError>)
    requires
        i < b.len(),
        syntax_ok(old(expr)@),
        positions_within(old(expr)@, b@.len() as int),
    ensures
        agrees_expr(r, final(expr)@, spec_parse_component(b@, i as int, old(expr)@)),
        r matches Ok(j) ==> i < j <= b@.len(),
        r matches Err(e) ==> e.pos <= b@.len(),
        r is Ok ==> syntax_ok(final(expr)@),
        r is Ok ==> positions_within(final(expr)@, b@.len() as int),
{
    reveal(spec_parse_component);
    let c = b[i];
    if is_ascii_digit(c) {
        parse_date_component(b, i, expr)
    } else if c == 42 {
        parse_bounds_star(b, i, expr)
    } else if c == 84 {
        parse_time(b, i, expr)
    } else if let Some(d) = designator(c) {
        parse_selector(b, i, expr, d)
    } else {
        Err(ParseError::new(i, "unknown designator"))
    }
}

/// One `|`-separated expression at `i`.
#[verifier::loop_isolation(false)]
fn parse_expression(b: &[u8], i: usize) -> (r: Result<(Expr, usize), ParseError>)
    requires
        i <= b.len(),
    ensures
        match spec_parse_expression(b@, i as int) {
            Ok((v, k)) => r matches Ok((e, j)) && e@ == v && j as int == k,
            Err((p, m)) => r matches Err(e) && e.pos as int == p && e.message@ == m,
        },
        r matches Ok((_, j)) ==> i <= j <= b@.len(),
        r matches Err(e) ==> e.pos <= b@.len(),
        r matches Ok((e, _)) ==> parsed_ok(e@),
        r matches Ok((e, _)) ==> positions_within(e@, b@.len() as int),
{
    reveal(spec_parse_expression);
    let mut expr = Expr::default();
    let ghost whole = spec_components(b@, i as int, ExprV::empty(), 0, b@.len() as nat);
    let ghost mut steps: nat = b@.len() as nat;
    let mut n: usize = 0;
    let mut j = i;
    loop
        invariant
            i <= j <= b.len(),
            n <= j - i,
            steps + j >= b@.len(),
            whole == spec_components(b@, j as int, expr@, n as int, steps),
            syntax_ok(expr@),
            positions_within(expr@, b@.len() as int),
        decreases b@.len() - j,
    {
        j = skip_spaces(b, j);
        if j >= b.len() || b[j] == 124 {
            break;
        }
        j = parse_component(b, j, &mut expr)?;
        n = n + 1;
        proof {
            steps = (steps - 1) as nat;
        }
    }
    if n == 0 {
        return Err(ParseError::new(j, "empty expression"));
    }
    expr.has_week = has_desig_exec(&expr.selectors, Desig::Week);
    Ok((expr, j))
}

/// Parse a whole DTRExp into its `|`-separated branches (structural only).
pub fn parse_branches(input: &str) -> (r: Result<Vec<Expr>, ParseError>)
    ensures
        match spec_parse_branches(input.spec_bytes()) {
            Ok(v) => r matches Ok(es) && es@.map_values(|e: Expr| e@) == v,
            Err((p, m)) => r matches Err(e) && e.pos as int == p && e.message@ == m,
        },
        r matches Err(e) ==> e.pos <= input.spec_bytes().len(),
        r matches Ok(es) ==> forall|k: int| 0 <= k < es@.len() ==> parsed_ok(#[trigger] es@[k]@),
        r matches Ok(es) ==> forall|k: int| 0 <= k < es@.len() ==> positions_within(#[trigger] es@[k]@, input.spec_bytes().len() as int),
{
    let b = input.as_bytes();
    parse_branches_at(b)
}

#[verifier::loop_isolation(false)]
fn parse_branches_at(b: &[u8]) -> (r: Result<Vec<Expr>, ParseError>)
    ensures
        match spec_parse_branches(b@) {
            Ok(v) => r matches Ok(es) && es@.map_values(|e: Expr| e@) == v,
            Err((p, m)) => r matches Err(e) && e.pos as int == p && e.message@ == m,
        },
        r matches Err(e) ==> e.pos <= b@.len(),
        r matches Ok(es) ==> forall|k: int| 0 <= k < es@.len() ==> parsed_ok(#[trigger] es@[k]@),
        r matches Ok(es) ==> forall|k: int| 0 <= k < es@.len() ==> positions_within(#[trigger] es@[k]@, b@.len() as int),
{
    let ghost whole = spec_parse_branches(b@);
    let ghost mut steps: nat = b@.len() as nat;
    let mut branches: Vec<Expr> = Vec::new();
    let mut i: usize = 0;
    assert(branches@.map_values(|e: Expr| e@) =~= Seq::<ExprV>::empty());
    loop
        invariant
            i <= b.len(),
            steps + i >= b@.len(),
            whole == spec_branches(b@, i as int, branches@.map_values(|e: Expr| e@), steps),
            forall|k: int| 0 <= k < branches@.len() ==> parsed_ok(#[trigger] branches@[k]@),
            forall|k: int| 0 <= k < branches@.len() ==> positions_within(#[trigger] branches@[k]@, b@.len() as int),
        decreases b@.len() - i,
    {
        let (expr, k) = parse_expression(b, i)?;
        let ghost ev = expr@;
        let ghost before = branches@;
        branches.push(expr);
        proof {
            assert(branches@.map_values(|e: Expr| e@) == before.map_values(|e: Expr| e@).push(ev));
        }
        let j = skip_spaces(b, k);
        if byte_is(b, j, 124) {
            proof {
                steps = (steps - 1) as nat;
            }
            i = j + 1;
            continue;
        }
        // `parse_expression` only yields at `|` or the end of the input, so
        // the `|`s consumed above leave nothing but the end here.
        break;
    }
    Ok(branches)
}

} // verus!
