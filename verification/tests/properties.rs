//! Library-wide properties on concrete values: the documented examples, one
//! input for each error message, and the laws the specifications state.

use dtrexp::ast::{Desig, Expr, Selector};
use dtrexp::civil::{
    civil_from_days, day_of_quarter, day_of_year, days_from_civil, days_in_month,
    days_in_quarter, is_leap, iso_week, iso_weekday, quarter_of_month, weeks_in_iso_year, Naive,
};
use dtrexp::validate::check;
use dtrexp::{parse, validate, Tz, Warning};

const DAY: i64 = 86_400_000;

fn utc_ms(y: i64, mo: i64, d: i64, h: i64, mi: i64, s: i64) -> i64 {
    days_from_civil(y, mo, d) * DAY + h * 3_600_000 + mi * 60_000 + s * 1_000
}

fn err_at(expr: &str, pos: usize, message: &str) {
    match parse(expr) {
        Ok(_) => panic!("`{expr}` should be rejected"),
        Err(e) => {
            assert_eq!(e.message, message, "`{expr}` rejected for the wrong reason");
            assert_eq!(e.pos, pos, "`{expr}` rejected at the wrong position");
        }
    }
}

// ---- documented examples ---------------------------------------------------------

#[test]
fn business_hours_example() {
    let expr = parse("T0900:1800 E1:5").unwrap();
    assert!(expr.warnings().is_empty());
    // 2026-07-09 (a Thursday) 10:00:00Z.
    let t = 1_783_591_200_000;
    assert_eq!(t, utc_ms(2026, 7, 9, 10, 0, 0));
    assert!(expr.covers(t, "UTC", None).unwrap());
    assert!(expr.covers_in(t, &Tz::utc()));
    // The same Thursday at 19:00 and the Saturday after at 10:00 are not.
    assert!(!expr.covers_in(t + 9 * 3_600_000, &Tz::utc()));
    assert!(!expr.covers_in(t + 2 * DAY, &Tz::utc()));
    // The README's instant, Tuesday 2026-07-07 10:00:00Z, is.
    assert!(expr.covers(1_783_418_400_000, "", None).unwrap());
}

#[test]
fn hour_out_of_range_example() {
    err_at("T2500", 1, "hour out of range — 24 exists only as the exact token '2400'");
}

#[test]
fn unsatisfiable_day_example() {
    let warnings = validate("D30 M2").unwrap();
    assert_eq!(warnings.len(), 1);
    assert_eq!(warnings[0].pos, 0);
    assert_eq!(warnings[0].message, "unsatisfiable — day never exists in the covered instances");
}

#[test]
fn last_sunday_of_april_example() {
    let expr = parse("E7#-1 M4").unwrap();
    let utc = Tz::utc();
    assert!(expr.covers_in(utc_ms(2026, 4, 26, 3, 0, 0), &utc));
    assert!(!expr.covers_in(utc_ms(2026, 4, 19, 3, 0, 0), &utc));
    assert!(!expr.covers_in(utc_ms(2026, 3, 29, 3, 0, 0), &utc));
}

#[test]
fn every_ten_days_example() {
    let expr = parse("20200106/10D").unwrap();
    let utc = Tz::utc();
    assert!(expr.covers_in(utc_ms(2020, 1, 6, 0, 0, 0), &utc));
    assert!(expr.covers_in(utc_ms(2020, 1, 16, 23, 59, 59), &utc));
    assert!(!expr.covers_in(utc_ms(2020, 1, 17, 0, 0, 0), &utc));
    assert!(expr.covers_in(utc_ms(2020, 1, 26, 12, 0, 0), &utc));
    assert!(!expr.covers_in(utc_ms(2020, 1, 5, 12, 0, 0), &utc));
}

// ---- laws ----------------------------------------------------------------------------

#[test]
fn exclusion_covers_the_complement() {
    let july = parse("M7").unwrap();
    let not_july = parse("M!7").unwrap();
    let utc = Tz::utc();
    for m in 1..=12 {
        let t = utc_ms(2025, m, 10, 8, 0, 0);
        assert_ne!(july.covers_in(t, &utc), not_july.covers_in(t, &utc));
        assert_eq!(july.covers_in(t, &utc), m == 7);
    }
}

#[test]
fn weekday_selectors_repeat_weekly() {
    let wednesday = parse("E3").unwrap();
    let utc = Tz::utc();
    let mut t = utc_ms(2024, 2, 20, 6, 0, 0);
    for _ in 0..30 {
        assert_eq!(wednesday.covers_in(t, &utc), wednesday.covers_in(t + 7 * DAY, &utc));
        t += DAY;
    }
    for d in -20..20 {
        assert_eq!(iso_weekday(d + 7), iso_weekday(d));
        assert!((1..=7).contains(&iso_weekday(d)));
    }
}

#[test]
fn utc_observes_offset_zero_and_maps_wall_clock_unchanged() {
    let utc = Tz::utc();
    for t in [-86_400_000_123i64, -1, 0, 1, 1_783_591_200_000] {
        assert_eq!(utc.offset_at_ms(t), 0);
        assert_eq!(utc.local_to_instant_ms(t), t);
    }
    let expr = parse("H9").unwrap();
    let t = utc_ms(2022, 5, 5, 9, 30, 0);
    for id in ["", "UTC", "Etc/UTC"] {
        assert_eq!(expr.covers(t, id, None).unwrap(), expr.covers_in(t, &utc));
    }
}

#[test]
fn a_union_covers_what_any_branch_covers() {
    let either = parse("M1 | M7").unwrap();
    let jan = parse("M1").unwrap();
    let jul = parse("M7").unwrap();
    let utc = Tz::utc();
    for m in 1..=12 {
        let t = utc_ms(2023, m, 3, 0, 0, 0);
        assert_eq!(either.covers_in(t, &utc), jan.covers_in(t, &utc) || jul.covers_in(t, &utc));
    }
}

#[test]
fn validate_gives_the_warnings_of_parse() {
    for s in ["D30 M2", "M2 Q3", "Y2021 D366", "M3 | M!*", "T0900"] {
        let v = validate(s).unwrap();
        let p = parse(s).unwrap();
        assert_eq!(v.as_slice(), p.warnings());
    }
    assert_eq!(validate("M13").unwrap_err(), parse("M13").unwrap_err());
}

#[test]
fn positions_lie_within_the_input() {
    for s in ["", " ", "M3 |", "M3 M4", "T09:", "20200101T", "Y2020 M2 D30 | Q3 M2"] {
        match parse(s) {
            Err(e) => assert!(e.pos <= s.len(), "`{s}`: {:?}", e),
            Ok(p) => {
                for w in p.warnings() {
                    assert!(w.pos < s.len());
                }
            }
        }
    }
}

#[test]
fn warned_fixed_selectors_never_match() {
    let expr = parse("M!*").unwrap();
    assert_eq!(expr.warnings().len(), 1);
    let utc = Tz::utc();
    let mut t = utc_ms(2020, 1, 1, 0, 0, 0);
    for _ in 0..40 {
        assert!(!expr.covers_in(t, &utc));
        t += 9 * DAY + 3_600_000;
    }
}

#[test]
fn naive_ordinals_round_trip() {
    for v in [-62_135_596_800_000i64, -1, 0, 1, 951_782_400_000, 4_102_444_799_999] {
        assert_eq!(Naive::from_ordinal_ms(v).ordinal_ms(), v);
    }
    for z in [-719_468i64, -1, 0, 11_016, 2_932_896] {
        let (y, m, d) = civil_from_days(z);
        assert_eq!(days_from_civil(y, m, d), z);
    }
    assert_eq!(civil_from_days(days_from_civil(2000, 2, 29)), (2000, 2, 29));
}

#[test]
fn spring_forward_gaps_resolve_forward() {
    // A zone 0 -> +3600 at the epoch, built from its TZif encoding.
    let mut d = Vec::new();
    d.extend_from_slice(b"TZif");
    d.push(0);
    d.extend_from_slice(&[0u8; 15]);
    for c in [0u32, 0, 0, 1, 2, 0] {
        d.extend_from_slice(&c.to_be_bytes());
    }
    d.extend_from_slice(&0i32.to_be_bytes());
    d.push(1);
    d.extend_from_slice(&0i32.to_be_bytes());
    d.extend_from_slice(&[0, 0]);
    d.extend_from_slice(&3600i32.to_be_bytes());
    d.extend_from_slice(&[1, 0]);
    let tz = Tz::load_entry("Test/Gap", Some(&d)).unwrap();
    assert!(tz.is_well_formed());
    // Every wall-clock time resolves: inside the gap through the offset
    // before it, elsewhere through its own offset.
    assert_eq!(tz.local_to_instant_ms(1_800_000), 1_800_000);
    assert_eq!(tz.local_to_instant_ms(5_400_000), 1_800_000);
    assert_eq!(tz.local_to_instant_ms(-1_800_000), -1_800_000);
}

// ---- calendar formulas ----------------------------------------------------------------

#[test]
fn calendar_formulas() {
    assert!(is_leap(2000) && is_leap(2024) && !is_leap(1900) && !is_leap(2100));
    assert_eq!(days_in_month(2024, 2), 29);
    assert_eq!(days_in_month(2100, 2), 28);
    assert_eq!(days_in_month(2023, 13), 0);
    assert_eq!(days_in_quarter(2024, 1), 91);
    assert_eq!(days_in_quarter(2023, 3), 92);
    assert_eq!(day_of_year(2024, 12, 31), 366);
    assert_eq!(day_of_quarter(2024, 5, 15), 45);
    assert_eq!(quarter_of_month(3), 1);
    assert_eq!(quarter_of_month(10), 4);
    assert_eq!(days_from_civil(1970, 1, 1), 0);
    assert_eq!(days_from_civil(2000, 3, 1), 11_017);
    assert_eq!(iso_weekday(0), 4); // 1970-01-01 was a Thursday
    assert_eq!(iso_week(2021, 1, 1), (2020, 53));
    assert_eq!(iso_week(2024, 12, 30), (2025, 1));
    assert_eq!(weeks_in_iso_year(2020), 53);
    assert_eq!(weeks_in_iso_year(2021), 52);
    let n = Naive::new(2024, 1, 31, 10, 0, 0, 0);
    assert_eq!(n.add_months_constrain(1), Naive::new(2024, 2, 29, 10, 0, 0, 0));
    assert_eq!(Naive::new(2024, 2, 29, 0, 0, 0, 0).add_years_constrain(1), Naive::new(2025, 2, 28, 0, 0, 0, 0));
    assert_eq!(n.add_days(1), Naive::new(2024, 2, 1, 10, 0, 0, 0));
}

// ---- every error message ----------------------------------------------------------------

#[test]
fn each_parse_error_names_its_reason() {
    err_at("", 0, "empty expression");
    err_at("M3 |", 4, "empty expression");
    err_at("X3", 0, "unknown designator");
    err_at("M3 M4", 3, "duplicate designator in one expression");
    err_at("M1#2", 2, "ordinal '#' is valid only on E");
    err_at("E1:2#2", 0, "ordinal weekday must be a value");
    err_at("E1#6", 0, "ordinal out of range (-5..-1, 1..5)");
    err_at("M-0", 2, "'-0' is not a value");
    err_at("M3,x", 3, "expected a number");
    err_at("M10000001", 1, "integer too large");
    err_at("M3,*", 0, "bare '*' in a list — the list is already the whole domain");
    err_at("M!3/2", 3, "a component is either an exclusion or a stride, never both");
    err_at("M3,4/2", 4, "a stride attaches to a single value or range, not a list");
    err_at("M*:5/2", 4, "stride start must be an explicit non-negative value");
    err_at("M5:3/2", 4, "wrap ranges take no stride");
    err_at("M-3/2", 3, "stride start must be non-negative (end-relative anchors shift per parent instance)");
    err_at("T2400", 1, "'2400' is valid only in range-end position");
    err_at("T09:09", 1, "T range with equal endpoints covers nothing");
    err_at("T123", 1, "malformed time value");
    err_at("T120000.5", 1, "millisecond precision requires exactly 3 digits");
    err_at("T24", 1, "hour out of range in time value");
    err_at("T0960", 1, "minute out of range in time value");
    err_at("T000060", 1, "second out of range (leap seconds are not representable)");
    err_at("T09/2", 3, "T takes no stride");
    err_at("T09:*", 4, "T takes no '*'");
    err_at("T09 T10", 4, "duplicate T component");
    err_at("2020", 0, "date literal requires 8 digits");
    err_at("20200230", 0, "date literal is not a real calendar date");
    err_at("20200101T12", 0, "malformed time-part in date literal");
    err_at("20200101T2500", 0, "time-part out of range in date literal");
    err_at("20200101T120060", 0, "seconds out of range in date literal");
    err_at("20200102:20200101", 0, "backwards bounds range");
    err_at("20200101 20200102", 9, "more than one bounds component per expression");
    err_at("*5", 0, "'*' is only valid as a bounds start");
    err_at("*:*", 0, "bounds require at least one date-literal endpoint");
    err_at("20200101/0D", 0, "cadence period must be >= 1");
    err_at("20200101/2D/0D", 0, "cadence duration must be >= 1");
    err_at("20200101/2D/2D", 0, "cadence duration must be < period");
    err_at("20200101/2D/1M", 0, "month/year duration unit requires a month/year period");
    err_at("20200101/2X", 10, "unknown cadence unit");
    err_at("20200101/2D 20200101/2W", 12, "more than one cadence per expression");
}

#[test]
fn each_validation_error_names_its_reason() {
    err_at("Y-5", 0, "negative value on Y — no edge to count back from");
    err_at("Y0", 0, "year out of domain (1-9999)");
    err_at("Y2020:2010", 0, "Y range cannot wrap — no edge to wrap around");
    err_at("M0", 0, "zero value");
    err_at("M13", 0, "value out of domain");
    err_at("M-13", 0, "negative value out of domain (symmetric parse-time check)");
    err_at("M1/1", 0, "stride interval must be >= 2");
    err_at("M1/13", 0, "stride interval exceeds parent domain — use a cadence");
    err_at("M1/4/4", 0, "stride duration must be in 1..interval");
    err_at("E8#1", 0, "weekday out of domain (1-7)");
}

#[test]
fn an_ordinal_on_the_year_is_refused_with_its_weekday() {
    let sel = Selector { desig: Desig::Year, atoms: Vec::new(), exclude: false, ordinal: Some((-3, 1)), pos: 4 };
    let expr = Expr { selectors: vec![sel], time: None, cadence: None, bounds: None, has_week: false };
    let err = check(&expr).unwrap_err();
    assert_eq!(err.pos, 4);
    assert_eq!(err.message, "ordinal not valid here (-3)");
}

#[test]
fn diagnostics_render_on_one_line() {
    let err = parse("T2500").unwrap_err();
    assert_eq!(
        err.describe(),
        "parse error at 1: hour out of range — 24 exists only as the exact token '2400'"
    );
    let w = Warning::new(0, "unsatisfiable — selector matches nothing in its domain");
    assert_eq!(w.describe(), "warning at 0: unsatisfiable — selector matches nothing in its domain");
}

#[test]
fn a_clone_keeps_warnings_and_coverage() {
    let expr = parse("D30 M2 | T0900:1800 E1:5").unwrap();
    let copy = expr.clone();
    assert_eq!(copy.warnings(), expr.warnings());
    assert_eq!(copy.warnings().len(), 1);
    let t = utc_ms(2026, 7, 9, 10, 0, 0);
    assert!(copy.covers_in(t, &Tz::utc()));
    assert!(!copy.covers_in(t + 9 * 3_600_000, &Tz::utc()));
}

#[test]
fn month_end_cadence_follows_constrained_occurrences() {
    // Every month from January 31, for one day: February's occurrence is
    // its last day (the 29th in 2020, the 28th in 2021).
    let expr = parse("20200131/1M/1D").unwrap();
    let utc = Tz::utc();
    assert!(expr.covers_in(utc_ms(2020, 1, 31, 12, 0, 0), &utc));
    assert!(expr.covers_in(utc_ms(2020, 2, 29, 12, 0, 0), &utc));
    assert!(!expr.covers_in(utc_ms(2020, 3, 1, 12, 0, 0), &utc));
    assert!(expr.covers_in(utc_ms(2020, 3, 31, 0, 0, 0), &utc));
    assert!(expr.covers_in(utc_ms(2021, 2, 28, 23, 59, 59), &utc));
    assert!(!expr.covers_in(utc_ms(2021, 3, 1, 0, 0, 0), &utc));
    assert!(!expr.covers_in(utc_ms(2020, 1, 30, 23, 59, 59), &utc));
}

#[test]
fn hour_cadence_repeats_every_period() {
    let expr = parse("20200601T0000/2H/1H").unwrap();
    let utc = Tz::utc();
    let start = utc_ms(2020, 6, 1, 0, 30, 0);
    for n in [0i64, 1, 12, 1000] {
        assert!(expr.covers_in(start + n * 7_200_000, &utc));
        assert!(!expr.covers_in(start + n * 7_200_000 + 3_600_000, &utc));
    }
    assert!(!expr.covers_in(start - 7_200_000, &utc));
}

#[test]
fn day_numbers_count_consecutive_days() {
    assert_eq!(days_from_civil(1970, 1, 1), 0);
    assert_eq!(iso_weekday(0), 4);
    assert_eq!(days_from_civil(2020, 2, 28) + 1, days_from_civil(2020, 2, 29));
    assert_eq!(days_from_civil(2020, 2, 29) + 1, days_from_civil(2020, 3, 1));
    assert_eq!(days_from_civil(2100, 2, 28) + 1, days_from_civil(2100, 3, 1));
    assert_eq!(days_from_civil(1999, 12, 31) + 1, days_from_civil(2000, 1, 1));
}

#[test]
fn bounds_cover_far_instants() {
    let expr = parse("*:20200301").unwrap();
    let utc = Tz::utc();
    assert!(expr.covers_in(-7_999_000_000_000_000_000, &utc));
    assert!(expr.covers_in(utc_ms(2020, 3, 1, 23, 59, 59) + 999, &utc));
    assert!(!expr.covers_in(utc_ms(2020, 3, 2, 0, 0, 0), &utc));
    assert!(!expr.covers_in(7_999_000_000_000_000_000, &utc));
}

#[test]
fn the_evaluated_range_depends_on_the_cadence() {
    let plain = parse("*:20200301").unwrap();
    assert!(plain.reaches(i64::MIN + 2_147_483_648_000));
    assert!(!plain.reaches(i64::MIN + 2_147_483_647_999));
    assert!(plain.covers_in(i64::MIN + 2_147_483_648_000, &Tz::utc()));
    let hourly = parse("20200601T0000/2H/1H").unwrap();
    assert!(hourly.reaches(i64::MAX - 300_000_000_000_000));
    assert!(!hourly.reaches(i64::MAX - 299_999_999_999_999));
    let daily = parse("20200106/10D").unwrap();
    assert!(daily.reaches(8_000_000_000_000_000_000));
    assert!(!daily.reaches(8_000_000_000_000_000_001));
}
