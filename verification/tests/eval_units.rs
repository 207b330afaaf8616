//! Whole naive units between two wall-clock times.

use dtrexp::ast::CadUnit;
use dtrexp::civil::Naive;
use dtrexp::eval::elapsed_units;

// `elapsed_units` is total over `CadUnit` for uniformity with the unit
// arithmetic; the calendar-cadence evaluator only ever feeds it Y/M/W/D
// period units, so its sub-day arms are pinned here directly against their
// naive definition.
#[test]
fn elapsed_units_counts_whole_sub_day_units() {
    let anchor = Naive::new(2020, 1, 1, 0, 0, 0, 0);
    let t = Naive::new(2020, 1, 1, 5, 30, 0, 0); // 5h30m later
    assert_eq!(elapsed_units(CadUnit::Hour, anchor, t), 5);
    assert_eq!(elapsed_units(CadUnit::Minute, anchor, t), 330);
}

#[test]
fn elapsed_units_floors_toward_negative_infinity() {
    let anchor = Naive::new(2020, 1, 1, 6, 0, 0, 0);
    let t = Naive::new(2020, 1, 1, 5, 0, 0, 0); // one hour before the anchor
    assert_eq!(elapsed_units(CadUnit::Hour, anchor, t), -1);
    assert_eq!(elapsed_units(CadUnit::Minute, anchor, t), -60);
}
