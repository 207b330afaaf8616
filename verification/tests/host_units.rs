//! Zones backed by a host offset callback.

use dtrexp::Tz;

/// The host mirror of `v1_tzif(0, 3600)`: a 0 → +3600 spring-forward at
/// the epoch.
fn spring(t: i64) -> i32 {
    if t < 0 {
        0
    } else {
        3600
    }
}

/// A +3600 → 0 fall-back at the epoch.
fn fall(t: i64) -> i32 {
    if t < 0 {
        3600
    } else {
        0
    }
}

#[test]
fn host_zone_reports_its_name_and_dispatches_offsets() {
    let tz = Tz::from_offset_fn("Host/Step", spring);
    assert_eq!(tz.name(), "Host/Step");
    assert_eq!(tz.offset_at_ms(-1_000), 0);
    assert_eq!(tz.offset_at_ms(1_000), 3600);
}

#[test]
fn host_zone_resolves_a_unique_wall_clock_time_on_each_side() {
    let tz = Tz::from_offset_fn("Host/Step", spring);
    // Local 22:00 before the epoch: only offset 0 validates it.
    assert_eq!(tz.local_to_instant_ms(-7_200_000), -7_200_000);
    // Local 02:00 after: only offset +3600 validates it.
    assert_eq!(tz.local_to_instant_ms(7_200_000), 3_600_000);
}

#[test]
fn host_zone_resolves_a_gap_forward() {
    let tz = Tz::from_offset_fn("Host/Gap", spring);
    // Local 00:30 never occurs (the spring-forward skips it); `compatible`
    // pushes it forward through the pre-transition offset — the same
    // mapping the table test pins for this zone shape.
    assert_eq!(tz.local_to_instant_ms(1_800_000), 1_800_000);
}

#[test]
fn host_zone_resolves_a_repeated_time_to_the_earlier_instant() {
    let tz = Tz::from_offset_fn("Host/Fall", fall);
    // Local 00:30 occurs twice around the fall-back: as -1_800_000
    // (through +3600) and 1_800_000 (through 0); `compatible` picks the
    // earlier.
    assert_eq!(tz.local_to_instant_ms(1_800_000), -1_800_000);
}

