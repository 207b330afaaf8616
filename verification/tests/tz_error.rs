//! The typed runtime error: `UnknownTimeZone` from loading a zone and from
//! `covers`.

use dtrexp::{parse, Tz, UnknownTimeZone};

/// The error loading `id` from `entry` gives.
fn load_err(id: &str, entry: Option<&[u8]>) -> UnknownTimeZone {
    match Tz::load_entry(id, entry) {
        Ok(_) => panic!("`{id}` should not resolve"),
        Err(e) => e,
    }
}

#[test]
fn covers_propagates_the_typed_error() {
    let expr = parse("M3").unwrap();
    let err = expr.covers(0, "Not/A_Zone", None).unwrap_err();
    assert_eq!(err, UnknownTimeZone::new("Not/A_Zone", "no TZif entry in the system database"));
}

#[test]
fn load_unknown_zone_yields_typed_error() {
    let err = load_err("No/Such_Zone", None);
    assert_eq!(err.id, "No/Such_Zone");
    assert_eq!(err.message, "no TZif entry in the system database");
    assert_eq!(
        err.describe(),
        "unknown time zone No/Such_Zone: no TZif entry in the system database"
    );
}

#[test]
fn load_rejects_path_traversal_as_invalid_identifier() {
    for id in ["/etc/passwd", "../secrets", "Europe/../etc"] {
        let err = load_err(id, None);
        assert_eq!(err.id, id);
        assert_eq!(err.message, "invalid identifier");
    }
}

/// The zone database holds plain-text files (`+VERSION`, `zone.tab`, ...)
/// beside the binary zones. Naming one resolves to a readable entry that is
/// not TZif: the parse failure surfaces as the typed error.
#[test]
fn a_readable_non_tzif_entry_yields_a_parse_error() {
    let entry: &[u8] = b"2025b\n";
    assert!(Tz::entry_is_readable(entry));
    let err = load_err("+VERSION", Some(entry));
    assert_eq!(err.id, "+VERSION");
    assert_eq!(err.message, "not a TZif file");
}

#[test]
fn utc_aliases_load_without_the_filesystem() {
    assert_eq!(Tz::load_entry("Etc/UTC", None).unwrap().name(), "UTC");
    assert_eq!(Tz::load_entry("", None).unwrap().name(), "UTC");
    assert_eq!(Tz::load_entry("UTC", None).unwrap().name(), "UTC");
}

/// A TZif entry whose header promises more data than it holds is refused
/// with the typed error.
#[test]
fn a_truncated_tzif_body_yields_the_typed_error() {
    let mut entry: Vec<u8> = Vec::new();
    entry.extend_from_slice(b"TZif");
    entry.push(0);
    entry.extend_from_slice(&[0u8; 15]);
    for c in [0u32, 0, 0, 3, 2, 0] {
        entry.extend_from_slice(&c.to_be_bytes());
    }
    entry.extend_from_slice(&[0, 0, 0, 0]);
    assert!(!Tz::entry_is_readable(&entry));
    let err = load_err("Test/Short", Some(&entry));
    assert_eq!(err.id, "Test/Short");
    assert_eq!(err.message, "corrupt TZif file: its data runs past the end or names a missing type");
}
