//! Parser paths that no well-formed input reaches on its own.

use dtrexp::grammar::Raw;
use dtrexp::parser::{build_stride, parse_branches};

#[test]
fn build_stride_rejects_a_bare_star_anchor() {
    // In the parser a stride only ever attaches to a value or a range, so
    // `build_stride` never actually sees `Raw::Star`; the guard defends that
    // invariant against other callers rather than any current input.
    let err = build_stride(b"", 0, Raw::Star).unwrap_err();
    assert!(err.message.contains("anchorless stride"));
}

// Each of these fails inside a specific sub-parser so the surrounding `?`
// propagates, pinning the error path of every fallible call in the grammar.
#[test]
fn sub_parse_failures_propagate() {
    for bad in [
        "M!",           // exclusion value-list: first item missing
        "M!3,",         // exclusion value-list: item after ',' missing
        "M3,",          // list: item after ',' missing
        "E1#",          // ordinal: number after '#' missing
        "M3/",          // stride: interval missing
        "M3/4/",        // stride: duration missing
        "M*:",          // range: endpoint after '*:' missing
        "M3:",          // range: endpoint after ':' missing
        "*:2020",       // '*'-bounds: end is not an 8-digit date
        "20200101:99",  // bounds: end is not an 8-digit date
        "20200101/x",   // cadence: period term unit missing
        "20200101/2D/", // cadence: duration term missing
    ] {
        assert!(parse_branches(bad).is_err(), "`{bad}` should be rejected");
    }
}
