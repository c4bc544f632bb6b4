use arbor::helpers::format_duration;

#[test]
fn ns_range() {
    assert_eq!(format_duration(0), "0ns");
    assert_eq!(format_duration(1), "1ns");
    assert_eq!(format_duration(999), "999ns");
}

#[test]
fn us_range() {
    assert_eq!(format_duration(1_000), "1.000\u{b5}s");
    assert_eq!(format_duration(1_234), "1.234\u{b5}s");
    assert_eq!(format_duration(999_499), "999.499\u{b5}s");
}

#[test]
fn ms_range() {
    assert_eq!(format_duration(1_000_000), "1.000ms");
    assert_eq!(format_duration(1_500_000), "1.500ms");
    assert_eq!(format_duration(999_000_000), "999.000ms");
    assert_eq!(format_duration(1_000_000_000), "1.000s");
}

#[test]
fn s_and_above() {
    assert_eq!(format_duration(1_000_000_000), "1.000s");
    assert_eq!(format_duration(1_234_000_000), "1.234s");
    assert_eq!(format_duration(65_000_000_000), "65.000s");
}

#[test]
fn fraction_carry_rolls_into_whole_part() {
    // 999_999_500 ns rounds up to a whole millisecond count of 1000
    assert_eq!(format_duration(999_999_500), "1000.000ms");
    // just below the rounding threshold it stays at 999.999
    assert_eq!(format_duration(999_999_499), "999.999ms");
}
