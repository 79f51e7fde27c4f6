use spm_ocr::format::{count, fine_percent, literal, percent, ratio, share_percent};

#[test]
fn counts_get_thousands_separators() {
    assert_eq!(count(0), "0");
    assert_eq!(count(999), "999");
    assert_eq!(count(1000), "1,000");
    assert_eq!(count(2104556), "2,104,556");
}

#[test]
fn percentages_are_one_decimal() {
    assert_eq!(percent(1, 5), "20.0%");
    assert_eq!(percent(412883, 2104556), "19.6%");
}

#[test]
fn a_zero_denominator_is_not_a_nan() {
    assert_eq!(percent(0, 0), "0.0%");
}

#[test]
fn a_ratio_carries_both_the_count_and_the_share() {
    assert_eq!(ratio(1, 5), "1 of 5 (20.0%)");
    assert_eq!(ratio(412883, 2104556), "412,883 of 2,104,556 (19.6%)");
}

#[test]
fn ascii_text_needs_no_code_points() {
    assert_eq!(literal("plain"), "\"plain\"");
}

#[test]
fn non_ascii_text_carries_its_code_points() {
    assert_eq!(literal("caf\u{e9}"), "\"caf\u{e9}\" [U+00E9]");
    assert_eq!(literal("cafe\u{301}"), "\"cafe\u{301}\" [U+0301]");
    assert_ne!(literal("caf\u{e9}"), literal("cafe\u{301}"));
}

#[test]
fn the_space_marker_is_shown_as_itself_and_as_a_code_point() {
    assert_eq!(literal("▁70"), "\"▁70\" [U+2581]");
}

#[test]
fn percentages_round_to_the_nearest_tenth() {
    assert_eq!(percent(2, 3), "66.7%");
    assert_eq!(percent(1, 3), "33.3%");
    assert_eq!(percent(3, 2), "150.0%");
    assert_eq!(percent(u64::MAX, u64::MAX), "100.0%");
}

#[test]
fn huge_counts_keep_every_group() {
    assert_eq!(count(u64::MAX), "18,446,744,073,709,551,615");
}

#[test]
fn code_points_beyond_the_basic_plane_use_more_digits() {
    assert_eq!(literal("\u{1F600}"), "\"\u{1F600}\" [U+1F600]");
    assert_eq!(literal("a\u{e9}\u{e8}"), "\"a\u{e9}\u{e8}\" [U+00E9 U+00E8]");
}

#[test]
fn percentages_print_the_double_not_the_fraction() {
    // 100 / 2000 is the double just above 0.05, so it rounds up.
    assert_eq!(percent(1, 2000), "0.1%");
    // 0.25 and 0.75 are exact doubles: the tie goes to the even digit.
    assert_eq!(percent(1, 400), "0.2%");
    assert_eq!(percent(3, 400), "0.8%");
}

#[test]
fn fine_percentages_print_the_double_to_two_places() {
    assert_eq!(fine_percent(1, 8), "12.50%");
    assert_eq!(fine_percent(1, 20000), "0.01%");
    assert_eq!(fine_percent(2, 3), "66.67%");
}

#[test]
fn a_share_takes_the_fraction_before_scaling() {
    assert_eq!(share_percent(23, 80), "28.7%");
    assert_eq!(percent(23, 80), "28.8%");
    assert_eq!(share_percent(49, 80), "61.3%");
    assert_eq!(percent(49, 80), "61.2%");
    assert_eq!(share_percent(1, 5), "20.0%");
}
