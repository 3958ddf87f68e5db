use marquee::clipping::clip_row;
use marquee::clipping::display_width;
use marquee::clipping::max_row_width;

#[test]
fn clip_fits_untouched() {
    assert_eq!(clip_row(0, 0, "HELLO", 10, 5), Some((0, "HELLO".to_string())));
}

#[test]
fn clip_negative_x_drops_left_columns() {
    // Display width 10, drawn at x = -3: the first 3 columns go, the
    // rest fits within 10 columns from column 0.
    assert_eq!(
        clip_row(0, -3, "HELLOHELLO", 10, 5),
        Some((0, "LOHELLO".to_string()))
    );
}

#[test]
fn clip_y_out_of_range_writes_nothing() {
    assert_eq!(clip_row(-1, 0, "HELLO", 10, 5), None);
    assert_eq!(clip_row(5, 0, "HELLO", 10, 5), None);
    assert_eq!(clip_row(i64::MIN, 0, "HELLO", 10, 5), None);
    assert_eq!(clip_row(i64::MAX, 0, "HELLO", 10, 5), None);
}

#[test]
fn clip_x_at_or_past_right_edge_writes_nothing() {
    assert_eq!(clip_row(0, 10, "HELLO", 10, 5), None);
    assert_eq!(clip_row(0, 12, "HELLO", 10, 5), None);
    assert_eq!(clip_row(0, i64::MAX, "HELLO", 10, 5), None);
}

#[test]
fn clip_positive_x_cuts_to_the_right_edge() {
    assert_eq!(clip_row(0, 7, "HELLO", 10, 5), Some((7, "HEL".to_string())));
}

#[test]
fn clip_far_negative_x_skips_everything() {
    assert_eq!(clip_row(0, -100, "HI", 10, 5), None);
    assert_eq!(clip_row(0, i64::MIN, "HI", 10, 5), None);
}

#[test]
fn clip_wide_char_straddling_left_edge_is_dropped_whole() {
    // The first character is two columns wide. With one column to
    // skip it straddles the boundary and is dropped entirely rather
    // than rendered in part ...
    assert_eq!(clip_row(0, -1, "\u{4e16}x", 10, 5), Some((0, "x".to_string())));
    // ... and with two columns to skip it leaves exactly.
    assert_eq!(clip_row(0, -2, "\u{4e16}x", 10, 5), Some((0, "x".to_string())));
}

#[test]
fn clip_zero_width_combiner_goes_with_its_base() {
    // Skipping the base character also skips the zero-width
    // combining mark that follows it.
    assert_eq!(clip_row(0, -1, "a\u{300}b", 10, 5), Some((0, "b".to_string())));
}

#[test]
fn clip_wide_char_never_split_at_right_edge() {
    assert_eq!(
        clip_row(0, 0, "\u{4e16}\u{4e16}", 3, 5),
        Some((0, "\u{4e16}".to_string()))
    );
}

#[test]
fn clip_output_never_exceeds_available_columns() {
    let cases: [i64; 7] = [-25, -3, -1, 0, 1, 7, 9];
    for &x in cases.iter() {
        if let Some((cx, text)) = clip_row(0, x, "HELLOHELLO\u{4e16}WORLD", 10, 5) {
            let budget = 10 - if x > 0 { x } else { 0 };
            let w = display_width(&text).unwrap() as i64;
            assert!(w <= budget);
            assert!(i64::from(cx) >= x.max(0));
        }
    }
}

#[test]
fn display_width_counts_columns_not_chars() {
    assert_eq!(display_width("HELLO"), Some(5));
    assert_eq!(display_width("\u{4e16}"), Some(2));
    assert_eq!(display_width(""), Some(0));
    // A control character occupies no column.
    assert_eq!(display_width("\u{7}"), Some(0));
}

#[test]
fn max_row_width_takes_the_widest() {
    let rows = vec!["ab".to_string(), "abcd".to_string(), "c".to_string()];
    assert_eq!(max_row_width(&rows), Some(4));
    let empty: Vec<String> = Vec::new();
    assert_eq!(max_row_width(&empty), Some(0));
    let wide = vec!["\u{4e16}\u{4e16}\u{4e16}".to_string(), "abcde".to_string()];
    assert_eq!(max_row_width(&wide), Some(6));
}
