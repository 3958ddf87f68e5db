use marquee::clipping::clip_row;
use marquee::scroll::ScrollState;
use marquee::scroll::exit_requested;
use marquee::scroll::viewport_fits;
use marquee::scroll::y_base;

#[test]
fn scroll_init_waits_past_right_edge() {
    let s = ScrollState::init(20);
    assert_eq!(s.x, 20);
    assert_eq!(s.loops_done, 0);
}

#[test]
fn scroll_advance_moves_one_column_left() {
    let mut s = ScrollState::init(20);
    s.advance(20, 5);
    assert_eq!(s.x, 19);
    assert_eq!(s.loops_done, 0);
}

#[test]
fn scroll_reset_once_fully_off_screen() {
    let mut s = ScrollState { x: -5, loops_done: 0 };
    s.advance(20, 5);
    assert_eq!(s.x, 20);
    assert_eq!(s.loops_done, 1);
    // One column earlier the text is still partly on screen.
    let mut s = ScrollState { x: -4, loops_done: 0 };
    s.advance(20, 5);
    assert_eq!(s.x, -5);
    assert_eq!(s.loops_done, 0);
}

#[test]
fn scroll_two_loops_then_stops() {
    // Terminal width 20, text display width 5, two passes wanted:
    // the offset resets to the width exactly twice, then no frame is
    // owed any more.
    let mut s = ScrollState::init(20);
    let mut frames: u32 = 0;
    let mut resets: u32 = 0;
    while s.should_continue(2) {
        let before = s.loops_done;
        s.advance(20, 5);
        frames += 1;
        if s.loops_done > before {
            resets += 1;
            assert_eq!(s.x, 20);
        }
        assert!(frames < 1000);
    }
    assert_eq!(resets, 2);
    assert_eq!(s.loops_done, 2);
    assert_eq!(frames, 52);
    assert!(!s.should_continue(2));
}

#[test]
fn scroll_zero_target_never_stops() {
    let mut s = ScrollState::init(4);
    for _ in 0..100 {
        assert!(s.should_continue(0));
        s.advance(4, 2);
    }
    assert!(s.loops_done > 2);
    assert!(s.should_continue(0));
}

#[test]
fn viewport_fits_compares_rows_to_height() {
    assert!(viewport_fits(5, 5));
    assert!(viewport_fits(0, 0));
    assert!(!viewport_fits(6, 5));
}

#[test]
fn y_base_centers_the_block() {
    assert_eq!(y_base(5, 3), 1);
    assert_eq!(y_base(10, 4), 3);
    // Taller than the viewport: negative, absorbed by the renderer.
    assert_eq!(y_base(2, 6), -2);
}

#[test]
fn exit_requested_only_when_permitted() {
    assert!(exit_requested(true, true));
    assert!(!exit_requested(true, false));
    assert!(!exit_requested(false, true));
    assert!(!exit_requested(false, false));
}

#[test]
fn shrunken_viewport_skips_out_of_range_rows() {
    // Five big-text rows, but the terminal shrank to 3 lines: rows
    // whose line falls outside the viewport are silently skipped.
    let rows = ["AAAAA", "BBBBB", "CCCCC", "DDDDD", "EEEEE"];
    let height: u16 = 3;
    let base = y_base(height, rows.len());
    assert_eq!(base, -1);
    let mut drawn: u32 = 0;
    for (i, row) in rows.iter().enumerate() {
        let y = base + i as i64;
        match clip_row(y, 0, row, 20, height) {
            Some((cx, text)) => {
                assert_eq!(cx, 0);
                assert_eq!(&text, row);
                assert!(0 <= y && y < i64::from(height));
                drawn += 1;
            }
            None => {
                assert!(y < 0 || y >= i64::from(height));
            }
        }
    }
    assert_eq!(drawn, 3);
}
