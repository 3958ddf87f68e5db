use marquee::prepare_text::Alphabet;
use marquee::prepare_text::AlphabetError;
use marquee::prepare_text::center_text;
use marquee::prepare_text::render_big_text;

fn rows(v: &[&str]) -> Vec<String> {
    v.iter().map(|s| s.to_string()).collect()
}

fn table3() -> Alphabet {
    Alphabet::new(
        3,
        1,
        vec![
            (' ', rows(&["   ", "   ", "   "])),
            ('A', rows(&["/-\\", "| |", "   "])),
            ('B', rows(&["B-\\", "B-/", "   "])),
        ],
    )
    .unwrap()
}

#[test]
fn center_text_two_lines() {
    assert_eq!(center_text("ab\nabcd"), " ab \nabcd");
}

#[test]
fn center_text_odd_padding_goes_right() {
    assert_eq!(center_text("a\nabcd"), " a  \nabcd");
}

#[test]
fn center_text_single_line() {
    assert_eq!(center_text("hello"), "hello");
}

#[test]
fn center_text_empty() {
    assert_eq!(center_text(""), "");
}

#[test]
fn center_text_ignores_final_line_break() {
    assert_eq!(center_text("ab\n"), "ab");
    assert_eq!(center_text("ab\nabcd\n"), " ab \nabcd");
    assert_eq!(center_text("\n"), "");
}

#[test]
fn center_text_crlf_is_one_break() {
    assert_eq!(center_text("a\r\nabc"), " a \nabc");
    assert_eq!(center_text("a\r\nabc\r\n"), " a \nabc");
}

#[test]
fn center_text_blank_lines_collapse() {
    // A block of only line breaks loses its final break each pass;
    // such inputs are the ones the idempotence law leaves out.
    assert_eq!(center_text("\n\n"), "\n");
    assert_eq!(center_text(&center_text("\n\n")), "");
}

#[test]
fn center_text_counts_characters_not_bytes() {
    // Two characters, four bytes: padded like any two-character line.
    assert_eq!(center_text("\u{e9}\u{e9}\nabcd"), " \u{e9}\u{e9} \nabcd");
}

#[test]
fn center_text_idempotent_concrete() {
    let once = center_text("a\nbbb\ncc");
    let twice = center_text(&once);
    assert_eq!(once, twice);
}

#[test]
fn center_text_idempotent_with_blank_lines() {
    let once = center_text("\n\nxy\n");
    let twice = center_text(&once);
    assert_eq!(once, twice);
}

#[test]
fn alphabet_get_mapped() {
    let t = table3();
    assert_eq!(t.get('A'), &rows(&["/-\\", "| |", "   "]));
}

#[test]
fn alphabet_get_unmapped_falls_back_to_space() {
    let t = table3();
    assert_eq!(t.get('Z'), &rows(&["   ", "   ", "   "]));
}

#[test]
fn alphabet_glyph_rows_equal_letter_height() {
    let t = table3();
    for (c, _) in t.letters.iter() {
        assert_eq!(t.get(*c).len(), t.letter_height);
    }
    assert_eq!(t.get('?').len(), t.letter_height);
}

#[test]
fn alphabet_rejects_control_key() {
    let r = Alphabet::new(1, 0, vec![(' ', rows(&["x"])), ('\t', rows(&["y"]))]);
    assert_eq!(r.unwrap_err(), AlphabetError::ControlCharKey);
}

#[test]
fn alphabet_rejects_duplicate_key() {
    let r = Alphabet::new(1, 0, vec![(' ', rows(&["x"])), (' ', rows(&["y"]))]);
    assert_eq!(r.unwrap_err(), AlphabetError::DuplicateKey);
}

#[test]
fn alphabet_rejects_row_mismatch() {
    let r = Alphabet::new(2, 0, vec![(' ', rows(&["x", "y"])), ('A', rows(&["z"]))]);
    assert_eq!(r.unwrap_err(), AlphabetError::RowCountMismatch);
}

#[test]
fn alphabet_rejects_missing_space() {
    let r = Alphabet::new(1, 0, vec![('A', rows(&["z"]))]);
    assert_eq!(r.unwrap_err(), AlphabetError::MissingSpaceGlyph);
}

#[test]
fn render_single_char_three_rows() {
    let t = table3();
    let big = render_big_text("A", &t);
    assert_eq!(big, rows(&["/-\\  ", "| |  ", "     "]));
}

#[test]
fn render_empty_text_gives_letter_height_empty_rows() {
    let t = table3();
    let big = render_big_text("", &t);
    assert_eq!(big, rows(&["", "", ""]));
}

#[test]
fn render_uppercases_input() {
    let t = table3();
    assert_eq!(render_big_text("a", &t), render_big_text("A", &t));
    assert_eq!(render_big_text("a", &t)[0], "/-\\  ");
}

#[test]
fn render_two_lines_with_spacing() {
    let t = table3();
    let big = render_big_text("A\nB", &t);
    assert_eq!(
        big,
        rows(&["/-\\  ", "| |  ", "     ", "", "B-\\  ", "B-/  ", "     "])
    );
}

#[test]
fn render_two_chars_concatenates_with_separator() {
    let t = table3();
    let big = render_big_text("AB", &t);
    assert_eq!(big, rows(&["/-\\  B-\\  ", "| |  B-/  ", "          "]));
}
