use shinobu::console::{
    console_text_decodes, read_console_text, text_paint_positions, Char, CHAR_INFO, COORD,
};

fn cell(c: char, attrs: u16) -> CHAR_INFO {
    let unit = c as u32 as u16;
    CHAR_INFO { uChar: Char { data: [(unit & 0xff) as u8, (unit >> 8) as u8] }, Attributes: attrs }
}

fn raw_cell(unit: u16) -> CHAR_INFO {
    CHAR_INFO { uChar: Char { data: [(unit & 0xff) as u8, (unit >> 8) as u8] }, Attributes: 0 }
}

#[test]
fn unicode_char_reads_low_byte_first() {
    let c = Char { data: [0x5c, 0xd5] };
    assert_eq!(c.unicode_char(), Some('\u{D55C}'));
    let a = Char { data: [b'A', 0] };
    assert_eq!(a.unicode_char(), Some('A'));
}

#[test]
fn unicode_char_of_surrogate_is_none() {
    let c = Char { data: [0x00, 0xd8] };
    assert_eq!(c.unicode_char(), None);
}

#[test]
fn rows_end_with_crlf() {
    let cells: Vec<CHAR_INFO> = "abcdef".chars().map(|c| cell(c, 0)).collect();
    let text = read_console_text(&cells, COORD { X: 3, Y: 2 });
    assert_eq!(text, "abc\r\ndef\r\n");
}

#[test]
fn text_ends_at_first_nul() {
    let cells = vec![cell('a', 0), cell('b', 0), raw_cell(0), cell('c', 0)];
    let text = read_console_text(&cells, COORD { X: 4, Y: 1 });
    assert_eq!(text, "ab");
}

#[test]
fn cells_after_nul_change_nothing() {
    let mut cells = vec![cell('x', 0), raw_cell(0), cell('y', 0), cell('z', 0)];
    let first = read_console_text(&cells, COORD { X: 2, Y: 2 });
    cells[2] = cell('q', 0);
    cells[3] = raw_cell(0xd800);
    let second = read_console_text(&cells, COORD { X: 2, Y: 2 });
    assert_eq!(first, "x");
    assert_eq!(first, second);
}

#[test]
fn trailing_halves_are_skipped_and_leading_halves_take_two_columns() {
    // a wide character in the first two columns of a four-column row
    let cells = vec![cell('한', 0x0100), cell('한', 0x0200), cell('a', 0), cell('b', 0)];
    let text = read_console_text(&cells, COORD { X: 4, Y: 1 });
    assert_eq!(text, "한ab\r\n");
}

#[test]
fn empty_buffer_reads_as_empty_text() {
    let text = read_console_text(&Vec::new(), COORD { X: 0, Y: 0 });
    assert_eq!(text, "");
}

#[test]
fn surrogate_before_nul_does_not_decode() {
    let cells = vec![cell('a', 0), raw_cell(0xdc00)];
    assert!(!console_text_decodes(&cells, COORD { X: 2, Y: 1 }));
    let ok = vec![cell('a', 0), raw_cell(0), raw_cell(0xdc00), cell('b', 0)];
    assert!(console_text_decodes(&ok, COORD { X: 2, Y: 2 }));
}

#[test]
fn surrogate_in_trailing_half_is_skipped() {
    let mut c = raw_cell(0xd800);
    c.Attributes = 0x0200;
    let cells = vec![cell('a', 0), c];
    assert!(console_text_decodes(&cells, COORD { X: 2, Y: 1 }));
    assert_eq!(read_console_text(&cells, COORD { X: 2, Y: 1 }), "a");
}

#[test]
fn text_positions_follow_line_feeds() {
    let pos = text_paint_positions("ab\nc");
    assert_eq!(pos, vec![(0, 0, 'a'), (8, 0, 'b'), (0, 20, 'c')]);
}

#[test]
fn text_positions_of_empty_text() {
    assert!(text_paint_positions("").is_empty());
    assert!(text_paint_positions("\n\n").is_empty());
}
