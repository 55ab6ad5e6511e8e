use shinobu::shell::{paint_fits_check, paint_positions, Char, CygwinShell, Line};

fn line_text(line: &Line) -> String {
    line.chars.iter().map(|c| c.c).collect()
}

fn screen_text(shell: &CygwinShell) -> Vec<String> {
    shell.lines.iter().map(line_text).collect()
}

#[test]
fn line_new_is_empty() {
    let line = Line::new();
    assert!(line.chars.is_empty());
    assert_eq!(line.width(), 0);
}

#[test]
fn line_add_appends_and_widens() {
    let mut line = Line::new();
    line.add(Char { c: 'a', width: 1 });
    line.add(Char { c: '한', width: 2 });
    line.add(Char { c: '\u{301}', width: 0 });
    assert_eq!(line_text(&line), "a한\u{301}");
    assert_eq!(line.width(), 3);
}

#[test]
fn line_width_is_sum_of_char_widths() {
    let mut line = Line::new();
    let widths = [1u16, 2, 0, 2, 1];
    for (i, w) in widths.iter().enumerate() {
        line.add(Char { c: (b'a' + i as u8) as char, width: *w });
    }
    let total: u16 = line.chars.iter().map(|c| c.width).sum();
    assert_eq!(line.width(), total);
    assert_eq!(total, 6);
}

#[test]
fn shell_new_is_80_by_25() {
    let shell = CygwinShell::new();
    assert_eq!(shell.width, 80);
    assert_eq!(shell.height, 25);
    assert!(shell.lines.is_empty());
}

#[test]
fn output_is_split_at_line_feeds() {
    let mut shell = CygwinShell::new();
    shell.on_out_handle(b"ab\ncd");
    assert_eq!(screen_text(&shell), vec!["ab".to_string(), "\ncd".to_string()]);
}

#[test]
fn empty_output_gives_one_empty_line() {
    let mut shell = CygwinShell::new();
    shell.on_out_handle(b"");
    assert_eq!(shell.lines.len(), 1);
    assert!(shell.lines[0].chars.is_empty());
}

#[test]
fn line_feed_starts_a_new_line() {
    let mut shell = CygwinShell::new();
    shell.on_out_handle(b"x");
    shell.on_out_handle(b"\n");
    assert_eq!(shell.lines.len(), 2);
    assert_eq!(line_text(&shell.lines[1]), "\n");
    assert_eq!(shell.lines[1].chars[0].width, 0);
}

#[test]
fn carriage_return_is_kept_with_no_width() {
    let mut shell = CygwinShell::new();
    shell.on_out_handle(b"a\r\nb");
    assert_eq!(screen_text(&shell), vec!["a\r".to_string(), "\nb".to_string()]);
    assert_eq!(shell.lines[0].width(), 1);
}

#[test]
fn widths_come_from_unicode_width() {
    let mut shell = CygwinShell::new();
    shell.on_out_handle("a한\t".as_bytes());
    let widths: Vec<u16> = shell.lines[0].chars.iter().map(|c| c.width).collect();
    assert_eq!(widths, vec![1, 2, 0]);
    assert_eq!(shell.lines[0].width(), 3);
}

#[test]
fn long_lines_wrap_past_the_screen_width() {
    let mut shell = CygwinShell::new();
    shell.width = 2;
    shell.on_out_handle(b"abcdef");
    assert_eq!(screen_text(&shell), vec!["abcd".to_string(), "ef".to_string()]);
}

#[test]
fn ill_formed_utf8_becomes_replacement_character() {
    let mut shell = CygwinShell::new();
    shell.on_out_handle(&[b'a', 0xff, b'b']);
    assert_eq!(screen_text(&shell), vec!["a\u{FFFD}b".to_string()]);
}

#[test]
fn split_utf8_sequence_shows_two_replacements() {
    let mut shell = CygwinShell::new();
    let bytes = "é".as_bytes();
    shell.on_out_handle(&bytes[..1]);
    // the first half alone is shown as a replacement character
    assert_eq!(screen_text(&shell), vec!["\u{FFFD}".to_string()]);
    shell.on_out_handle(&bytes[1..]);
    assert_eq!(screen_text(&shell), vec!["\u{FFFD}\u{FFFD}".to_string()]);
}

#[test]
fn received_text_is_kept_in_order() {
    let mut shell = CygwinShell::new();
    shell.width = 3;
    let input = "hello\nworld, 한국어 text\n\nend";
    shell.on_out_handle(input.as_bytes());
    let all: String = screen_text(&shell).concat();
    assert_eq!(all, input);
}

#[test]
fn earlier_lines_are_not_changed() {
    let mut shell = CygwinShell::new();
    shell.on_out_handle(b"one\ntwo\nthr");
    let before = screen_text(&shell);
    shell.on_out_handle(b"ee\nfour");
    let after = screen_text(&shell);
    assert_eq!(after[0], before[0]);
    assert_eq!(after[1], before[1]);
    assert!(after[2].starts_with(&before[2]));
    assert_eq!(after, vec!["one", "\ntwo", "\nthree", "\nfour"]);
}

#[test]
fn put_char_on_empty_screen_makes_a_line() {
    let mut shell = CygwinShell::new();
    shell.put_char(Char { c: 'z', width: 1 });
    assert_eq!(screen_text(&shell), vec!["z".to_string()]);
}

#[test]
fn put_char_breaks_when_last_line_is_too_wide() {
    let mut shell = CygwinShell::new();
    shell.width = 1;
    shell.put_char(Char { c: 'a', width: 2 });
    shell.put_char(Char { c: 'b', width: 0 });
    // 2 > 1 + 0, so 'b' starts a new line
    assert_eq!(screen_text(&shell), vec!["a".to_string(), "b".to_string()]);
}

#[test]
fn paint_positions_scale_columns_and_rows() {
    let mut shell = CygwinShell::new();
    shell.on_out_handle("a한b\ncd".as_bytes());
    let pos = paint_positions(&shell.lines, 8, 16);
    assert_eq!(pos.len(), 2);
    assert_eq!(pos[0], vec![(0, 0, 'a'), (8, 0, '한'), (24, 0, 'b')]);
    assert_eq!(pos[1], vec![(0, 16, '\n'), (0, 16, 'c'), (8, 16, 'd')]);
}

#[test]
fn paint_positions_of_no_lines() {
    let pos = paint_positions(&Vec::new(), 8, 16);
    assert!(pos.is_empty());
}

#[test]
fn wide_screen_takes_short_output() {
    let mut shell = CygwinShell::new();
    shell.width = 65530;
    assert!(shell.can_receive(b"a"));
    shell.on_out_handle(b"a");
    assert_eq!(screen_text(&shell), vec!["a".to_string()]);
    assert_eq!(shell.lines[0].width(), 1);
}

#[test]
fn can_receive_follows_real_widths() {
    let mut shell = CygwinShell::new();
    assert!(shell.can_receive(&vec![b'a'; 100_000]));
    shell.width = 65532;
    assert!(shell.can_receive(&vec![b'a'; 30_000]));
    shell.width = 65535;
    assert!(shell.can_receive(b""));
    // 65535 + 1 overflows
    assert!(!shell.can_receive(b"a"));
    // a control character has width 0
    assert!(shell.can_receive(b"\t"));
    shell.width = 65533;
    assert!(shell.can_receive(b"a"));
}

#[test]
fn can_receive_refuses_overflowing_line() {
    let mut shell = CygwinShell::new();
    shell.width = 65533;
    // U+17D8 has width 3: 65533 + 3 overflows
    assert!(!shell.can_receive("\u{17D8}".as_bytes()));
    let mut line = Line::new();
    line.add(Char { c: 'x', width: 65534 });
    shell.lines.push(line);
    // 65534 <= 65533 + 2, so the character joins the line: 65534 + 2 overflows
    assert!(!shell.can_receive("한".as_bytes()));
}

#[test]
fn receive_shows_or_leaves_unchanged() {
    let mut shell = CygwinShell::new();
    shell.width = 65532;
    assert!(shell.receive(&vec![b'a'; 30_000]));
    assert_eq!(shell.lines.len(), 1);
    assert_eq!(shell.lines[0].width(), 30_000);
    shell.width = 65535;
    assert!(!shell.receive(b"b"));
    assert_eq!(shell.lines.len(), 1);
    assert_eq!(shell.lines[0].chars.len(), 30_000);
    assert!(shell.out_buf.is_empty());
}

#[test]
fn showing_nothing_changes_nothing() {
    let mut shell = CygwinShell::new();
    shell.on_out_handle(b"ab\ncd");
    let before = screen_text(&shell);
    shell.on_out_handle(b"");
    assert_eq!(screen_text(&shell), before);
    assert!(shell.out_buf.is_empty());
}

#[test]
fn output_in_two_reads_equals_one_read() {
    let a = "first line\nsecond 한".as_bytes();
    let b = "\nthird\tline".as_bytes();
    let mut one = CygwinShell::new();
    one.width = 4;
    let mut both = Vec::new();
    both.extend_from_slice(a);
    both.extend_from_slice(b);
    one.on_out_handle(&both);
    let mut two = CygwinShell::new();
    two.width = 4;
    two.on_out_handle(a);
    two.on_out_handle(b);
    assert_eq!(screen_text(&one), screen_text(&two));
    let w1: Vec<u16> = one.lines.iter().map(|l| l.width()).collect();
    let w2: Vec<u16> = two.lines.iter().map(|l| l.width()).collect();
    assert_eq!(w1, w2);
}

#[test]
fn paint_fits_check_finds_overflow() {
    let mut shell = CygwinShell::new();
    shell.on_out_handle("a한b\nc\nd".as_bytes());
    assert!(paint_fits_check(&shell.lines, 8, 16));
    // column 3 times the font width overflows
    assert!(!paint_fits_check(&shell.lines, usize::MAX, 16));
    // row 2 times the font height overflows; row 1 does not
    assert!(!paint_fits_check(&shell.lines, 8, usize::MAX));
    let mut two = CygwinShell::new();
    two.on_out_handle(b"a\nb");
    assert!(paint_fits_check(&two.lines, 8, usize::MAX));
    assert!(paint_fits_check(&Vec::new(), usize::MAX, usize::MAX));
}
