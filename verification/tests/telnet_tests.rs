use shinobu::telnet::{screen_update_bytes, utf8_char_width, TelnetState};

fn feed(bytes: &[u8]) -> (TelnetState, Vec<char>) {
    let mut state = TelnetState::Ground;
    let mut typed = Vec::new();
    for &b in bytes {
        let (next, out) = state.step(b);
        state = next;
        if let Some(c) = out {
            typed.push(c);
        }
    }
    (state, typed)
}

#[test]
fn utf8_widths() {
    assert_eq!(utf8_char_width(b'a'), 1);
    assert_eq!(utf8_char_width(0x80), 0);
    assert_eq!(utf8_char_width(0xc1), 0);
    assert_eq!(utf8_char_width(0xc2), 2);
    assert_eq!(utf8_char_width(0xe0), 3);
    assert_eq!(utf8_char_width(0xf4), 4);
    assert_eq!(utf8_char_width(0xf5), 0);
}

#[test]
fn ascii_is_typed() {
    assert_eq!(feed(b"ls -l"), (TelnetState::Ground, "ls -l".chars().collect()));
}

#[test]
fn control_bytes_are_dropped_but_carriage_return() {
    assert_eq!(feed(b"a\n\tb\r\x07"), (TelnetState::Ground, vec!['a', 'b', '\r']));
}

#[test]
fn utf8_characters_are_typed() {
    let (state, typed) = feed("é한".as_bytes());
    assert_eq!(state, TelnetState::Ground);
    assert_eq!(typed, vec!['é', '한']);
}

#[test]
fn partial_utf8_waits_for_more() {
    assert_eq!(feed(&[0xed]), (TelnetState::Utf8Three { lead: 0xed }, vec![]));
    assert_eq!(
        feed(&[0xed, 0x95]),
        (TelnetState::Utf8ThreeSecond { lead: 0xed, second: 0x95 }, vec![])
    );
}

#[test]
fn ill_formed_utf8_types_replacement() {
    // 0xC3 followed by a non-continuation byte
    assert_eq!(feed(&[0xc3, b'a']), (TelnetState::Ground, vec!['\u{FFFD}']));
    // a stray continuation byte is dropped
    assert_eq!(feed(&[0x80, b'x']), (TelnetState::Ground, vec!['x']));
}

#[test]
fn negotiation_commands_are_skipped() {
    assert_eq!(feed(&[0xff, 0xfb, 0x01, b'k']), (TelnetState::Ground, vec!['k']));
    assert_eq!(feed(&[0xff, 0xfd, b'z']), (TelnetState::Ground, vec![]));
}

#[test]
fn other_commands_type_nothing() {
    assert_eq!(feed(&[0xff, 0xf1, b'k']), (TelnetState::Ground, vec!['k']));
    assert_eq!(feed(&[0xff, 0xff]), (TelnetState::Ground, vec![]));
}

#[test]
fn screen_update_clears_then_sends_text() {
    let bytes = screen_update_bytes("hi 한");
    let mut expected = b"\x1b[2J\x1b[1;1H".to_vec();
    expected.extend_from_slice("hi 한".as_bytes());
    assert_eq!(bytes, expected);
}

#[test]
fn can_step_refuses_four_byte_lead_only_between_characters() {
    assert!(!TelnetState::Ground.can_step(0xf0));
    assert!(TelnetState::Ground.can_step(0xf5));
    assert!(TelnetState::Ground.can_step(b'a'));
    assert!(TelnetState::Command.can_step(0xf0));
    assert!(TelnetState::Utf8Two { lead: 0xc3 }.can_step(0xf0));
}
