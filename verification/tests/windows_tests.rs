use shinobu::font::{accept_font, face_name_len};
use shinobu::windows::{classify_message, paint_char_units, ToCU16Str, WindowMessage};

#[test]
fn to_c_u16_of_ascii() {
    assert_eq!("abc".to_c_u16(), vec![0x61, 0x62, 0x63, 0]);
}

#[test]
fn to_c_u16_of_empty() {
    assert_eq!("".to_c_u16(), vec![0]);
}

#[test]
fn to_c_u16_uses_surrogate_pairs() {
    assert_eq!("한😀".to_c_u16(), vec![0xD55C, 0xD83D, 0xDE00, 0]);
}

#[test]
fn to_c_u16_of_string_matches_str() {
    let s = String::from("cygwin-shim.exe");
    let expected: Vec<u16> = "cygwin-shim.exe".encode_utf16().chain(std::iter::once(0)).collect();
    assert_eq!(s.to_c_u16(), expected);
}

#[test]
fn messages_are_classified() {
    assert_eq!(classify_message(0x0001), WindowMessage::Create);
    assert_eq!(classify_message(0x0002), WindowMessage::Destroy);
    assert_eq!(classify_message(0x000F), WindowMessage::Paint);
    assert_eq!(classify_message(0x0102), WindowMessage::Char);
    assert_eq!(classify_message(0x0100), WindowMessage::Other);
    assert_eq!(classify_message(0), WindowMessage::Other);
}

#[test]
fn paint_char_units_split_code() {
    assert_eq!(paint_char_units('A'), [0x41, 0, 0]);
    assert_eq!(paint_char_units('😀'), [0xF600, 0x1, 0]);
}

#[test]
fn only_fixed_pitch_fonts_are_taken() {
    assert!(accept_font(0x31));
    assert!(accept_font(1));
    assert!(!accept_font(0x22));
    assert!(!accept_font(0));
}

#[test]
fn face_name_len_stops_at_nul() {
    let mut face = [0u16; 32];
    for (i, u) in "Consolas".encode_utf16().enumerate() {
        face[i] = u;
    }
    assert_eq!(face_name_len(&face), 8);
    assert_eq!(face_name_len(&[0u16; 32]), 0);
}

#[test]
fn to_c_u16_has_one_nul_and_round_trips() {
    let s = "abc 한 😀 z";
    let v = s.to_c_u16();
    assert_eq!(v.iter().filter(|&&u| u == 0).count(), 1);
    assert_eq!(*v.last().unwrap(), 0);
    assert_eq!(String::from_utf16(&v[..v.len() - 1]).unwrap(), s);
}
