//! Calls into std and into the `unicode-width` crate that the logic needs, each
//! with the contract that the library relies on.

use vstd::prelude::*;
use vstd::utf8::*;
use unicode_width::UnicodeWidthChar;

verus! {

/// What `String::from_utf8_lossy` gives for a byte sequence: its UTF-8 decoding,
/// with U+FFFD in place of each ill-formed part.
pub uninterp spec fn utf8_lossy(bytes: Seq<u8>) -> Seq<char>;

/// The first character of the lossy decoding of a nonempty byte sequence:
/// the character that the sequence begins with, or U+FFFD where it does not
/// begin with a well-formed UTF-8 encoding of one.
pub open spec fn first_char_lossy(bytes: Seq<u8>) -> char {
    if valid_first_scalar(bytes) {
        decode_first_scalar(bytes) as char
    } else {
        '\u{FFFD}'
    }
}

/// Calls `String::from_utf8_lossy`. Claimed of it: the result is `utf8_lossy`
/// of the bytes; well-formed UTF-8 decodes unchanged; a nonempty input gives a
/// nonempty text whose first character is `first_char_lossy` of the input.
/// The rest of the replacement rule (which ill-formed parts become one U+FFFD)
/// is left to the name.
#[verifier::external_body]
pub(crate) fn decode_utf8_lossy(bytes: &[u8]) -> (text: String)
    ensures
        text@ == utf8_lossy(bytes@),
        valid_utf8(bytes@) ==> text@ == decode_utf8(bytes@),
        bytes@.len() > 0 ==> text@.len() > 0 && text@[0] == first_char_lossy(bytes@),
{
    String::from_utf8_lossy(bytes).into_owned()
}

/// What `UnicodeWidthChar::width` of `unicode-width` gives for a character.
pub uninterp spec fn unicode_width_of(c: char) -> Option<usize>;

/// Calls `UnicodeWidthChar::width` (unicode-width 0.1). Claimed of it, as its
/// source shows: the result is `unicode_width_of(c)`; characters below U+0020 and
/// from U+007F to U+009F are control characters and give `None`; U+0020 to U+007E
/// give 1; every other character gives a width of at most 3 (its tables hold the
/// widths 0 to 2, and 3 for one character). Which width a character above U+009F
/// has is left to the name.
#[verifier::external_body]
pub(crate) fn char_width(c: char) -> (w: Option<usize>)
    ensures
        w == unicode_width_of(c),
        (c as u32) < 0x20 || (0x7f <= (c as u32) && (c as u32) < 0xa0) ==> w == None::<usize>,
        0x20 <= (c as u32) && (c as u32) < 0x7f ==> w == Some(1usize),
        0xa0 <= (c as u32) ==> w.is_some() && w.unwrap() <= 3,
{
    UnicodeWidthChar::width(c)
}

/// Calls `char::from_u32`, which gives the character with that code when the code
/// is a Unicode scalar value (not a surrogate and at most U+10FFFF), and `None`
/// otherwise.
#[verifier::external_body]
pub(crate) fn char_from_u32(code: u32) -> (c: Option<char>)
    ensures
        c == (if is_scalar(code) { Some(code as char) } else { None::<char> }),
{
    char::from_u32(code)
}

/// Calls `String::push`, which appends one character.
#[verifier::external_body]
pub(crate) fn push_char(s: &mut String, c: char)
    ensures
        final(s)@ == old(s)@.push(c),
{
    s.push(c)
}

} // verus!
