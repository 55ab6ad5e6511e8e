//! Helpers for the Windows API: wide strings, and which handler a window
//! message goes to.

use vstd::prelude::*;

verus! {

/// The UTF-16 code units of a character: one unit below U+10000, else a
/// surrogate pair.
pub open spec fn utf16_units(c: char) -> Seq<u16> {
    let v = c as u32;
    if v < 0x10000 {
        seq![v as u16]
    } else {
        let u = (v - 0x10000) as u32;
        seq![(0xD800 + u / 0x400) as u16, (0xDC00 + u % 0x400) as u16]
    }
}

/// The UTF-16 encoding of a text.
pub open spec fn utf16_of(s: Seq<char>) -> Seq<u16>
    decreases s.len(),
{
    if s.len() == 0 {
        Seq::<u16>::empty()
    } else {
        utf16_of(s.drop_last()) + utf16_units(s.last())
    }
}

/// A NUL-terminated wide string: the UTF-16 encoding of the text, then a 0.
pub open spec fn c_u16_of(s: Seq<char>) -> Seq<u16> {
    utf16_of(s).push(0u16)
}

/// Conversion of a text to a NUL-terminated wide string for the Windows API.
pub trait ToCU16Str {
    /// The text converted.
    spec fn text(&self) -> Seq<char>;

    fn to_c_u16(&self) -> (units: Vec<u16>)
        ensures
            units@ == c_u16_of(self.text()),
    ;
}

impl<'a> ToCU16Str for &'a str {
    open spec fn text(&self) -> Seq<char> {
        (**self)@
    }

    fn to_c_u16(&self) -> (units: Vec<u16>) {
        broadcast use vstd::string::group_string_axioms;
        broadcast use vstd::utf8::char_is_scalar;

        let mut t: Vec<u16> = Vec::new();
        let ghost s = (**self)@;
        for c in it: (*self).chars()
            invariant
                it.seq() == s,
                t@ == utf16_of(s.take(it.index() as int)),
        {
            assert(s.take(it.index() + 1).drop_last() =~= s.take(it.index() as int));
            let v = c as u32;
            if v < 0x10000 {
                t.push(v as u16);
            } else {
                let u = v - 0x10000;
                t.push((0xD800 + u / 0x400) as u16);
                t.push((0xDC00 + u % 0x400) as u16);
            }
            assert(t@ =~= utf16_of(s.take(it.index() + 1)));
        }
        assert(s.take(s.len() as int) =~= s);
        t.push(0u16);
        t
    }
}

impl ToCU16Str for String {
    open spec fn text(&self) -> Seq<char> {
        self@
    }

    fn to_c_u16(&self) -> (units: Vec<u16>) {
        let x: &str = self.as_str();
        x.to_c_u16()
    }
}

/// A first (high) surrogate code unit.
pub open spec fn is_high_surrogate(u: u16) -> bool {
    0xD800 <= u && u <= 0xDBFF
}

/// A second (low) surrogate code unit.
pub open spec fn is_low_surrogate(u: u16) -> bool {
    0xDC00 <= u && u <= 0xDFFF
}

/// UTF-16 decoding: a unit that is no surrogate stands for itself, a high
/// surrogate followed by a low one for the character they encode together;
/// `None` where a surrogate is unpaired.
pub open spec fn decode_utf16(units: Seq<u16>) -> Option<Seq<char>>
    decreases units.len(),
{
    if units.len() == 0 {
        Some(Seq::<char>::empty())
    } else {
        let u = units.last();
        if is_low_surrogate(u) {
            if units.len() >= 2 && is_high_surrogate(units[units.len() - 2]) {
                let hi = units[units.len() - 2];
                match decode_utf16(units.take(units.len() - 2)) {
                    Some(s) => Some(
                        s.push(((0x10000 + (hi - 0xD800) * 0x400 + (u - 0xDC00)) as u32) as char),
                    ),
                    None => None,
                }
            } else {
                None
            }
        } else if is_high_surrogate(u) {
            None
        } else {
            match decode_utf16(units.drop_last()) {
                Some(s) => Some(s.push((u as u32) as char)),
                None => None,
            }
        }
    }
}

proof fn lemma_utf16_units(c: char)
    ensures
        c != '\0' ==> forall|i: int| 0 <= i < utf16_units(c).len() ==> #[trigger] utf16_units(c)[i] != 0,
        ({
            let us = utf16_units(c);
            ||| (us.len() == 1 && !is_low_surrogate(us[0]) && !is_high_surrogate(us[0])
                && (us[0] as u32) as char == c)
            ||| (us.len() == 2 && is_high_surrogate(us[0]) && is_low_surrogate(us[1])
                && ((0x10000 + (us[0] - 0xD800) * 0x400 + (us[1] - 0xDC00)) as u32) as char == c)
        }),
{
    let v = c as u32;
    vstd::utf8::char_is_scalar(c);
    vstd::utf8::char_u32_cast(c, v);
    if v < 0x10000 {
        let w = v as u16;
        assert(w as u32 == v) by (bit_vector)
            requires
                v < 0x10000,
                w == v as u16,
        ;
        if c != '\0' {
            assert(v != 0);
        }
    } else {
        let u = (v - 0x10000) as u32;
        let hi = (0xD800 + u / 0x400) as u16;
        let lo = (0xDC00 + u % 0x400) as u16;
        assert(hi == 0xD800 + u / 0x400 && lo == 0xDC00 + u % 0x400) by (bit_vector)
            requires
                u <= 0xFFFFF,
                hi == (0xD800 + u / 0x400) as u16,
                lo == (0xDC00 + u % 0x400) as u16,
        ;
        assert((u / 0x400) * 0x400 + u % 0x400 == u);
        assert(0x10000 + (hi - 0xD800) * 0x400 + (lo - 0xDC00) == v);
    }
}

/// A text with no NUL becomes a wide string with exactly one 0, at its end, and
/// the units before it decode (as UTF-16) to the text again.
pub proof fn lemma_c_u16_round_trip(s: Seq<char>)
    requires
        forall|i: int| 0 <= i < s.len() ==> s[i] != '\0',
    ensures
        c_u16_of(s).last() == 0,
        forall|i: int| 0 <= i < c_u16_of(s).len() - 1 ==> #[trigger] c_u16_of(s)[i] != 0,
        decode_utf16(c_u16_of(s).drop_last()) == Some(s),
    decreases s.len(),
{
    assert(c_u16_of(s).drop_last() =~= utf16_of(s));
    if s.len() == 0 {
        assert(utf16_of(s) =~= Seq::<u16>::empty());
    } else {
        let init = s.drop_last();
        let c = s.last();
        lemma_c_u16_round_trip(init);
        assert(c_u16_of(init).drop_last() =~= utf16_of(init));
        lemma_utf16_units(c);
        let us = utf16_units(c);
        let all = utf16_of(s);
        assert(all == utf16_of(init) + us);
        assert forall|i: int| 0 <= i < c_u16_of(s).len() - 1 implies #[trigger] c_u16_of(s)[i] != 0 by {
            if i < utf16_of(init).len() {
                assert(c_u16_of(init)[i] == utf16_of(init)[i]);
            } else {
                assert(all[i] == us[i - utf16_of(init).len()]);
            }
        }
        if us.len() == 1 {
            assert(all.drop_last() =~= utf16_of(init));
        } else {
            assert(all.take(all.len() - 2) =~= utf16_of(init));
            assert(all[all.len() - 2] == us[0]);
        }
        assert(s =~= init.push(c));
    }
}

/// The window messages that the console window handles itself.
#[derive(Clone, Copy, Debug, PartialEq, Eq, Structural)]
pub enum WindowMessage {
    /// `WM_CREATE` (0x0001).
    Create,
    /// `WM_DESTROY` (0x0002).
    Destroy,
    /// `WM_PAINT` (0x000F).
    Paint,
    /// `WM_CHAR` (0x0102).
    Char,
    /// Any other message, left to the default window procedure.
    Other,
}

/// The handler that a message number goes to.
pub open spec fn message_kind(msg: u32) -> WindowMessage {
    if msg == 0x0001 {
        WindowMessage::Create
    } else if msg == 0x0002 {
        WindowMessage::Destroy
    } else if msg == 0x000F {
        WindowMessage::Paint
    } else if msg == 0x0102 {
        WindowMessage::Char
    } else {
        WindowMessage::Other
    }
}

/// Each handler takes exactly one message number: `WM_CREATE` (0x0001) goes to
/// the create handler, `WM_DESTROY` (0x0002) to the destroy handler,
/// `WM_PAINT` (0x000F) to the paint handler and `WM_CHAR` (0x0102) to the char
/// handler; every other message goes to the default window procedure.
pub proof fn lemma_message_handlers(msg: u32)
    ensures
        message_kind(msg) == WindowMessage::Create <==> msg == 0x0001,
        message_kind(msg) == WindowMessage::Destroy <==> msg == 0x0002,
        message_kind(msg) == WindowMessage::Paint <==> msg == 0x000F,
        message_kind(msg) == WindowMessage::Char <==> msg == 0x0102,
        message_kind(msg) == WindowMessage::Other <==> (msg != 0x0001 && msg != 0x0002 && msg
            != 0x000F && msg != 0x0102),
{
}

/// Which handler of the console window a message goes to.
pub fn classify_message(msg: u32) -> (kind: WindowMessage)
    ensures
        kind == message_kind(msg),
        kind == WindowMessage::Create <==> msg == 0x0001,
        kind == WindowMessage::Destroy <==> msg == 0x0002,
        kind == WindowMessage::Paint <==> msg == 0x000F,
        kind == WindowMessage::Char <==> msg == 0x0102,
        kind == WindowMessage::Other <==> (msg != 0x0001 && msg != 0x0002 && msg != 0x000F && msg
            != 0x0102),
{
    proof {
        lemma_message_handlers(msg);
    }
    if msg == 0x0001 {
        WindowMessage::Create
    } else if msg == 0x0002 {
        WindowMessage::Destroy
    } else if msg == 0x000F {
        WindowMessage::Paint
    } else if msg == 0x0102 {
        WindowMessage::Char
    } else {
        WindowMessage::Other
    }
}

/// The three code units that the console window hands to `TextOutW` to paint
/// one character: the low 16 bits of its code, the high 16 bits, and 0.
pub fn paint_char_units(c: char) -> (units: [u16; 3])
    ensures
        units@ == seq![((c as u32) % 0x10000) as u16, ((c as u32) / 0x10000) as u16, 0u16],
{
    let v = c as u32;
    let low = v as u16;
    let high = (v >> 16) as u16;
    assert(low == v % 0x10000) by (bit_vector)
        requires
            low == v as u16,
    ;
    assert(high == v / 0x10000) by (bit_vector)
        requires
            high == (v >> 16) as u16,
    ;
    let units = [low, high, 0u16];
    assert(units@ =~= seq![low, high, 0u16]);
    units
}

} // verus!
