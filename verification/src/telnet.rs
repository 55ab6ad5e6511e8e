//! The telnet side of the console: which characters the bytes that a telnet
//! client sends stand for, and the bytes that show the console to the client.

use vstd::prelude::*;
use vstd::utf8::{
    char_u32_cast, encode_scalar, encode_utf8, encode_utf8_first_scalar, has_width_1_encoding,
    has_width_2_encoding, has_width_3_encoding,
};
use crate::text::{decode_utf8_lossy, first_char_lossy};

verus! {

/// The number of bytes of the UTF-8 sequence that a byte starts: 1 for ASCII,
/// 2 for 0xC2 to 0xDF, 3 for 0xE0 to 0xEF, 4 for 0xF0 to 0xF4, and 0 for a
/// byte that starts no sequence (a continuation byte, 0xC0, 0xC1, 0xF5 and up).
pub open spec fn utf8_width(b: u8) -> nat {
    if b <= 0x7f {
        1
    } else if b < 0xc2 {
        0
    } else if b <= 0xdf {
        2
    } else if b <= 0xef {
        3
    } else if b <= 0xf4 {
        4
    } else {
        0
    }
}

/// The number of bytes of the UTF-8 sequence that a byte starts (see `utf8_width`).
pub fn utf8_char_width(b: u8) -> (w: usize)
    ensures
        w == utf8_width(b),
{
    if b <= 0x7f {
        1
    } else if b < 0xc2 {
        0
    } else if b <= 0xdf {
        2
    } else if b <= 0xef {
        3
    } else if b <= 0xf4 {
        4
    } else {
        0
    }
}

/// Where the reading of a telnet client's bytes stands.
#[derive(Clone, Copy, Debug, PartialEq, Eq, Structural)]
pub enum TelnetState {
    /// Between characters and commands.
    Ground,
    /// After the command byte 0xFF: the command follows.
    Command,
    /// After an option negotiation command (0xFB to 0xFE): the option byte follows.
    OptionArg,
    /// After the first byte of a two-byte UTF-8 sequence.
    Utf8Two { lead: u8 },
    /// After the first byte of a three-byte UTF-8 sequence.
    Utf8Three { lead: u8 },
    /// After the first two bytes of a three-byte UTF-8 sequence.
    Utf8ThreeSecond { lead: u8, second: u8 },
}

/// Whether the console ignores a control byte in the ground state: all below
/// 0x20 except the carriage return 0x0D.
pub open spec fn ignored_control(b: u8) -> bool {
    b <= 0x1f && b != 0x0d
}

/// Whether a byte in a state starts a four-byte UTF-8 sequence, which the
/// console cannot read (it keeps room for three bytes only).
pub open spec fn starts_unreadable(state: TelnetState, b: u8) -> bool {
    state == TelnetState::Ground && !ignored_control(b) && b != 0xff && utf8_width(b) == 4
}

/// The next state, and the character to type into the console if any, after
/// one byte from the client. In the ground state control bytes (but the
/// carriage return) and bytes that start no UTF-8 sequence are dropped, 0xFF
/// starts a command, an ASCII byte is typed, and a lead byte starts a UTF-8
/// sequence. A command byte 0xFB to 0xFE takes one more byte (the option);
/// every other command ends there. The bytes of a UTF-8 sequence are taken as
/// they come, and the sequence is typed as the first character of its lossy
/// decoding (padded with 0 to three bytes).
pub open spec fn telnet_next(state: TelnetState, b: u8) -> (TelnetState, Option<char>) {
    match state {
        TelnetState::Ground => {
            if ignored_control(b) {
                (TelnetState::Ground, None)
            } else if b == 0xff {
                (TelnetState::Command, None)
            } else if utf8_width(b) == 1 {
                (TelnetState::Ground, Some(first_char_lossy(seq![b, 0u8, 0u8])))
            } else if utf8_width(b) == 2 {
                (TelnetState::Utf8Two { lead: b }, None)
            } else if utf8_width(b) == 3 {
                (TelnetState::Utf8Three { lead: b }, None)
            } else {
                (TelnetState::Ground, None)
            }
        },
        TelnetState::Command => {
            if 0xfb <= b && b <= 0xfe {
                (TelnetState::OptionArg, None)
            } else {
                (TelnetState::Ground, None)
            }
        },
        TelnetState::OptionArg => (TelnetState::Ground, None),
        TelnetState::Utf8Two { lead } => (
            TelnetState::Ground,
            Some(first_char_lossy(seq![lead, b, 0u8])),
        ),
        TelnetState::Utf8Three { lead } => (TelnetState::Utf8ThreeSecond { lead, second: b }, None),
        TelnetState::Utf8ThreeSecond { lead, second } => (
            TelnetState::Ground,
            Some(first_char_lossy(seq![lead, second, b])),
        ),
    }
}

/// The first character of the lossy UTF-8 decoding of three bytes.
fn first_char_of(b0: u8, b1: u8, b2: u8) -> (c: char)
    ensures
        c == first_char_lossy(seq![b0, b1, b2]),
{
    let bytes = [b0, b1, b2];
    assert(bytes@ =~= seq![b0, b1, b2]);
    let text = decode_utf8_lossy(&bytes);
    text.as_str().get_char(0)
}

impl TelnetState {
    /// Whether the byte can be read in this state (see `starts_unreadable`).
    pub fn can_step(self, b: u8) -> (ok: bool)
        ensures
            ok == !starts_unreadable(self, b),
    {
        match self {
            TelnetState::Ground => (b <= 0x1f && b != 0x0d) || b == 0xff || utf8_char_width(b) != 4,
            _ => true,
        }
    }

    /// Reads one byte from the client (see `telnet_next`).
    pub fn step(self, b: u8) -> (res: (TelnetState, Option<char>))
        requires
            !starts_unreadable(self, b),
        ensures
            res == telnet_next(self, b),
            self == TelnetState::Ground && b < 0x20 && b != 0x0d ==> res == (
                TelnetState::Ground,
                None::<char>,
            ),
    {
        proof {
            lemma_control_bytes(b);
        }
        match self {
            TelnetState::Ground => {
                if b <= 0x1f && b != 0x0d {
                    (TelnetState::Ground, None)
                } else if b == 0xff {
                    (TelnetState::Command, None)
                } else {
                    let w = utf8_char_width(b);
                    if w == 1 {
                        (TelnetState::Ground, Some(first_char_of(b, 0, 0)))
                    } else if w == 2 {
                        (TelnetState::Utf8Two { lead: b }, None)
                    } else if w == 3 {
                        (TelnetState::Utf8Three { lead: b }, None)
                    } else {
                        (TelnetState::Ground, None)
                    }
                }
            },
            TelnetState::Command => {
                if 0xfb <= b && b <= 0xfe {
                    (TelnetState::OptionArg, None)
                } else {
                    (TelnetState::Ground, None)
                }
            },
            TelnetState::OptionArg => (TelnetState::Ground, None),
            TelnetState::Utf8Two { lead } => (TelnetState::Ground, Some(first_char_of(lead, b, 0))),
            TelnetState::Utf8Three { lead } => (
                TelnetState::Utf8ThreeSecond { lead, second: b },
                None,
            ),
            TelnetState::Utf8ThreeSecond { lead, second } => (
                TelnetState::Ground,
                Some(first_char_of(lead, second, b)),
            ),
        }
    }
}

/// Reads a sequence of bytes from a state: the state reached and the characters
/// typed, in order.
pub open spec fn telnet_feed(state: TelnetState, bytes: Seq<u8>) -> (TelnetState, Seq<char>)
    decreases bytes.len(),
{
    if bytes.len() == 0 {
        (state, Seq::<char>::empty())
    } else {
        let (st, typed) = telnet_feed(state, bytes.drop_last());
        let (next, out) = telnet_next(st, bytes.last());
        (
            next,
            match out {
                Some(c) => typed.push(c),
                None => typed,
            },
        )
    }
}

/// Whether reading the bytes from a state never meets a byte that the console
/// cannot read.
pub open spec fn telnet_readable(state: TelnetState, bytes: Seq<u8>) -> bool
    decreases bytes.len(),
{
    bytes.len() == 0 || (telnet_readable(state, bytes.drop_last()) && !starts_unreadable(
        telnet_feed(state, bytes.drop_last()).0,
        bytes.last(),
    ))
}

/// The characters that a telnet client can type: those with a UTF-8 encoding of
/// at most three bytes, other than the control characters that the console
/// drops (all below U+0020 except the carriage return).
pub open spec fn typeable(c: char) -> bool {
    let v = c as u32;
    v < 0x10000 && (v >= 0x20 || v == 0x0d)
}

/// A typeable character, sent by the client in UTF-8 while the reading is between
/// characters, is typed into the console as itself, and the reading is then
/// between characters again.
#[verifier::spinoff_prover]
pub proof fn lemma_typed_char_arrives(c: char)
    requires
        typeable(c),
    ensures
        telnet_readable(TelnetState::Ground, encode_scalar(c as u32)),
        telnet_feed(TelnetState::Ground, encode_scalar(c as u32)) == (
            TelnetState::Ground,
            seq![c],
        ),
{
    let v = c as u32;
    let e = encode_scalar(v);
    vstd::utf8::char_is_scalar(c);
    encode_utf8_first_scalar(seq![c]);
    assert(encode_utf8(seq![c].drop_first()) =~= Seq::<u8>::empty());
    assert(encode_utf8(seq![c]) =~= e);
    char_u32_cast(c, v);
    if has_width_1_encoding(v) {
        let b = e[0];
        assert(b == v) by (bit_vector)
            requires
                b == (v & 0x7f) as u8,
                v <= 0x7f,
        ;
        let p = seq![b, 0u8, 0u8];
        assert(p[0] == e[0]);
        assert(first_char_lossy(p) == c);
        assert(e.drop_last() =~= Seq::<u8>::empty());
        assert(!ignored_control(b) && b != 0xff && utf8_width(b) == 1);
        assert(telnet_feed(TelnetState::Ground, Seq::<u8>::empty()).0 == TelnetState::Ground);
        assert(telnet_readable(TelnetState::Ground, e.drop_last()));
        assert(telnet_feed(TelnetState::Ground, e).0 == TelnetState::Ground);
        assert(telnet_feed(TelnetState::Ground, e).1 =~= seq![c]);
    } else if has_width_2_encoding(v) {
        let b0 = e[0];
        let b1 = e[1];
        assert(0xc2 <= b0 && b0 <= 0xdf) by (bit_vector)
            requires
                b0 == 0xC0u8 | ((v >> 6) & 0x1F) as u8,
                0x80 <= v <= 0x7ff,
        ;
        let p = seq![b0, b1, 0u8];
        assert(first_char_lossy(p) == c);
        assert(e.drop_last() =~= seq![b0]);
        assert(seq![b0].drop_last() =~= Seq::<u8>::empty());
        assert(!ignored_control(b0));
        assert(utf8_width(b0) == 2);
        assert(telnet_next(TelnetState::Ground, b0).0 == TelnetState::Utf8Two { lead: b0 });
        assert(telnet_feed(TelnetState::Ground, Seq::<u8>::empty()).0 == TelnetState::Ground);
        assert(telnet_feed(TelnetState::Ground, seq![b0]).0 == TelnetState::Utf8Two { lead: b0 });
        assert(telnet_feed(TelnetState::Ground, seq![b0]).1 =~= Seq::<char>::empty());
        assert(telnet_readable(TelnetState::Ground, seq![b0].drop_last()));
        assert(telnet_readable(TelnetState::Ground, seq![b0]));
        assert(telnet_readable(TelnetState::Ground, e));
        assert(telnet_feed(TelnetState::Ground, e).0 == TelnetState::Ground);
        assert(telnet_feed(TelnetState::Ground, e).1 =~= seq![c]);
    } else {
        assert(has_width_3_encoding(v));
        let b0 = e[0];
        let b1 = e[1];
        let b2 = e[2];
        assert(0xe0 <= b0 && b0 <= 0xef) by (bit_vector)
            requires
                b0 == 0xE0u8 | ((v >> 12) & 0x0F) as u8,
                0x800 <= v <= 0xffff,
        ;
        let p = seq![b0, b1, b2];
        assert(p =~= e);
        assert(first_char_lossy(p) == c);
        assert(e.drop_last() =~= seq![b0, b1]);
        assert(seq![b0, b1].drop_last() =~= seq![b0]);
        assert(seq![b0].drop_last() =~= Seq::<u8>::empty());
        assert(!ignored_control(b0));
        assert(utf8_width(b0) == 3);
        assert(telnet_next(TelnetState::Ground, b0).0 == TelnetState::Utf8Three { lead: b0 });
        assert(telnet_feed(TelnetState::Ground, Seq::<u8>::empty()).0 == TelnetState::Ground);
        assert(telnet_feed(TelnetState::Ground, seq![b0]).0 == TelnetState::Utf8Three { lead: b0 });
        assert(telnet_feed(TelnetState::Ground, seq![b0]).1 =~= Seq::<char>::empty());
        assert(telnet_feed(TelnetState::Ground, seq![b0, b1]).0 == TelnetState::Utf8ThreeSecond { lead: b0, second: b1 });
        assert(telnet_feed(TelnetState::Ground, seq![b0, b1]).1 =~= Seq::<char>::empty());
        assert(telnet_readable(TelnetState::Ground, seq![b0].drop_last()));
        assert(telnet_readable(TelnetState::Ground, seq![b0]));
        assert(telnet_readable(TelnetState::Ground, seq![b0, b1]));
        assert(telnet_readable(TelnetState::Ground, e));
        assert(telnet_feed(TelnetState::Ground, e).0 == TelnetState::Ground);
        assert(telnet_feed(TelnetState::Ground, e).1 =~= seq![c]);
    }
}

/// Between characters, every byte below 0x20 other than the carriage return
/// 0x0D (NUL included) types nothing and leaves the reading between
/// characters; the carriage return is typed as itself.
pub proof fn lemma_control_bytes(b: u8)
    ensures
        b < 0x20 && b != 0x0d ==> telnet_next(TelnetState::Ground, b) == (
            TelnetState::Ground,
            None::<char>,
        ),
        b == 0x0d ==> telnet_next(TelnetState::Ground, b) == (TelnetState::Ground, Some('\r')),
{
    if b == 0x0d {
        let p = seq![b, 0u8, 0u8];
        assert(p[0] == 0x0du8);
        assert((0x0du8 & 0x7fu8) == 0x0du8) by (bit_vector);
        vstd::utf8::char_u32_cast('\r', 0x0du32);
    }
}

/// Reading bytes below 0x20 other than the carriage return, between
/// characters, types nothing: they can be added anywhere between characters
/// without changing what is typed.
pub proof fn lemma_control_bytes_type_nothing(bytes: Seq<u8>, controls: Seq<u8>)
    requires
        telnet_feed(TelnetState::Ground, bytes).0 == TelnetState::Ground,
        forall|i: int| 0 <= i < controls.len() ==> #[trigger] controls[i] < 0x20 && controls[i] != 0x0d,
    ensures
        telnet_feed(TelnetState::Ground, bytes + controls) == telnet_feed(TelnetState::Ground, bytes),
    decreases controls.len(),
{
    if controls.len() == 0 {
        assert(bytes + controls =~= bytes);
    } else {
        let init = controls.drop_last();
        assert forall|i: int| 0 <= i < init.len() implies #[trigger] init[i] < 0x20 && init[i] != 0x0d by {
            assert(init[i] == controls[i]);
        }
        lemma_control_bytes_type_nothing(bytes, init);
        assert((bytes + controls).drop_last() =~= bytes + init);
        assert((bytes + controls).last() == controls.last());
        lemma_control_bytes(controls.last());
    }
}

/// A telnet command, read while the reading is between characters, types
/// nothing and leaves the reading between characters: 0xFF followed by a
/// negotiation command (0xFB to 0xFE) and its option byte, or by any other
/// command byte.
pub proof fn lemma_commands_type_nothing(cmd: u8, option: u8)
    ensures
        !(0xfb <= cmd && cmd <= 0xfe) ==> telnet_feed(TelnetState::Ground, seq![0xffu8, cmd]) == (
            TelnetState::Ground,
            Seq::<char>::empty(),
        ),
        0xfb <= cmd && cmd <= 0xfe ==> telnet_feed(TelnetState::Ground, seq![0xffu8, cmd, option])
            == (TelnetState::Ground, Seq::<char>::empty()),
        telnet_readable(TelnetState::Ground, seq![0xffu8, cmd]),
        0xfb <= cmd && cmd <= 0xfe ==> telnet_readable(
            TelnetState::Ground,
            seq![0xffu8, cmd, option],
        ),
{
    let one = seq![0xffu8];
    let two = seq![0xffu8, cmd];
    let three = seq![0xffu8, cmd, option];
    assert(one.drop_last() =~= Seq::<u8>::empty());
    assert(two.drop_last() =~= one);
    assert(three.drop_last() =~= two);
    assert(telnet_feed(TelnetState::Ground, Seq::<u8>::empty()).1 =~= Seq::<char>::empty());
    assert(telnet_feed(TelnetState::Ground, one).0 == TelnetState::Command);
    assert(telnet_feed(TelnetState::Ground, one).1 =~= Seq::<char>::empty());
    assert(telnet_feed(TelnetState::Ground, two).1 =~= Seq::<char>::empty());
    if 0xfb <= cmd && cmd <= 0xfe {
        assert(telnet_feed(TelnetState::Ground, two).0 == TelnetState::OptionArg);
        assert(telnet_feed(TelnetState::Ground, three).1 =~= Seq::<char>::empty());
    }
    assert(telnet_readable(TelnetState::Ground, Seq::<u8>::empty()));
    assert(telnet_readable(TelnetState::Ground, one));
    assert(telnet_readable(TelnetState::Ground, two));
}

/// The bytes that clear a terminal and put its cursor at the top left:
/// ESC "[2J" ESC "[1;1H".
pub open spec fn clear_screen_bytes() -> Seq<u8> {
    seq![0x1bu8, 0x5bu8, 0x32u8, 0x4au8, 0x1bu8, 0x5bu8, 0x31u8, 0x3bu8, 0x31u8, 0x48u8]
}

/// What is sent to the client to show the console's text: the terminal is
/// cleared, then the text follows in UTF-8.
pub fn screen_update_bytes(text: &str) -> (bytes: Vec<u8>)
    ensures
        bytes@ == clear_screen_bytes() + encode_utf8(text@),
{
    let mut bytes: Vec<u8> = vec![0x1bu8, 0x5bu8, 0x32u8, 0x4au8, 0x1bu8, 0x5bu8, 0x31u8, 0x3bu8, 0x31u8, 0x48u8];
    assert(bytes@ =~= clear_screen_bytes());
    let body = text.as_bytes();
    bytes.extend_from_slice(body);
    assert(bytes@ =~= clear_screen_bytes() + encode_utf8(text@));
    bytes
}

} // verus!
