//! The console's screen buffer as the Windows console API lays it out, and the
//! text that a buffer of character cells reads as.

use vstd::prelude::*;
use vstd::utf8::is_scalar;
use crate::text::{char_from_u32, push_char};

verus! {

/// The character of a cell: a UTF-16 code unit, low byte first.
#[allow(non_camel_case_types)]
#[derive(Clone, Copy)]
pub struct Char {
    pub data: [u8; 2],
}

/// A console event; its contents are read through the console API itself.
#[derive(Clone, Copy)]
pub struct EventRecord {
    pub data: [u8; 0],
}

/// One cell of a screen buffer: its character and its attributes.
#[allow(non_camel_case_types, non_snake_case)]
#[derive(Clone, Copy)]
pub struct CHAR_INFO {
    pub uChar: Char,
    pub Attributes: u16,
}

#[allow(non_camel_case_types, non_snake_case)]
#[derive(Clone, Copy)]
pub struct CONSOLE_CURSOR_INFO {
    pub dwSize: u32,
    pub bVisible: i32,
}

#[allow(non_camel_case_types, non_snake_case)]
#[derive(Clone, Copy)]
pub struct CONSOLE_FONT_INFO {
    pub nFont: u32,
    pub dwFontSize: COORD,
}

#[allow(non_camel_case_types, non_snake_case)]
#[derive(Clone, Copy)]
pub struct CONSOLE_READCONSOLE_CONTROL {
    pub nLength: u32,
    pub nInitialChars: u32,
    pub dwCtrlWakeupMask: u32,
    pub dwControlKeyState: u32,
}

#[allow(non_camel_case_types, non_snake_case)]
#[derive(Clone, Copy)]
pub struct CONSOLE_SCREEN_BUFFER_INFO {
    pub dwSize: COORD,
    pub dwCursorPosition: COORD,
    pub wAttributes: u16,
    pub srWindow: SMALL_RECT,
    pub dwMaximumWindowSize: COORD,
}

#[allow(non_camel_case_types, non_snake_case)]
#[derive(Clone, Copy)]
pub struct CONSOLE_SELECTION_INFO {
    pub dwFlags: u32,
    pub dwSelectionAnchor: COORD,
    pub srSelection: SMALL_RECT,
}

/// A position, or a size, in character cells.
#[allow(non_camel_case_types, non_snake_case)]
#[derive(Clone, Copy)]
pub struct COORD {
    pub X: i16,
    pub Y: i16,
}

#[allow(non_camel_case_types, non_snake_case)]
#[derive(Clone, Copy)]
pub struct FOCUS_EVENT_RECORD {
    pub bSetFocus: i32,
}

#[allow(non_camel_case_types, non_snake_case)]
#[derive(Clone, Copy)]
pub struct INPUT_RECORD {
    pub EventType: u16,
    pub Event: EventRecord,
}

#[allow(non_camel_case_types, non_snake_case)]
#[derive(Clone, Copy)]
pub struct KEY_EVENT_RECORD {
    pub bKeyDown: i32,
    pub wRepeatCount: u16,
    pub wVirtualKeyCode: u16,
    pub wVirtualScanCode: u16,
    pub uChar: Char,
    pub dwControlKeyState: u32,
}

#[allow(non_camel_case_types, non_snake_case)]
#[derive(Clone, Copy)]
pub struct MENU_EVENT_RECORD {
    pub dwCommandId: u32,
}

#[allow(non_camel_case_types, non_snake_case)]
#[derive(Clone, Copy)]
pub struct MOUSE_EVENT_RECORD {
    pub dwMousePosition: COORD,
    pub dwButtonState: u32,
    pub dwControlKeyState: u32,
    pub dwEventFlags: u32,
}

/// A rectangle of cells, by its edges.
#[allow(non_camel_case_types, non_snake_case)]
#[derive(Clone, Copy)]
pub struct SMALL_RECT {
    pub Left: i16,
    pub Top: i16,
    pub Right: i16,
    pub Bottom: i16,
}

#[allow(non_camel_case_types, non_snake_case)]
#[derive(Clone, Copy)]
pub struct WINDOW_BUFFER_SIZE_RECORD {
    pub dwSize: COORD,
}

impl Char {
    /// The UTF-16 code unit held, low byte first.
    pub open spec fn code_unit(self) -> u32 {
        (self.data@[0] + 256 * self.data@[1]) as u32
    }

    /// The character held, where the code unit is a Unicode scalar value; `None`
    /// for a surrogate.
    pub fn unicode_char(&self) -> (c: Option<char>)
        ensures
            c == (if is_scalar(self.code_unit()) {
                Some(self.code_unit() as char)
            } else {
                None::<char>
            }),
    {
        let unit: u32 = self.data[0] as u32 + 256 * (self.data[1] as u32);
        char_from_u32(unit)
    }
}

/// Where reading a buffer of cells has got to: the text so far, the column
/// count since the last line end, whether a NUL character has ended the text,
/// and whether a cell held a surrogate code unit, which is no character.
pub struct ReadState {
    pub text: Seq<char>,
    pub column: int,
    pub ended: bool,
    pub invalid: bool,
}

/// Whether a cell is the trailing half of a double-width character.
pub open spec fn is_trailing(cell: CHAR_INFO) -> bool {
    cell.Attributes & 0x0200u16 != 0
}

/// Whether a cell is the leading half of a double-width character.
pub open spec fn is_leading(cell: CHAR_INFO) -> bool {
    cell.Attributes & 0x0100u16 != 0
}

/// Reads one more cell of a buffer `width` cells wide. Trailing halves are
/// skipped; a NUL ends the text; any other character is appended, followed by
/// "\r\n" where the column count is one short of a multiple of the width (the
/// count then restarts at 0); otherwise the count advances by 1, or by 2 for a
/// leading half.
pub open spec fn read_cell(st: ReadState, cell: CHAR_INFO, width: int) -> ReadState {
    if st.ended || st.invalid || is_trailing(cell) {
        st
    } else if !is_scalar(cell.uChar.code_unit()) {
        ReadState { invalid: true, ..st }
    } else if cell.uChar.code_unit() == 0 {
        ReadState { ended: true, ..st }
    } else {
        let text = st.text.push(cell.uChar.code_unit() as char);
        if st.column % width == width - 1 {
            ReadState { text: text.push('\r').push('\n'), column: 0, ..st }
        } else {
            ReadState {
                text,
                column: st.column + 1 + (if is_leading(cell) { 1int } else { 0int }),
                ..st
            }
        }
    }
}

/// Reads a buffer of cells, `width` cells to a row, from its first cell on.
pub open spec fn read_cells(cells: Seq<CHAR_INFO>, width: int) -> ReadState
    decreases cells.len(),
{
    if cells.len() == 0 {
        ReadState { text: Seq::<char>::empty(), column: 0, ended: false, invalid: false }
    } else {
        read_cell(read_cells(cells.drop_last(), width), cells.last(), width)
    }
}

proof fn lemma_read_column_bound(cells: Seq<CHAR_INFO>, width: int)
    ensures
        0 <= read_cells(cells, width).column <= 2 * cells.len(),
    decreases cells.len(),
{
    if cells.len() > 0 {
        lemma_read_column_bound(cells.drop_last(), width);
    }
}

/// Reading one more cell, for any buffer and any width: once the text has
/// ended (or met a surrogate) nothing changes; a trailing half (attribute bit
/// 0x0200) adds nothing; a NUL ends the text and adds nothing; any other
/// character, a space included, is added to the text as it is, followed by
/// "\r\n" exactly when the column count before it is one short of a multiple
/// of the width; the count then restarts at 0, and otherwise advances by the
/// columns the cell takes (2 for the leading half of a double-width character,
/// attribute bit 0x0100, else 1).
pub proof fn lemma_read_one_more(cells: Seq<CHAR_INFO>, cell: CHAR_INFO, width: int)
    ensures
        ({
            let st = read_cells(cells, width);
            let next = read_cells(cells.push(cell), width);
            let unit = cell.uChar.code_unit();
            if st.ended || st.invalid || cell.Attributes & 0x0200u16 != 0 {
                next == st
            } else if !is_scalar(unit) {
                next.invalid && next.text == st.text
            } else if unit == 0 {
                next.ended && next.text == st.text
            } else if st.column % width == width - 1 {
                &&& !next.ended && !next.invalid
                &&& next.text == st.text + seq![unit as char, '\r', '\n']
                &&& next.column == 0
            } else {
                &&& !next.ended && !next.invalid
                &&& next.text == st.text.push(unit as char)
                &&& next.column == st.column + (if cell.Attributes & 0x0100u16 != 0 {
                    2int
                } else {
                    1int
                })
            }
        }),
{
    assert(cells.push(cell).drop_last() =~= cells);
    let st = read_cells(cells, width);
    assert(st.text.push(cell.uChar.code_unit() as char).push('\r').push('\n') =~= st.text
        + seq![cell.uChar.code_unit() as char, '\r', '\n']);
}

/// The characters that a buffer holds up to its first NUL: those of the cells
/// that are not trailing halves, in order.
pub open spec fn shown_chars(cells: Seq<CHAR_INFO>) -> Seq<char>
    decreases cells.len(),
{
    if cells.len() == 0 {
        Seq::<char>::empty()
    } else {
        let before = shown_chars(cells.drop_last());
        let cell = cells.last();
        if has_nul(cells.drop_last()) || cell.Attributes & 0x0200u16 != 0 || cell.uChar.code_unit()
            == 0 {
            before
        } else {
            before.push(cell.uChar.code_unit() as char)
        }
    }
}

/// Whether a cell that is not a trailing half holds a NUL.
pub open spec fn has_nul(cells: Seq<CHAR_INFO>) -> bool {
    exists|i: int|
        0 <= i < cells.len() && cells[i].Attributes & 0x0200u16 == 0 && #[trigger] cells[i].uChar.code_unit()
            == 0
}

/// The text removes nothing and adds only line ends: where no surrogate is
/// met, the text with every "\r\n" that reading inserts taken out is exactly
/// the characters of the cells that are not trailing halves, in order, up to
/// the first NUL. The line ends inserted are those of `ends`: after the `k`-th
/// shown character, "\r\n" is inserted when `ends[k]` holds.
pub proof fn lemma_read_shows_all(cells: Seq<CHAR_INFO>, width: int)
    requires
        !read_cells(cells, width).invalid,
    ensures
        read_cells(cells, width).ended == has_nul(cells),
        exists|ends: Seq<bool>|
            ends.len() == shown_chars(cells).len() && #[trigger] with_line_ends(
                shown_chars(cells),
                ends,
            ) == read_cells(cells, width).text,
    decreases cells.len(),
{
    if cells.len() == 0 {
        let ends = Seq::<bool>::empty();
        assert(with_line_ends(shown_chars(cells), ends) =~= Seq::<char>::empty());
        assert(!has_nul(cells));
    } else {
        let init = cells.drop_last();
        let cell = cells.last();
        lemma_read_one_more(init, cell, width);
        assert(init.push(cell) =~= cells);
        let st = read_cells(init, width);
        if st.invalid {
            assert(read_cells(cells, width) == st);
        }
        lemma_read_shows_all(init, width);
        let ends0 = choose|ends: Seq<bool>|
            ends.len() == shown_chars(init).len() && #[trigger] with_line_ends(shown_chars(init), ends)
                == st.text;
        assert(has_nul(cells) == (has_nul(init) || (cell.Attributes & 0x0200u16 == 0
            && cell.uChar.code_unit() == 0))) by {
            if has_nul(cells) {
                let i = choose|i: int|
                    0 <= i < cells.len() && cells[i].Attributes & 0x0200u16 == 0
                        && #[trigger] cells[i].uChar.code_unit() == 0;
                if i < init.len() {
                    assert(init[i] == cells[i]);
                }
            }
            if has_nul(init) {
                let i = choose|i: int|
                    0 <= i < init.len() && init[i].Attributes & 0x0200u16 == 0
                        && #[trigger] init[i].uChar.code_unit() == 0;
                assert(cells[i] == init[i]);
            }
            if cell.Attributes & 0x0200u16 == 0 && cell.uChar.code_unit() == 0 {
                assert(cells[cells.len() - 1] == cell);
            }
        }
        if has_nul(init) || cell.Attributes & 0x0200u16 != 0 || cell.uChar.code_unit() == 0 {
            assert(with_line_ends(shown_chars(cells), ends0) == read_cells(cells, width).text);
        } else {
            let c = cell.uChar.code_unit() as char;
            let e = st.column % width == width - 1;
            let ends = ends0.push(e);
            lemma_with_line_ends_push(shown_chars(init), ends0, c, e);
            assert(shown_chars(cells) == shown_chars(init).push(c));
            assert(with_line_ends(shown_chars(cells), ends) == read_cells(cells, width).text);
        }
    }
}

/// A text with "\r\n" inserted after the `k`-th character where `ends[k]` holds.
pub open spec fn with_line_ends(chars: Seq<char>, ends: Seq<bool>) -> Seq<char>
    decreases chars.len(),
{
    if chars.len() == 0 || ends.len() != chars.len() {
        Seq::<char>::empty()
    } else {
        with_line_ends(chars.drop_last(), ends.drop_last()) + (if ends.last() {
            seq![chars.last(), '\r', '\n']
        } else {
            seq![chars.last()]
        })
    }
}

proof fn lemma_with_line_ends_push(chars: Seq<char>, ends: Seq<bool>, c: char, e: bool)
    requires
        ends.len() == chars.len(),
    ensures
        with_line_ends(chars.push(c), ends.push(e)) == with_line_ends(chars, ends) + (if e {
            seq![c, '\r', '\n']
        } else {
            seq![c]
        }),
{
    assert(chars.push(c).drop_last() =~= chars);
    assert(ends.push(e).drop_last() =~= ends);
}

/// Whether the cells that reading a buffer reaches all hold characters.
pub fn console_text_decodes(cells: &Vec<CHAR_INFO>, size: COORD) -> (ok: bool)
    requires
        size.X >= 0,
        size.Y >= 0,
        cells@.len() == size.X * size.Y,
    ensures
        ok == !read_cells(cells@, size.X as int).invalid,
{
    let (_, ok) = read_cells_exec(cells, size);
    ok
}

/// The text that a screen buffer of `size` cells reads as (see `read_cell`).
pub fn read_console_text(cells: &Vec<CHAR_INFO>, size: COORD) -> (text: String)
    requires
        size.X >= 0,
        size.Y >= 0,
        cells@.len() == size.X * size.Y,
        !read_cells(cells@, size.X as int).invalid,
    ensures
        text@ == read_cells(cells@, size.X as int).text,
{
    let (text, _) = read_cells_exec(cells, size);
    text
}

/// Once reading has ended at a NUL (or met a surrogate), the cells that follow
/// change nothing: the text ends at the first NUL.
pub proof fn lemma_read_settled(cells: Seq<CHAR_INFO>, k: int, width: int)
    requires
        0 <= k <= cells.len(),
        read_cells(cells.take(k), width).ended || read_cells(cells.take(k), width).invalid,
    ensures
        read_cells(cells, width) == read_cells(cells.take(k), width),
    decreases cells.len() - k,
{
    if k == cells.len() {
        assert(cells.take(k) =~= cells);
    } else {
        let next = cells.take(k + 1);
        assert(next.drop_last() =~= cells.take(k));
        assert(next.take(k) =~= cells.take(k));
        assert(read_cells(next, width) == read_cells(cells.take(k), width));
        assert(cells.take(k + 1) =~= next);
        lemma_read_settled(cells, k + 1, width);
    }
}

fn read_cells_exec(cells: &Vec<CHAR_INFO>, size: COORD) -> (res: (String, bool))
    requires
        size.X >= 0,
        size.Y >= 0,
        cells@.len() == size.X * size.Y,
    ensures
        res.1 == !read_cells(cells@, size.X as int).invalid,
        res.1 ==> res.0@ == read_cells(cells@, size.X as int).text,
{
    let ghost w = size.X as int;
    let width: usize = size.X as usize;
    let n = cells.len();
    assert(n <= 0x7fff * 0x7fff) by (nonlinear_arith)
        requires
            n == size.X * size.Y,
            size.X <= 0x7fff,
            size.Y <= 0x7fff,
            size.X >= 0,
            size.Y >= 0,
    ;
    assert(n > 0 ==> width > 0) by (nonlinear_arith)
        requires
            n == size.X * size.Y,
            width == size.X,
            size.Y >= 0,
    ;
    let mut text = String::new();
    let mut column: usize = 0;
    let mut valid = true;
    let mut i: usize = 0;
    while i < n
        invariant_except_break
            !read_cells(cells@.take(i as int), w).ended,
            !read_cells(cells@.take(i as int), w).invalid,
            column == read_cells(cells@.take(i as int), w).column,
            valid,
        invariant
            n == cells@.len(),
            n <= 0x7fff * 0x7fff,
            n > 0 ==> width > 0,
            width == w,
            i <= n,
            text@ == read_cells(cells@.take(i as int), w).text,
            valid == !read_cells(cells@.take(i as int), w).invalid,
        ensures
            i == n || read_cells(cells@.take(i as int), w).ended || read_cells(
                cells@.take(i as int),
                w,
            ).invalid,
        decreases n - i,
    {
        proof {
            lemma_read_column_bound(cells@.take(i as int), w);
            assert(cells@.take(i + 1).drop_last() =~= cells@.take(i as int));
        }
        let cell = cells[i];
        i = i + 1;
        if cell.Attributes & 0x0200 != 0 {
            continue;
        }
        match cell.uChar.unicode_char() {
            None => {
                valid = false;
                break;
            },
            Some(c) => {
                if c == '\0' {
                    break;
                }
                push_char(&mut text, c);
                if column % width == width - 1 {
                    push_char(&mut text, '\r');
                    push_char(&mut text, '\n');
                    column = 0;
                } else {
                    column = column + 1;
                    if cell.Attributes & 0x0100 != 0 {
                        column = column + 1;
                    }
                }
            },
        }
    }
    proof {
        if i == n {
            assert(cells@.take(i as int) =~= cells@);
        } else {
            lemma_read_settled(cells@, i as int, w);
        }
    }
    (text, valid)
}

/// Laying out a text on a grid, from its first character on: the column and
/// row the next character goes to, and the cells placed so far as (column, row,
/// character). A line feed goes to the start of the next row and is not placed.
pub open spec fn grid_layout(text: Seq<char>) -> (nat, nat, Seq<(nat, nat, char)>)
    decreases text.len(),
{
    if text.len() == 0 {
        (0, 0, Seq::<(nat, nat, char)>::empty())
    } else {
        let (x, y, cells) = grid_layout(text.drop_last());
        if text.last() == '\n' {
            (0, y + 1, cells)
        } else {
            (x + 1, y, cells.push((x, y, text.last())))
        }
    }
}

proof fn lemma_grid_bounds(text: Seq<char>)
    ensures
        grid_layout(text).0 <= text.len(),
        grid_layout(text).1 <= text.len(),
        grid_layout(text).2.len() <= text.len(),
        forall|k: int|
            0 <= k < grid_layout(text).2.len() ==> #[trigger] grid_layout(text).2[k].0 < text.len()
                && grid_layout(text).2[k].1 < text.len(),
    decreases text.len(),
{
    if text.len() > 0 {
        lemma_grid_bounds(text.drop_last());
    }
}

/// The number of line feeds in a text.
pub open spec fn count_line_feeds(s: Seq<char>) -> nat
    decreases s.len(),
{
    if s.len() == 0 {
        0
    } else {
        count_line_feeds(s.drop_last()) + (if s.last() == '\n' { 1nat } else { 0nat })
    }
}

/// Where the last line of a text starts: just after its last line feed, or at
/// 0 where it has none.
pub open spec fn last_line_start(s: Seq<char>) -> nat
    decreases s.len(),
{
    if s.len() == 0 {
        0
    } else if s.last() == '\n' {
        s.len()
    } else {
        last_line_start(s.drop_last())
    }
}

proof fn lemma_count_prefix(s: Seq<char>, k: int)
    requires
        0 <= k <= s.len(),
    ensures
        count_line_feeds(s.take(k)) <= count_line_feeds(s),
        count_line_feeds(s) <= count_line_feeds(s.take(k)) + s.len() - k,
    decreases s.len() - k,
{
    if k == s.len() {
        assert(s.take(k) =~= s);
    } else {
        lemma_count_prefix(s, k + 1);
        assert(s.take(k + 1).drop_last() =~= s.take(k));
    }
}

/// Only a line feed moves painting to the next row: the character at index `i`
/// of a text, if it is not a line feed, is placed at the row given by the
/// number of line feeds before it and at the column given by the number of
/// characters since the last of them; it is the `j`-th character placed, `j`
/// being `i` less the line feeds before it. Every character but a line feed is
/// placed.
pub proof fn lemma_grid_rows(text: Seq<char>)
    ensures
        count_line_feeds(text) <= text.len(),
        last_line_start(text) <= text.len(),
        grid_layout(text).0 == text.len() - last_line_start(text),
        grid_layout(text).1 == count_line_feeds(text),
        grid_layout(text).2.len() == text.len() - count_line_feeds(text),
        forall|i: int|
            0 <= i < text.len() && text[i] != '\n' ==> {
                let before = #[trigger] text.take(i);
                &&& count_line_feeds(before) <= i
                &&& last_line_start(before) <= i
                &&& grid_layout(text).2[i - count_line_feeds(before)] == (
                    (i - last_line_start(before)) as nat,
                    count_line_feeds(before),
                    text[i],
                )
            },
    decreases text.len(),
{
    if text.len() > 0 {
        let init = text.drop_last();
        lemma_grid_rows(init);
        let n = text.len() - 1;
        assert(text.take(n) =~= init);
        assert forall|i: int| 0 <= i < text.len() && text[i] != '\n' implies {
            let before = #[trigger] text.take(i);
            &&& count_line_feeds(before) <= i
            &&& last_line_start(before) <= i
            &&& grid_layout(text).2[i - count_line_feeds(before)] == (
                (i - last_line_start(before)) as nat,
                count_line_feeds(before),
                text[i],
            )
        } by {
            let g = grid_layout(init);
            if i < n {
                assert(text.take(i) =~= init.take(i));
                assert(init[i] == text[i]);
                lemma_count_prefix(init, i + 1);
                assert(init.take(i + 1).drop_last() =~= init.take(i));
                assert(i - count_line_feeds(text.take(i)) < g.2.len());
                if text.last() == '\n' {
                    assert(grid_layout(text).2 == g.2);
                } else {
                    assert(grid_layout(text).2 == g.2.push((g.0, g.1, text.last())));
                }
            } else {
                assert(grid_layout(text).2 == g.2.push((g.0, g.1, text.last())));
            }
        }
    }
}

/// The pixel width of a cell when painting the console's text.
pub const CELL_WIDTH: usize = 8;

/// The pixel height of a cell when painting the console's text.
pub const CELL_HEIGHT: usize = 20;

/// Where each character of the console's text is painted: at its grid cell
/// (see `grid_layout`) scaled by `CELL_WIDTH` and `CELL_HEIGHT` pixels.
pub fn text_paint_positions(text: &str) -> (pos: Vec<(usize, usize, char)>)
    requires
        text@.len() * CELL_HEIGHT <= usize::MAX,
    ensures
        pos@.len() == grid_layout(text@).2.len(),
        forall|k: int|
            0 <= k < pos@.len() ==> #[trigger] pos@[k] == (
                (grid_layout(text@).2[k].0 * CELL_WIDTH) as usize,
                (grid_layout(text@).2[k].1 * CELL_HEIGHT) as usize,
                grid_layout(text@).2[k].2,
            ),
{
    broadcast use vstd::string::group_string_axioms;

    let ghost s = text@;
    let mut pos: Vec<(usize, usize, char)> = Vec::new();
    let mut x: usize = 0;
    let mut y: usize = 0;
    for c in it: text.chars()
        invariant
            it.seq() == s,
            s.len() * CELL_HEIGHT <= usize::MAX,
            x == grid_layout(s.take(it.index() as int)).0,
            y == grid_layout(s.take(it.index() as int)).1,
            pos@.len() == grid_layout(s.take(it.index() as int)).2.len(),
            forall|k: int|
                0 <= k < pos@.len() ==> #[trigger] pos@[k] == (
                    (grid_layout(s.take(it.index() as int)).2[k].0 * CELL_WIDTH) as usize,
                    (grid_layout(s.take(it.index() as int)).2[k].1 * CELL_HEIGHT) as usize,
                    grid_layout(s.take(it.index() as int)).2[k].2,
                ),
    {
        let ghost i = it.index();
        proof {
            assert(s.take(i + 1).drop_last() =~= s.take(i));
            lemma_grid_bounds(s.take(i));
            assert(x < s.len() && y < s.len());
            assert(x * CELL_WIDTH <= s.len() * CELL_HEIGHT) by (nonlinear_arith)
                requires
                    x < s.len(),
            ;
            assert(y * CELL_HEIGHT <= s.len() * CELL_HEIGHT) by (nonlinear_arith)
                requires
                    y < s.len(),
            ;
        }
        if c == '\n' {
            x = 0;
            y = y + 1;
        } else {
            pos.push((x * CELL_WIDTH, y * CELL_HEIGHT, c));
            x = x + 1;
        }
    }
    proof {
        assert(s.take(s.len() as int) =~= s);
    }
    pos
}

} // verus!
