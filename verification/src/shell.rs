//! The screen of the hosted shell: lines of characters, each with its display width.

use vstd::prelude::*;
use vstd::utf8::{
    decode_first_scalar, decode_utf8, length_of_first_scalar, pop_first_scalar, valid_utf8,
    valid_utf8_concat,
};
use crate::text::{char_width, decode_utf8_lossy, unicode_width_of, utf8_lossy};

verus! {

/// One character cell on the screen.
#[derive(Clone, Copy, Debug, PartialEq, Eq, Structural)]
pub struct Char {
    /// The character shown.
    pub c: char,
    /// Columns it takes: its Unicode display width, 0 for an invisible or
    /// control character.
    pub width: u16,
}

/// Sum of the widths of a sequence of characters.
pub open spec fn total_width(chars: Seq<Char>) -> nat
    decreases chars.len(),
{
    if chars.len() == 0 {
        0
    } else {
        total_width(chars.drop_last()) + chars.last().width as nat
    }
}

/// One line of the screen.
pub struct Line {
    pub chars: Vec<Char>,
    pub width: u16,
}

/// A line as the layout sees it: its characters and the width it records.
pub type LineModel = (Seq<Char>, nat);

impl View for Line {
    type V = LineModel;

    /// The characters of the line, in order, and the width it records.
    open spec fn view(&self) -> LineModel {
        (self.chars@, self.width as nat)
    }
}

impl Line {
    /// The recorded width is the sum of the widths of the line's characters.
    pub open spec fn wf(&self) -> bool {
        self@.1 == total_width(self@.0)
    }

    /// An empty line of width 0.
    pub fn new() -> (line: Line)
        ensures
            line@ == (Seq::<Char>::empty(), 0nat),
            line.wf(),
    {
        Line { chars: Vec::new(), width: 0 }
    }

    /// Appends a character; the line grows by the character's width.
    pub fn add(&mut self, c: Char)
        requires
            old(self)@.1 + c.width <= u16::MAX,
        ensures
            final(self)@ == (old(self)@.0.push(c), old(self)@.1 + c.width as nat),
            old(self).wf() ==> final(self).wf(),
    {
        self.width = self.width + c.width;
        self.chars.push(c);
        assert(self.chars@.drop_last() =~= old(self).chars@);
    }

    /// The width that the line records for itself.
    pub fn width(&self) -> (w: u16)
        ensures
            w == self@.1,
    {
        self.width
    }
}

/// The model of a line.
pub open spec fn line_model(line: Line) -> LineModel {
    line@
}

/// The models of a sequence of lines.
pub open spec fn lines_model(lines: Seq<Line>) -> Seq<LineModel> {
    lines.map_values(|l: Line| line_model(l))
}

/// The lines, with one empty line added where there are none.
pub open spec fn with_line(lines: Seq<LineModel>) -> Seq<LineModel> {
    if lines.len() == 0 {
        seq![(Seq::<Char>::empty(), 0nat)]
    } else {
        lines
    }
}

/// Whether placing `c` after the last line `last` starts a new line, on a screen
/// `screen_width` columns wide: at a line feed, or where the last line is already
/// wider than the screen width plus the character's width.
pub open spec fn breaks_line(last: LineModel, screen_width: nat, c: Char) -> bool {
    c.c == '\n' || last.1 > screen_width + c.width
}

/// The lines after one character is placed: a new line is started where
/// `breaks_line` says so, and the character is appended to the last line.
pub open spec fn place_char(lines: Seq<LineModel>, screen_width: nat, c: Char) -> Seq<LineModel> {
    let ls = with_line(lines);
    let ls2 = if breaks_line(ls.last(), screen_width, c) {
        ls.push((Seq::<Char>::empty(), 0nat))
    } else {
        ls
    };
    ls2.update(ls2.len() - 1, (ls2.last().0.push(c), ls2.last().1 + c.width as nat))
}

/// The lines after a sequence of characters is placed one after the other.
pub open spec fn place_chars(lines: Seq<LineModel>, screen_width: nat, cs: Seq<Char>) -> Seq<
    LineModel,
>
    decreases cs.len(),
{
    if cs.len() == 0 {
        with_line(lines)
    } else {
        place_char(place_chars(lines, screen_width, cs.drop_last()), screen_width, cs.last())
    }
}

/// The columns that the screen gives a character: its Unicode width, and 0 for a
/// control character.
pub open spec fn columns(c: char) -> u16 {
    match unicode_width_of(c) {
        Some(n) => n as u16,
        None => 0u16,
    }
}

/// The cell of a character: the character with its columns.
pub open spec fn cell_of(c: char) -> Char {
    Char { c, width: columns(c) }
}

/// The cells for a text: each character with its columns.
pub open spec fn cells_of(text: Seq<char>) -> Seq<Char>
    decreases text.len(),
{
    if text.len() == 0 {
        Seq::<Char>::empty()
    } else {
        cells_of(text.drop_last()).push(cell_of(text.last()))
    }
}

/// Each character of a text gets the width that `unicode-width` gives it, and
/// 0 where it gives none (a control character).
pub proof fn lemma_cell_widths(text: Seq<char>)
    ensures
        forall|i: int|
            0 <= i < text.len() ==> #[trigger] cells_of(text)[i] == (Char {
                c: text[i],
                width: match unicode_width_of(text[i]) {
                    Some(n) => n as u16,
                    None => 0u16,
                },
            }),
{
    lemma_cells_of(text);
}

/// The cells of a text: one for each character, in order.
pub proof fn lemma_cells_of(text: Seq<char>)
    ensures
        cells_of(text).len() == text.len(),
        forall|i: int| 0 <= i < text.len() ==> #[trigger] cells_of(text)[i] == cell_of(text[i]),
    decreases text.len(),
{
    if text.len() > 0 {
        lemma_cells_of(text.drop_last());
    }
}

/// Whether `c` can be placed on the lines with no width overflowing a `u16`.
pub open spec fn fits(lines: Seq<LineModel>, screen_width: nat, c: Char) -> bool {
    let last = with_line(lines).last();
    &&& screen_width + c.width <= u16::MAX
    &&& !breaks_line(last, screen_width, c) ==> last.1 + c.width <= u16::MAX
}

/// All characters on the lines, line after line.
pub open spec fn text_of(lines: Seq<LineModel>) -> Seq<Char>
    decreases lines.len(),
{
    if lines.len() == 0 {
        Seq::<Char>::empty()
    } else {
        text_of(lines.drop_last()) + lines.last().0
    }
}

/// A line model records the sum of its characters' widths.
pub open spec fn model_wf(line: LineModel) -> bool {
    line.1 == total_width(line.0)
}

/// Every line model records the sum of its characters' widths.
pub open spec fn all_wf(lines: Seq<LineModel>) -> bool {
    forall|i: int| 0 <= i < lines.len() ==> #[trigger] model_wf(lines[i])
}

proof fn lemma_text_of_replace_last(ls: Seq<LineModel>, v: LineModel)
    requires
        ls.len() > 0,
    ensures
        text_of(ls.update(ls.len() - 1, v)) == text_of(ls.drop_last()) + v.0,
        text_of(ls) == text_of(ls.drop_last()) + ls.last().0,
{
    let u = ls.update(ls.len() - 1, v);
    assert(u.drop_last() =~= ls.drop_last());
}

proof fn lemma_text_of_with_line(lines: Seq<LineModel>)
    ensures
        text_of(with_line(lines)) == text_of(lines),
{
    if lines.len() == 0 {
        let ls = with_line(lines);
        assert(ls.drop_last() =~= Seq::<LineModel>::empty());
        assert(text_of(ls.drop_last()) =~= Seq::<Char>::empty());
        assert(ls.last().0 =~= Seq::<Char>::empty());
        assert(text_of(ls) =~= Seq::<Char>::empty());
    }
}

/// Placing one character adds exactly that character to the text on the lines.
pub proof fn lemma_place_char_text(lines: Seq<LineModel>, screen_width: nat, c: Char)
    ensures
        text_of(place_char(lines, screen_width, c)) == text_of(lines).push(c),
{
    let ls = with_line(lines);
    lemma_text_of_with_line(lines);
    let ls2 = if breaks_line(ls.last(), screen_width, c) {
        ls.push((Seq::<Char>::empty(), 0nat))
    } else {
        ls
    };
    if breaks_line(ls.last(), screen_width, c) {
        assert(ls2.drop_last() =~= ls);
        assert(text_of(ls2) =~= text_of(ls));
    }
    lemma_text_of_replace_last(ls2, (ls2.last().0.push(c), ls2.last().1 + c.width as nat));
    assert(text_of(place_char(lines, screen_width, c)) =~= text_of(ls2).push(c));
}

/// Nothing placed is lost and nothing is reordered: the characters on the lines
/// after placing `cs` are those before, followed by `cs`.
pub proof fn lemma_place_chars_text(lines: Seq<LineModel>, screen_width: nat, cs: Seq<Char>)
    ensures
        text_of(place_chars(lines, screen_width, cs)) == text_of(lines) + cs,
    decreases cs.len(),
{
    if cs.len() == 0 {
        lemma_text_of_with_line(lines);
        assert(text_of(lines) + cs =~= text_of(lines));
    } else {
        lemma_place_chars_text(lines, screen_width, cs.drop_last());
        lemma_place_char_text(place_chars(lines, screen_width, cs.drop_last()), screen_width, cs.last());
        assert((text_of(lines) + cs.drop_last()).push(cs.last()) =~= text_of(lines) + cs);
    }
}

/// The line-break rule, for any lines, screen width and character: on a screen
/// `w` columns wide, a character starts a new line (holding just that
/// character) exactly when it is a line feed or the last line is wider than `w`
/// plus the character's width; otherwise it is appended to the last line, whose
/// width grows by the character's width. No other line changes.
pub proof fn lemma_break_rule(lines: Seq<LineModel>, w: nat, c: Char)
    ensures
        ({
            let before = if lines.len() == 0 {
                seq![(Seq::<Char>::empty(), 0nat)]
            } else {
                lines
            };
            let after = place_char(lines, w, c);
            let last = before[before.len() - 1];
            if c.c == '\n' || last.1 > w + c.width as nat {
                &&& after.len() == before.len() + 1
                &&& after[after.len() - 1] == (seq![c], c.width as nat)
                &&& forall|i: int| 0 <= i < before.len() ==> #[trigger] after[i] == before[i]
            } else {
                &&& after.len() == before.len()
                &&& after[after.len() - 1] == (last.0.push(c), last.1 + c.width as nat)
                &&& forall|i: int| 0 <= i < before.len() - 1 ==> #[trigger] after[i] == before[i]
            }
        }),
{
    assert(Seq::<Char>::empty().push(c) =~= seq![c]);
}

/// With one-column characters other than line feeds, a line that is started
/// keeps taking characters until it is two columns wider than the screen: the
/// characters placed on an empty screen `w` columns wide fill lines of `w + 2`
/// characters, the last line holding the rest.
pub proof fn lemma_narrow_lines(w: nat, cs: Seq<Char>)
    requires
        forall|i: int| 0 <= i < cs.len() ==> #[trigger] cs[i].width == 1 && cs[i].c != '\n',
    ensures
        ({
            let ls = place_chars(Seq::<LineModel>::empty(), w, cs);
            &&& ls.len() == (if cs.len() == 0 { 1int } else { (cs.len() - 1) / ((w + 2) as int) + 1 })
            &&& forall|i: int| 0 <= i < ls.len() - 1 ==> #[trigger] ls[i].1 == w + 2
            &&& ls[ls.len() - 1].1 == cs.len() - (ls.len() - 1) * (w + 2)
            &&& forall|i: int| 0 <= i < ls.len() ==> #[trigger] ls[i].1 == ls[i].0.len()
        }),
    decreases cs.len(),
{
    let ls = place_chars(Seq::<LineModel>::empty(), w, cs);
    if cs.len() == 0 {
        assert(ls == seq![(Seq::<Char>::empty(), 0nat)]);
    } else {
        let init = cs.drop_last();
        let c = cs.last();
        assert forall|i: int| 0 <= i < init.len() implies #[trigger] init[i].width == 1 && init[i].c != '\n' by {
            assert(init[i] == cs[i]);
        }
        lemma_narrow_lines(w, init);
        let prev = place_chars(Seq::<LineModel>::empty(), w, init);
        lemma_break_rule(prev, w, c);
        let n = init.len();
        let m = w + 2;
        assert(ls == place_char(prev, w, c));
        assert(prev.len() > 0);
        let last = prev[prev.len() - 1];
        if n == 0 {
            assert(prev.len() == 1);
            assert(last.1 == 0);
            assert(ls.len() == 1);
            assert(ls[0] == (last.0.push(c), 1nat));
        } else {
            let k = (n - 1) / (m as int);
            assert(prev.len() == k + 1);
            assert(last.1 == n - k * m);
            assert(1 <= n - k * m <= m) by (nonlinear_arith)
                requires
                    k == (n - 1) / (m as int),
                    n >= 1,
                    m >= 2,
            ;
            if n - k * m == m {
                assert(last.1 > w + c.width as nat);
                assert((n + 1 - 1) / (m as int) == k + 1) by (nonlinear_arith)
                    requires
                        n - k * m == m,
                        m >= 2,
                ;
                assert(ls.len() == k + 2);
                assert(ls[ls.len() - 1] == (seq![c], 1nat));
                assert(n + 1 - (k + 1) * m == 1) by (nonlinear_arith)
                    requires
                        n - k * m == m,
                ;
                assert forall|i: int| 0 <= i < ls.len() - 1 implies #[trigger] ls[i].1 == w + 2 by {
                    assert(ls[i] == prev[i]);
                }
                assert forall|i: int| 0 <= i < ls.len() implies #[trigger] ls[i].1 == ls[i].0.len() by {
                    if i < prev.len() {
                        assert(ls[i] == prev[i]);
                    }
                }
            } else {
                assert(!(last.1 > w + c.width as nat));
                assert((n + 1 - 1) / (m as int) == k) by (nonlinear_arith)
                    requires
                        k == (n - 1) / (m as int),
                        1 <= n - k * m < m,
                        m >= 2,
                ;
                assert(ls.len() == k + 1);
                assert(ls[ls.len() - 1] == (last.0.push(c), last.1 + 1));
                assert(last.1 == last.0.len());
                assert forall|i: int| 0 <= i < ls.len() - 1 implies #[trigger] ls[i].1 == w + 2 by {
                    assert(ls[i] == prev[i]);
                }
                assert forall|i: int| 0 <= i < ls.len() implies #[trigger] ls[i].1 == ls[i].0.len() by {
                    if i < ls.len() - 1 {
                        assert(ls[i] == prev[i]);
                    }
                }
            }
        }
    }
}

/// Placing characters keeps every line well formed: a line whose recorded width
/// is the sum of its characters' widths stays so, and new lines are so.
pub proof fn lemma_place_chars_wf(lines: Seq<LineModel>, screen_width: nat, cs: Seq<Char>)
    requires
        all_wf(lines),
    ensures
        all_wf(place_chars(lines, screen_width, cs)),
    decreases cs.len(),
{
    if cs.len() == 0 {
        if lines.len() == 0 {
            assert(model_wf(with_line(lines)[0]));
        }
    } else {
        lemma_place_chars_wf(lines, screen_width, cs.drop_last());
        let before = place_chars(lines, screen_width, cs.drop_last());
        let c = cs.last();
        let ls = with_line(before);
        let ls2 = if breaks_line(ls.last(), screen_width, c) {
            ls.push((Seq::<Char>::empty(), 0nat))
        } else {
            ls
        };
        assert(all_wf(ls2));
        assert(model_wf(ls2[ls2.len() - 1]));
        assert(ls2.last().0.push(c).drop_last() =~= ls2.last().0);
        assert(total_width(ls2.last().0.push(c)) == total_width(ls2.last().0) + c.width);
        assert(model_wf((ls2.last().0.push(c), ls2.last().1 + c.width as nat)));
    }
}

/// Placing characters never changes a line above the last one, and the last
/// line only grows at its end.
pub proof fn lemma_place_chars_keeps_lines(lines: Seq<LineModel>, screen_width: nat, cs: Seq<Char>)
    ensures
        place_chars(lines, screen_width, cs).len() >= with_line(lines).len(),
        forall|i: int|
            0 <= i < with_line(lines).len() - 1 ==> #[trigger] place_chars(
                lines,
                screen_width,
                cs,
            )[i] == with_line(lines)[i],
        with_line(lines).last().0.is_prefix_of(
            place_chars(lines, screen_width, cs)[with_line(lines).len() - 1].0,
        ),
    decreases cs.len(),
{
    if cs.len() > 0 {
        lemma_place_chars_keeps_lines(lines, screen_width, cs.drop_last());
        let before = place_chars(lines, screen_width, cs.drop_last());
        let c = cs.last();
        let n = with_line(lines).len();
        let ls = with_line(before);
        assert(ls == before);
        let ls2 = if breaks_line(ls.last(), screen_width, c) {
            ls.push((Seq::<Char>::empty(), 0nat))
        } else {
            ls
        };
        let after = place_char(before, screen_width, c);
        assert(after == ls2.update(ls2.len() - 1, (ls2.last().0.push(c), ls2.last().1 + c.width as nat)));
        assert forall|i: int| 0 <= i < n - 1 implies #[trigger] after[i] == with_line(lines)[i] by {
            assert(before[i] == with_line(lines)[i]);
        }
        let prev = with_line(lines).last().0;
        assert(prev.is_prefix_of(before[n - 1].0));
        if ls2.len() - 1 == n - 1 {
            assert(after[n - 1].0 == before[n - 1].0.push(c));
            assert(prev.is_prefix_of(after[n - 1].0));
        } else {
            assert(after[n - 1] == before[n - 1]);
        }
    }
}

/// A line feed always starts a new line, and that line holds just the line feed.
pub proof fn lemma_line_feed_starts_line(lines: Seq<LineModel>, screen_width: nat, c: Char)
    requires
        c.c == '\n',
    ensures
        place_char(lines, screen_width, c).len() == with_line(lines).len() + 1,
        place_char(lines, screen_width, c).last() == (seq![c], c.width as nat),
        place_char(lines, screen_width, c).drop_last() == with_line(lines),
{
    let ls = with_line(lines);
    let ls2 = ls.push((Seq::<Char>::empty(), 0nat));
    assert(Seq::<Char>::empty().push(c) =~= seq![c]);
    assert(place_char(lines, screen_width, c).drop_last() =~= ls);
}

/// Placing no characters on a screen that has a line leaves it as it is; in
/// particular placing a text and then nothing is placing the text.
pub proof fn lemma_place_nothing(lines: Seq<LineModel>, screen_width: nat, cs: Seq<Char>)
    ensures
        lines.len() > 0 ==> place_chars(lines, screen_width, Seq::<Char>::empty()) == lines,
        place_chars(place_chars(lines, screen_width, cs), screen_width, Seq::<Char>::empty())
            == place_chars(lines, screen_width, cs),
{
    lemma_place_chars_keeps_lines(lines, screen_width, cs);
}

/// Placing `a` followed by `b` is placing `a`, then placing `b`.
pub proof fn lemma_place_chars_concat(
    lines: Seq<LineModel>,
    screen_width: nat,
    a: Seq<Char>,
    b: Seq<Char>,
)
    ensures
        place_chars(lines, screen_width, a + b) == place_chars(
            place_chars(lines, screen_width, a),
            screen_width,
            b,
        ),
    decreases b.len(),
{
    lemma_place_chars_keeps_lines(lines, screen_width, a);
    if b.len() == 0 {
        assert(a + b =~= a);
    } else {
        lemma_place_chars_concat(lines, screen_width, a, b.drop_last());
        assert((a + b).drop_last() =~= a + b.drop_last());
        assert((a + b).last() == b.last());
    }
}

/// The cells of `t1` followed by `t2` are the cells of `t1` followed by those of `t2`.
pub proof fn lemma_cells_of_concat(t1: Seq<char>, t2: Seq<char>)
    ensures
        cells_of(t1 + t2) == cells_of(t1) + cells_of(t2),
    decreases t2.len(),
{
    if t2.len() == 0 {
        assert(t1 + t2 =~= t1);
        assert(cells_of(t1) + cells_of(t2) =~= cells_of(t1));
    } else {
        lemma_cells_of_concat(t1, t2.drop_last());
        assert((t1 + t2).drop_last() =~= t1 + t2.drop_last());
        assert(cells_of(t1) + cells_of(t2) =~= (cells_of(t1) + cells_of(t2.drop_last())).push(
            cell_of(t2.last()),
        ));
    }
}

/// Decoding two well-formed UTF-8 byte sequences one after the other gives the
/// decoding of each, one after the other.
pub proof fn lemma_decode_concat(a: Seq<u8>, b: Seq<u8>)
    requires
        valid_utf8(a),
        valid_utf8(b),
    ensures
        valid_utf8(a + b),
        decode_utf8(a + b) == decode_utf8(a) + decode_utf8(b),
    decreases a.len(),
{
    valid_utf8_concat(a, b);
    if a.len() == 0 {
        assert(a + b =~= b);
        assert(decode_utf8(a) + decode_utf8(b) =~= decode_utf8(b));
    } else {
        let rest = pop_first_scalar(a);
        assert(length_of_first_scalar(a) >= 1);
        lemma_decode_concat(rest, b);
        assert(pop_first_scalar(a + b) =~= rest + b);
        assert(decode_first_scalar(a + b) == decode_first_scalar(a));
        assert(decode_utf8(a + b) =~= decode_utf8(a) + decode_utf8(b));
    }
}

/// Showing well-formed UTF-8 output `a` followed by `b` at once places the same
/// lines as showing `a` and then `b`.
pub proof fn lemma_output_concat(lines: Seq<LineModel>, screen_width: nat, a: Seq<u8>, b: Seq<u8>)
    requires
        valid_utf8(a),
        valid_utf8(b),
    ensures
        valid_utf8(a + b),
        place_chars(lines, screen_width, cells_of(decode_utf8(a + b))) == place_chars(
            place_chars(lines, screen_width, cells_of(decode_utf8(a))),
            screen_width,
            cells_of(decode_utf8(b)),
        ),
{
    lemma_decode_concat(a, b);
    lemma_cells_of_concat(decode_utf8(a), decode_utf8(b));
    lemma_place_chars_concat(lines, screen_width, cells_of(decode_utf8(a)), cells_of(decode_utf8(b)));
}

/// Whether the characters of `cs`, placed one after the other, each fit (see
/// `fits`): no width then overflows a `u16`.
pub open spec fn fits_all(lines: Seq<LineModel>, screen_width: nat, cs: Seq<Char>) -> bool
    decreases cs.len(),
{
    cs.len() == 0 || (fits_all(lines, screen_width, cs.drop_last()) && fits(
        place_chars(lines, screen_width, cs.drop_last()),
        screen_width,
        cs.last(),
    ))
}

proof fn lemma_fits_all_prefix(lines: Seq<LineModel>, screen_width: nat, cs: Seq<Char>, k: int)
    requires
        0 <= k <= cs.len(),
        fits_all(lines, screen_width, cs),
    ensures
        fits_all(lines, screen_width, cs.take(k)),
    decreases cs.len() - k,
{
    if k == cs.len() {
        assert(cs.take(k) =~= cs);
    } else {
        lemma_fits_all_prefix(lines, screen_width, cs, k + 1);
        assert(cs.take(k + 1).drop_last() =~= cs.take(k));
    }
}

/// Whether the bytes `data`, received after those pending, can be shown with
/// no width overflowing a `u16`: each character that the pending bytes and
/// `data` decode to fits when it is placed.
pub open spec fn output_fits(screen: ScreenModel, data: Seq<u8>) -> bool {
    fits_all(screen.lines, screen.width, cells_of(utf8_lossy(screen.pending + data)))
}

/// The screen of the hosted shell, and the bytes received from it that are not
/// yet shown. The pipes to the shell process are held by the application, which
/// hands what it reads to `on_out_handle`.
pub struct CygwinShell {
    pub lines: Vec<Line>,
    pub width: u16,
    pub height: u16,
    pub out_buf: Vec<u8>,
}

/// What a `CygwinShell` holds: its lines, its size, and the bytes received
/// from the shell that are not yet shown.
pub struct ScreenModel {
    pub lines: Seq<LineModel>,
    pub width: nat,
    pub height: nat,
    pub pending: Seq<u8>,
}

impl View for CygwinShell {
    type V = ScreenModel;

    open spec fn view(&self) -> ScreenModel {
        ScreenModel {
            lines: lines_model(self.lines@),
            width: self.width as nat,
            height: self.height as nat,
            pending: self.out_buf@,
        }
    }
}

impl CygwinShell {
    /// An empty screen of 80 columns and 25 rows with nothing pending.
    pub fn new() -> (shell: CygwinShell)
        ensures
            shell@.lines == Seq::<LineModel>::empty(),
            shell@.width == 80,
            shell@.height == 25,
            shell@.pending == Seq::<u8>::empty(),
    {
        CygwinShell { lines: Vec::new(), width: 80, height: 25, out_buf: Vec::new() }
    }

    /// Places one character on the screen: a new line is started at a line feed
    /// or where the last line is wider than the screen width plus the character's
    /// width, and the character is appended to the last line.
    pub fn put_char(&mut self, c: Char)
        requires
            fits(old(self)@.lines, old(self)@.width, c),
        ensures
            final(self)@ == (ScreenModel {
                lines: place_char(old(self)@.lines, old(self)@.width, c),
                ..old(self)@
            }),
    {
        let ghost before = lines_model(self.lines@);
        if self.lines.len() == 0 {
            self.lines.push(Line::new());
        }
        assert(lines_model(self.lines@) =~= with_line(before));
        let last = self.lines.len() - 1;
        let newline = c.c == '\n' || self.lines[last as usize].width > self.width + c.width;
        assert(newline == breaks_line(with_line(before).last(), self.width as nat, c));
        if newline {
            self.lines.push(Line::new());
        }
        let ghost mid = lines_model(self.lines@);
        let mut line = self.lines.pop().unwrap();
        line.add(c);
        self.lines.push(line);
        assert(lines_model(self.lines@) =~= mid.update(mid.len() - 1, (mid.last().0.push(c), mid.last().1 + c.width as nat)));
        assert(lines_model(self.lines@) == place_char(before, self.width as nat, c));
    }

    /// Shows the pending bytes: they are decoded as UTF-8 (ill-formed parts
    /// become U+FFFD), and each character is placed with `put_char`, with its
    /// Unicode width as its width (0 for a control character). Nothing is left
    /// pending. Shown again with nothing pending, a screen with a line is left
    /// as it is.
    fn process_out_buf(&mut self)
        requires
            fits_all(
                old(self)@.lines,
                old(self)@.width,
                cells_of(utf8_lossy(old(self)@.pending)),
            ),
        ensures
            final(self)@ == (ScreenModel {
                lines: place_chars(
                    old(self)@.lines,
                    old(self)@.width,
                    cells_of(utf8_lossy(old(self)@.pending)),
                ),
                pending: Seq::<u8>::empty(),
                ..old(self)@
            }),
            valid_utf8(old(self)@.pending) ==> utf8_lossy(old(self)@.pending) == decode_utf8(
                old(self)@.pending,
            ),
            old(self)@.pending.len() == 0 && old(self)@.lines.len() > 0 ==> final(self)@
                == old(self)@,
    {
        broadcast use vstd::string::group_string_axioms;

        let text = decode_utf8_lossy(self.out_buf.as_slice());
        self.out_buf.truncate(0);
        if self.lines.len() == 0 {
            self.lines.push(Line::new());
        }
        let ghost w = self@.width;
        let ghost start = old(self)@.lines;
        let ghost cells = cells_of(text@);
        let ghost n = text@.len();
        proof {
            lemma_cells_of(text@);
        }
        assert(self@.lines =~= place_chars(start, w, cells.take(0)));
        for c in it: text.as_str().chars()
            invariant
                self@.width == w,
                self@.height == old(self)@.height,
                self@.pending == Seq::<u8>::empty(),
                self@.lines.len() > 0,
                n == text@.len(),
                fits_all(start, w, cells),
                cells == cells_of(text@),
                cells.len() == text@.len(),
                forall|i: int| 0 <= i < text@.len() ==> #[trigger] cells[i] == cell_of(text@[i]),
                it.seq() == text@,
                self@.lines == place_chars(start, w, cells.take(it.index() as int)),
        {
            let cw: u16 = match char_width(c) {
                Some(n) => n as u16,
                None => 0,
            };
            let cell = Char { c, width: cw };
            assert(cell == cells[it.index() as int]);
            proof {
                lemma_fits_all_prefix(start, w, cells, it.index() + 1);
                assert(cells.take(it.index() + 1).drop_last() =~= cells.take(it.index() as int));
            }
            self.put_char(cell);
        }
        assert(cells.take(text@.len() as int) =~= cells);
        proof {
            if old(self)@.pending.len() == 0 {
                assert(text@ =~= Seq::<char>::empty());
                assert(cells =~= Seq::<Char>::empty());
                assert(old(self)@.pending =~= Seq::<u8>::empty());
                assert(place_chars(start, w, cells) == with_line(start));
            }
        }
    }

    /// Whether the bytes `data` can be received and shown with no width
    /// overflowing a `u16` (see `output_fits`): the pending bytes and `data` are
    /// decoded, and the width of the last line is followed as each character
    /// would be placed.
    pub fn can_receive(&self, data: &[u8]) -> (ok: bool)
        ensures
            ok == output_fits(self@, data@),
    {
        broadcast use vstd::string::group_string_axioms;

        let mut bytes: Vec<u8> = Vec::new();
        bytes.extend_from_slice(self.out_buf.as_slice());
        bytes.extend_from_slice(data);
        assert(bytes@ =~= self@.pending + data@);
        let text = decode_utf8_lossy(bytes.as_slice());
        assert(text@ == utf8_lossy(self@.pending + data@));
        let ghost start = self@.lines;
        let ghost w = self@.width;
        let ghost cells = cells_of(text@);
        proof {
            lemma_cells_of(text@);
        }
        let width: u32 = self.width as u32;
        let mut last: u32 = if self.lines.len() == 0 {
            0
        } else {
            self.lines[self.lines.len() - 1].width as u32
        };
        assert(place_chars(start, w, cells.take(0)) == with_line(start));
        for c in it: text.as_str().chars()
            invariant
                width == w,
                w == self@.width,
                start == self@.lines,
                text@ == utf8_lossy(self@.pending + data@),
                w <= u16::MAX,
                cells == cells_of(text@),
                cells.len() == text@.len(),
                forall|i: int| 0 <= i < text@.len() ==> #[trigger] cells[i] == cell_of(text@[i]),
                it.seq() == text@,
                fits_all(start, w, cells.take(it.index() as int)),
                place_chars(start, w, cells.take(it.index() as int)).len() > 0,
                last == place_chars(start, w, cells.take(it.index() as int)).last().1,
                last <= u16::MAX,
        {
            let cw: u32 = match char_width(c) {
                Some(n) => n as u16 as u32,
                None => 0,
            };
            let ghost i = it.index();
            let ghost before = place_chars(start, w, cells.take(i));
            let ghost cell = cells[i];
            proof {
                assert(cells.take(i + 1).drop_last() =~= cells.take(i));
                assert(cells.take(i + 1).last() == cell);
                assert(with_line(before) == before);
                assert(cell.width == cw);
            }
            let newline = c == '\n' || last > width + cw;
            if width + cw > 0xffff || (!newline && last + cw > 0xffff) {
                proof {
                    assert(!fits(before, w, cell));
                    if fits_all(start, w, cells) {
                        lemma_fits_all_prefix(start, w, cells, i + 1);
                        assert(fits_all(start, w, cells.take(i + 1)));
                        assert(fits(
                            place_chars(start, w, cells.take(i + 1).drop_last()),
                            w,
                            cells.take(i + 1).last(),
                        ));
                        assert(false);
                    }
                    assert(!output_fits(self@, data@));
                }
                return false;
            }
            last = if newline {
                cw
            } else {
                last + cw
            };
            proof {
                lemma_place_chars_keeps_lines(start, w, cells.take(i + 1));
            }
        }
        assert(cells.take(text@.len() as int) =~= cells);
        true
    }

    /// Takes bytes read from the shell's output: they are added to the pending
    /// bytes, and then all pending bytes are shown (see `process_out_buf`).
    pub fn on_out_handle(&mut self, data: &[u8])
        requires
            output_fits(old(self)@, data@),
        ensures
            final(self)@ == (ScreenModel {
                lines: place_chars(
                    old(self)@.lines,
                    old(self)@.width,
                    cells_of(utf8_lossy(old(self)@.pending + data@)),
                ),
                pending: Seq::<u8>::empty(),
                ..old(self)@
            }),
            valid_utf8(old(self)@.pending + data@) ==> final(self)@.lines == place_chars(
                old(self)@.lines,
                old(self)@.width,
                cells_of(decode_utf8(old(self)@.pending + data@)),
            ),
            valid_utf8(old(self)@.pending + data@) ==> text_of(final(self)@.lines) == text_of(
                old(self)@.lines,
            ) + cells_of(decode_utf8(old(self)@.pending + data@)),
            old(self)@.pending.len() + data@.len() == 0 && old(self)@.lines.len() > 0
                ==> final(self)@ == old(self)@,
    {
        self.out_buf.extend_from_slice(data);
        let ghost received = old(self)@.pending + data@;
        assert(self@.pending =~= received);
        self.process_out_buf();
        proof {
            lemma_place_chars_text(old(self)@.lines, old(self)@.width, cells_of(utf8_lossy(received)));
        }
    }

    /// Takes bytes read from the shell's output where they can be shown with no
    /// width overflowing a `u16` (see `can_receive`): they are then shown as by
    /// `on_out_handle`, and the result is `true`. Otherwise the screen is left
    /// as it is, and the result is `false`.
    pub fn receive(&mut self, data: &[u8]) -> (shown: bool)
        ensures
            shown == output_fits(old(self)@, data@),
            shown ==> final(self)@ == (ScreenModel {
                lines: place_chars(
                    old(self)@.lines,
                    old(self)@.width,
                    cells_of(utf8_lossy(old(self)@.pending + data@)),
                ),
                pending: Seq::<u8>::empty(),
                ..old(self)@
            }),
            !shown ==> final(self)@ == old(self)@,
    {
        if self.can_receive(data) {
            self.on_out_handle(data);
            true
        } else {
            false
        }
    }
}

/// The column at which the `j`-th character of a line starts: the sum of the
/// widths of the characters before it.
pub open spec fn column_of(chars: Seq<Char>, j: int) -> nat {
    total_width(chars.take(j))
}

proof fn lemma_total_width_prefix(chars: Seq<Char>, j: int)
    requires
        0 <= j <= chars.len(),
    ensures
        column_of(chars, j) <= total_width(chars),
    decreases chars.len() - j,
{
    if j < chars.len() {
        lemma_total_width_prefix(chars, j + 1);
        lemma_column_step(chars, j);
    } else {
        assert(chars.take(j) =~= chars);
    }
}

/// Whether painting the lines with cells `font_width` by `font_height` pixels
/// keeps every pixel offset, and every running column, within a `usize`.
pub open spec fn paint_fits(lines: Seq<Line>, font_width: nat, font_height: nat) -> bool {
    &&& forall|i: int| 0 <= i < lines.len() ==> #[trigger] total_width(lines[i].chars@) <= usize::MAX
    &&& forall|i: int, j: int|
        0 <= i < lines.len() && 0 <= j < lines[i].chars@.len() ==> #[trigger] column_of(lines[i].chars@, j)
            * font_width <= usize::MAX && i * font_height <= usize::MAX
}

proof fn lemma_column_step(chars: Seq<Char>, j: int)
    requires
        0 <= j < chars.len(),
    ensures
        column_of(chars, j + 1) == column_of(chars, j) + chars[j].width,
{
    assert(chars.take(j + 1).drop_last() =~= chars.take(j));
}

/// Whether painting the lines with cells `font_width` by `font_height` pixels
/// keeps every offset within a `usize` (see `paint_fits`).
pub fn paint_fits_check(lines: &Vec<Line>, font_width: usize, font_height: usize) -> (ok: bool)
    ensures
        ok == paint_fits(lines@, font_width as nat, font_height as nat),
{
    let mut y: usize = 0;
    while y < lines.len()
        invariant
            y <= lines@.len(),
            forall|i: int| 0 <= i < y ==> #[trigger] total_width(lines@[i].chars@) <= usize::MAX,
            forall|i: int, j: int|
                0 <= i < y && 0 <= j < lines@[i].chars@.len() ==> #[trigger] column_of(
                    lines@[i].chars@,
                    j,
                ) * font_width <= usize::MAX && i * font_height <= usize::MAX,
        decreases lines@.len() - y,
    {
        let chars = &lines[y].chars;
        let ghost cs = chars@;
        let mut x: usize = 0;
        let mut j: usize = 0;
        assert(cs.take(0) =~= Seq::<Char>::empty());
        while j < chars.len()
            invariant
                y < lines@.len(),
                cs == lines@[y as int].chars@,
                chars@ == cs,
                j <= cs.len(),
                x == column_of(cs, j as int),
                forall|k: int|
                    0 <= k < j ==> #[trigger] column_of(cs, k) * font_width <= usize::MAX && y
                        * font_height <= usize::MAX,
            decreases cs.len() - j,
        {
            if x.checked_mul(font_width).is_none() || y.checked_mul(font_height).is_none() {
                return false;
            }
            let c = chars[j];
            proof {
                lemma_column_step(cs, j as int);
                lemma_total_width_prefix(cs, j as int + 1);
            }
            match x.checked_add(c.width as usize) {
                None => {
                    return false;
                },
                Some(v) => {
                    x = v;
                },
            }
            j = j + 1;
        }
        proof {
            assert(cs.take(cs.len() as int) =~= cs);
        }
        y = y + 1;
    }
    true
}

/// Where each character of the screen is painted, line by line: the `j`-th
/// character of line `i` goes at `x` = its column times the font width and `y` =
/// `i` times the font height, as `(x, y, character)`.
pub fn paint_positions(lines: &Vec<Line>, font_width: usize, font_height: usize) -> (pos: Vec<
    Vec<(usize, usize, char)>,
>)
    requires
        paint_fits(lines@, font_width as nat, font_height as nat),
    ensures
        pos@.len() == lines@.len(),
        forall|i: int| 0 <= i < lines@.len() ==> #[trigger] pos@[i]@.len() == lines@[i].chars@.len(),
        forall|i: int, j: int|
            0 <= i < lines@.len() && 0 <= j < lines@[i].chars@.len() ==> #[trigger] pos@[i]@[j] == (
                (column_of(lines@[i].chars@, j) * font_width) as usize,
                (i * font_height) as usize,
                lines@[i].chars@[j].c,
            ),
{
    let mut pos: Vec<Vec<(usize, usize, char)>> = Vec::new();
    let mut y: usize = 0;
    while y < lines.len()
        invariant
            paint_fits(lines@, font_width as nat, font_height as nat),
            y <= lines@.len(),
            pos@.len() == y,
            forall|i: int| 0 <= i < y ==> #[trigger] pos@[i]@.len() == lines@[i].chars@.len(),
            forall|i: int, j: int|
                0 <= i < y && 0 <= j < lines@[i].chars@.len() ==> #[trigger] pos@[i]@[j] == (
                    (column_of(lines@[i].chars@, j) * font_width) as usize,
                    (i * font_height) as usize,
                    lines@[i].chars@[j].c,
                ),
        decreases lines@.len() - y,
    {
        let line = &lines[y];
        let chars = &line.chars;
        let ghost cs = line.chars@;
        assert(chars@ == cs);
        let mut row: Vec<(usize, usize, char)> = Vec::new();
        let mut x: usize = 0;
        let mut j: usize = 0;
        while j < chars.len()
            invariant
                paint_fits(lines@, font_width as nat, font_height as nat),
                y < lines@.len(),
                cs == lines@[y as int].chars@,
                chars@ == cs,
                j <= cs.len(),
                x == column_of(cs, j as int),
                row@.len() == j,
                forall|k: int| 0 <= k < j ==> #[trigger] row@[k] == (
                    (column_of(cs, k) * font_width) as usize,
                    (y * font_height) as usize,
                    cs[k].c,
                ),
            decreases cs.len() - j,
        {
            let c = chars[j];
            assert(column_of(lines@[y as int].chars@, j as int) * font_width <= usize::MAX
                && y * font_height <= usize::MAX);
            let px = x * font_width;
            let py = y * font_height;
            row.push((px, py, c.c));
            proof {
                lemma_column_step(cs, j as int);
                lemma_total_width_prefix(cs, j as int + 1);
            }
            x = x + c.width as usize;
            j = j + 1;
        }
        pos.push(row);
        y = y + 1;
    }
    pos
}

} // verus!
