//! Drawing the prompt and line, wrapped to the window, and putting the
//! cursor back where it belongs.
//!
//! A frame is laid out as a run of cells, one per character of the prompt
//! and of the line, each with the text sent for it and the columns it takes.
//! A cell that would cross the right edge starts the next row instead (the
//! rest of the row is erased first), so a wide glyph never straddles the
//! edge. Escape sequences in the prompt take no columns. Every frame starts
//! by returning to the row the previous frame's prompt began on, so redraws
//! stay in place however the line wraps.

use crate::display::Frame;
use crate::terminal::WinSize;
use crate::text::{chars_of, is_boundary_in, str_byte_len, string_of};
use crate::unicode::{
    char_width, display_width, len_utf8, offset, scan_step, spec_char_width, spec_display_width,
    width_scan, width_step, WidthScan,
};
use vstd::prelude::*;

verus! {

// ------------------------------------------------------------- sequences

/// The decimal digit `d`.
pub open spec fn digit(d: nat) -> char {
    ((48 + d) as u8) as char
}

/// The decimal digits of `n`, most significant first.
pub open spec fn decimal_text(n: nat) -> Seq<char>
    decreases n,
{
    if n < 10 {
        seq![digit(n)]
    } else {
        decimal_text(n / 10).push(digit(n % 10))
    }
}

/// A cursor movement by `n`: `ESC [ n f`, or nothing when `n` is zero. `f`
/// is `A` for up, `B` for down and `C` for right.
pub open spec fn move_text(n: nat, f: char) -> Seq<char> {
    if n == 0 {
        Seq::empty()
    } else {
        seq!['\x1b', '['] + decimal_text(n) + seq![f]
    }
}

/// Erases from the cursor to the end of the screen: `ESC [ J`.
pub open spec fn clear_below() -> Seq<char> {
    seq!['\x1b', '[', 'J']
}

/// Ends a row early to start the next: the rest of the row is erased, unless
/// it is full, then a carriage return and a line feed.
pub open spec fn wrap_text(x: nat, cols: nat) -> Seq<char> {
    if x < cols {
        seq!['\x1b', '[', 'K', '\r', '\n']
    } else {
        seq!['\r', '\n']
    }
}

/// Turns bold on: `ESC [ 1 m`.
pub open spec fn bold_on() -> Seq<char> {
    seq!['\x1b', '[', '1', 'm']
}

/// Turns bold off: `ESC [ 22 m`.
pub open spec fn bold_off() -> Seq<char> {
    seq!['\x1b', '[', '2', '2', 'm']
}

// ------------------------------------------------------------------ cells

/// A C0 control character or `DEL`.
pub open spec fn is_c0(c: char) -> bool {
    (c as u32) < 0x20 || (c as u32) == 0x7f
}

/// A C1 control character.
pub open spec fn is_c1(c: char) -> bool {
    0x80 <= (c as u32) && (c as u32) < 0xa0
}

/// The letter that shows a C0 control character in caret notation: `^A`
/// for `0x01`, `^?` for `DEL`.
pub open spec fn caret(c: char) -> char {
    if (c as u32) == 0x7f {
        '?'
    } else {
        (((c as u32) + 0x40) as u8) as char
    }
}

/// What is sent for a character of the line, and the columns it takes: a C0
/// control character in caret notation, a C1 control character not at all,
/// and anything else as itself.
pub open spec fn glyph(c: char) -> (Seq<char>, nat) {
    if is_c0(c) {
        (seq!['^', caret(c)], 2)
    } else if is_c1(c) {
        (Seq::empty(), 0)
    } else {
        (seq![c], spec_char_width(c))
    }
}

/// The cells of a prompt: each character as itself, escape sequences taking
/// no columns.
pub open spec fn prompt_cells(p: Seq<char>) -> Seq<(Seq<char>, nat)> {
    Seq::new(p.len(), |i: int| (seq![p[i]], width_step(width_scan(WidthScan::Text, p.take(i)).0, p[i]).1))
}

/// The cell of character `j` of the line: an asterisk when masked, and
/// otherwise its glyph, in bold when it is one of the highlighted pair.
pub open spec fn line_cell(line: Seq<char>, j: int, mask: bool, hl: Option<(usize, usize)>) -> (Seq<char>, nat) {
    if mask {
        (seq!['*'], 1)
    } else {
        let g = glyph(line[j]);
        if hl matches Some(pair) && (offset(line, j) == pair.0 || offset(line, j) == pair.1) {
            (bold_on() + g.0 + bold_off(), g.1)
        } else {
            g
        }
    }
}

/// The cells of the line.
pub open spec fn line_cells(line: Seq<char>, mask: bool, hl: Option<(usize, usize)>) -> Seq<(Seq<char>, nat)> {
    Seq::new(line.len(), |j: int| line_cell(line, j, mask, hl))
}

/// The cells of a frame: the prompt's, then the line's.
pub open spec fn frame_cells(f: Frame) -> Seq<(Seq<char>, nat)> {
    prompt_cells(f.prompt@) + line_cells(f.line@, f.mask, f.highlight)
}

// ----------------------------------------------------------------- layout

/// Whether a cell `w` columns wide, reached at column `x`, starts the next
/// row: it is visible, would cross the right edge, and the row is not empty.
pub open spec fn wraps(cols: nat, x: nat, w: nat) -> bool {
    w > 0 && x + w > cols && x > 0
}

/// Drawing one cell at column `x` of row `y`: the text sent, and the column
/// and row after it.
pub open spec fn draw_cell(cols: nat, x: nat, y: nat, c: (Seq<char>, nat)) -> (Seq<char>, nat, nat) {
    if wraps(cols, x, c.1) {
        (wrap_text(x, cols) + c.0, c.1, y + 1)
    } else {
        (c.0, x + c.1, y)
    }
}

/// Drawing cells from the top left: the text sent, and the column and row
/// after the last.
pub open spec fn draw_cells(cols: nat, cells: Seq<(Seq<char>, nat)>) -> (Seq<char>, nat, nat)
    decreases cells.len(),
{
    if cells.len() == 0 {
        (Seq::empty(), 0, 0)
    } else {
        let (o, x, y) = draw_cells(cols, cells.drop_last());
        let (o2, x2, y2) = draw_cell(cols, x, y, cells.last());
        (o + o2, x2, y2)
    }
}

/// Where cell `n` lands, as (column, row); for `n` past the last cell, where
/// the next character would go.
pub open spec fn spot(cols: nat, cells: Seq<(Seq<char>, nat)>, n: int) -> (nat, nat) {
    let (_, x, y) = draw_cells(cols, cells.take(n));
    if n < cells.len() {
        if wraps(cols, x, cells[n].1) {
            (0, y + 1)
        } else {
            (x, y)
        }
    } else if x >= cols {
        (0, y + 1)
    } else {
        (x, y)
    }
}

/// The character index of the cursor in the line.
pub open spec fn cursor_index(f: Frame) -> int {
    choose|k: int| 0 <= k <= f.line@.len() && offset(f.line@, k) == f.cursor
}

/// Drawing frame `f` in a window `cols` wide, from the top left: the text
/// sent, the row it ends on, and the cursor's column and row. The hint
/// follows the line only if it fits on the row the line ends on; a full
/// last row is left for the start of the next.
pub open spec fn layout(cols: nat, f: Frame) -> (Seq<char>, nat, nat, nat) {
    let cells = frame_cells(f);
    let (body, xb, yb) = draw_cells(cols, cells);
    let (cx, cy) = spot(cols, cells, f.prompt@.len() + cursor_index(f));
    let (hint, xh) = match f.hint {
        Some(h) => if xb + spec_display_width(h@) <= cols {
            (h@, xb + spec_display_width(h@))
        } else {
            (Seq::empty(), xb)
        },
        None => (Seq::empty(), xb),
    };
    let (tail, ye) = if xh >= cols {
        (seq!['\r', '\n'], yb + 1)
    } else {
        (Seq::empty(), yb)
    };
    (body + hint + tail, ye, cx, cy)
}

/// The rows between the cursor and the last row of a frame.
pub open spec fn rows_under(cols: nat, f: Frame) -> nat {
    let (_, ye, _, cy) = layout(cols, f);
    if ye >= cy {
        (ye - cy) as nat
    } else {
        0
    }
}

/// Everything sent to draw `f`, from a cursor `above` rows below the top of
/// the previous frame: back to the top left, the frame, erase what is left
/// of the old one, then up and across to the cursor.
pub open spec fn render_text(cols: nat, above: nat, f: Frame) -> Seq<char> {
    let (drawn, _, cx, _) = layout(cols, f);
    move_text(above, 'A') + seq!['\r'] + drawn + clear_below() + move_text(rows_under(cols, f), 'A')
        + seq!['\r'] + move_text(cx, 'C')
}

/// The width lines wrap at: the window's columns, or one for a window that
/// reports none.
pub open spec fn wrap_width(win: WinSize) -> nat {
    if win.cols == 0 {
        1
    } else {
        win.cols as nat
    }
}

// ------------------------------------------------------------------ laws

/// A visible cell no wider than the window never straddles the right edge:
/// wherever it lands, it ends within the row.
pub proof fn law_cells_never_straddle_the_edge(cols: nat, cells: Seq<(Seq<char>, nat)>, n: int)
    requires
        0 <= n < cells.len(),
        0 < cells[n].1 <= cols,
    ensures
        spot(cols, cells, n).0 + cells[n].1 <= cols,
{
}

/// A masked line shows one asterisk per character and nothing of what was
/// typed.
pub proof fn law_masked_lines_show_only_asterisks(line: Seq<char>, hl: Option<(usize, usize)>, j: int)
    requires
        0 <= j < line.len(),
    ensures
        line_cells(line, true, hl)[j] == (seq!['*'], 1nat),
{
}

/// Drawing never moves back up: the row reached after the first `n` cells is
/// at most the row reached after all of them, and strictly less when cell
/// `n` starts a new row.
proof fn lemma_rows_only_grow(cols: nat, cells: Seq<(Seq<char>, nat)>, n: int)
    requires
        0 <= n <= cells.len(),
    ensures
        draw_cells(cols, cells.take(n)).2 <= draw_cells(cols, cells).2,
        n < cells.len() && wraps(cols, draw_cells(cols, cells.take(n)).1, cells[n].1) ==> draw_cells(
            cols,
            cells.take(n),
        ).2 + 1 <= draw_cells(cols, cells).2,
    decreases cells.len(),
{
    if n == cells.len() {
        assert(cells.take(n) =~= cells);
    } else {
        let d = cells.drop_last();
        lemma_rows_only_grow(cols, d, n);
        assert(d.take(n) =~= cells.take(n));
        if n == cells.len() - 1 {
            assert(cells.take(n) =~= d);
        }
    }
}

/// The cursor always lies within the frame: its row is at most the last
/// row drawn, so the rows the renderer records above and below it add up to
/// the frame's height.
pub proof fn law_cursor_lies_within_the_frame(cols: nat, f: Frame)
    requires
        cols >= 1,
        is_boundary_in(f.line@, f.cursor as int),
    ensures
        layout(cols, f).3 <= layout(cols, f).1,
        layout(cols, f).3 + rows_under(cols, f) == layout(cols, f).1,
{
    let cells = frame_cells(f);
    let k = cursor_index(f);
    let kk = choose|kk: int| 0 <= kk <= f.line@.len() && offset(f.line@, kk) == f.cursor;
    assert(0 <= kk <= f.line@.len() && offset(f.line@, kk) == f.cursor);
    let n = f.prompt@.len() + k;
    assert(cells.len() == f.prompt@.len() + f.line@.len());
    lemma_rows_only_grow(cols, cells, n);
    if n == cells.len() {
        assert(cells.take(n) =~= cells);
    }
}

// ------------------------------------------------------------------- exec

/// Appends the decimal digits of `n`.
fn push_decimal(out: &mut Vec<char>, n: usize)
    ensures
        final(out)@ == old(out)@ + decimal_text(n as nat),
    decreases n,
{
    if n < 10 {
        out.push(((48 + n) as u8) as char);
        proof {
            assert(old(out)@.push(((48 + n) as u8) as char) =~= old(out)@ + decimal_text(n as nat));
        }
    } else {
        push_decimal(out, n / 10);
        out.push(((48 + n % 10) as u8) as char);
        proof {
            assert(old(out)@ + decimal_text(n as nat) =~= (old(out)@ + decimal_text((n / 10) as nat)).push(
                ((48 + n % 10) as u8) as char,
            ));
        }
    }
}

/// Appends a cursor movement by `n`.
fn push_move(out: &mut Vec<char>, n: usize, f: char)
    ensures
        final(out)@ == old(out)@ + move_text(n as nat, f),
{
    if n > 0 {
        out.push('\x1b');
        out.push('[');
        push_decimal(out, n);
        out.push(f);
        proof {
            assert(final(out)@ =~= old(out)@ + move_text(n as nat, f));
        }
    } else {
        proof {
            assert(old(out)@ + move_text(n as nat, f) =~= old(out)@);
        }
    }
}

/// Appends all of `t`.
fn push_all(out: &mut Vec<char>, t: &Vec<char>)
    ensures
        final(out)@ == old(out)@ + t@,
{
    let mut i: usize = 0;
    while i < t.len()
        invariant
            i <= t@.len(),
            out@ == old(out)@ + t@.take(i as int),
        decreases t@.len() - i,
    {
        out.push(t[i]);
        proof {
            assert(t@.take(i + 1) =~= t@.take(i as int).push(t@[i as int]));
        }
        i = i + 1;
    }
    proof {
        assert(t@.take(t@.len() as int) =~= t@);
    }
}

/// What is sent for a character of the line, and its width.
fn glyph_of(c: char) -> (r: (Vec<char>, usize))
    ensures
        (r.0@, r.1 as nat) == glyph(c),
        r.1 <= 3,
{
    let u = c as u32;
    let mut t: Vec<char> = Vec::new();
    if u < 0x20 || u == 0x7f {
        t.push('^');
        if u == 0x7f {
            t.push('?');
        } else {
            t.push(((u + 0x40) as u8) as char);
        }
        proof {
            assert(t@ =~= seq!['^', caret(c)]);
        }
        (t, 2)
    } else if 0x80 <= u && u < 0xa0 {
        proof {
            assert(t@ =~= Seq::<char>::empty());
        }
        (t, 0)
    } else {
        t.push(c);
        proof {
            assert(t@ =~= seq![c]);
        }
        (t, char_width(c))
    }
}

/// Draws one cell at column `x` of row `y`.
fn draw(out: &mut Vec<char>, x: &mut usize, y: &mut usize, cols: usize, t: &Vec<char>, w: usize)
    requires
        1 <= cols <= 0xffff,
        *old(x) <= cols + 3,
        w <= 3,
        *old(y) < usize::MAX,
    ensures
        (final(out)@, *final(x) as nat, *final(y) as nat) == ({
            let (o, x2, y2) = draw_cell(cols as nat, *old(x) as nat, *old(y) as nat, (t@, w as nat));
            (old(out)@ + o, x2, y2)
        }),
        *final(x) <= cols + 3,
{
    if w > 0 && *x + w > cols && *x > 0 {
        if *x < cols {
            out.push('\x1b');
            out.push('[');
            out.push('K');
        }
        out.push('\r');
        out.push('\n');
        let ghost mid = out@;
        push_all(out, t);
        proof {
            assert(mid =~= old(out)@ + wrap_text(*old(x) as nat, cols as nat));
            assert(out@ =~= old(out)@ + (wrap_text(*old(x) as nat, cols as nat) + t@));
        }
        *x = w;
        *y = *y + 1;
    } else {
        push_all(out, t);
        *x = *x + w;
    }
}

/// Draws the prompt's cells, after `head`, from the top left.
fn draw_prompt(out: &mut Vec<char>, x: &mut usize, y: &mut usize, cols: usize, frame: &Frame, Ghost(head): Ghost<Seq<char>>)
    requires
        1 <= cols <= 0xffff,
        old(out)@ == head,
        *old(x) == 0,
        *old(y) == 0,
        frame.prompt@.len() + frame.line@.len() < usize::MAX / 8,
    ensures
        (final(out)@, *final(x) as nat, *final(y) as nat) == ({
            let (o, x2, y2) = draw_cells(cols as nat, frame_cells(*frame).take(frame.prompt@.len() as int));
            (head + o, x2, y2)
        }),
        *final(x) <= cols + 3,
        *final(y) <= frame.prompt@.len(),
{
    let ghost gc = cols as nat;
    let ghost cells = frame_cells(*frame);
    let p = chars_of(frame.prompt.as_str());
    let mut st = WidthScan::Text;
    let mut i: usize = 0;
    proof {
        assert(cells.take(0) =~= Seq::<(Seq<char>, nat)>::empty());
        assert(out@ =~= head + draw_cells(gc, cells.take(0)).0);
    }
    while i < p.len()
        invariant
            p@ == frame.prompt@,
            cells == frame_cells(*frame),
            gc == cols as nat,
            1 <= cols <= 0xffff,
            i <= p@.len(),
            p@.len() + frame.line@.len() < usize::MAX / 8,
            width_scan(WidthScan::Text, p@.take(i as int)).0 == st,
            (out@, *x as nat, *y as nat) == ({
                let (o, x2, y2) = draw_cells(gc, cells.take(i as int));
                (head + o, x2, y2)
            }),
            *x <= cols + 3,
            *y <= i,
        decreases p@.len() - i,
    {
        let c = p[i];
        let (st2, w) = scan_step(st, c);
        let mut t: Vec<char> = Vec::new();
        t.push(c);
        proof {
            assert(p@.take(i + 1).drop_last() =~= p@.take(i as int));
            assert(t@ =~= seq![c]);
            assert(cells[i as int] == prompt_cells(frame.prompt@)[i as int]);
            assert(cells[i as int] == (t@, w as nat));
            assert(cells.take(i + 1).drop_last() =~= cells.take(i as int));
            assert(cells.take(i + 1).last() == cells[i as int]);
        }
        draw(out, x, y, cols, &t, w);
        proof {
            assert(out@ =~= head + draw_cells(gc, cells.take(i + 1)).0);
        }
        st = st2;
        i = i + 1;
    }
}

/// The cell for character `c` of the line, at byte offset `off`.
fn line_cell_of(frame: &Frame, c: char, off: usize, Ghost(j): Ghost<int>) -> (r: (Vec<char>, usize))
    requires
        0 <= j < frame.line@.len(),
        frame.line@[j] == c,
        off == offset(frame.line@, j),
    ensures
        (r.0@, r.1 as nat) == line_cell(frame.line@, j, frame.mask, frame.highlight),
        r.1 <= 3,
{
    let (g, w) = glyph_of(c);
    if frame.mask {
        let mut m: Vec<char> = Vec::new();
        m.push('*');
        proof {
            assert(m@ =~= seq!['*']);
        }
        return (m, 1);
    }
    let bold = match frame.highlight {
        Some(pair) => off == pair.0 || off == pair.1,
        None => false,
    };
    if bold {
        let mut b: Vec<char> = Vec::new();
        b.push('\x1b');
        b.push('[');
        b.push('1');
        b.push('m');
        push_all(&mut b, &g);
        b.push('\x1b');
        b.push('[');
        b.push('2');
        b.push('2');
        b.push('m');
        proof {
            assert(b@ =~= bold_on() + g@ + bold_off());
        }
        (b, w)
    } else {
        (g, w)
    }
}

/// Draws the line's cells after the prompt's, and says where the cursor's
/// cell lands.
fn draw_line(out: &mut Vec<char>, x: &mut usize, y: &mut usize, cols: usize, frame: &Frame, Ghost(head): Ghost<Seq<char>>) -> (r: (usize, usize))
    requires
        1 <= cols <= 0xffff,
        is_boundary_in(frame.line@, frame.cursor as int),
        frame.prompt@.len() + frame.line@.len() < usize::MAX / 8,
        (old(out)@, *old(x) as nat, *old(y) as nat) == ({
            let (o, x2, y2) = draw_cells(cols as nat, frame_cells(*frame).take(frame.prompt@.len() as int));
            (head + o, x2, y2)
        }),
        *old(x) <= cols + 3,
        *old(y) <= frame.prompt@.len(),
    ensures
        (final(out)@, *final(x) as nat, *final(y) as nat) == ({
            let (o, x2, y2) = draw_cells(cols as nat, frame_cells(*frame));
            (head + o, x2, y2)
        }),
        *final(x) <= cols + 3,
        *final(y) <= frame.prompt@.len() + frame.line@.len(),
        (r.0 as nat, r.1 as nat) == spot(cols as nat, frame_cells(*frame), frame.prompt@.len() + cursor_index(*frame)),
{
    let ghost gc = cols as nat;
    let ghost cells = frame_cells(*frame);
    let ghost plen = frame.prompt@.len() as int;
    let l = chars_of(frame.line.as_str());
    let _ = str_byte_len(frame.line.as_str());
    let mut j: usize = 0;
    let mut off: usize = 0;
    let mut cx: usize = 0;
    let mut cy: usize = 0;
    let mut found = false;
    proof {
        assert(cells.len() == plen + l@.len());
    }
    while j < l.len()
        invariant
            l@ == frame.line@,
            plen == frame.prompt@.len(),
            cells == frame_cells(*frame),
            cells.len() == plen + l@.len(),
            gc == cols as nat,
            1 <= cols <= 0xffff,
            j <= l@.len(),
            plen + l@.len() < usize::MAX / 8,
            off == offset(l@, j as int),
            crate::unicode::byte_len(l@) <= usize::MAX,
            (out@, *x as nat, *y as nat) == ({
                let (o, x2, y2) = draw_cells(gc, cells.take(plen + j));
                (head + o, x2, y2)
            }),
            *x <= cols + 3,
            *y <= plen + j,
            found ==> exists|k: int| #![trigger offset(l@, k)] 0 <= k < j && offset(l@, k) == frame.cursor && (cx as nat, cy as nat) == spot(gc, cells, plen + k),
            !found ==> forall|k: int| #![trigger offset(l@, k)] 0 <= k < j ==> offset(l@, k) != frame.cursor,
        decreases l@.len() - j,
    {
        let c = l[j];
        let (t, w) = line_cell_of(frame, c, off, Ghost(j as int));
        proof {
            assert(cells[plen + j] == line_cells(frame.line@, frame.mask, frame.highlight)[j as int]);
            assert(cells[plen + j] == (t@, w as nat));
            assert(cells.take(plen + j + 1).drop_last() =~= cells.take(plen + j));
            assert(cells.take(plen + j + 1).last() == cells[plen + j]);
            assert(cells.take(plen + j).len() == plen + j);
        }
        if off == frame.cursor {
            if w > 0 && *x + w > cols && *x > 0 {
                cx = 0;
                cy = *y + 1;
            } else {
                cx = *x;
                cy = *y;
            }
            found = true;
            proof {
                assert((cx as nat, cy as nat) == spot(gc, cells, plen + j));
                assert(offset(l@, j as int) == frame.cursor);
            }
        }
        draw(out, x, y, cols, &t, w);
        proof {
            assert(out@ =~= head + draw_cells(gc, cells.take(plen + j + 1)).0);
            crate::unicode::lemma_offset_succ(l@, j as int);
            crate::text::lemma_offset_le_total(l@, j + 1);
        }
        off = off + len_utf8(c);
        j = j + 1;
    }
    proof {
        assert(cells.take(plen + l@.len()) =~= cells);
    }
    if !found {
        if *x >= cols {
            cx = 0;
            cy = *y + 1;
        } else {
            cx = *x;
            cy = *y;
        }
    }
    proof {
        let k = cursor_index(*frame);
        let kk = choose|kk: int| 0 <= kk <= l@.len() && offset(l@, kk) == frame.cursor;
        assert(0 <= kk <= l@.len() && offset(l@, kk) == frame.cursor);
        assert(0 <= k <= l@.len() && offset(l@, k) == frame.cursor);
        if found {
            let k2 = choose|k2: int| #![trigger offset(l@, k2)] 0 <= k2 < l@.len() && offset(l@, k2) == frame.cursor && (cx as nat, cy as nat) == spot(gc, cells, plen + k2);
            crate::unicode::lemma_offset_injective(l@, k, k2);
        } else {
            if k < l@.len() {
                assert(offset(l@, k) != frame.cursor);
            }
            assert(k == l@.len());
            assert(cells.take(plen + k) =~= cells);
        }
    }
    (cx, cy)
}

/// Draws the hint, if it fits on the row the line ends on, and moves to a
/// fresh row if that row is full.
fn draw_end(out: &mut Vec<char>, x: &mut usize, y: &mut usize, cols: usize, frame: &Frame, Ghost(head): Ghost<Seq<char>>)
    requires
        1 <= cols <= 0xffff,
        match frame.hint {
            Some(h) => h@.len() < usize::MAX / 8,
            None => true,
        },
        frame.prompt@.len() + frame.line@.len() < usize::MAX / 8,
        (old(out)@, *old(x) as nat, *old(y) as nat) == ({
            let (o, x2, y2) = draw_cells(cols as nat, frame_cells(*frame));
            (head + o, x2, y2)
        }),
        *old(x) <= cols + 3,
        *old(y) <= frame.prompt@.len() + frame.line@.len(),
    ensures
        final(out)@ == head + layout(cols as nat, *frame).0,
        *final(y) as nat == layout(cols as nat, *frame).1,
{
    match &frame.hint {
        Some(h) => {
            let hw = display_width(h.as_str());
            if *x + hw <= cols {
                let hc = chars_of(h.as_str());
                push_all(out, &hc);
                *x = *x + hw;
            }
        },
        None => {},
    }
    if *x >= cols {
        out.push('\r');
        out.push('\n');
        *y = *y + 1;
    }
    proof {
        assert(final(out)@ =~= head + layout(cols as nat, *frame).0);
    }
}

/// Draws frames and remembers where the last one left the cursor.
pub struct Renderer {
    win: WinSize,
    above: usize,
    below: usize,
}

impl Renderer {
    /// The window lines are wrapped to.
    pub closed spec fn window(&self) -> WinSize {
        self.win
    }

    /// Rows between the top of the last frame and the cursor.
    pub closed spec fn rows_above(&self) -> nat {
        self.above as nat
    }

    /// Rows between the cursor and the last row of the last frame.
    pub closed spec fn rows_below(&self) -> nat {
        self.below as nat
    }

    /// A renderer for a window of this size, with nothing drawn yet.
    pub fn new(win: WinSize) -> (r: Self)
        ensures
            r.window() == win,
            r.rows_above() == 0,
            r.rows_below() == 0,
    {
        Renderer { win, above: 0, below: 0 }
    }

    /// The window lines are wrapped to.
    pub fn win_size(&self) -> (r: WinSize)
        ensures
            r == self.window(),
    {
        self.win
    }

    /// Changes the window, after a resize.
    pub fn set_win_size(&mut self, win: WinSize)
        ensures
            final(self).window() == win,
            final(self).rows_above() == old(self).rows_above(),
            final(self).rows_below() == old(self).rows_below(),
    {
        self.win = win;
    }

    /// Forgets what was drawn, after the screen was cleared or the process
    /// resumed with the cursor at the start of a fresh row.
    pub fn reset(&mut self)
        ensures
            final(self).window() == old(self).window(),
            final(self).rows_above() == 0,
            final(self).rows_below() == 0,
    {
        self.above = 0;
        self.below = 0;
    }

    /// The text that draws `frame` over the previous frame, leaving the
    /// cursor on the cursor's cell.
    pub fn render(&mut self, frame: &Frame) -> (r: String)
        requires
            is_boundary_in(frame.line@, frame.cursor as int),
            frame.prompt@.len() + frame.line@.len() < usize::MAX / 8,
            match frame.hint {
                Some(h) => h@.len() < usize::MAX / 8,
                None => true,
            },
        ensures
            r@ == render_text(wrap_width(old(self).window()), old(self).rows_above(), *frame),
            final(self).window() == old(self).window(),
            final(self).rows_above() == layout(wrap_width(old(self).window()), *frame).3,
            final(self).rows_below() == rows_under(wrap_width(old(self).window()), *frame),
    {
        let cols: usize = if self.win.cols == 0 {
            1
        } else {
            self.win.cols as usize
        };
        let ghost gc = cols as nat;
        let mut out: Vec<char> = Vec::new();
        push_move(&mut out, self.above, 'A');
        out.push('\r');
        let ghost head = out@;
        let mut x: usize = 0;
        let mut y: usize = 0;
        draw_prompt(&mut out, &mut x, &mut y, cols, frame, Ghost(head));
        let (cx, cy) = draw_line(&mut out, &mut x, &mut y, cols, frame, Ghost(head));
        draw_end(&mut out, &mut x, &mut y, cols, frame, Ghost(head));
        out.push('\x1b');
        out.push('[');
        out.push('J');
        let under = if y >= cy {
            y - cy
        } else {
            0
        };
        push_move(&mut out, under, 'A');
        out.push('\r');
        push_move(&mut out, cx, 'C');
        proof {
            assert(out@ =~= render_text(gc, old(self).rows_above(), *frame));
        }
        self.above = cy;
        self.below = under;
        string_of(&out)
    }

    /// The text that moves below the last frame, leaving it on screen, and
    /// starts a fresh row.
    pub fn finish(&mut self) -> (r: String)
        ensures
            r@ == move_text(old(self).rows_below(), 'B') + seq!['\r', '\n'],
            final(self).window() == old(self).window(),
            final(self).rows_above() == 0,
            final(self).rows_below() == 0,
    {
        let mut out: Vec<char> = Vec::new();
        push_move(&mut out, self.below, 'B');
        out.push('\r');
        out.push('\n');
        proof {
            assert(out@ =~= move_text(old(self).rows_below(), 'B') + seq!['\r', '\n']);
        }
        self.above = 0;
        self.below = 0;
        string_of(&out)
    }
}

} // verus!
