//! Output buffering and screen geometry for drawing the line.

use crate::terminal::WinSize;
use crate::text::{chars_of, index_of_offset_in, is_boundary_in, split_at_char, str_byte_len};
use crate::unicode::{offset, str_columns, unicode_str_width};
use vstd::prelude::*;
use vstd::string::StringSliceAdditionalSpecFns;

verus! {

/// The ASCII decimal digits of `n`, most significant first.
pub open spec fn decimal(n: nat) -> Seq<u8>
    decreases n,
{
    if n < 10 {
        seq![(48 + n) as u8]
    } else {
        decimal(n / 10).push((48 + n % 10) as u8)
    }
}

/// Appends the decimal digits of `n` to `out`.
fn push_decimal(out: &mut Vec<u8>, n: usize)
    ensures
        final(out)@ == old(out)@ + decimal(n as nat),
    decreases n,
{
    if n < 10 {
        out.push((48 + n) as u8);
        proof {
            assert(old(out)@.push((48 + n) as u8) =~= old(out)@ + decimal(n as nat));
        }
    } else {
        push_decimal(out, n / 10);
        out.push((48 + n % 10) as u8);
        proof {
            assert(old(out)@ + decimal(n as nat) =~= (old(out)@ + decimal((n / 10) as nat)).push(
                (48 + n % 10) as u8,
            ));
        }
    }
}

/// Bytes waiting to be written to the terminal in one go.
pub struct DisplayBuffer {
    buffer: Vec<u8>,
}

impl DisplayBuffer {
    /// The bytes collected so far.
    pub closed spec fn bytes(&self) -> Seq<u8> {
        self.buffer@
    }

    /// Creates an empty buffer.
    pub fn new() -> (r: Self)
        ensures
            r.bytes() == Seq::<u8>::empty(),
    {
        DisplayBuffer { buffer: Vec::new() }
    }

    /// The bytes collected so far.
    pub fn as_bytes(&self) -> (r: &[u8])
        ensures
            r@ == self.bytes(),
    {
        self.buffer.as_slice()
    }

    /// Forgets the collected bytes, once they have been written.
    pub fn clear(&mut self)
        ensures
            final(self).bytes() == Seq::<u8>::empty(),
    {
        self.buffer = Vec::new();
    }

    /// Appends raw bytes.
    pub fn push(&mut self, bytes: &[u8])
        ensures
            final(self).bytes() == old(self).bytes() + bytes@,
    {
        let mut i: usize = 0;
        while i < bytes.len()
            invariant
                i <= bytes@.len(),
                self.buffer@ == old(self).bytes() + bytes@.take(i as int),
            decreases bytes@.len() - i,
        {
            self.buffer.push(bytes[i]);
            proof {
                assert(old(self).bytes() + bytes@.take(i + 1) =~= (old(self).bytes() + bytes@.take(
                    i as int,
                )).push(bytes@[i as int]));
            }
            i = i + 1;
        }
        proof {
            assert(bytes@.take(bytes@.len() as int) =~= bytes@);
        }
    }

    /// Appends the UTF-8 encoding of `s`.
    pub fn push_str(&mut self, s: &str)
        ensures
            final(self).bytes() == old(self).bytes() + s.spec_bytes(),
    {
        self.push(s.as_bytes());
    }

    /// Appends one byte.
    pub fn push_byte(&mut self, b: u8)
        ensures
            final(self).bytes() == old(self).bytes().push(b),
    {
        self.buffer.push(b);
    }

    /// Appends `ESC` followed by `seq`.
    pub fn push_esc(&mut self, seq: &str)
        ensures
            final(self).bytes() == old(self).bytes().push(0x1b) + seq.spec_bytes(),
    {
        self.push_byte(0x1b);
        self.push_str(seq);
    }

    /// Moves the cursor to column `col` of the current row: a carriage
    /// return, then `ESC [ col C` unless `col` is zero.
    pub fn move_to_col(&mut self, col: usize)
        ensures
            final(self).bytes() == if col == 0 {
                old(self).bytes().push(0x0d)
            } else {
                old(self).bytes() + seq![0x0du8, 0x1bu8, 0x5bu8] + decimal(col as nat) + seq![0x43u8]
            },
    {
        if col == 0 {
            self.push_byte(0x0d);
        } else {
            self.buffer.push(0x0d);
            self.buffer.push(0x1b);
            self.buffer.push(0x5b);
            push_decimal(&mut self.buffer, col);
            self.buffer.push(0x43);
            proof {
                assert(self.buffer@ =~= old(self).bytes() + seq![0x0du8, 0x1bu8, 0x5bu8] + decimal(col as nat) + seq![0x43u8]);
            }
        }
    }

    /// Clears from the cursor to the end of the screen: `ESC [ J`.
    pub fn clear_to_eos(&mut self)
        ensures
            final(self).bytes() == old(self).bytes() + seq![0x1bu8, 0x5bu8, 0x4au8],
    {
        self.buffer.push(0x1b);
        self.buffer.push(0x5b);
        self.buffer.push(0x4a);
        proof {
            assert(self.buffer@ =~= old(self).bytes() + seq![0x1bu8, 0x5bu8, 0x4au8]);
        }
    }

    /// Moves the cursor up `n` rows: `ESC [ n A`, or nothing for zero.
    pub fn move_up(&mut self, n: usize)
        ensures
            final(self).bytes() == if n == 0 {
                old(self).bytes()
            } else {
                old(self).bytes() + seq![0x1bu8, 0x5bu8] + decimal(n as nat) + seq![0x41u8]
            },
    {
        if n > 0 {
            self.buffer.push(0x1b);
            self.buffer.push(0x5b);
            push_decimal(&mut self.buffer, n);
            self.buffer.push(0x41);
            proof {
                assert(self.buffer@ =~= old(self).bytes() + seq![0x1bu8, 0x5bu8] + decimal(n as nat) + seq![0x41u8]);
            }
        }
    }
}

/// How many rows the prompt and line occupy and on which of them, counted
/// up from the last, the cursor sits.
pub struct Display {
    /// The window the line is drawn in.
    pub win_size: WinSize,
    /// Rows the prompt and line occupy.
    pub rows_used: usize,
    /// Rows between the cursor and the last row of the line.
    pub cursor_row: usize,
}

/// The geometry `calculate_metrics` computes, from the widths of the prompt,
/// the line and the part of the line before the cursor: `(rows_used,
/// cursor_row)`.
pub open spec fn metrics(prompt_width: int, line_width: int, cursor_width: int, cols: int) -> (int, int) {
    let rows_used = (prompt_width + line_width) / cols + 1;
    let abs_cursor = prompt_width + cursor_width;
    (rows_used, rows_used - abs_cursor / cols - 1)
}

/// Whether the geometry of a prompt and line of these widths can be worked
/// out without overflow: the totals fit, and the cursor is not past the end.
pub open spec fn metrics_fit(prompt_width: int, line_width: int, cursor_width: int, cols: int) -> bool {
    &&& cols > 0
    &&& prompt_width + line_width < usize::MAX
    &&& prompt_width + cursor_width <= usize::MAX
    &&& metrics(prompt_width, line_width, cursor_width, cols).1 >= 0
}

impl Display {
    /// Geometry for an empty one-row line.
    pub fn new(win_size: WinSize) -> (r: Self)
        ensures
            r.win_size == win_size,
            r.rows_used == 1,
            r.cursor_row == 0,
    {
        Display { win_size, rows_used: 1, cursor_row: 0 }
    }

    /// Works out the rows used and the cursor's row for `prompt` followed
    /// by `line` with the cursor at byte offset `cursor_pos`, measuring
    /// with `UnicodeWidthStr::width`.
    pub fn calculate_metrics(&mut self, prompt: &str, line: &str, cursor_pos: usize)
        requires
            is_boundary_in(line@, cursor_pos as int),
            forall|k: int|
                0 <= k <= line@.len() && offset(line@, k) == cursor_pos ==> metrics_fit(
                    str_columns(prompt@) as int,
                    str_columns(line@) as int,
                    #[trigger] str_columns(line@.take(k)) as int,
                    old(self).win_size.cols as int,
                ),
        ensures
            final(self).win_size == old(self).win_size,
            forall|k: int|
                0 <= k <= line@.len() && offset(line@, k) == cursor_pos ==> (final(self).rows_used as int,
                final(self).cursor_row as int) == metrics(
                    str_columns(prompt@) as int,
                    str_columns(line@) as int,
                    #[trigger] str_columns(line@.take(k)) as int,
                    old(self).win_size.cols as int,
                ),
    {
        let v = chars_of(line);
        let _ = str_byte_len(line);
        let k = match index_of_offset_in(&v, cursor_pos) {
            Some(k) => k,
            None => {
                proof {
                    assert(false);
                }
                0
            },
        };
        proof {
            assert forall|k2: int| 0 <= k2 <= line@.len() && offset(line@, k2) == cursor_pos implies k2 == k by {
                crate::unicode::lemma_offset_injective(line@, k2, k as int);
            }
        }
        let (before, _) = split_at_char(line, k);
        let prompt_width = unicode_str_width(prompt);
        let line_width = unicode_str_width(line);
        let cursor_width = unicode_str_width(before);
        let cols = self.win_size.cols as usize;
        self.rows_used = ((prompt_width + line_width) / cols) + 1;
        let abs_cursor = prompt_width + cursor_width;
        self.cursor_row = self.rows_used - (abs_cursor / cols) - 1;
    }

    /// [`Display::calculate_metrics`] where the geometry can be worked out;
    /// returns `false` and leaves the metrics unchanged where the cursor is
    /// not a character boundary, the window has no columns, or the widths
    /// would overflow.
    pub fn update_metrics(&mut self, prompt: &str, line: &str, cursor_pos: usize) -> (ok: bool)
        ensures
            final(self).win_size == old(self).win_size,
            ok ==> is_boundary_in(line@, cursor_pos as int) && forall|k: int|
                0 <= k <= line@.len() && offset(line@, k) == cursor_pos ==> (final(self).rows_used as int,
                final(self).cursor_row as int) == metrics(
                    str_columns(prompt@) as int,
                    str_columns(line@) as int,
                    #[trigger] str_columns(line@.take(k)) as int,
                    old(self).win_size.cols as int,
                ),
            !ok ==> final(self).rows_used == old(self).rows_used && final(self).cursor_row == old(
                self,
            ).cursor_row,
            !ok ==> !is_boundary_in(line@, cursor_pos as int) || forall|k: int|
                0 <= k <= line@.len() && offset(line@, k) == cursor_pos ==> !metrics_fit(
                    str_columns(prompt@) as int,
                    str_columns(line@) as int,
                    #[trigger] str_columns(line@.take(k)) as int,
                    old(self).win_size.cols as int,
                ),
    {
        let v = chars_of(line);
        let _ = str_byte_len(line);
        let k = match index_of_offset_in(&v, cursor_pos) {
            Some(k) => k,
            None => return false,
        };
        proof {
            assert forall|k2: int| 0 <= k2 <= line@.len() && offset(line@, k2) == cursor_pos implies k2 == k by {
                crate::unicode::lemma_offset_injective(line@, k2, k as int);
            }
        }
        let (before, _) = split_at_char(line, k);
        let prompt_width = unicode_str_width(prompt);
        let line_width = unicode_str_width(line);
        let cursor_width = unicode_str_width(before);
        let cols = self.win_size.cols as usize;
        if cols == 0 || line_width >= usize::MAX - prompt_width || cursor_width > usize::MAX
            - prompt_width {
            return false;
        }
        let rows_used = ((prompt_width + line_width) / cols) + 1;
        let abs_cursor = prompt_width + cursor_width;
        if abs_cursor / cols >= rows_used {
            return false;
        }
        self.calculate_metrics(prompt, line, cursor_pos);
        true
    }
}

/// Everything needed to draw the line once.
pub struct Frame {
    /// The prompt.
    pub prompt: String,
    /// The line being edited.
    pub line: String,
    /// Byte offset of the cursor in the line.
    pub cursor: usize,
    /// A rendered hint to draw after the line, if any.
    pub hint: Option<String>,
    /// Draw the line as asterisks.
    pub mask: bool,
    /// Byte offsets of a bracket pair to embolden, if any.
    pub highlight: Option<(usize, usize)>,
    /// The line is being left as submitted: no hint and no highlight.
    pub finished: bool,
}

} // verus!
