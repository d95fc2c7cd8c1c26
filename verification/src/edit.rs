//! What the editor does in reaction to each key.
//!
//! The editing session alternates between the terminal and these
//! decisions: the caller reads keys, hands each one to
//! [`Rustline::dispatch`], performs the [`Command`] it answers with (drawing,
//! clearing the screen, suspending, listing completions), and redraws when
//! the state is dirty. Reverse search runs the same way through
//! [`Rustline::search_begin`], [`Rustline::search_key`] and
//! [`Rustline::search_end`].

use crate::buffer::{
    backward_word_spec, barf_spec, case_word_spec, forward_word_spec, is_boundary, mirror_left_spec,
    mirror_right_spec, rubout_step, scan_back, scan_fwd, slurp_spec, transpose_spec,
    transpose_words_spec, CaseOp, CharClass, LineBuffer,
};
use crate::completion::Completions;
use crate::editor::{Config, Rustline};
use crate::history::History;
use crate::parser::{Key, KeySeq};
use crate::state::{EditorState, KillRing, RING_SIZE};
use crate::text::{chars_of, concat, is_boundary_in, split_at_char, str_byte_len, string_of, string_push, index_of_offset_in};
use crate::unicode::{byte_len, len_utf8, offset};
use vstd::prelude::*;

verus! {

// -------------------------------------------------------------- balance

/// Nesting depth after reading `s`: `(` opens, `)` closes one that is open,
/// and an unmatched `)` is ignored.
pub open spec fn paren_depth(s: Seq<char>) -> nat
    decreases s.len(),
{
    if s.len() == 0 {
        0
    } else {
        let d = paren_depth(s.drop_last());
        if s.last() == '(' {
            d + 1
        } else if s.last() == ')' && d > 0 {
            (d - 1) as nat
        } else {
            d
        }
    }
}

/// Returns whether every `(` in `text` is closed.
///
/// Unmatched `)` is ignored rather than counted negative, so `)(` reads
/// as unbalanced instead of cancelling out.
pub fn is_balanced(text: &str) -> (r: bool)
    ensures
        r == (paren_depth(text@) == 0),
{
    let v = chars_of(text);
    let mut depth: usize = 0;
    let mut i: usize = 0;
    proof {
        assert(text@.take(0) =~= Seq::<char>::empty());
    }
    while i < v.len()
        invariant
            i <= v@.len(),
            v@ == text@,
            depth == paren_depth(text@.take(i as int)),
            depth <= i,
        decreases v@.len() - i,
    {
        proof {
            assert(text@.take(i + 1).drop_last() =~= text@.take(i as int));
            assert(text@.take(i + 1).last() == v@[i as int]);
        }
        if v[i] == '(' {
            depth = depth + 1;
        } else if v[i] == ')' && depth > 0 {
            depth = depth - 1;
        }
        i = i + 1;
    }
    proof {
        assert(text@.take(v@.len() as int) =~= text@);
    }
    depth == 0
}

// ------------------------------------------------------- escaped insert

/// The lowercase hexadecimal digit for `n < 16`.
pub open spec fn hex_digit(n: nat) -> char {
    if n < 10 {
        ((48 + n) as u32) as char
    } else {
        ((87 + n) as u32) as char
    }
}

/// `\xNN` for a byte.
pub open spec fn hex_text(b: u8) -> Seq<char> {
    seq!['\\', 'x', hex_digit((b / 16) as nat), hex_digit((b % 16) as nat)]
}

fn hex_char(n: u8) -> (c: char)
    requires
        n < 16,
    ensures
        c == hex_digit(n as nat),
{
    if n < 10 {
        (48 + n) as char
    } else {
        (87 + n) as char
    }
}

fn hex(b: u8) -> (r: Vec<char>)
    ensures
        r@ == hex_text(b),
{
    let mut v: Vec<char> = Vec::new();
    v.push('\\');
    v.push('x');
    v.push(hex_char(b / 16));
    v.push(hex_char(b % 16));
    proof {
        assert(v@ =~= hex_text(b));
    }
    v
}

/// The `Debug` text of a character, as `format!("{:?}")` writes it: the
/// character between single quotes, escaped where it is not printable.
pub uninterp spec fn char_debug_text(c: char) -> Seq<char>;

/// Calls `format!("{:?}")` on a `char`, whose result is named
/// `char_debug_text`.
#[verifier::external_body]
fn char_debug(c: char) -> (r: String)
    ensures
        r@ == char_debug_text(c),
{
    format!("{c:?}")
}

/// The decimal text of `n`, as `format!("{}")` writes an integer.
pub open spec fn decimal_text(n: nat) -> Seq<char>
    decreases n,
{
    if n < 10 {
        seq![hex_digit(n)]
    } else {
        decimal_text(n / 10).push(hex_digit(n % 10))
    }
}

/// The items of a byte list in decimal, separated by `", "`, as the
/// `Debug` text of a `Vec<u8>` writes them between its brackets.
pub open spec fn byte_list_text(bs: Seq<u8>) -> Seq<char>
    decreases bs.len(),
{
    if bs.len() == 0 {
        Seq::empty()
    } else if bs.len() == 1 {
        decimal_text(bs[0] as nat)
    } else {
        byte_list_text(bs.drop_last()) + ", "@ + decimal_text(bs.last() as nat)
    }
}

/// The `Debug` text of a key, as `#[derive(Debug)]` writes it for the
/// key's variant and payload.
pub open spec fn key_debug_text(k: Key) -> Seq<char> {
    match k {
        Key::Char(c) => "Char("@ + char_debug_text(c) + ")"@,
        Key::Ctrl(c) => "Ctrl("@ + char_debug_text(c) + ")"@,
        Key::Alt(c) => "Alt("@ + char_debug_text(c) + ")"@,
        Key::CtrlAlt(c) => "CtrlAlt("@ + char_debug_text(c) + ")"@,
        Key::Up => "Up"@,
        Key::Down => "Down"@,
        Key::Left => "Left"@,
        Key::Right => "Right"@,
        Key::AltLeft => "AltLeft"@,
        Key::AltRight => "AltRight"@,
        Key::Home => "Home"@,
        Key::End => "End"@,
        Key::Insert => "Insert"@,
        Key::Delete => "Delete"@,
        Key::PageUp => "PageUp"@,
        Key::PageDown => "PageDown"@,
        Key::Tab => "Tab"@,
        Key::Enter => "Enter"@,
        Key::LineFeed => "LineFeed"@,
        Key::Backspace => "Backspace"@,
        Key::AltBackspace => "AltBackspace"@,
        Key::F(n) => "F("@ + decimal_text(n as nat) + ")"@,
        Key::BracketedPasteStart => "BracketedPasteStart"@,
        Key::BracketedPasteEnd => "BracketedPasteEnd"@,
        Key::Unknown(bs) => "Unknown(["@ + byte_list_text(bs) + "])"@,
    }
}

/// Appends the decimal text of `n` to `s`.
fn push_decimal(s: &mut String, n: u8)
    ensures
        final(s)@ == old(s)@ + decimal_text(n as nat),
{
    reveal_with_fuel(decimal_text, 3);
    if n >= 100 {
        string_push(s, hex_char(n / 100));
    }
    if n >= 10 {
        string_push(s, hex_char(n / 10 % 10));
    }
    string_push(s, hex_char(n % 10));
    proof {
        if n >= 100 {
            assert(n as nat / 10 / 10 == n / 100);
            assert(old(s)@ + decimal_text(n as nat) =~= old(s)@.push(hex_digit((n / 100) as nat)).push(
                hex_digit((n / 10 % 10) as nat),
            ).push(hex_digit((n % 10) as nat)));
        } else if n >= 10 {
            assert(old(s)@ + decimal_text(n as nat) =~= old(s)@.push(hex_digit((n / 10) as nat)).push(
                hex_digit((n % 10) as nat),
            ));
        } else {
            assert(old(s)@ + decimal_text(n as nat) =~= old(s)@.push(hex_digit((n % 10) as nat)));
        }
    }
}

/// `prefix`, the `Debug` text of `c`, and a closing bracket.
fn char_payload_text(prefix: &str, c: char) -> (r: String)
    ensures
        r@ == prefix@ + char_debug_text(c) + ")"@,
{
    let mut s = prefix.to_owned();
    s.append(char_debug(c).as_str());
    s.append(")");
    s
}

/// The `Debug` text of a key: its variant's name, with the payload in
/// brackets.
fn debug_text(key: &KeySeq) -> (r: String)
    ensures
        r@ == key_debug_text(key@),
{
    match key {
        KeySeq::Char(c) => char_payload_text("Char(", *c),
        KeySeq::Ctrl(c) => char_payload_text("Ctrl(", *c),
        KeySeq::Alt(c) => char_payload_text("Alt(", *c),
        KeySeq::CtrlAlt(c) => char_payload_text("CtrlAlt(", *c),
        KeySeq::Up => "Up".to_owned(),
        KeySeq::Down => "Down".to_owned(),
        KeySeq::Left => "Left".to_owned(),
        KeySeq::Right => "Right".to_owned(),
        KeySeq::AltLeft => "AltLeft".to_owned(),
        KeySeq::AltRight => "AltRight".to_owned(),
        KeySeq::Home => "Home".to_owned(),
        KeySeq::End => "End".to_owned(),
        KeySeq::Insert => "Insert".to_owned(),
        KeySeq::Delete => "Delete".to_owned(),
        KeySeq::PageUp => "PageUp".to_owned(),
        KeySeq::PageDown => "PageDown".to_owned(),
        KeySeq::Tab => "Tab".to_owned(),
        KeySeq::Enter => "Enter".to_owned(),
        KeySeq::LineFeed => "LineFeed".to_owned(),
        KeySeq::Backspace => "Backspace".to_owned(),
        KeySeq::AltBackspace => "AltBackspace".to_owned(),
        KeySeq::F(n) => {
            let mut s = "F(".to_owned();
            push_decimal(&mut s, *n);
            s.append(")");
            s
        },
        KeySeq::BracketedPasteStart => "BracketedPasteStart".to_owned(),
        KeySeq::BracketedPasteEnd => "BracketedPasteEnd".to_owned(),
        KeySeq::Unknown(bytes) => {
            let mut s = "Unknown([".to_owned();
            let ghost start = s@;
            let mut i: usize = 0;
            while i < bytes.len()
                invariant
                    i <= bytes@.len(),
                    s@ == start + byte_list_text(bytes@.take(i as int)),
                decreases bytes@.len() - i,
            {
                let ghost before = s@;
                if i > 0 {
                    s.append(", ");
                }
                push_decimal(&mut s, bytes[i]);
                proof {
                    let t = bytes@.take(i + 1);
                    assert(t.drop_last() =~= bytes@.take(i as int));
                    assert(t.last() == bytes@[i as int]);
                    if i == 0 {
                        assert(bytes@.take(0) =~= Seq::<u8>::empty());
                        assert(s@ =~= start + byte_list_text(t));
                    } else {
                        assert(s@ =~= start + byte_list_text(t));
                    }
                }
                i = i + 1;
            }
            proof {
                assert(bytes@.take(bytes@.len() as int) =~= bytes@);
            }
            s.append("])");
            s
        },
    }
}

/// The control code a chord names: letters map to 1 through 26, `@` to 0,
/// and anything else to its low byte minus `0x40`, wrapping.
pub open spec fn ctrl_code(c: char) -> u8 {
    if c == '@' {
        0
    } else if 'a' <= c <= 'z' {
        ((c as u32) - ('a' as u32) + 1) as u8
    } else {
        (((c as u32) % 256 + 256 - 0x40) % 256) as u8
    }
}

/// The literal text `CTRL-Q` inserts for a key.
pub open spec fn escape_text(k: Key) -> Seq<char> {
    match k {
        Key::Char(c) => seq![c],
        Key::Tab => seq!['\\', 't'],
        Key::Enter => seq!['\\', 'r'],
        Key::LineFeed => seq!['\\', 'n'],
        Key::Backspace => hex_text(0x7f),
        Key::Ctrl(c) => hex_text(ctrl_code(c)),
        Key::Alt(c) => seq!['\\', 'e', c],
        Key::AltBackspace => seq!['\\', 'e'] + hex_text(0x7f),
        Key::CtrlAlt(c) => if 'a' <= c <= 'z' {
            seq!['\\', 'e'] + hex_text(ctrl_code(c))
        } else {
            key_debug_text(k)
        },
        Key::Up => seq!['\\', 'e', '[', 'A'],
        Key::Down => seq!['\\', 'e', '[', 'B'],
        Key::Right => seq!['\\', 'e', '[', 'C'],
        Key::Left => seq!['\\', 'e', '[', 'D'],
        Key::Home => seq!['\\', 'e', '[', 'H'],
        Key::End => seq!['\\', 'e', '[', 'F'],
        Key::Delete => seq!['\\', 'e', '[', '3', '~'],
        _ => key_debug_text(k),
    }
}

fn ctrl_byte(c: char) -> (r: u8)
    ensures
        r == ctrl_code(c),
{
    if c == '@' {
        0
    } else if 'a' <= c && c <= 'z' {
        (c as u32 - 'a' as u32 + 1) as u8
    } else {
        ((c as u32 % 256 + 256 - 0x40) % 256) as u8
    }
}

fn chars3(a: char, b: char, c: char) -> (r: Vec<char>)
    ensures
        r@ == seq![a, b, c],
{
    let mut v: Vec<char> = Vec::new();
    v.push(a);
    v.push(b);
    v.push(c);
    proof {
        assert(v@ =~= seq![a, b, c]);
    }
    v
}

fn escape_then(rest: Vec<char>) -> (r: Vec<char>)
    ensures
        r@ == seq!['\\', 'e'] + rest@,
{
    let mut v: Vec<char> = Vec::new();
    v.push('\\');
    v.push('e');
    let mut i: usize = 0;
    while i < rest.len()
        invariant
            i <= rest@.len(),
            v@ == seq!['\\', 'e'] + rest@.take(i as int),
        decreases rest@.len() - i,
    {
        v.push(rest[i]);
        proof {
            assert(seq!['\\', 'e'] + rest@.take(i + 1) =~= (seq!['\\', 'e'] + rest@.take(i as int)).push(rest@[i as int]));
        }
        i = i + 1;
    }
    proof {
        assert(rest@.take(rest@.len() as int) =~= rest@);
    }
    v
}

fn csi_text(f: char) -> (r: Vec<char>)
    ensures
        r@ == seq!['\\', 'e', '[', f],
{
    let v = escape_then(vec!['[', f]);
    proof {
        assert(v@ =~= seq!['\\', 'e', '[', f]);
    }
    v
}

/// Renders a key as literal text for `CTRL-Q` escaped insert.
pub fn escape_key(key: &KeySeq) -> (r: String)
    ensures
        r@ == escape_text(key@),
{
    let v: Vec<char> = match key {
        KeySeq::Char(c) => {
            let v = vec![*c];
            proof {
                assert(v@ =~= seq![*c]);
            }
            v
        },
        KeySeq::Tab => {
            let v = vec!['\\', 't'];
            proof {
                assert(v@ =~= seq!['\\', 't']);
            }
            v
        },
        KeySeq::Enter => {
            let v = vec!['\\', 'r'];
            proof {
                assert(v@ =~= seq!['\\', 'r']);
            }
            v
        },
        KeySeq::LineFeed => {
            let v = vec!['\\', 'n'];
            proof {
                assert(v@ =~= seq!['\\', 'n']);
            }
            v
        },
        KeySeq::Backspace => hex(0x7f),
        KeySeq::Ctrl(c) => hex(ctrl_byte(*c)),
        KeySeq::Alt(c) => chars3('\\', 'e', *c),
        KeySeq::AltBackspace => escape_then(hex(0x7f)),
        KeySeq::CtrlAlt(c) => {
            if 'a' <= *c && *c <= 'z' {
                escape_then(hex(ctrl_byte(*c)))
            } else {
                return debug_text(key);
            }
        },
        KeySeq::Up => csi_text('A'),
        KeySeq::Down => csi_text('B'),
        KeySeq::Right => csi_text('C'),
        KeySeq::Left => csi_text('D'),
        KeySeq::Home => csi_text('H'),
        KeySeq::End => csi_text('F'),
        KeySeq::Delete => {
            let v = escape_then(vec!['[', '3', '~']);
            proof {
                assert(v@ =~= seq!['\\', 'e', '[', '3', '~']);
            }
            v
        },
        _ => {
            return debug_text(key);
        },
    };
    string_of(&v)
}

// --------------------------------------------------------- search prompt

/// The `reverse-i-search` prompt for `needle` with its first `k`
/// characters underlined.
pub open spec fn search_prompt_text(failed: bool, needle: Seq<char>, k: int) -> Seq<char> {
    "("@ + (if failed {
        "failed "@
    } else {
        Seq::empty()
    }) + "reverse-i-search `\x1b[4m"@ + needle.take(k) + "\x1b[24m"@ + needle.skip(k) + "') "@
}

/// Builds the `reverse-i-search` prompt, underlining the first `matched`
/// bytes of the needle. A `matched` past the end underlines all of it.
pub fn search_prompt(failed: bool, needle: &str, matched: usize) -> (r: String)
    requires
        matched >= byte_len(needle@) || is_boundary_in(needle@, matched as int),
    ensures
        matched >= byte_len(needle@) ==> r@ == search_prompt_text(failed, needle@, needle@.len() as int),
        forall|k: int|
            0 <= k <= needle@.len() && offset(needle@, k) == matched ==> r@
                == #[trigger] search_prompt_text(failed, needle@, k),
{
    let v = chars_of(needle);
    let n = str_byte_len(needle);
    let k = if matched >= n {
        proof {
            crate::unicode::lemma_offset_full(needle@);
        }
        v.len()
    } else {
        match index_of_offset_in(&v, matched) {
            Some(k) => k,
            None => {
                proof {
                    assert(false);
                }
                0
            },
        }
    };
    proof {
        assert forall|k2: int| 0 <= k2 <= needle@.len() && offset(needle@, k2) == matched implies k2 == k by {
            crate::unicode::lemma_offset_full(needle@);
            crate::text::lemma_offset_le_total(needle@, k2);
            crate::unicode::lemma_offset_injective(needle@, k2, k as int);
        }
    }
    let (a, b) = split_at_char(needle, k);
    let mut s = concat("(", if failed {
        "failed "
    } else {
        ""
    });
    proof {
        if !failed {
            reveal_strlit("");
            assert(""@ =~= Seq::<char>::empty());
        }
    }
    s = concat(s.as_str(), "reverse-i-search `\x1b[4m");
    s = concat(s.as_str(), a);
    s = concat(s.as_str(), "\x1b[24m");
    s = concat(s.as_str(), b);
    s = concat(s.as_str(), "') ");
    s
}

// ------------------------------------------------------------- history

/// Storage slot of the entry `index` steps back from the line being typed,
/// in a history of `len` entries; index 0 is the typed line itself, which
/// has no slot.
pub open spec fn slot_spec(len: int, index: int) -> Option<int> {
    if index == 0 || index > len {
        None
    } else {
        Some(len - index)
    }
}

/// What moving to history `index` does: `(entries, scratch, history_index,
/// text)` after saving the line being left and loading the one reached.
/// Nothing moves when the history is empty or `index` is past the oldest
/// entry.
pub open spec fn goto_spec(
    entries: Seq<Seq<char>>,
    scratch: Seq<char>,
    hi: int,
    text: Seq<char>,
    index: int,
) -> (Seq<Seq<char>>, Seq<char>, int, Seq<char>) {
    let len = entries.len() as int;
    if len == 0 || index > len {
        (entries, scratch, hi, text)
    } else {
        let (e2, s2) = if hi == 0 {
            (entries, text)
        } else {
            match slot_spec(len, hi) {
                Some(slot) => (entries.update(slot, text), scratch),
                None => (entries, scratch),
            }
        };
        let t2 = match slot_spec(len, index) {
            Some(slot) => e2[slot],
            None => s2,
        };
        (e2, s2, index, t2)
    }
}

/// Moving to another history entry and back again brings back the line that
/// was left, edits and all: the typed line is kept aside while an entry is
/// shown, and an edited entry is written back into the history when it is
/// left.
pub proof fn law_history_round_trip_restores_the_line(
    entries: Seq<Seq<char>>,
    scratch: Seq<char>,
    hi: int,
    text: Seq<char>,
    target: int,
)
    requires
        0 <= hi <= entries.len(),
        0 <= target <= entries.len(),
    ensures
        ({
            let (e1, s1, hi1, t1) = goto_spec(entries, scratch, hi, text, target);
            let (e2, s2, hi2, t2) = goto_spec(e1, s1, hi1, t1, hi);
            &&& t2 == text
            &&& hi2 == hi
            &&& entries.len() > 0 ==> e2 == if hi == 0 {
                entries
            } else {
                entries.update(entries.len() - hi, text)
            }
        }),
{
    let len = entries.len() as int;
    if len > 0 {
        let (e1, s1, hi1, t1) = goto_spec(entries, scratch, hi, text, target);
        if hi == 0 && target > 0 {
            assert(e1.update(len - target, t1) =~= e1);
        }
        if hi > 0 && target > 0 {
            assert(e1.update(len - target, t1) =~= e1);
        }
    }
}

/// Where a run of history moves to the indexes `targets` leads, the line
/// being left unchanged between moves, as during a reverse search.
pub open spec fn goto_chain(
    entries: Seq<Seq<char>>,
    scratch: Seq<char>,
    hi: int,
    text: Seq<char>,
    targets: Seq<int>,
) -> (Seq<Seq<char>>, Seq<char>, int, Seq<char>)
    decreases targets.len(),
{
    if targets.len() == 0 {
        (entries, scratch, hi, text)
    } else {
        let (e1, s1, h1, t1) = goto_chain(entries, scratch, hi, text, targets.drop_last());
        goto_spec(e1, s1, h1, t1, targets.last())
    }
}

/// The history and typed line once `text` is written back into the place
/// it was loaded from, index `hi`.
pub open spec fn written_back(entries: Seq<Seq<char>>, scratch: Seq<char>, hi: int, text: Seq<char>) -> (Seq<Seq<char>>, Seq<char>) {
    if hi == 0 {
        (entries, text)
    } else {
        (entries.update(entries.len() - hi, text), scratch)
    }
}

/// What history index `hi` shows: the typed line for zero, an entry
/// otherwise.
pub open spec fn shown_at(entries: Seq<Seq<char>>, scratch: Seq<char>, hi: int) -> Seq<char> {
    if hi == 0 {
        scratch
    } else {
        entries[entries.len() - hi]
    }
}

/// Along a run of moves, the history with the shown line written back
/// never changes, and the line shown is what that history holds there.
proof fn lemma_goto_chain(entries: Seq<Seq<char>>, scratch: Seq<char>, hi: int, text: Seq<char>, targets: Seq<int>)
    requires
        0 <= hi <= entries.len(),
        entries.len() > 0,
        forall|i: int| 0 <= i < targets.len() ==> 0 <= #[trigger] targets[i],
    ensures
        ({
            let (e1, s1, h1, t1) = goto_chain(entries, scratch, hi, text, targets);
            let (ew, sw) = written_back(entries, scratch, hi, text);
            &&& 0 <= h1 <= entries.len()
            &&& e1.len() == entries.len()
            &&& written_back(e1, s1, h1, t1) == (ew, sw)
            &&& t1 == shown_at(ew, sw, h1)
        }),
    decreases targets.len(),
{
    let len = entries.len() as int;
    let (ew, sw) = written_back(entries, scratch, hi, text);
    if targets.len() == 0 {
        if hi > 0 {
            assert(ew[len - hi] == text);
        }
    } else {
        let rest = targets.drop_last();
        assert forall|i: int| 0 <= i < rest.len() implies 0 <= #[trigger] rest[i] by {
            assert(rest[i] == targets[i]);
        }
        lemma_goto_chain(entries, scratch, hi, text, rest);
        let (e1, s1, h1, t1) = goto_chain(entries, scratch, hi, text, rest);
        let target = targets.last();
        assert(0 <= target);
        let (e2, s2, h2, t2) = goto_spec(e1, s1, h1, t1, target);
        assert(goto_chain(entries, scratch, hi, text, targets) == (e2, s2, h2, t2));
        if target <= len {
            assert((e2, s2) == written_back(e1, s1, h1, t1));
            assert(t2 == shown_at(ew, sw, target));
            assert(h2 == target);
            if target > 0 {
                assert(ew.update(len - target, ew[len - target]) =~= ew);
            }
            assert(written_back(e2, s2, h2, t2) == (ew, sw));
        } else {
            assert((e2, s2, h2, t2) == (e1, s1, h1, t1));
        }
    }
}

/// Cancelling a reverse search brings back the line it started from: after
/// any run of moves through the history, going back to the index the run
/// started at shows the line that was there, and the history holds what it
/// held, with that line written back into its entry.
pub proof fn law_returning_after_a_search_restores_the_line(
    entries: Seq<Seq<char>>,
    scratch: Seq<char>,
    hi: int,
    text: Seq<char>,
    targets: Seq<int>,
)
    requires
        0 <= hi <= entries.len(),
        forall|i: int| 0 <= i < targets.len() ==> 0 <= #[trigger] targets[i],
    ensures
        ({
            let (e1, s1, h1, t1) = goto_chain(entries, scratch, hi, text, targets);
            let (e2, s2, h2, t2) = goto_spec(e1, s1, h1, t1, hi);
            &&& t2 == text
            &&& entries.len() > 0 ==> h2 == hi && (e2, s2) == written_back(entries, scratch, hi, text)
        }),
{
    let len = entries.len() as int;
    if len > 0 {
        lemma_goto_chain(entries, scratch, hi, text, targets);
        let (ew, sw) = written_back(entries, scratch, hi, text);
        let (e1, s1, h1, t1) = goto_chain(entries, scratch, hi, text, targets);
        let (e2, s2, h2, t2) = goto_spec(e1, s1, h1, t1, hi);
        assert((e2, s2) == written_back(e1, s1, h1, t1));
        if hi > 0 {
            assert(ew[len - hi] == text);
        }
        assert(t2 == shown_at(ew, sw, hi));
        if hi == 0 {
            assert(sw == text);
        }
        assert(t2 == text);
        assert(h2 == hi);
    } else {
        assert(entries =~= Seq::<Seq<char>>::empty());
        lemma_goto_chain_empty(scratch, hi, text, targets);
    }
}

/// With no history, no move goes anywhere.
proof fn lemma_goto_chain_empty(scratch: Seq<char>, hi: int, text: Seq<char>, targets: Seq<int>)
    ensures
        goto_chain(Seq::empty(), scratch, hi, text, targets) == (Seq::<Seq<char>>::empty(), scratch, hi, text),
    decreases targets.len(),
{
    if targets.len() > 0 {
        lemma_goto_chain_empty(scratch, hi, text, targets.drop_last());
    }
}

impl Rustline {
    /// Converts a history index (0 the typed line, 1 the newest entry) to a
    /// storage slot.
    fn slot_of(&self, index: usize) -> (r: Option<usize>)
        requires
            self.wf(),
        ensures
            r == (match slot_spec(self.entries().len() as int, index as int) {
                Some(s) => Some(s as usize),
                None => None::<usize>,
            }),
    {
        proof {
            self.lemma_wf_iff();
        }
        let len = self.history.len();
        if index == 0 || index > len {
            None
        } else {
            Some(len - index)
        }
    }

    /// Converts a storage slot back to a history index.
    fn index_of(&self, slot: usize) -> (r: usize)
        requires
            self.wf(),
        ensures
            r == if slot < self.entries().len() {
                self.entries().len() - slot
            } else {
                0
            },
    {
        proof {
            self.lemma_wf_iff();
        }
        let len = self.history.len();
        if slot < len {
            len - slot
        } else {
            0
        }
    }

    /// Moves to history entry `index`, counted back from the line being
    /// typed.
    ///
    /// The working buffer is written back into the entry being left (or
    /// kept aside, when leaving the typed line), so an edit to a recalled
    /// line survives moving away and coming back.
    pub fn history_goto(&mut self, state: &mut EditorState, index: usize)
        requires
            old(self).wf(),
            old(state).wf(),
        ensures
            final(self).wf(),
            final(state).wf(),
            final(self).history_capacity() == old(self).history_capacity(),
            final(self).spec_config() == old(self).spec_config(),
            final(self).pending_keys() == old(self).pending_keys(),
            final(self).parser_state() == old(self).parser_state(),
            final(self).has_xlat_spec() == old(self).has_xlat_spec(),
            ({
                let (e2, s2, hi2, t2) = goto_spec(
                    old(self).entries(),
                    old(state).scratch@,
                    old(state).history_index as int,
                    old(state).buffer.text(),
                    index as int,
                );
                &&& final(self).entries() == e2
                &&& final(state).scratch@ == s2
                &&& final(state).history_index == hi2
                &&& t2.len() <= usize::MAX / 4 ==> final(state).buffer.text() == t2
                &&& t2.len() <= usize::MAX / 4 && hi2 != old(state).history_index ==> final(state).buffer.pos() == t2.len()
                &&& t2.len() > usize::MAX / 4 ==> final(state).buffer == old(state).buffer
            }),
            final(state).kill_ring == old(state).kill_ring,
            final(state).prompt == old(state).prompt,
            final(state).accumulated == old(state).accumulated,
            final(state).completion == old(state).completion,
            final(state).last_yank == old(state).last_yank,
            final(state).paste_mode == old(state).paste_mode,
            final(state).mask == old(state).mask,
            final(state).paused == old(state).paused,
            final(state).escape_next == old(state).escape_next,
            final(state).ctrl_x_pending == old(state).ctrl_x_pending,
            final(state).dirty == old(state).dirty,
            final(state).win_size == old(state).win_size,
            final(state).continuation == old(state).continuation,
    {
        proof {
            self.lemma_wf_iff();
        }
        let len = self.history.len();
        if len == 0 || index > len {
            return;
        }
        proof {
            state.buffer.lemma_wf();
        }
        let cur = state.history_index;
        if cur == 0 {
            state.scratch = state.buffer.as_str().to_owned();
        } else if let Some(slot) = self.slot_of(cur) {
            self.history.set(slot, state.buffer.as_str());
        }
        state.history_index = index;
        proof {
            self.lemma_wf_iff();
        }
        let ghost e2 = self.entries();
        let ghost s2 = state.scratch@;
        if let Some(slot) = self.slot_of(index) {
            if let Some(line) = self.history.get(slot) {
                let n = line.unicode_len();
                if n <= usize::MAX / 4 {
                    state.buffer.set_content(line);
                }
            }
        } else {
            let n = state.scratch.as_str().unicode_len();
            if n <= usize::MAX / 4 {
                let s = state.scratch.clone();
                state.buffer.set_content(s.as_str());
            }
        }
        proof {
            let (e2s, s2s, hi2s, t2s) = goto_spec(
                old(self).entries(),
                old(state).scratch@,
                old(state).history_index as int,
                old(state).buffer.text(),
                index as int,
            );
            assert(e2 == e2s);
            assert(s2 == s2s);
            self.lemma_wf_iff();
        }
    }

    /// Moves `delta` entries through history; positive is older.
    pub fn history_move(&mut self, state: &mut EditorState, delta: isize)
        requires
            old(self).wf(),
            old(state).wf(),
        ensures
            final(self).wf(),
            final(state).wf(),
            final(self).history_capacity() == old(self).history_capacity(),
            final(self).spec_config() == old(self).spec_config(),
            final(self).pending_keys() == old(self).pending_keys(),
            final(self).parser_state() == old(self).parser_state(),
            final(self).has_xlat_spec() == old(self).has_xlat_spec(),
            ({
                let target = old(state).history_index + delta;
                &&& target < 0 ==> final(self).entries() == old(self).entries() && final(state).history_index == old(state).history_index && final(state).buffer == old(state).buffer && final(state).scratch == old(state).scratch
                &&& target >= 0 ==> {
                    let (e2, s2, hi2, t2) = goto_spec(
                        old(self).entries(),
                        old(state).scratch@,
                        old(state).history_index as int,
                        old(state).buffer.text(),
                        target,
                    );
                    &&& final(self).entries() == e2
                    &&& final(state).scratch@ == s2
                    &&& final(state).history_index == hi2
                    &&& t2.len() <= usize::MAX / 4 ==> final(state).buffer.text() == t2
                    &&& t2.len() <= usize::MAX / 4 && hi2 != old(state).history_index ==> final(state).buffer.pos() == t2.len()
                    &&& t2.len() > usize::MAX / 4 ==> final(state).buffer == old(state).buffer
                }
            }),
            final(state).kill_ring == old(state).kill_ring,
            final(state).prompt == old(state).prompt,
            final(state).accumulated == old(state).accumulated,
            final(state).completion == old(state).completion,
            final(state).last_yank == old(state).last_yank,
            final(state).paste_mode == old(state).paste_mode,
            final(state).mask == old(state).mask,
            final(state).paused == old(state).paused,
            final(state).escape_next == old(state).escape_next,
            final(state).ctrl_x_pending == old(state).ctrl_x_pending,
            final(state).dirty == old(state).dirty,
            final(state).win_size == old(state).win_size,
            final(state).continuation == old(state).continuation,
    {
        let hi = state.history_index;
        let index = if delta >= 0 {
            let d = delta as usize;
            if hi > usize::MAX - d {
                proof {
                    self.lemma_wf_iff();
                    self.history.lemma_wf();
                }
                return;
            }
            hi + d
        } else {
            let d = (-(delta + 1)) as usize + 1;
            if hi < d {
                return;
            }
            hi - d
        };
        proof {
            if hi as int + delta > usize::MAX {
                assert(false);
            }
        }
        self.history_goto(state, index);
    }

    /// Inserts the current kill-ring entry at the cursor and records its
    /// extent, so `ALT-Y` can replace it.
    pub fn yank(&self, state: &mut EditorState)
        requires
            self.wf(),
            old(state).wf(),
        ensures
            final(state).wf(),
            final(state).kill_ring == old(state).kill_ring,
            yank_spec(
                old(state).kill_ring,
                old(state).buffer.text(),
                old(state).buffer.pos(),
                old(state).last_yank,
                final(state).buffer,
                final(state).last_yank,
            ),
            match old(state).kill_ring.slots()[old(state).kill_ring.index()] {
                None => final(state).buffer == old(state).buffer && final(state).last_yank == old(
                    state,
                ).last_yank,
                Some(t) => if old(state).buffer.text().len() + t.len() <= usize::MAX / 4 {
                    &&& (final(state).buffer.text(), final(state).buffer.pos()) == crate::buffer::insert_step(
                        old(state).buffer.text(),
                        old(state).buffer.pos(),
                        t,
                    )
                    &&& final(state).last_yank == Some(
                        (
                            offset(old(state).buffer.text(), old(state).buffer.pos()) as usize,
                            (offset(old(state).buffer.text(), old(state).buffer.pos()) + byte_len(
                                t,
                            )) as usize,
                        ),
                    )
                } else {
                    final(state).buffer == old(state).buffer && final(state).last_yank == old(
                        state,
                    ).last_yank
                },
            },
            final(state).history_index == old(state).history_index,
            final(state).scratch == old(state).scratch,
            final(state).prompt == old(state).prompt,
            final(state).accumulated == old(state).accumulated,
            final(state).completion == old(state).completion,
            final(state).paste_mode == old(state).paste_mode,
            final(state).mask == old(state).mask,
            final(state).paused == old(state).paused,
            final(state).escape_next == old(state).escape_next,
            final(state).ctrl_x_pending == old(state).ctrl_x_pending,
            final(state).dirty == old(state).dirty,
            final(state).win_size == old(state).win_size,
            final(state).continuation == old(state).continuation,
    {
        proof {
            state.kill_ring.lemma_wf();
            state.buffer.lemma_wf();
        }
        let text = match state.kill_ring.yank() {
            Some(t) => t.to_owned(),
            None => return,
        };
        let n = text.as_str().unicode_len();
        if n > usize::MAX / 4 - state.buffer.as_str().unicode_len() {
            return;
        }
        let start = state.buffer.cursor();
        let tb = str_byte_len(text.as_str());
        state.buffer.insert(text.as_str());
        proof {
            state.buffer.lemma_wf();
            let t0 = old(state).buffer.text();
            let p0 = old(state).buffer.pos();
            let t1 = state.buffer.text();
            assert(t1 == t0.take(p0) + text@ + t0.skip(p0));
            assert(t1.take(p0 + text@.len()) =~= t0.take(p0) + text@);
            crate::unicode::lemma_byte_len_append(t0.take(p0), text@);
            crate::text::lemma_offset_le_total(t1, p0 + text@.len());
        }
        state.last_yank = Some((start, start + tb));
    }
}

// ------------------------------------------------------------ kill ring

/// `CTRL-Y` on text `t` with the cursor at character index `p` and the
/// last yank's extent `ly0`: the current entry of `ring` is inserted at the
/// cursor, the cursor ends after it, and the extent `ly1` covers its bytes.
/// Where the ring holds nothing there, or the line would grow too long, the
/// text, cursor and extent stay as they were.
pub open spec fn yank_spec(
    ring: KillRing,
    t: Seq<char>,
    p: int,
    ly0: Option<(usize, usize)>,
    b1: LineBuffer,
    ly1: Option<(usize, usize)>,
) -> bool {
    match ring.slots()[ring.index()] {
        Some(e) => if t.len() + e.len() <= usize::MAX / 4 {
            &&& (b1.text(), b1.pos()) == crate::buffer::insert_step(t, p, e)
            &&& ly1 == Some((offset(t, p) as usize, (offset(t, p) + byte_len(e)) as usize))
        } else {
            b1.text() == t && b1.pos() == p && ly1 == ly0
        },
        None => b1.text() == t && b1.pos() == p && ly1 == ly0,
    }
}

/// `ALT-Y` from state `st` to `st1`: the text the last yank inserted is
/// taken out, the ring steps back to its previous entry, and that entry is
/// yanked in its place. Without a last yank, or on a line too long to
/// edit, nothing changes.
pub open spec fn yank_pop_spec(st: EditorState, st1: EditorState) -> bool {
    let t = st.buffer.text();
    match st.last_yank {
        Some(ext) => if t.len() <= usize::MAX / 4 {
            &&& st1.kill_ring.slots() == st.kill_ring.slots()
            &&& st1.kill_ring.index() == crate::state::rotate_from(
                st.kill_ring.slots(),
                st.kill_ring.index(),
                RING_SIZE as nat,
            )
            &&& forall|ks: int, ke: int|
                #![trigger offset(t, ks), offset(t, ke)]
                ext.0 <= ext.1 && 0 <= ks <= t.len() && 0 <= ke <= t.len() && offset(t, ks) == ext.0
                    && offset(t, ke) == ext.1 ==> yank_spec(
                    st1.kill_ring,
                    t.take(ks) + t.skip(ke),
                    ks,
                    st.last_yank,
                    st1.buffer,
                    st1.last_yank,
                )
        } else {
            st1.buffer == st.buffer && st1.kill_ring == st.kill_ring && st1.last_yank == st.last_yank
        },
        None => st1.buffer == st.buffer && st1.kill_ring == st.kill_ring && st1.last_yank == st.last_yank,
    }
}

/// `ALT-Y` straight after a `CTRL-Y` that inserted something takes that
/// text out again and yanks the previous kill-ring entry in its place: the
/// line ends up as if the ring had been rotated before the yank.
pub proof fn law_yank_pop_replaces_the_yank(st0: EditorState, st1: EditorState, st2: EditorState)
    requires
        st0.wf(),
        st0.kill_ring.slots()[st0.kill_ring.index()] matches Some(e) && st0.buffer.text().len() + e.len() <= usize::MAX / 4,
        st1.kill_ring == st0.kill_ring,
        yank_spec(st0.kill_ring, st0.buffer.text(), st0.buffer.pos(), st0.last_yank, st1.buffer, st1.last_yank),
        yank_pop_spec(st1, st2),
    ensures
        st2.kill_ring.slots() == st0.kill_ring.slots(),
        st2.kill_ring.index() == crate::state::rotate_from(st0.kill_ring.slots(), st0.kill_ring.index(), RING_SIZE as nat),
        yank_spec(st2.kill_ring, st0.buffer.text(), st0.buffer.pos(), st1.last_yank, st2.buffer, st2.last_yank),
{
    st0.buffer.lemma_wf();
    let t = st0.buffer.text();
    let p = st0.buffer.pos();
    let e = st0.kill_ring.slots()[st0.kill_ring.index()]->0;
    let t1 = st1.buffer.text();
    assert(t1 == t.take(p) + e + t.skip(p));
    assert(t1.take(p) =~= t.take(p));
    assert(t1.take(p + e.len()) =~= t.take(p) + e);
    crate::unicode::lemma_byte_len_append(t.take(p), e);
    crate::text::lemma_byte_len_bound(t1);
    crate::text::lemma_offset_le_total(t1, p + e.len());
    assert(offset(t1, p) == offset(t, p));
    assert(offset(t1, p + e.len()) == offset(t, p) + crate::unicode::byte_len(e));
    assert(t1.take(p) + t1.skip(p + e.len()) =~= t);
}

impl Rustline {
    /// `ALT-Y`: replaces the text the last yank inserted with the previous
    /// kill-ring entry.
    pub fn yank_pop(&self, state: &mut EditorState)
        requires
            self.wf(),
            old(state).wf(),
        ensures
            final(state).wf(),
            yank_pop_spec(*old(state), *final(state)),
            final(state).history_index == old(state).history_index,
            final(state).scratch == old(state).scratch,
            final(state).prompt == old(state).prompt,
            final(state).accumulated == old(state).accumulated,
            final(state).completion == old(state).completion,
            final(state).paste_mode == old(state).paste_mode,
            final(state).mask == old(state).mask,
            final(state).paused == old(state).paused,
            final(state).escape_next == old(state).escape_next,
            final(state).ctrl_x_pending == old(state).ctrl_x_pending,
            final(state).dirty == old(state).dirty,
            final(state).win_size == old(state).win_size,
            final(state).continuation == old(state).continuation,
    {
        if let Some((start, end)) = state.last_yank {
            if state.buffer.char_count() <= usize::MAX / 4 {
                let ghost t = state.buffer.text();
                proof {
                    reveal_strlit("");
                    assert(""@ =~= Seq::<char>::empty());
                }
                state.buffer.replace_range(start, end, "");
                state.buffer.set_cursor(start);
                proof {
                    state.buffer.lemma_wf();
                }
                let ghost tm = state.buffer.text();
                let ghost pm = state.buffer.pos();
                state.kill_ring.rotate();
                self.yank(state);
                proof {
                    assert forall|ks: int, ke: int|
                        #![trigger offset(t, ks), offset(t, ke)]
                        start <= end && 0 <= ks <= t.len() && 0 <= ke <= t.len() && offset(t, ks) == start
                            && offset(t, ke) == end implies tm == t.take(ks) + t.skip(ke) && pm == ks by {
                        assert(tm == t.take(ks) + Seq::<char>::empty() + t.skip(ke));
                        assert(tm =~= t.take(ks) + t.skip(ke));
                        assert(tm.len() == ks + (t.len() - ke));
                        assert(pm <= tm.len());
                        assert(tm.take(ks) =~= t.take(ks));
                        assert(offset(tm, ks) == start);
                        if pm < ks {
                            crate::unicode::lemma_offset_mono(tm, pm + 1, ks);
                        } else if pm > ks {
                            crate::unicode::lemma_offset_mono(tm, ks + 1, pm);
                            crate::unicode::lemma_offset_succ(tm, ks);
                        }
                    }
                }
            }
        }
    }
}

// ------------------------------------------------------------- dispatch

/// What the caller must do after a key has been dispatched. The editor's
/// own state has already been updated; these are the parts that need the
/// terminal.
pub enum Command {
    /// Nothing more; redraw if the state is dirty.
    Continue,
    /// The line is submitted: draw it one last time, without hints, and
    /// return this text.
    Accept(String),
    /// End of input.
    Eof,
    /// The user pressed `CTRL-C`.
    Interrupted,
    /// Clear the screen, then draw the line afresh.
    ClearScreen,
    /// Leave raw mode and raise `SIGQUIT`.
    Quit,
    /// Leave raw mode, move below the line, stop the process, and on resume
    /// re-enter raw mode and draw the line afresh.
    Suspend,
    /// Stop terminal output (`CTRL-S`).
    PauseOutput,
    /// Restart terminal output (`CTRL-Q`).
    ResumeOutput,
    /// Run an incremental reverse history search.
    Search,
    /// Draw the line one last time, move below it, then call
    /// [`EditorState::begin_continuation`].
    ContinueLine,
    /// Print these candidates in columns below the line, then redraw.
    ListCompletions(Vec<String>),
}

/// The kinds of [`Command`], without their payloads.
pub enum CommandKind {
    Continue,
    Accept,
    Eof,
    Interrupted,
    ClearScreen,
    Quit,
    Suspend,
    PauseOutput,
    ResumeOutput,
    Search,
    ContinueLine,
    ListCompletions,
}

/// The kind of a command.
pub open spec fn kind_of(c: Command) -> CommandKind {
    match c {
        Command::Continue => CommandKind::Continue,
        Command::Accept(_) => CommandKind::Accept,
        Command::Eof => CommandKind::Eof,
        Command::Interrupted => CommandKind::Interrupted,
        Command::ClearScreen => CommandKind::ClearScreen,
        Command::Quit => CommandKind::Quit,
        Command::Suspend => CommandKind::Suspend,
        Command::PauseOutput => CommandKind::PauseOutput,
        Command::ResumeOutput => CommandKind::ResumeOutput,
        Command::Search => CommandKind::Search,
        Command::ContinueLine => CommandKind::ContinueLine,
        Command::ListCompletions(_) => CommandKind::ListCompletions,
    }
}

/// The editing operations bound to keys.
pub enum Edit {
    Home,
    End,
    Left,
    Right,
    WordLeft,
    WordRight,
    ExprLeft,
    ExprRight,
    Rubout,
    Delete,
    KillToEnd,
    KillToStart,
    RuboutWord,
    DeleteWord,
    Transpose,
    TransposeWords,
    Upper,
    Lower,
    Capitalize,
    Squeeze,
    Barf,
    Slurp,
    SetMark,
}

/// The editing operation bound to a key, if it is bound to one.
pub open spec fn key_edit(k: Key) -> Option<Edit> {
    match k {
        Key::Ctrl('a') | Key::Home => Some(Edit::Home),
        Key::Ctrl('e') | Key::End => Some(Edit::End),
        Key::Ctrl('b') | Key::Left => Some(Edit::Left),
        Key::Ctrl('f') | Key::Right => Some(Edit::Right),
        Key::Alt('b') => Some(Edit::WordLeft),
        Key::Alt('f') => Some(Edit::WordRight),
        Key::CtrlAlt('b') | Key::AltLeft => Some(Edit::ExprLeft),
        Key::CtrlAlt('f') | Key::AltRight => Some(Edit::ExprRight),
        Key::Ctrl('h') | Key::Backspace => Some(Edit::Rubout),
        Key::Delete => Some(Edit::Delete),
        Key::Ctrl('k') => Some(Edit::KillToEnd),
        Key::Ctrl('u') => Some(Edit::KillToStart),
        Key::Ctrl('w') | Key::Alt('h') | Key::CtrlAlt('h') | Key::AltBackspace => Some(Edit::RuboutWord),
        Key::Alt('d') => Some(Edit::DeleteWord),
        Key::Ctrl('t') => Some(Edit::Transpose),
        Key::Alt('t') => Some(Edit::TransposeWords),
        Key::Alt('u') => Some(Edit::Upper),
        Key::Alt('l') => Some(Edit::Lower),
        Key::Alt('c') => Some(Edit::Capitalize),
        Key::Alt('\\') => Some(Edit::Squeeze),
        Key::Alt('B') => Some(Edit::Barf),
        Key::Alt('S') => Some(Edit::Slurp),
        Key::Ctrl('@') => Some(Edit::SetMark),
        _ => None,
    }
}

/// The Delete key removes the character under the cursor and leaves the
/// cursor where it was; at the end of the line it changes nothing.
pub proof fn law_delete_key_removes_the_character_under_the_cursor(b0: LineBuffer, b1: LineBuffer)
    requires
        edited(key_edit(Key::Delete)->0, b0, b1),
    ensures
        key_edit(Key::Delete) is Some,
        b1.pos() == b0.pos(),
        b0.pos() < b0.text().len() ==> b1.text() == b0.text().take(b0.pos()) + b0.text().skip(b0.pos() + 1),
        b0.pos() == b0.text().len() ==> b1.text() == b0.text(),
{
    let t = b0.text();
    let p = b0.pos();
    if p < t.len() && 0 <= p {
        assert(t.remove(p) =~= t.take(p) + t.skip(p + 1));
    }
}

/// Backspace and `CTRL-H` remove the character before the cursor, which
/// steps back over it; at the start of the line they change nothing.
pub proof fn law_backspace_removes_the_character_before_the_cursor(k: Key, b0: LineBuffer, b1: LineBuffer)
    requires
        k == Key::Backspace || k == Key::Ctrl('h'),
        edited(key_edit(k)->0, b0, b1),
    ensures
        key_edit(k) is Some,
        b0.pos() > 0 ==> b1.pos() == b0.pos() - 1 && b1.text() == b0.text().take(b0.pos() - 1) + b0.text().skip(b0.pos()),
        b0.pos() <= 0 ==> b1.pos() == b0.pos() && b1.text() == b0.text(),
{
}

/// The keys that move to the line's ends, and `CTRL-K` and `CTRL-U`, which
/// kill up to them, do what their names say: the text before the cursor is
/// kept by `CTRL-K`, the text after it by `CTRL-U`.
pub proof fn law_line_end_keys(k: Key, b0: LineBuffer, b1: LineBuffer)
    requires
        k == Key::Home || k == Key::Ctrl('a') || k == Key::End || k == Key::Ctrl('e') || k == Key::Ctrl('k') || k == Key::Ctrl('u'),
        edited(key_edit(k)->0, b0, b1),
    ensures
        key_edit(k) is Some,
        (k == Key::Home || k == Key::Ctrl('a')) ==> b1.text() == b0.text() && b1.pos() == 0,
        (k == Key::End || k == Key::Ctrl('e')) ==> b1.text() == b0.text() && b1.pos() == b0.text().len(),
        k == Key::Ctrl('k') ==> b1.text() == b0.text().take(b0.pos()) && b1.pos() == b0.pos(),
        k == Key::Ctrl('u') ==> b1.text() == b0.text().skip(b0.pos()) && b1.pos() == 0,
{
}

/// The arrow keys and `CTRL-B` / `CTRL-F` move the cursor one character
/// without touching the text, and stop at the line's ends.
pub proof fn law_arrow_keys_move_one_character(k: Key, b0: LineBuffer, b1: LineBuffer)
    requires
        k == Key::Left || k == Key::Ctrl('b') || k == Key::Right || k == Key::Ctrl('f'),
        edited(key_edit(k)->0, b0, b1),
    ensures
        key_edit(k) is Some,
        (k == Key::Left || k == Key::Ctrl('b')) ==> b1.text() == b0.text() && b1.pos() == (if b0.pos() > 0 {
            b0.pos() - 1
        } else {
            0
        }),
        (k == Key::Right || k == Key::Ctrl('f')) ==> b1.text() == b0.text() && b1.pos() == (if b0.pos() < b0.text().len() {
            b0.pos() + 1
        } else {
            b0.pos()
        }),
{
}

/// The keys that delete backwards remove a stretch of text ending at the
/// cursor and leave the cursor where it began; those that delete forwards
/// remove a stretch starting at the cursor and leave the cursor in place.
/// Neither touches the text on the other side of the cursor.
pub proof fn law_deleting_keys_keep_their_direction(k: Key, b0: LineBuffer, b1: LineBuffer)
    requires
        b0.wf(),
        edited(key_edit(k)->0, b0, b1),
        k == Key::Backspace || k == Key::Ctrl('h') || k == Key::Ctrl('w') || k == Key::Alt('h')
            || k == Key::CtrlAlt('h') || k == Key::AltBackspace || k == Key::Ctrl('u')
            || k == Key::Delete || k == Key::Alt('d') || k == Key::Ctrl('k'),
    ensures
        key_edit(k) is Some,
        (k == Key::Backspace || k == Key::Ctrl('h') || k == Key::Ctrl('w') || k == Key::Alt('h')
            || k == Key::CtrlAlt('h') || k == Key::AltBackspace || k == Key::Ctrl('u')) ==> exists|q: int|
            0 <= q <= b0.pos() && b1.text() == b0.text().take(q) + b0.text().skip(b0.pos()) && b1.pos() == q,
        (k == Key::Delete || k == Key::Alt('d') || k == Key::Ctrl('k')) ==> exists|q: int|
            b0.pos() <= q <= b0.text().len() && b1.text() == b0.text().take(b0.pos()) + b0.text().skip(q)
                && b1.pos() == b0.pos(),
{
    b0.lemma_wf();
    let t = b0.text();
    let p = b0.pos();
    crate::buffer::lemma_scan_back_range(t, p, CharClass::Separator);
    crate::buffer::lemma_scan_back_range(t, scan_back(t, p, CharClass::Separator), CharClass::Word);
    crate::buffer::lemma_scan_fwd_range(t, p, CharClass::Separator);
    crate::buffer::lemma_scan_fwd_range(t, scan_fwd(t, p, CharClass::Separator), CharClass::Word);
    if k == Key::Backspace || k == Key::Ctrl('h') {
        if p > 0 {
            assert(b1.text() == t.take(p - 1) + t.skip(p));
        } else {
            assert(t =~= t.take(0) + t.skip(0));
            assert(b1.text() == t.take(p) + t.skip(p));
        }
    } else if k == Key::Ctrl('u') {
        assert(t.skip(p) =~= t.take(0) + t.skip(p));
        assert(b1.text() == t.take(0) + t.skip(p));
    } else if k == Key::Delete {
        if p < t.len() {
            assert(t.remove(p) =~= t.take(p) + t.skip(p + 1));
            assert(b1.text() == t.take(p) + t.skip(p + 1));
        } else {
            assert(t =~= t.take(p) + t.skip(p));
            assert(b1.text() == t.take(p) + t.skip(p));
        }
    } else if k == Key::Ctrl('k') {
        assert(t.take(p) =~= t.take(p) + t.skip(t.len() as int));
        assert(b1.text() == t.take(p) + t.skip(t.len() as int));
    }
}

/// The keys that move left never move the cursor right, those that move
/// right never move it left, and none of them changes the text.
pub proof fn law_moving_keys_keep_their_direction(k: Key, b0: LineBuffer, b1: LineBuffer)
    requires
        b0.wf(),
        edited(key_edit(k)->0, b0, b1),
        k == Key::Left || k == Key::Ctrl('b') || k == Key::Alt('b') || k == Key::Home || k == Key::Ctrl('a')
            || k == Key::AltLeft || k == Key::CtrlAlt('b') || k == Key::Right || k == Key::Ctrl('f')
            || k == Key::Alt('f') || k == Key::End || k == Key::Ctrl('e') || k == Key::AltRight
            || k == Key::CtrlAlt('f'),
    ensures
        key_edit(k) is Some,
        b1.text() == b0.text(),
        (k == Key::Left || k == Key::Ctrl('b') || k == Key::Alt('b') || k == Key::Home || k == Key::Ctrl('a')
            || k == Key::AltLeft || k == Key::CtrlAlt('b')) ==> 0 <= b1.pos() <= b0.pos(),
        (k == Key::Right || k == Key::Ctrl('f') || k == Key::Alt('f') || k == Key::End || k == Key::Ctrl('e')
            || k == Key::AltRight || k == Key::CtrlAlt('f')) ==> b0.pos() <= b1.pos() <= b0.text().len(),
{
    b0.lemma_wf();
    let t = b0.text();
    let p = b0.pos();
    crate::buffer::lemma_scan_back_range(t, p, CharClass::Separator);
    crate::buffer::lemma_scan_back_range(t, scan_back(t, p, CharClass::Separator), CharClass::Word);
    crate::buffer::lemma_scan_fwd_range(t, p, CharClass::Separator);
    crate::buffer::lemma_scan_fwd_range(t, scan_fwd(t, p, CharClass::Separator), CharClass::Word);
    let ql = scan_back(t, p, CharClass::Xeparator);
    crate::buffer::lemma_scan_back_range(t, p, CharClass::Xeparator);
    crate::buffer::lemma_scan_back_range(t, ql, CharClass::Word);
    if mirror_left_spec(t, ql) is Some {
        crate::buffer::law_bracket_found_backward_encloses_balanced_text(t, ql);
    }
    let qr = scan_fwd(t, p, CharClass::Xeparator);
    crate::buffer::lemma_scan_fwd_range(t, p, CharClass::Xeparator);
    crate::buffer::lemma_scan_fwd_range(t, qr, CharClass::Word);
    if mirror_right_spec(t, qr) is Some {
        crate::buffer::law_bracket_found_forward_encloses_balanced_text(t, qr);
    }
}

/// Where moving left by one balanced expression from `p` lands.
pub open spec fn expr_left_spec(t: Seq<char>, p: int) -> int {
    let q = scan_back(t, p, CharClass::Xeparator);
    match mirror_left_spec(t, q) {
        Some((a, _)) => a,
        None => scan_back(t, q, CharClass::Word),
    }
}

/// Where moving right by one balanced expression from `p` lands.
pub open spec fn expr_right_spec(t: Seq<char>, p: int) -> int {
    let q = scan_fwd(t, p, CharClass::Xeparator);
    match mirror_right_spec(t, q) {
        Some((_, b)) => b + 1,
        None => scan_fwd(t, q, CharClass::Word),
    }
}

/// The text an edit removes into the kill ring, for the edits that kill.
pub open spec fn killed_text(e: Edit, t: Seq<char>, p: int) -> Option<Seq<char>> {
    match e {
        Edit::KillToEnd => Some(t.skip(p)),
        Edit::KillToStart => Some(t.take(p)),
        Edit::RuboutWord => Some(t.subrange(backward_word_spec(t, p), p)),
        Edit::DeleteWord => Some(t.subrange(p, forward_word_spec(t, p))),
        _ => None,
    }
}

/// `b1` is `b0` after the edit `e`.
pub open spec fn edited(e: Edit, b0: LineBuffer, b1: LineBuffer) -> bool {
    let t = b0.text();
    let p = b0.pos();
    &&& b1.mark() == (if e is SetMark {
        offset(t, p) as int
    } else {
        crate::buffer::clamped_mark(b0.mark(), b1.text())
    })
    &&& match e {
        Edit::Home => b1.text() == t && b1.pos() == 0,
        Edit::End => b1.text() == t && b1.pos() == t.len(),
        Edit::Left => b1.text() == t && b1.pos() == (if p > 0 {
            p - 1
        } else {
            0
        }),
        Edit::Right => b1.text() == t && b1.pos() == (if p < t.len() {
            p + 1
        } else {
            p
        }),
        Edit::WordLeft => b1.text() == t && b1.pos() == backward_word_spec(t, p),
        Edit::WordRight => b1.text() == t && b1.pos() == forward_word_spec(t, p),
        Edit::ExprLeft => b1.text() == t && b1.pos() == expr_left_spec(t, p),
        Edit::ExprRight => b1.text() == t && b1.pos() == expr_right_spec(t, p),
        Edit::Rubout => (b1.text(), b1.pos()) == rubout_step(t, p),
        Edit::Delete => b1.pos() == p && b1.text() == (if p == t.len() {
            t
        } else {
            t.remove(p)
        }),
        Edit::KillToEnd => b1.text() == t.take(p) && b1.pos() == p,
        Edit::KillToStart => b1.text() == t.skip(p) && b1.pos() == 0,
        Edit::RuboutWord => b1.text() == t.take(backward_word_spec(t, p)) + t.skip(p) && b1.pos()
            == backward_word_spec(t, p),
        Edit::DeleteWord => b1.text() == t.take(p) + t.skip(forward_word_spec(t, p)) && b1.pos()
            == p,
        Edit::Transpose => (b1.text(), b1.pos()) == transpose_spec(t, p),
        Edit::TransposeWords => (b1.text(), b1.pos()) == transpose_words_spec(t, p),
        Edit::Upper => (b1.text(), b1.pos()) == case_word_spec(t, p, CaseOp::Upper),
        Edit::Lower => (b1.text(), b1.pos()) == case_word_spec(t, p, CaseOp::Lower),
        Edit::Capitalize => (b1.text(), b1.pos()) == case_word_spec(t, p, CaseOp::Capitalize),
        Edit::Squeeze => {
            let start = scan_back(t, p, CharClass::Separator);
            let end = scan_fwd(t, p, CharClass::Separator);
            if start >= end {
                b1.text() == t && b1.pos() == p
            } else {
                b1.text() == t.take(start) + t.skip(end) && b1.pos() == start
            }
        },
        Edit::Barf => match barf_spec(t, p) {
            Some((t2, p2)) => b1.text() == t2 && b1.pos() == p2,
            None => b1.text() == t && b1.pos() == p,
        },
        Edit::Slurp => b1.pos() == p && match slurp_spec(t, p) {
            Some(t2) => b1.text() == t2,
            None => b1.text() == t,
        },
        Edit::SetMark => b1.text() == t && b1.pos() == p && b1.mark() == offset(t, p),
    }
}

/// `b1` is `b0` after `CTRL-X CTRL-X`: the cursor goes to the mark,
/// snapped down to a character boundary, when the mark lies within the line.
pub open spec fn went_to_mark(b0: LineBuffer, b1: LineBuffer) -> bool {
    &&& b1.text() == b0.text()
    &&& b1.mark() == b0.mark()
    &&& b0.mark() > byte_len(b0.text()) ==> b1.pos() == b0.pos()
    &&& b0.mark() <= byte_len(b0.text()) ==> {
        &&& offset(b1.text(), b1.pos()) <= b0.mark()
        &&& b1.pos() < b1.text().len() ==> offset(b1.text(), b1.pos() + 1) > b0.mark()
    }
}

/// `r1` is `r0` after killing `t`.
pub open spec fn ring_pushed(r0: KillRing, r1: KillRing, t: Seq<char>) -> bool {
    if t.len() == 0 {
        r1.slots() == r0.slots() && r1.index() == r0.index()
    } else {
        r1.index() == (r0.index() + 1) % (RING_SIZE as int) && r1.slots() == r0.slots().update(
            r1.index(),
            Some(t),
        )
    }
}

/// Applies an edit to the buffer, returning the text it killed.
fn apply_edit(buffer: &mut LineBuffer, e: &Edit) -> (killed: Option<String>)
    requires
        old(buffer).wf(),
    ensures
        final(buffer).wf(),
        edited(*e, *old(buffer), *final(buffer)),
        match killed_text(*e, old(buffer).text(), old(buffer).pos()) {
            Some(t) => killed matches Some(k) && k@ == t,
            None => killed is None,
        },
{
    proof {
        buffer.lemma_wf();
    }
    match e {
        Edit::Home => {
            buffer.move_home();
            None
        },
        Edit::End => {
            buffer.move_end();
            None
        },
        Edit::Left => {
            buffer.move_left();
            None
        },
        Edit::Right => {
            buffer.move_right();
            None
        },
        Edit::WordLeft => {
            buffer.move_word_left();
            None
        },
        Edit::WordRight => {
            buffer.move_word_right();
            None
        },
        Edit::ExprLeft => {
            buffer.move_expr_left();
            None
        },
        Edit::ExprRight => {
            buffer.move_expr_right();
            None
        },
        Edit::Rubout => {
            buffer.rubout();
            None
        },
        Edit::Delete => {
            buffer.delete();
            None
        },
        Edit::KillToEnd => Some(buffer.kill_to_end()),
        Edit::KillToStart => Some(buffer.kill_to_start()),
        Edit::RuboutWord => Some(buffer.rubout_word()),
        Edit::DeleteWord => Some(buffer.delete_word()),
        Edit::Transpose => {
            buffer.transpose();
            None
        },
        Edit::TransposeWords => {
            buffer.transpose_words();
            None
        },
        Edit::Upper => {
            buffer.uppercase_word();
            None
        },
        Edit::Lower => {
            buffer.lowercase_word();
            None
        },
        Edit::Capitalize => {
            buffer.capitalize_word();
            None
        },
        Edit::Squeeze => {
            buffer.squeeze();
            None
        },
        Edit::Barf => {
            buffer.barf();
            None
        },
        Edit::Slurp => {
            buffer.slurp();
            None
        },
        Edit::SetMark => {
            buffer.set_mark();
            None
        },
    }
}

fn edit_for(key: &KeySeq) -> (r: Option<Edit>)
    ensures
        r == key_edit(key@),
{
    match key {
        KeySeq::Ctrl('a') | KeySeq::Home => Some(Edit::Home),
        KeySeq::Ctrl('e') | KeySeq::End => Some(Edit::End),
        KeySeq::Ctrl('b') | KeySeq::Left => Some(Edit::Left),
        KeySeq::Ctrl('f') | KeySeq::Right => Some(Edit::Right),
        KeySeq::Alt('b') => Some(Edit::WordLeft),
        KeySeq::Alt('f') => Some(Edit::WordRight),
        KeySeq::CtrlAlt('b') | KeySeq::AltLeft => Some(Edit::ExprLeft),
        KeySeq::CtrlAlt('f') | KeySeq::AltRight => Some(Edit::ExprRight),
        KeySeq::Ctrl('h') | KeySeq::Backspace => Some(Edit::Rubout),
        KeySeq::Delete => Some(Edit::Delete),
        KeySeq::Ctrl('k') => Some(Edit::KillToEnd),
        KeySeq::Ctrl('u') => Some(Edit::KillToStart),
        KeySeq::Ctrl('w') | KeySeq::Alt('h') | KeySeq::CtrlAlt('h') | KeySeq::AltBackspace => Some(
            Edit::RuboutWord,
        ),
        KeySeq::Alt('d') => Some(Edit::DeleteWord),
        KeySeq::Ctrl('t') => Some(Edit::Transpose),
        KeySeq::Alt('t') => Some(Edit::TransposeWords),
        KeySeq::Alt('u') => Some(Edit::Upper),
        KeySeq::Alt('l') => Some(Edit::Lower),
        KeySeq::Alt('c') => Some(Edit::Capitalize),
        KeySeq::Alt('\\') => Some(Edit::Squeeze),
        KeySeq::Alt('B') => Some(Edit::Barf),
        KeySeq::Alt('S') => Some(Edit::Slurp),
        KeySeq::Ctrl('@') => Some(Edit::SetMark),
        _ => None,
    }
}

/// Whether the key is acted on by its binding: not inside a paste, not
/// inserted literally after `CTRL-Q`, and not completing a `CTRL-X` chord.
pub open spec fn plain_key(st: EditorState, k: Key) -> bool {
    !st.paste_mode && !st.escape_next && !(st.ctrl_x_pending && k == Key::Ctrl('x'))
}

/// Whether a key, acted on as an ordinary key, can change the line or the
/// kill ring. The others leave both as they were.
pub open spec fn touches_line(k: Key) -> bool {
    ||| key_edit(k) is Some
    ||| k == Key::Ctrl('d') || k == Key::Ctrl('y') || k == Key::Alt('y')
    ||| k is Char || k is Tab || k is Enter || k is LineFeed
    ||| k == Key::Ctrl('p') || k == Key::Up || k == Key::Ctrl('n') || k == Key::Down
    ||| k == Key::Alt('<') || k == Key::Alt('>')
}

/// Whether `ENTER` submits: always, unless pairs are balanced across
/// continuation lines and some `(` is still open.
pub open spec fn enter_submits(cfg: Config, balanced: bool) -> bool {
    !(cfg.balance_pairs && cfg.enable_multiline) || balanced
}

/// The command a key answers with. `TAB` with completion on answers
/// `Continue` or `ListCompletions`, and is not covered here.
pub open spec fn command_for(cfg: Config, st: EditorState, k: Key, balanced: bool) -> CommandKind {
    if st.paste_mode {
        match k {
            Key::Enter | Key::LineFeed => if cfg.enable_multiline {
                CommandKind::ContinueLine
            } else {
                CommandKind::Continue
            },
            _ => CommandKind::Continue,
        }
    } else if st.escape_next || (st.ctrl_x_pending && k == Key::Ctrl('x')) {
        CommandKind::Continue
    } else {
        match k {
            Key::Ctrl('r') => if st.mask {
                CommandKind::Continue
            } else {
                CommandKind::Search
            },
            Key::Ctrl('d') => if st.buffer.text().len() == 0 {
                CommandKind::Eof
            } else {
                CommandKind::Continue
            },
            Key::Ctrl('l') => CommandKind::ClearScreen,
            Key::Ctrl('c') => CommandKind::Interrupted,
            Key::Ctrl('\\') => CommandKind::Quit,
            Key::Ctrl('z') => CommandKind::Suspend,
            Key::Ctrl('s') => CommandKind::PauseOutput,
            Key::Ctrl('q') => if st.paused {
                CommandKind::ResumeOutput
            } else {
                CommandKind::Continue
            },
            Key::Enter => if enter_submits(cfg, balanced) {
                CommandKind::Accept
            } else {
                CommandKind::ContinueLine
            },
            Key::LineFeed => if cfg.enable_multiline {
                CommandKind::ContinueLine
            } else {
                CommandKind::Accept
            },
            _ => CommandKind::Continue,
        }
    }
}

/// The history index a navigation key moves to, from index `hi` in a
/// history of `len` entries.
pub open spec fn nav_target(k: Key, hi: int, len: int) -> Option<int> {
    match k {
        Key::Ctrl('p') | Key::Up => Some(hi + 1),
        Key::Ctrl('n') | Key::Down => if hi > 0 {
            Some(hi - 1)
        } else {
            None
        },
        Key::Alt('<') => Some(len),
        Key::Alt('>') => Some(0),
        _ => None,
    }
}

/// Whether `TAB` runs completion rather than inserting a tab.
pub open spec fn tab_completes(cfg: Config, st: EditorState) -> bool {
    cfg.enable_completion && !st.mask
}

/// The character a paste inserts for a key, if any.
pub open spec fn pasted_char(cfg: Config, k: Key) -> Option<char> {
    match k {
        Key::Char(c) => Some(c),
        Key::Tab => Some('\t'),
        Key::Enter | Key::LineFeed => if cfg.enable_multiline {
            None
        } else {
            Some(' ')
        },
        _ => None,
    }
}

/// `b1` is `b0` with `s` inserted at the cursor, when there is room for it.
pub open spec fn inserted(b0: LineBuffer, b1: LineBuffer, s: Seq<char>) -> bool {
    if b0.text().len() + s.len() <= usize::MAX / 4 {
        (b1.text(), b1.pos()) == crate::buffer::insert_step(b0.text(), b0.pos(), s) && b1.mark()
            == b0.mark()
    } else {
        b1 == b0
    }
}

impl Rustline {
    /// Inserts `c` at the cursor if the buffer has room for it.
    fn insert_if_room(buffer: &mut LineBuffer, c: char)
        requires
            old(buffer).wf(),
        ensures
            final(buffer).wf(),
            inserted(*old(buffer), *final(buffer), seq![c]),
    {
        if buffer.char_count() < usize::MAX / 4 {
            buffer.insert_char(c);
        }
    }

    /// Ends the current line for a continuation: the caller draws it and
    /// then calls [`EditorState::begin_continuation`].
    fn continue_line(state: &mut EditorState) -> (r: Command)
        requires
            old(state).wf(),
        ensures
            r is ContinueLine,
            final(state).wf(),
            final(state).buffer.text() == old(state).buffer.text(),
            final(state).buffer.pos() == old(state).buffer.text().len(),
            final(state).buffer.mark() == old(state).buffer.mark(),
            final(state).kill_ring == old(state).kill_ring,
            final(state).history_index == old(state).history_index,
            final(state).scratch == old(state).scratch,
            final(state).prompt == old(state).prompt,
            final(state).accumulated == old(state).accumulated,
            final(state).completion == old(state).completion,
            final(state).last_yank == old(state).last_yank,
            final(state).paste_mode == old(state).paste_mode,
            final(state).mask == old(state).mask,
            final(state).paused == old(state).paused,
            final(state).escape_next == old(state).escape_next,
            final(state).ctrl_x_pending == old(state).ctrl_x_pending,
            final(state).dirty == old(state).dirty,
            final(state).win_size == old(state).win_size,
            final(state).continuation == old(state).continuation,
    {
        state.buffer.move_end();
        Command::ContinueLine
    }

    /// Handles `ENTER`: submit, unless pairs are balanced across lines and
    /// a `(` is still open, in which case a continuation line starts.
    fn accept(&self, state: &mut EditorState) -> (r: Command)
        requires
            self.wf(),
            old(state).wf(),
        ensures
            final(state).wf(),
            final(state).buffer.text() == old(state).buffer.text(),
            final(state).buffer.pos() == old(state).buffer.text().len(),
            final(state).buffer.mark() == old(state).buffer.mark(),
            enter_submits(self.spec_config(), paren_depth(old(state).full_text_spec()) == 0) ==> (r matches Command::Accept(t) && t@ == final(state).full_text_spec()),
            !enter_submits(self.spec_config(), paren_depth(old(state).full_text_spec()) == 0) ==> r is ContinueLine,
            final(state).kill_ring == old(state).kill_ring,
            final(state).history_index == old(state).history_index,
            final(state).scratch == old(state).scratch,
            final(state).prompt == old(state).prompt,
            final(state).accumulated == old(state).accumulated,
            final(state).completion == old(state).completion,
            final(state).last_yank == old(state).last_yank,
            final(state).paste_mode == old(state).paste_mode,
            final(state).mask == old(state).mask,
            final(state).paused == old(state).paused,
            final(state).escape_next == old(state).escape_next,
            final(state).ctrl_x_pending == old(state).ctrl_x_pending,
            final(state).dirty == old(state).dirty,
            final(state).win_size == old(state).win_size,
            final(state).continuation == old(state).continuation,
    {
        proof {
            self.lemma_wf_iff();
        }
        let finished = if self.config.balance_pairs && self.config.enable_multiline {
            let text = state.full_text();
            is_balanced(text.as_str())
        } else {
            true
        };
        if !finished {
            return Self::continue_line(state);
        }
        state.buffer.move_end();
        Command::Accept(state.full_text())
    }

    /// Handles a key that arrived inside a bracketed paste: text is
    /// inserted, and a newline is a real newline rather than a submission.
    fn dispatch_pasted(&self, state: &mut EditorState, key: KeySeq) -> (r: Command)
        requires
            self.wf(),
            old(state).wf(),
            old(state).paste_mode,
        ensures
            final(state).wf(),
            kind_of(r) == command_for(self.spec_config(), *old(state), key@, false),
            final(state).paste_mode == !(key@ is BracketedPasteEnd),
            match pasted_char(self.spec_config(), key@) {
                Some(c) => inserted(old(state).buffer, final(state).buffer, seq![c]),
                None => r is ContinueLine ==> final(state).buffer.text() == old(state).buffer.text() && final(state).buffer.pos() == old(state).buffer.text().len() && final(state).buffer.mark() == old(state).buffer.mark(),
            },
            !(r is ContinueLine) && pasted_char(self.spec_config(), key@) is None ==> final(state).buffer == old(state).buffer,
            final(state).kill_ring == old(state).kill_ring,
            final(state).history_index == old(state).history_index,
            final(state).scratch == old(state).scratch,
            final(state).prompt == old(state).prompt,
            final(state).accumulated == old(state).accumulated,
            final(state).completion == old(state).completion,
            final(state).last_yank == old(state).last_yank,
            final(state).mask == old(state).mask,
            final(state).paused == old(state).paused,
            final(state).escape_next == old(state).escape_next,
            final(state).ctrl_x_pending == old(state).ctrl_x_pending,
            final(state).dirty == old(state).dirty,
            final(state).win_size == old(state).win_size,
            final(state).continuation == old(state).continuation,
    {
        proof {
            self.lemma_wf_iff();
        }
        match key {
            KeySeq::BracketedPasteEnd => {
                state.paste_mode = false;
                Command::Continue
            },
            KeySeq::Char(c) => {
                Self::insert_if_room(&mut state.buffer, c);
                Command::Continue
            },
            KeySeq::Tab => {
                Self::insert_if_room(&mut state.buffer, '\t');
                Command::Continue
            },
            KeySeq::Enter | KeySeq::LineFeed => {
                if self.config.enable_multiline {
                    Self::continue_line(state)
                } else {
                    Self::insert_if_room(&mut state.buffer, ' ');
                    Command::Continue
                }
            },
            _ => Command::Continue,
        }
    }
}

// ----------------------------------------------------------- completion

/// `b1` is `b0` with the text between byte offsets `start` and `end`
/// replaced by `r`, as [`LineBuffer::replace_range`] does it.
pub open spec fn replaced(b0: LineBuffer, b1: LineBuffer, start: int, end: int, r: Seq<char>) -> bool {
    let t = b0.text();
    forall|ks: int, ke: int|
        #![trigger offset(t, ks), offset(t, ke)]
        start <= end && 0 <= ks <= t.len() && 0 <= ke <= t.len() && offset(t, ks) == start && offset(t, ke) == end ==> {
            &&& b1.text() == t.take(ks) + r + t.skip(ke)
            &&& b1.pos() == if b0.pos() >= ke {
                b0.pos() - (ke - ks) + r.len()
            } else if b0.pos() > ks {
                ks + r.len()
            } else {
                b0.pos()
            }
        }
}

/// The candidates of a completion cycle.
pub open spec fn cycle_candidates(c: crate::state::CompletionCycle) -> Seq<Seq<char>> {
    crate::history::string_views(c.candidates@)
}

/// Acting on completions that begin at byte `start` with candidates `cs`,
/// from line `b0` and completion cycle `c0`, gives line `b1`, cycle `c1`,
/// and `listed` as the candidates to list: completions that are empty, or
/// start after the cursor or inside a character, change nothing; a single
/// candidate replaces the word; a common prefix longer than the word
/// replaces it and starts a cycle; otherwise the candidates are listed and a
/// cycle starts.
pub open spec fn completed_with(
    b0: LineBuffer,
    c0: Option<crate::state::CompletionCycle>,
    start: int,
    cs: Seq<Seq<char>>,
    b1: LineBuffer,
    c1: Option<crate::state::CompletionCycle>,
    listed: Option<Seq<Seq<char>>>,
) -> bool {
    let t = b0.text();
    let pos = offset(t, b0.pos());
    if cs.len() == 0 || start > pos || !is_boundary(t, start) {
        listed is None && b1 == b0 && c1 == c0
    } else {
        let ks = choose|ks: int| 0 <= ks <= t.len() && offset(t, ks) == start;
        let typed = t.subrange(ks, b0.pos());
        let k = crate::completion::common_chars(cs);
        let prefix = cs[0].take(k as int);
        if cs.len() == 1 {
            &&& listed is None
            &&& t.len() + cs[0].len() <= usize::MAX / 4 ==> replaced(b0, b1, start, pos as int, cs[0])
            &&& t.len() + cs[0].len() > usize::MAX / 4 ==> b1 == b0
            &&& c1 == c0
        } else if k > typed.len() && crate::completion::has_prefix(prefix, typed) && t.len() + prefix.len() <= usize::MAX / 4 {
            &&& listed is None
            &&& replaced(b0, b1, start, pos as int, prefix)
            &&& c1 matches Some(c) && c.start == start && c.end == start + byte_len(prefix) && cycle_candidates(c) == cs && c.index is None
        } else {
            &&& listed == Some(cs)
            &&& b1 == b0
            &&& c1 matches Some(c) && c.start == start && c.end == pos && cycle_candidates(c) == cs && c.index is None
        }
    }
}

/// The candidates an answer to `TAB` asks to list, if any.
pub open spec fn listed_of(r: Option<Vec<String>>) -> Option<Seq<Seq<char>>> {
    match r {
        Some(v) => Some(crate::history::string_views(v@)),
        None => None,
    }
}

/// The candidates a command asks to list, if any.
pub open spec fn command_listed(r: Command) -> Option<Seq<Seq<char>>> {
    match r {
        Command::ListCompletions(v) => Some(crate::history::string_views(v@)),
        _ => None,
    }
}

/// Copies the candidates out of a set of completions.
fn candidate_list(c: &Completions) -> (r: Vec<String>)
    ensures
        crate::history::string_views(r@) == c.spec_candidates(),
{
    let items = c.candidates();
    let mut r: Vec<String> = Vec::new();
    let mut i: usize = 0;
    while i < items.len()
        invariant
            i <= items@.len(),
            crate::history::string_views(items@) == c.spec_candidates(),
            crate::history::string_views(r@) == crate::history::string_views(items@).take(i as int),
        decreases items@.len() - i,
    {
        let s = items[i].clone();
        let ghost before = r@;
        r.push(s);
        proof {
            crate::history::lemma_string_views_push(before, s);
            assert(crate::history::string_views(items@).take(i + 1) =~= crate::history::string_views(items@).take(i as int).push(items@[i as int]@));
        }
        i = i + 1;
    }
    proof {
        assert(crate::history::string_views(items@).take(items@.len() as int) =~= crate::history::string_views(items@));
    }
    r
}

/// Whether `TAB` in state `st` cycles through the last completion's
/// candidates: the line is untouched since that completion, which offered
/// some.
pub open spec fn cycles(st: EditorState) -> bool {
    st.completion matches Some(c) && c.end == offset(st.buffer.text(), st.buffer.pos()) && c.candidates@.len() > 0
}

/// A cycling `TAB` from `st` to `st1`: the next candidate (the first, after
/// a common prefix) replaces the text in place, and the cycle moves on to
/// it. Where the line would grow too long, the line stays and the cycle
/// ends.
pub open spec fn cycle_spec(st: EditorState, st1: EditorState) -> bool {
    match st.completion {
        Some(c) => {
            let len = c.candidates@.len() as int;
            let next = match c.index {
                Some(i) => (i + 1) % len,
                None => 0,
            };
            let cand = cycle_candidates(c)[next];
            if st.buffer.text().len() + cand.len() <= usize::MAX / 4 && c.start + byte_len(cand) <= usize::MAX {
                &&& replaced(st.buffer, st1.buffer, c.start as int, c.end as int, cand)
                &&& st1.completion matches Some(c2) && c2.start == c.start && c2.end == c.start + byte_len(cand)
                    && cycle_candidates(c2) == cycle_candidates(c) && c2.index == Some(next as usize)
            } else {
                st1.buffer == st.buffer && st1.completion is None
            }
        },
        None => true,
    }
}

impl Rustline {
    /// Acts on the completions a provider offered for the word ending at
    /// the cursor: a single candidate replaces the word; a common prefix
    /// longer than the word replaces it and starts a cycle; otherwise the
    /// candidates are returned for listing and a cycle starts. Completions
    /// that are empty, or start after the cursor or inside a character, are
    /// ignored.
    #[verifier::rlimit(40)]
    #[verifier::spinoff_prover]
    pub fn complete_with(&self, state: &mut EditorState, completions: Completions) -> (r: Option<Vec<String>>)
        requires
            old(state).wf(),
        ensures
            final(state).wf(),
            ({
                let b0 = old(state).buffer;
                let t = b0.text();
                let pos = offset(t, b0.pos());
                let start = completions.spec_start();
                let cs = completions.spec_candidates();
                if cs.len() == 0 || start > pos || !is_boundary(t, start) {
                    r is None && *final(state) == *old(state)
                } else {
                    let ks = choose|ks: int| 0 <= ks <= t.len() && offset(t, ks) == start;
                    let typed = t.subrange(ks, b0.pos());
                    let k = crate::completion::common_chars(cs);
                    let prefix = cs[0].take(k as int);
                    if cs.len() == 1 {
                        &&& r is None
                        &&& t.len() + cs[0].len() <= usize::MAX / 4 ==> replaced(b0, final(state).buffer, start, pos as int, cs[0])
                        &&& t.len() + cs[0].len() > usize::MAX / 4 ==> final(state).buffer == b0
                        &&& final(state).completion == old(state).completion
                    } else if k > typed.len() && crate::completion::has_prefix(prefix, typed) && t.len() + prefix.len() <= usize::MAX / 4 {
                        &&& r is None
                        &&& replaced(b0, final(state).buffer, start, pos as int, prefix)
                        &&& final(state).completion matches Some(c) && c.start == start && c.end == start + byte_len(prefix) && cycle_candidates(c) == cs && c.index is None
                    } else {
                        &&& r matches Some(v) && crate::history::string_views(v@) == cs
                        &&& final(state).buffer == b0
                        &&& final(state).completion matches Some(c) && c.start == start && c.end == pos && cycle_candidates(c) == cs && c.index is None
                    }
                }
            }),
            completed_with(
                old(state).buffer,
                old(state).completion,
                completions.spec_start() as int,
                completions.spec_candidates(),
                final(state).buffer,
                final(state).completion,
                listed_of(r),
            ),
            final(state).kill_ring == old(state).kill_ring,
            final(state).history_index == old(state).history_index,
            final(state).scratch == old(state).scratch,
            final(state).prompt == old(state).prompt,
            final(state).accumulated == old(state).accumulated,
            final(state).last_yank == old(state).last_yank,
            final(state).paste_mode == old(state).paste_mode,
            final(state).mask == old(state).mask,
            final(state).paused == old(state).paused,
            final(state).escape_next == old(state).escape_next,
            final(state).ctrl_x_pending == old(state).ctrl_x_pending,
            final(state).dirty == old(state).dirty,
            final(state).win_size == old(state).win_size,
            final(state).continuation == old(state).continuation,
    {
        proof {
            state.buffer.lemma_wf();
        }
        let pos = state.buffer.cursor();
        if completions.is_empty() {
            return None;
        }
        let start = completions.start();
        if start > pos {
            return None;
        }
        let v = chars_of(state.buffer.as_str());
        let ks = match index_of_offset_in(&v, start) {
            Some(k) => k,
            None => return None,
        };
        let kp = match index_of_offset_in(&v, pos) {
            Some(k) => k,
            None => {
                proof {
                    assert(false);
                }
                return None;
            },
        };
        let ghost t = state.buffer.text();
        proof {
            crate::unicode::lemma_offset_injective(t, kp as int, state.buffer.pos());
            assert(is_boundary(t, start as int));
            let kc = choose|kk: int| 0 <= kk <= t.len() && offset(t, kk) == start;
            crate::unicode::lemma_offset_injective(t, kc, ks as int);
            if ks > kp {
                crate::unicode::lemma_offset_mono(t, kp as int, ks as int);
            }
        }
        let candidates = candidate_list(&completions);
        let n = state.buffer.char_count();
        if candidates.len() == 1 {
            let c0 = candidates[0].as_str().unicode_len();
            if c0 <= usize::MAX / 4 - n {
                state.buffer.replace_range(start, pos, candidates[0].as_str());
            }
            return None;
        }
        let common = completions.common_prefix_len();
        let first = chars_of(candidates[0].as_str());
        let _ = str_byte_len(candidates[0].as_str());
        let ghost cs = completions.spec_candidates();
        let k = match index_of_offset_in(&first, common) {
            Some(k) => k,
            None => {
                proof {
                    crate::text::lemma_byte_len_bound(cs[0]);
                    assert(false);
                }
                return None;
            },
        };
        proof {
            crate::unicode::lemma_offset_injective(cs[0], k as int, crate::completion::common_chars(cs) as int);
        }
        let (prefix, _) = split_at_char(candidates[0].as_str(), k);
        let mut typed: Vec<char> = Vec::new();
        let mut q = ks;
        while q < kp
            invariant
                ks <= q <= kp <= v@.len(),
                typed@ == v@.subrange(ks as int, q as int),
            decreases kp - q,
        {
            typed.push(v[q]);
            proof {
                assert(v@.subrange(ks as int, q + 1) =~= v@.subrange(ks as int, q as int).push(v@[q as int]));
            }
            q = q + 1;
        }
        let pchars = chars_of(prefix);
        if k > typed.len() && crate::completion::starts_with_chars(&pchars, &typed) && k <= usize::MAX / 4 - n {
            let pb = str_byte_len(prefix);
            state.buffer.replace_range(start, pos, prefix);
            proof {
                state.buffer.lemma_wf();
                let t1 = state.buffer.text();
                assert(t1 == t.take(ks as int) + prefix@ + t.skip(kp as int));
                assert(t1.take(ks + prefix@.len()) =~= t.take(ks as int) + prefix@);
                crate::unicode::lemma_byte_len_append(t.take(ks as int), prefix@);
                crate::text::lemma_offset_le_total(t1, ks + prefix@.len());
            }
            state.completion = Some(crate::state::CompletionCycle { start, end: start + pb, candidates, index: None });
            return None;
        }
        let listed = candidate_list(&completions);
        state.completion = Some(crate::state::CompletionCycle { start, end: pos, candidates, index: None });
        Some(listed)
    }

    /// Handles `TAB`: a second `TAB` with the line untouched cycles to the
    /// next candidate; otherwise the completion provider is asked, and
    /// what it offers is acted on by [`Rustline::complete_with`]. Returns
    /// the candidates to list below the line, if any.
    #[verifier::rlimit(40)]
    #[verifier::spinoff_prover]
    pub fn complete(&self, state: &mut EditorState) -> (r: Option<Vec<String>>)
        requires
            self.wf(),
            old(state).wf(),
        ensures
            final(state).wf(),
            final(state).kill_ring == old(state).kill_ring,
            final(state).history_index == old(state).history_index,
            final(state).scratch == old(state).scratch,
            final(state).prompt == old(state).prompt,
            final(state).accumulated == old(state).accumulated,
            final(state).last_yank == old(state).last_yank,
            final(state).paste_mode == old(state).paste_mode,
            final(state).mask == old(state).mask,
            final(state).paused == old(state).paused,
            final(state).escape_next == old(state).escape_next,
            final(state).ctrl_x_pending == old(state).ctrl_x_pending,
            final(state).dirty == old(state).dirty,
            final(state).win_size == old(state).win_size,
            final(state).continuation == old(state).continuation,
            cycles(*old(state)) ==> r is None && cycle_spec(*old(state), *final(state)),
            !cycles(*old(state)) ==> exists|start: int, cs: Seq<Seq<char>>|
                completed_with(old(state).buffer, None, start, cs, final(state).buffer, final(state).completion, listed_of(r)),
    {
        proof {
            self.lemma_wf_iff();
            state.buffer.lemma_wf();
        }
        let pos = state.buffer.cursor();
        let mut taken: Option<crate::state::CompletionCycle> = None;
        std::mem::swap(&mut taken, &mut state.completion);
        if let Some(cycle) = taken {
            if cycle.end == pos && cycle.candidates.len() > 0 {
                let len = cycle.candidates.len();
                let next = match cycle.index {
                    Some(i) => (i % len + 1) % len,
                    None => 0,
                };
                proof {
                    if let Some(i) = cycle.index {
                        assert((i % len + 1) % (len as int) == (i + 1) % (len as int)) by (nonlinear_arith)
                            requires
                                len > 0,
                        ;
                    }
                }
                let cand = cycle.candidates[next].as_str();
                let cn = cand.unicode_len();
                let cb = str_byte_len(cand);
                if cn <= usize::MAX / 4 - state.buffer.char_count() && cb <= usize::MAX - cycle.start {
                    let owned = cand.to_owned();
                    proof {
                        assert(taken == old(state).completion);
                        assert(owned@ == cycle_candidates(cycle)[next as int]);
                    }
                    state.buffer.replace_range(cycle.start, cycle.end, owned.as_str());
                    state.completion = Some(crate::state::CompletionCycle {
                        start: cycle.start,
                        end: cycle.start + cb,
                        candidates: cycle.candidates,
                        index: Some(next),
                    });
                }
                return None;
            }
        }
        let line = state.buffer.as_str().to_owned();
        proof {
            assert(is_boundary_in(line@, pos as int));
        }
        let completions = self.completer.complete(line.as_str(), pos);
        let ghost start = completions.spec_start() as int;
        let ghost cs = completions.spec_candidates();
        let r = self.complete_with(state, completions);
        proof {
            assert(completed_with(old(state).buffer, None, start, cs, state.buffer, state.completion, listed_of(r)));
        }
        r
    }
}

/// Whether a paste is under way after `k`.
pub open spec fn paste_after(st: EditorState, k: Key) -> bool {
    if st.paste_mode {
        !(k is BracketedPasteEnd)
    } else {
        plain_key(st, k) && k is BracketedPasteStart
    }
}

/// Whether the key after `k` is inserted literally.
pub open spec fn escape_after(st: EditorState, k: Key) -> bool {
    if st.paste_mode {
        st.escape_next
    } else {
        plain_key(st, k) && k == Key::Ctrl('q') && !st.paused
    }
}

/// Whether a `CTRL-X` chord is waiting for its second key after `k`.
pub open spec fn ctrl_x_after(st: EditorState, k: Key) -> bool {
    if st.paste_mode || st.escape_next {
        st.ctrl_x_pending
    } else {
        !st.ctrl_x_pending && k == Key::Ctrl('x')
    }
}

/// Whether output is stopped after `k`.
pub open spec fn paused_after(st: EditorState, k: Key) -> bool {
    if plain_key(st, k) {
        match k {
            Key::Ctrl('s') => true,
            Key::Ctrl('q') => false,
            _ => st.paused,
        }
    } else {
        st.paused
    }
}

impl Rustline {
    /// Acts on one key, updating the editing state, and says what the
    /// caller must do at the terminal.
    ///
    /// Inside a bracketed paste only text and newlines are honoured:
    /// interpreting pasted control characters as commands is exactly what
    /// bracketed paste exists to prevent. After `CTRL-Q` the key is
    /// inserted as literal text. Otherwise the key's binding runs; unbound
    /// keys are ignored, never inserted as garbage.
    #[verifier::rlimit(60)]
    #[verifier::spinoff_prover]
    pub fn dispatch(&mut self, state: &mut EditorState, key: KeySeq) -> (r: Command)
        requires
            old(self).wf(),
            old(state).wf(),
        ensures
            final(self).wf(),
            final(state).wf(),
            final(state).dirty,
            final(self).spec_config() == old(self).spec_config(),
            final(self).history_capacity() == old(self).history_capacity(),
            final(self).pending_keys() == old(self).pending_keys(),
            final(self).parser_state() == old(self).parser_state(),
            final(self).has_xlat_spec() == old(self).has_xlat_spec(),
            ({
                let cfg = old(self).spec_config();
                let st = *old(state);
                let k = key@;
                let plain = plain_key(st, k);
                let b0 = st.buffer;
                let b1 = final(state).buffer;
                &&& !(plain && k is Tab && tab_completes(cfg, st)) ==> kind_of(r) == command_for(cfg, st, k, paren_depth(st.full_text_spec()) == 0)
                &&& (plain && k is Tab && tab_completes(cfg, st)) ==> (r is Continue || r is ListCompletions)
                &&& r matches Command::Accept(t) ==> t@ == final(state).full_text_spec() && b1.text() == b0.text() && b1.pos() == b0.text().len()
                &&& r is ContinueLine ==> b1.text() == b0.text() && b1.pos() == b0.text().len()
                &&& final(state).paste_mode == paste_after(st, k)
                &&& final(state).escape_next == escape_after(st, k)
                &&& final(state).ctrl_x_pending == ctrl_x_after(st, k)
                &&& final(state).paused == paused_after(st, k)
                &&& final(state).mask == st.mask
                &&& final(state).accumulated == st.accumulated
                &&& final(state).prompt == st.prompt
                &&& final(state).win_size == st.win_size
                &&& final(state).continuation == st.continuation
                &&& plain && !(k is Tab) ==> final(state).completion is None
                &&& plain && !(k == Key::Ctrl('y') || k == Key::Alt('y')) ==> final(state).last_yank is None
                &&& plain ==> (key_edit(k) matches Some(e) ==> {
                    &&& edited(e, b0, b1)
                    &&& match killed_text(e, b0.text(), b0.pos()) {
                        Some(kt) => ring_pushed(st.kill_ring, final(state).kill_ring, kt),
                        None => final(state).kill_ring == st.kill_ring,
                    }
                })
                &&& plain && k == Key::Ctrl('d') && b0.text().len() > 0 ==> edited(Edit::Delete, b0, b1)
                &&& plain && k is Char && !old(self).has_xlat_spec() ==> inserted(b0, b1, seq![k->Char_0])
                &&& plain && k is Tab && !tab_completes(cfg, st) ==> inserted(b0, b1, seq!['\t'])
                &&& plain && k == Key::Ctrl('y') ==> final(state).kill_ring == st.kill_ring && yank_spec(st.kill_ring, b0.text(), b0.pos(), st.last_yank, b1, final(state).last_yank)
                &&& plain && k == Key::Alt('y') ==> yank_pop_spec(st, *final(state))
                &&& !st.paste_mode && !st.escape_next && st.ctrl_x_pending && k == Key::Ctrl('x') ==> went_to_mark(b0, b1)
                &&& plain && !touches_line(k) ==> b1 == b0 && final(state).kill_ring == st.kill_ring
                &&& !plain ==> final(state).kill_ring == st.kill_ring
                &&& st.paste_mode && pasted_char(cfg, k) is None && !(r is ContinueLine) ==> b1 == b0
                &&& plain && k is Tab && tab_completes(cfg, st) && cycles(st) ==> r is Continue && cycle_spec(st, *final(state))
                &&& plain && k is Tab && tab_completes(cfg, st) && !cycles(st) ==> exists|start: int, cs: Seq<Seq<char>>|
                    completed_with(b0, None, start, cs, b1, final(state).completion, command_listed(r))
                &&& !st.paste_mode && st.escape_next ==> inserted(b0, b1, escape_text(k))
                &&& st.paste_mode && pasted_char(cfg, k) is Some ==> inserted(b0, b1, seq![pasted_char(cfg, k)->0])
                &&& plain ==> (nav_target(k, st.history_index as int, old(self).entries().len() as int) matches Some(target) ==> {
                    let (e2, s2, hi2, t2) = goto_spec(old(self).entries(), st.scratch@, st.history_index as int, b0.text(), target);
                    &&& final(self).entries() == e2
                    &&& final(state).scratch@ == s2
                    &&& final(state).history_index == hi2
                    &&& t2.len() <= usize::MAX / 4 ==> b1.text() == t2
                    &&& t2.len() <= usize::MAX / 4 && hi2 != st.history_index ==> b1.pos() == t2.len()
                    &&& t2.len() > usize::MAX / 4 ==> b1 == b0
                })
                &&& !(plain && nav_target(k, st.history_index as int, old(self).entries().len() as int) is Some) ==> final(self).entries() == old(self).entries() && final(state).history_index == st.history_index && final(state).scratch == st.scratch
            }),
    {
        proof {
            self.lemma_wf_iff();
        }
        state.dirty = true;
        if state.paste_mode {
            return self.dispatch_pasted(state, key);
        }
        if state.escape_next {
            proof {
                state.buffer.lemma_wf();
            }
            state.escape_next = false;
            let text = escape_key(&key);
            let n = text.as_str().unicode_len();
            if n <= usize::MAX / 4 - state.buffer.char_count() {
                state.buffer.insert(text.as_str());
            }
            return Command::Continue;
        }
        if state.ctrl_x_pending {
            state.ctrl_x_pending = false;
            if let KeySeq::Ctrl('x') = key {
                state.buffer.goto_mark();
                return Command::Continue;
            }
        }
        let is_tab = match key {
            KeySeq::Tab => true,
            _ => false,
        };
        if !is_tab {
            state.completion = None;
        }
        let keeps_yank = match key {
            KeySeq::Ctrl('y') | KeySeq::Alt('y') => true,
            _ => false,
        };
        if !keeps_yank {
            state.last_yank = None;
        }
        if let Some(e) = edit_for(&key) {
            let killed = apply_edit(&mut state.buffer, &e);
            if let Some(k) = killed {
                state.kill_ring.push(k);
            }
            return Command::Continue;
        }
        self.dispatch_other(state, key)
    }

    /// The bindings other than the plain editing operations.
    #[verifier::rlimit(60)]
    #[verifier::spinoff_prover]
    fn dispatch_other(&mut self, state: &mut EditorState, key: KeySeq) -> (r: Command)
        requires
            old(self).wf(),
            old(state).wf(),
            old(state).dirty,
            !old(state).paste_mode,
            !old(state).escape_next,
            !old(state).ctrl_x_pending,
            key_edit(key@) is None,
            !(key@ is Tab) ==> old(state).completion is None,
            !(key@ == Key::Ctrl('y') || key@ == Key::Alt('y')) ==> old(state).last_yank is None,
        ensures
            final(self).wf(),
            final(state).wf(),
            final(state).dirty,
            final(self).spec_config() == old(self).spec_config(),
            final(self).history_capacity() == old(self).history_capacity(),
            final(self).pending_keys() == old(self).pending_keys(),
            final(self).parser_state() == old(self).parser_state(),
            final(self).has_xlat_spec() == old(self).has_xlat_spec(),
            ({
                let cfg = old(self).spec_config();
                let st = *old(state);
                let k = key@;
                let b0 = st.buffer;
                let b1 = final(state).buffer;
                &&& !(k is Tab && tab_completes(cfg, st)) ==> kind_of(r) == command_for(cfg, st, k, paren_depth(st.full_text_spec()) == 0)
                &&& (k is Tab && tab_completes(cfg, st)) ==> (r is Continue || r is ListCompletions)
                &&& r matches Command::Accept(t) ==> t@ == final(state).full_text_spec() && b1.text() == b0.text() && b1.pos() == b0.text().len()
                &&& r is ContinueLine ==> b1.text() == b0.text() && b1.pos() == b0.text().len()
                &&& final(state).paste_mode == paste_after(st, k)
                &&& final(state).escape_next == escape_after(st, k)
                &&& final(state).ctrl_x_pending == ctrl_x_after(st, k)
                &&& final(state).paused == paused_after(st, k)
                &&& final(state).mask == st.mask
                &&& final(state).accumulated == st.accumulated
                &&& final(state).prompt == st.prompt
                &&& final(state).win_size == st.win_size
                &&& final(state).continuation == st.continuation
                &&& !(k is Tab) ==> final(state).completion is None
                &&& !(k == Key::Ctrl('y') || k == Key::Alt('y')) ==> final(state).last_yank is None
                &&& k == Key::Ctrl('d') && b0.text().len() > 0 ==> edited(Edit::Delete, b0, b1)
                &&& k is Char && !old(self).has_xlat_spec() ==> inserted(b0, b1, seq![k->Char_0])
                &&& k is Tab && !tab_completes(cfg, st) ==> inserted(b0, b1, seq!['\t'])
                &&& k == Key::Ctrl('y') ==> final(state).kill_ring == st.kill_ring && yank_spec(st.kill_ring, b0.text(), b0.pos(), st.last_yank, b1, final(state).last_yank)
                &&& k == Key::Alt('y') ==> yank_pop_spec(st, *final(state))
                &&& k is Tab && tab_completes(cfg, st) && cycles(st) ==> r is Continue && cycle_spec(st, *final(state))
                &&& k is Tab && tab_completes(cfg, st) && !cycles(st) ==> exists|start: int, cs: Seq<Seq<char>>|
                    completed_with(b0, None, start, cs, b1, final(state).completion, command_listed(r))
                &&& !touches_line(k) ==> b1 == b0 && final(state).kill_ring == st.kill_ring
                &&& nav_target(k, st.history_index as int, old(self).entries().len() as int) matches Some(target) ==> {
                    let (e2, s2, hi2, t2) = goto_spec(old(self).entries(), st.scratch@, st.history_index as int, b0.text(), target);
                    &&& final(self).entries() == e2
                    &&& final(state).scratch@ == s2
                    &&& final(state).history_index == hi2
                    &&& t2.len() <= usize::MAX / 4 ==> b1.text() == t2
                    &&& t2.len() <= usize::MAX / 4 && hi2 != st.history_index ==> b1.pos() == t2.len()
                    &&& t2.len() > usize::MAX / 4 ==> b1 == b0
                }
                &&& nav_target(k, st.history_index as int, old(self).entries().len() as int) is None ==> final(self).entries() == old(self).entries() && final(state).history_index == st.history_index && final(state).scratch == st.scratch
            }),
    {
        proof {
            self.lemma_wf_iff();
        }
        match key {
            KeySeq::Ctrl('p') | KeySeq::Up => {
                self.history_move(state, 1);
                Command::Continue
            },
            KeySeq::Ctrl('n') | KeySeq::Down => {
                if state.history_index > 0 {
                    self.history_move(state, -1);
                }
                Command::Continue
            },
            KeySeq::Alt('<') => {
                let oldest = self.history.len();
                self.history_goto(state, oldest);
                Command::Continue
            },
            KeySeq::Alt('>') => {
                self.history_goto(state, 0);
                Command::Continue
            },
            KeySeq::Ctrl('r') => {
                if state.mask {
                    Command::Continue
                } else {
                    Command::Search
                }
            },
            KeySeq::Ctrl('d') => {
                if state.buffer.is_empty() {
                    return Command::Eof;
                }
                state.buffer.delete();
                Command::Continue
            },
            KeySeq::Ctrl('y') => {
                self.yank(state);
                Command::Continue
            },
            KeySeq::Alt('y') => {
                self.yank_pop(state);
                Command::Continue
            },
            KeySeq::Alt('R') => Command::Continue,
            KeySeq::Ctrl('x') => {
                state.ctrl_x_pending = true;
                Command::Continue
            },
            KeySeq::Ctrl('l') => Command::ClearScreen,
            KeySeq::Ctrl('c') => Command::Interrupted,
            KeySeq::Ctrl('\\') => Command::Quit,
            KeySeq::Ctrl('z') => Command::Suspend,
            KeySeq::Ctrl('s') => {
                state.paused = true;
                Command::PauseOutput
            },
            KeySeq::Ctrl('q') => {
                if state.paused {
                    state.paused = false;
                    Command::ResumeOutput
                } else {
                    state.escape_next = true;
                    Command::Continue
                }
            },
            KeySeq::Enter => self.accept(state),
            KeySeq::LineFeed => {
                if self.config.enable_multiline {
                    Self::continue_line(state)
                } else {
                    state.buffer.move_end();
                    Command::Accept(state.full_text())
                }
            },
            KeySeq::Tab => {
                if self.config.enable_completion && !state.mask {
                    match self.complete(state) {
                        Some(list) => Command::ListCompletions(list),
                        None => Command::Continue,
                    }
                } else {
                    Self::insert_if_room(&mut state.buffer, '\t');
                    Command::Continue
                }
            },
            KeySeq::BracketedPasteStart => {
                state.paste_mode = true;
                Command::Continue
            },
            KeySeq::BracketedPasteEnd => {
                state.paste_mode = false;
                Command::Continue
            },
            KeySeq::Char(c) => {
                let c2 = match &self.xlat {
                    Some(f) => f.xlat(c),
                    None => c,
                };
                Self::insert_if_room(&mut state.buffer, c2);
                Command::Continue
            },
            _ => Command::Continue,
        }
    }
}

// --------------------------------------------------------------- search

/// The cursor of `b` sits on the character that byte `o` falls in: at or
/// before `o`, with the next character starting after it.
pub open spec fn cursor_at(b: LineBuffer, o: int) -> bool {
    &&& offset(b.text(), b.pos()) <= o
    &&& b.pos() < b.text().len() ==> offset(b.text(), b.pos() + 1) > o
}

/// An incremental reverse history search in progress.
pub struct Search {
    /// The prompt to restore when the search ends.
    pub saved_prompt: String,
    /// The cursor to restore when the search is cancelled.
    pub saved_pos: usize,
    /// The history position to restore when the search is cancelled.
    pub saved_index: usize,
    /// What has been typed to search for.
    pub needle: String,
    /// Bytes of the needle shown as matched.
    pub matched: usize,
    /// The last search found nothing.
    pub failed: bool,
}

/// What a key did to a search.
pub enum SearchStep {
    /// Keep searching: draw the line under the new prompt and read a key.
    Continue,
    /// The search is over; the key that ended it, if any, is to be acted on
    /// as an ordinary key.
    Done(Option<KeySeq>),
}

/// The search's display state is consistent: the matched part ends on a
/// character boundary of the needle.
pub open spec fn search_wf(s: Search) -> bool {
    s.matched <= byte_len(s.needle@) && is_boundary_in(s.needle@, s.matched as int)
}

/// The entry a search starts from and how far into it matches may end,
/// from history index `hi` in a history of `len` entries with the cursor at
/// byte `cursor`: the typed line is not in the history, so from it the
/// search starts with the whole of the newest entry.
pub open spec fn search_origin(len: int, hi: int, cursor: int) -> (int, int) {
    match slot_spec(len, hi) {
        Some(slot) => (slot, cursor),
        None => (len - 1, usize::MAX as int),
    }
}

/// The needle after a key: backspace drops its last character, a typed
/// character is appended.
pub open spec fn needle_after(n: Seq<char>, k: Key) -> Seq<char> {
    match k {
        Key::Backspace | Key::Ctrl('h') => if n.len() > 0 {
            n.drop_last()
        } else {
            n
        },
        Key::Char(c) => n.push(c),
        _ => n,
    }
}

/// Where the search looks after a key, given its origin `(slot, limit)`:
/// `CTRL-R` steps past the current match, to an earlier one.
pub open spec fn search_point(slot: int, limit: int, k: Key) -> (int, int) {
    if k == Key::Ctrl('r') {
        if limit > 0 {
            (slot, limit - 1)
        } else if slot > 0 {
            (slot - 1, usize::MAX as int)
        } else {
            (slot, limit)
        }
    } else {
        (slot, limit)
    }
}

/// Whether a key continues the search rather than ending it.
pub open spec fn search_continues(k: Key) -> bool {
    match k {
        Key::Backspace | Key::Ctrl('h') | Key::Ctrl('r') | Key::Char(_) => true,
        _ => false,
    }
}

impl Rustline {
    /// Starts a reverse search, if there is any history to search.
    pub fn search_begin(&self, state: &mut EditorState) -> (r: Option<Search>)
        requires
            self.wf(),
            old(state).wf(),
        ensures
            final(state).wf(),
            self.entries().len() == 0 ==> r is None && *final(state) == *old(state),
            self.entries().len() > 0 ==> (r matches Some(s) && {
                &&& search_wf(s)
                &&& s.saved_prompt == old(state).prompt
                &&& s.saved_pos == offset(old(state).buffer.text(), old(state).buffer.pos())
                &&& s.saved_index == old(state).history_index
                &&& s.needle@ == Seq::<char>::empty()
                &&& !s.failed
                &&& final(state).prompt@ == search_prompt_text(false, Seq::empty(), 0)
                &&& final(state).buffer == old(state).buffer
                &&& final(state).history_index == old(state).history_index
                &&& final(state).dirty
            }),
    {
        proof {
            self.lemma_wf_iff();
        }
        if self.history.is_empty() {
            return None;
        }
        let saved_pos = state.buffer.cursor();
        let needle = String::new();
        proof {
            assert(offset(needle@, 0) == 0) by {
                assert(needle@.take(0) =~= Seq::<char>::empty());
            }
        }
        let mut prompt = search_prompt(false, needle.as_str(), 0);
        std::mem::swap(&mut prompt, &mut state.prompt);
        state.dirty = true;
        Some(Search { saved_prompt: prompt, saved_pos, saved_index: state.history_index, needle, matched: 0, failed: false })
    }

    /// Acts on a key typed during a reverse search.
    ///
    /// Backspace shortens the needle, a character lengthens it, and
    /// `CTRL-R` looks for an earlier match; each then searches backwards
    /// from the entry being shown and recalls the match it finds. `CTRL-G`
    /// cancels the search, going back to where it started; any other key
    /// ends it and is handed back.
    /// Searches for the needle from `(slot, limit)`, recalls the match it
    /// finds, and redraws the prompt.
    #[verifier::rlimit(40)]
    #[verifier::spinoff_prover]
    fn search_run(&mut self, state: &mut EditorState, search: &mut Search, slot: usize, limit: usize)
        requires
            old(self).wf(),
            old(state).wf(),
            search_wf(*old(search)),
        ensures
            final(self).wf(),
            final(state).wf(),
            search_wf(*final(search)),
            final(self).spec_config() == old(self).spec_config(),
            final(self).history_capacity() == old(self).history_capacity(),
            final(self).pending_keys() == old(self).pending_keys(),
            final(self).parser_state() == old(self).parser_state(),
            final(self).has_xlat_spec() == old(self).has_xlat_spec(),
            final(search).saved_prompt == old(search).saved_prompt,
            final(search).saved_pos == old(search).saved_pos,
            final(search).saved_index == old(search).saved_index,
            final(search).needle == old(search).needle,
            final(state).kill_ring == old(state).kill_ring,
            ({
                let n2 = old(search).needle@;
                let len = old(self).entries().len() as int;
                let limit2 = if limit + byte_len(n2) > usize::MAX { usize::MAX as int } else { limit + byte_len(n2) };
                &&& n2.len() == 0 ==> !final(search).failed && final(self).entries() == old(self).entries() && final(state).history_index == old(state).history_index && final(state).buffer == old(state).buffer
                &&& n2.len() > 0 ==> match crate::history::search_backward_spec(old(self).entries(), n2, slot as int, limit2) {
                    Some((found, off)) => {
                        let (e2, s2, hi2, t2) = goto_spec(old(self).entries(), old(state).scratch@, old(state).history_index as int, old(state).buffer.text(), if found < len { len - found } else { 0 });
                        &&& !final(search).failed
                        &&& final(search).matched == byte_len(n2)
                        &&& final(self).entries() == e2
                        &&& final(state).history_index == hi2
                        &&& t2.len() <= usize::MAX / 4 ==> final(state).buffer.text() == t2
                        &&& t2.len() > usize::MAX / 4 ==> final(state).buffer.text() == old(state).buffer.text()
                        &&& cursor_at(final(state).buffer, off as int)
                    },
                    None => final(search).failed && final(self).entries() == old(self).entries() && final(state).history_index == old(state).history_index && final(state).buffer == old(state).buffer,
                }
                &&& forall|j: int| 0 <= j <= n2.len() && offset(n2, j) == final(search).matched ==> final(state).prompt@ == #[trigger] search_prompt_text(final(search).failed, n2, j)
            }),
    {
        proof {
            self.lemma_wf_iff();
        }
        let nb = str_byte_len(search.needle.as_str());
        if nb == 0 {
            search.failed = false;
            proof {
                assert(search.needle@.len() == 0) by {
                    if search.needle@.len() > 0 {
                        crate::unicode::lemma_offset_full(search.needle@);
                        crate::unicode::lemma_offset_succ(search.needle@, 0);
                        crate::unicode::lemma_offset_mono(search.needle@, 1, search.needle@.len() as int);
                        crate::unicode::lemma_char_len_is_encoding_len(search.needle@[0]);
                    }
                }
            }
            state.prompt = search_prompt(search.failed, search.needle.as_str(), search.matched);
            return;
        }
        let limit2 = if limit > usize::MAX - nb {
            usize::MAX
        } else {
            limit + nb
        };
        match self.history.search_backward(search.needle.as_str(), slot, limit2) {
            Some((found, off)) => {
                let index = self.index_of(found);
                self.history_goto(state, index);
                state.buffer.set_cursor(off);
                search.matched = nb;
                search.failed = false;
                proof {
                    crate::unicode::lemma_offset_full(search.needle@);
                }
            },
            None => {
                search.failed = true;
            },
        }
        state.prompt = search_prompt(search.failed, search.needle.as_str(), search.matched);
    }

    /// Acts on a key typed during a reverse search.
    ///
    /// Backspace shortens the needle, a character lengthens it, and
    /// `CTRL-R` looks for an earlier match; each then searches backwards
    /// from the entry being shown and recalls the match it finds. `CTRL-G`
    /// cancels the search, going back to where it started; any other key
    /// ends it and is handed back.
    #[verifier::rlimit(60)]
    #[verifier::spinoff_prover]
    pub fn search_key(&mut self, state: &mut EditorState, search: &mut Search, key: KeySeq) -> (r: SearchStep)
        requires
            old(self).wf(),
            old(state).wf(),
            search_wf(*old(search)),
        ensures
            final(self).wf(),
            final(state).wf(),
            search_wf(*final(search)),
            final(self).spec_config() == old(self).spec_config(),
            final(self).history_capacity() == old(self).history_capacity(),
            final(self).pending_keys() == old(self).pending_keys(),
            final(self).parser_state() == old(self).parser_state(),
            final(self).has_xlat_spec() == old(self).has_xlat_spec(),
            final(search).saved_prompt == old(search).saved_prompt,
            final(search).saved_pos == old(search).saved_pos,
            final(search).saved_index == old(search).saved_index,
            final(state).kill_ring == old(state).kill_ring,
            ({
                let k = key@;
                let len = old(self).entries().len() as int;
                let cursor = offset(old(state).buffer.text(), old(state).buffer.pos());
                let n2 = needle_after(old(search).needle@, k);
                let (slot0, limit0) = search_origin(len, old(state).history_index as int, cursor as int);
                let (slot, limit) = search_point(slot0, limit0, k);
                let limit2 = if limit + byte_len(n2) > usize::MAX { usize::MAX as int } else { limit + byte_len(n2) };
                if k == Key::Ctrl('g') {
                    let (e2, s2, hi2, t2) = goto_spec(old(self).entries(), old(state).scratch@, old(state).history_index as int, old(state).buffer.text(), old(search).saved_index as int);
                    &&& r matches SearchStep::Done(None)
                    &&& final(self).entries() == e2
                    &&& final(state).history_index == hi2
                    &&& t2.len() <= usize::MAX / 4 ==> final(state).buffer.text() == t2
                    &&& t2.len() > usize::MAX / 4 ==> final(state).buffer.text() == old(state).buffer.text()
                    &&& cursor_at(final(state).buffer, old(search).saved_pos as int)
                } else if !search_continues(k) {
                    &&& r matches SearchStep::Done(Some(k2)) && k2@ == k
                    &&& *final(state) == *old(state)
                    &&& *final(search) == *old(search)
                    &&& final(self).entries() == old(self).entries()
                } else {
                    &&& r is Continue
                    &&& final(search).needle@ == n2
                    &&& n2.len() == 0 ==> !final(search).failed && final(self).entries() == old(self).entries() && final(state).history_index == old(state).history_index && final(state).buffer == old(state).buffer
                    &&& n2.len() > 0 && len > 0 ==> match crate::history::search_backward_spec(old(self).entries(), n2, slot, limit2) {
                        Some((found, off)) => {
                            let (e2, s2, hi2, t2) = goto_spec(old(self).entries(), old(state).scratch@, old(state).history_index as int, old(state).buffer.text(), if found < len { len - found } else { 0 });
                            &&& !final(search).failed
                            &&& final(search).matched == byte_len(n2)
                            &&& final(self).entries() == e2
                            &&& final(state).history_index == hi2
                            &&& t2.len() <= usize::MAX / 4 ==> final(state).buffer.text() == t2
                            &&& t2.len() > usize::MAX / 4 ==> final(state).buffer.text() == old(state).buffer.text()
                            &&& cursor_at(final(state).buffer, off as int)
                        },
                        None => final(search).failed && final(self).entries() == old(self).entries() && final(state).history_index == old(state).history_index && final(state).buffer == old(state).buffer,
                    }
                    &&& n2.len() > 0 && len == 0 ==> final(search).failed && final(self).entries() == old(self).entries() && final(state).buffer == old(state).buffer
                    &&& forall|j: int| 0 <= j <= n2.len() && offset(n2, j) == final(search).matched ==> final(state).prompt@ == #[trigger] search_prompt_text(final(search).failed, n2, j)
                }
            }),
    {
        proof {
            self.lemma_wf_iff();
            state.buffer.lemma_wf();
            self.history.lemma_wf();
        }
        let len = self.history.len();
        let hi = state.history_index;
        let cursor = state.buffer.cursor();
        let (mut slot, mut limit) = match self.slot_of(hi) {
            Some(sl) => (sl, cursor),
            None => (if len > 0 { len - 1 } else { 0 }, usize::MAX),
        };
        match key {
            KeySeq::Backspace | KeySeq::Ctrl('h') => {
                let mut v = chars_of(search.needle.as_str());
                if v.len() > 0 {
                    let ghost before = v@;
                    v.pop();
                    proof {
                        assert(v@ =~= before.drop_last());
                    }
                }
                search.needle = string_of(&v);
                let nb = str_byte_len(search.needle.as_str());
                if search.matched > nb {
                    search.matched = nb;
                }
                proof {
                    lemma_boundary_after_pop(old(search).needle@, old(search).matched as int, search.needle@);
                }
            },
            KeySeq::Ctrl('r') => {
                if limit > 0 {
                    limit = limit - 1;
                } else if slot > 0 {
                    slot = slot - 1;
                    limit = usize::MAX;
                }
            },
            KeySeq::Ctrl('g') => {
                let saved = search.saved_index;
                self.history_goto(state, saved);
                let pos = search.saved_pos;
                state.buffer.set_cursor(pos);
                return SearchStep::Done(None);
            },
            KeySeq::Char(c) => {
                let mut v = chars_of(search.needle.as_str());
                let _ = str_byte_len(search.needle.as_str());
                v.push(c);
                search.needle = string_of(&v);
                proof {
                    lemma_boundary_after_push(old(search).needle@, old(search).matched as int, c);
                }
            },
            _ => {
                return SearchStep::Done(Some(key));
            },
        }
        self.search_run(state, search, slot, limit);
        SearchStep::Continue
    }

    /// Ends a reverse search: the prompt comes back, and the key that ended
    /// the search, if any, is queued to be acted on next.
    pub fn search_end(&mut self, state: &mut EditorState, search: Search, terminator: Option<KeySeq>)
        requires
            old(self).wf(),
            old(state).wf(),
        ensures
            final(self).wf(),
            final(state).wf(),
            final(state).prompt == search.saved_prompt,
            final(state).dirty,
            final(state).buffer == old(state).buffer,
            final(state).history_index == old(state).history_index,
            final(self).entries() == old(self).entries(),
            final(self).spec_config() == old(self).spec_config(),
            final(self).history_capacity() == old(self).history_capacity(),
            final(self).has_xlat_spec() == old(self).has_xlat_spec(),
            final(self).parser_state() == old(self).parser_state(),
            match terminator {
                Some(k) => final(self).pending_keys() == seq![k@] + old(self).pending_keys(),
                None => final(self).pending_keys() == old(self).pending_keys(),
            },
    {
        state.prompt = search.saved_prompt;
        state.dirty = true;
        if let Some(k) = terminator {
            self.push_front_pending(k);
        }
    }
}

/// A byte offset that falls between characters of a text still does after
/// its last character is dropped, once it is clamped to the new length.
proof fn lemma_boundary_after_pop(n: Seq<char>, m: int, n2: Seq<char>)
    requires
        is_boundary_in(n, m),
        m <= byte_len(n),
        n2 == (if n.len() > 0 {
            n.drop_last()
        } else {
            n
        }),
    ensures
        ({
            let m2 = if m > byte_len(n2) {
                byte_len(n2) as int
            } else {
                m
            };
            is_boundary_in(n2, m2) && m2 <= byte_len(n2)
        }),
{
    crate::unicode::lemma_offset_full(n2);
    if n.len() > 0 {
        let k = choose|k: int| 0 <= k <= n.len() && offset(n, k) == m;
        crate::unicode::lemma_offset_full(n);
        assert(offset(n, n.len() - 1) == byte_len(n2)) by {
            assert(n.take(n.len() - 1) =~= n2);
        }
        if m <= byte_len(n2) {
            if k == n.len() {
                crate::unicode::lemma_offset_succ(n, n.len() - 1);
            }
            assert(k < n.len()) by {
                if k == n.len() {
                    crate::unicode::lemma_char_len_is_encoding_len(n[n.len() - 1]);
                }
            }
            assert(n2.take(k) =~= n.take(k));
            assert(offset(n2, k) == m);
        } else {
            assert(offset(n2, n2.len() as int) == byte_len(n2));
        }
    }
}

/// A boundary of a text is still one after a character is appended.
proof fn lemma_boundary_after_push(n: Seq<char>, m: int, c: char)
    requires
        is_boundary_in(n, m),
        m <= byte_len(n),
    ensures
        is_boundary_in(n.push(c), m),
        m <= byte_len(n.push(c)),
{
    let k = choose|k: int| 0 <= k <= n.len() && offset(n, k) == m;
    assert(n.push(c).take(k) =~= n.take(k));
    assert(offset(n.push(c), k) == m);
    assert(n.push(c).drop_last() =~= n);
}

// -------------------------------------------------------------- session

impl Rustline {
    /// State for one editing session on `ifd`/`ofd`: the prompt, the line
    /// pre-filled with `init` and the cursor after it, and the line masked
    /// when the configuration says so.
    pub fn new_session(&self, prompt: &str, init: &str, ifd: i32, ofd: i32, win_size: crate::terminal::WinSize) -> (s: EditorState)
        requires
            self.wf(),
        ensures
            s.wf(),
            init@.len() <= usize::MAX / 4 ==> s.buffer.text() == init@ && s.buffer.pos() == init@.len(),
            s.prompt@ == prompt@,
            s.continuation@ == self.spec_config().continuation_prompt@,
            s.mask == self.spec_config().mask_mode,
            s.history_index == 0,
            s.accumulated@ == Seq::<char>::empty(),
            s.win_size == win_size,
            s.ifd == ifd,
            s.ofd == ofd,
            s.dirty,
            !s.paste_mode,
            !s.paused,
            s.completion is None,
            s.last_yank is None,
    {
        proof {
            self.lemma_wf_iff();
        }
        let mut s = EditorState::new(prompt, self.config.continuation_prompt.as_str(), ifd, ofd, win_size);
        s.mask = self.config.mask_mode;
        if init.unicode_len() <= usize::MAX / 4 {
            s.buffer.insert(init);
            proof {
                assert(Seq::<char>::empty().take(0) + init@ + Seq::<char>::empty().skip(0) =~= init@);
            }
        }
        s.dirty = true;
        s
    }

    /// What to draw for the current state, or `None` while output is
    /// stopped. Hints and bracket highlighting are left out when the line is
    /// `finished` or masked, so the terminal is left showing exactly the
    /// text the caller receives.
    pub fn frame(&self, state: &mut EditorState, finished: bool) -> (r: Option<crate::display::Frame>)
        requires
            self.wf(),
            old(state).wf(),
        ensures
            final(state).wf(),
            old(state).paused ==> r is None && *final(state) == *old(state),
            !old(state).paused ==> (r matches Some(f) && {
                &&& !final(state).dirty
                &&& f.prompt == old(state).prompt
                &&& f.line@ == old(state).buffer.text()
                &&& f.cursor == offset(old(state).buffer.text(), old(state).buffer.pos())
                &&& f.mask == old(state).mask
                &&& f.finished == finished
                &&& (finished || old(state).mask || !self.spec_config().enable_hints) ==> f.hint is None
                &&& (finished || old(state).mask || !self.spec_config().highlight_brackets) ==> f.highlight is None
                &&& !(finished || old(state).mask || !self.spec_config().highlight_brackets) ==> f.highlight == crate::buffer::pair_offsets(
                    old(state).buffer.text(),
                    if mirror_left_spec(old(state).buffer.text(), old(state).buffer.pos()) is Some {
                        mirror_left_spec(old(state).buffer.text(), old(state).buffer.pos())
                    } else {
                        mirror_right_spec(old(state).buffer.text(), old(state).buffer.pos())
                    },
                )
            }),
            final(state).buffer == old(state).buffer,
            final(state).prompt == old(state).prompt,
            final(state).history_index == old(state).history_index,
    {
        proof {
            self.lemma_wf_iff();
        }
        if state.paused {
            return None;
        }
        state.dirty = false;
        let cursor = state.buffer.cursor();
        let hint = if self.config.enable_hints && !finished && !state.mask {
            match self.hinter.hint(state.buffer.as_str(), cursor) {
                Some(h) => Some(h.render()),
                None => None,
            }
        } else {
            None
        };
        let highlight = if self.config.highlight_brackets && !finished && !state.mask {
            state.buffer.mirror_match()
        } else {
            None
        };
        Some(crate::display::Frame {
            prompt: state.prompt.clone(),
            line: state.buffer.as_str().to_owned(),
            cursor,
            hint,
            mask: state.mask,
            highlight,
            finished,
        })
    }
}

} // verus!
