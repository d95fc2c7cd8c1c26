//! Incremental ANSI / UTF-8 keyboard input parser.
//!
//! Terminals deliver keystrokes as byte sequences that may be split across
//! `read` boundaries, so the parser is a resumable state machine: feed it
//! whatever bytes arrive and it returns the complete keys recognized so far,
//! retaining any partial sequence for the next call.
//!
//! The machine is specified byte by byte by [`step_spec`]; [`Parser::parse`]
//! is proved to follow it, and the laws at the end of the file follow from it.

use vstd::prelude::*;
use vstd::string::StringSliceAdditionalSpecFns;
use vstd::utf8::{decode_utf8, encode_utf8, encode_utf8_decode_utf8, valid_utf8};

verus! {

/// Longest run of `CSI` parameter and intermediate bytes kept.
///
/// No real terminal comes close: the longest sequence this crate decodes is
/// five bytes of parameters. The cap keeps a peer that never sends a final
/// byte from growing the buffer without bound.
pub const MAX_SEQ: usize = 64;

/// A decoded keystroke.
#[derive(Debug, Clone, PartialEq, Eq)]
pub enum KeySeq {
    /// A printable character.
    Char(char),
    /// A control chord. The payload is normalized to lowercase, so `0x01`
    /// decodes as `Ctrl('a')`. `Ctrl('@')` is `NUL`, produced by `CTRL-SPACE`.
    Ctrl(char),
    /// `ESC` followed by a printable character (meta / alt).
    Alt(char),
    /// `ESC` followed by a control chord, normalized like [`KeySeq::Ctrl`].
    CtrlAlt(char),
    /// Cursor up.
    Up,
    /// Cursor down.
    Down,
    /// Cursor left.
    Left,
    /// Cursor right.
    Right,
    /// `ALT` + cursor left, from either `ESC ESC [ D` or `CSI 1;3 D`.
    AltLeft,
    /// `ALT` + cursor right, from either `ESC ESC [ C` or `CSI 1;3 C`.
    AltRight,
    /// Home.
    Home,
    /// End.
    End,
    /// Insert.
    Insert,
    /// Forward delete.
    Delete,
    /// Page up.
    PageUp,
    /// Page down.
    PageDown,
    /// Tab (`0x09`).
    Tab,
    /// Carriage return (`0x0d`), which submits the line.
    Enter,
    /// Line feed (`0x0a`), which always starts a continuation line.
    LineFeed,
    /// Backspace (`0x7f`).
    Backspace,
    /// `ESC` followed by backspace, conventionally "kill word backwards".
    AltBackspace,
    /// Function key, 1-based.
    F(u8),
    /// Start of a bracketed paste (`CSI 200 ~`).
    BracketedPasteStart,
    /// End of a bracketed paste (`CSI 201 ~`).
    BracketedPasteEnd,
    /// Bytes that did not form a recognized sequence.
    Unknown(Vec<u8>),
}

/// A keystroke as a mathematical value, with the bytes of an unrecognized
/// sequence as a sequence.
pub enum Key {
    Char(char),
    Ctrl(char),
    Alt(char),
    CtrlAlt(char),
    Up,
    Down,
    Left,
    Right,
    AltLeft,
    AltRight,
    Home,
    End,
    Insert,
    Delete,
    PageUp,
    PageDown,
    Tab,
    Enter,
    LineFeed,
    Backspace,
    AltBackspace,
    F(u8),
    BracketedPasteStart,
    BracketedPasteEnd,
    Unknown(Seq<u8>),
}

impl View for KeySeq {
    type V = Key;

    open spec fn view(&self) -> Key {
        match self {
            KeySeq::Char(c) => Key::Char(*c),
            KeySeq::Ctrl(c) => Key::Ctrl(*c),
            KeySeq::Alt(c) => Key::Alt(*c),
            KeySeq::CtrlAlt(c) => Key::CtrlAlt(*c),
            KeySeq::Up => Key::Up,
            KeySeq::Down => Key::Down,
            KeySeq::Left => Key::Left,
            KeySeq::Right => Key::Right,
            KeySeq::AltLeft => Key::AltLeft,
            KeySeq::AltRight => Key::AltRight,
            KeySeq::Home => Key::Home,
            KeySeq::End => Key::End,
            KeySeq::Insert => Key::Insert,
            KeySeq::Delete => Key::Delete,
            KeySeq::PageUp => Key::PageUp,
            KeySeq::PageDown => Key::PageDown,
            KeySeq::Tab => Key::Tab,
            KeySeq::Enter => Key::Enter,
            KeySeq::LineFeed => Key::LineFeed,
            KeySeq::Backspace => Key::Backspace,
            KeySeq::AltBackspace => Key::AltBackspace,
            KeySeq::F(n) => Key::F(*n),
            KeySeq::BracketedPasteStart => Key::BracketedPasteStart,
            KeySeq::BracketedPasteEnd => Key::BracketedPasteEnd,
            KeySeq::Unknown(v) => Key::Unknown(v@),
        }
    }
}

/// The views of a sequence of keys.
pub open spec fn key_views(ks: Seq<KeySeq>) -> Seq<Key> {
    Seq::new(ks.len(), |i: int| ks[i]@)
}

// ------------------------------------------------------- byte classes

/// The control character for a C0 byte: `0x01..=0x1a` map to `a..=z`, the
/// rest to the ASCII character `0x40` above them, as in `^X` notation.
pub open spec fn ctrl_char_spec(byte: u8) -> char {
    if 0x01 <= byte <= 0x1a {
        ((0x60 + byte) as u8) as char
    } else {
        ((byte + 0x40) as u8) as char
    }
}

/// Converts a C0 byte to its normalized control character.
pub fn ctrl_char(byte: u8) -> (c: char)
    requires
        byte <= 0x1f,
    ensures
        c == ctrl_char_spec(byte),
{
    if 0x01 <= byte && byte <= 0x1a {
        (0x60 + byte) as char
    } else {
        (byte + 0x40) as char
    }
}

/// Length of the UTF-8 sequence a lead byte begins, if it is a valid lead byte.
pub open spec fn utf8_len_spec(b: u8) -> Option<usize> {
    if b <= 0x7f {
        Some(1)
    } else if 0xc2 <= b <= 0xdf {
        Some(2)
    } else if 0xe0 <= b <= 0xef {
        Some(3)
    } else if 0xf0 <= b <= 0xf4 {
        Some(4)
    } else {
        None
    }
}

/// Number of bytes in a UTF-8 sequence beginning with `b`, or `None` if `b` is
/// not a valid lead byte.
pub fn utf8_len(b: u8) -> (r: Option<usize>)
    ensures
        r == utf8_len_spec(b),
{
    if b <= 0x7f {
        Some(1)
    } else if 0xc2 <= b && b <= 0xdf {
        Some(2)
    } else if 0xe0 <= b && b <= 0xef {
        Some(3)
    } else if 0xf0 <= b && b <= 0xf4 {
        Some(4)
    } else {
        None
    }
}

/// Calls `std::str::from_utf8`, which succeeds exactly when the bytes are
/// valid UTF-8 and then views the same bytes as a string.
#[verifier::external_body]
pub(crate) fn str_from_utf8(bytes: &[u8]) -> (r: Option<&str>)
    ensures
        r is Some <==> valid_utf8(bytes@),
        r matches Some(s) ==> s.spec_bytes() == bytes@,
{
    std::str::from_utf8(bytes).ok()
}

// ------------------------------------------------------ parameter lists

/// Decimal value of a run of ASCII digits.
pub open spec fn digits_value(d: Seq<u8>) -> int
    decreases d.len(),
{
    if d.len() == 0 {
        0
    } else {
        digits_value(d.drop_last()) * 10 + (d.last() - 0x30)
    }
}

pub open spec fn all_digits(d: Seq<u8>) -> bool {
    forall|i: int| 0 <= i < d.len() ==> 0x30 <= #[trigger] d[i] <= 0x39
}

/// What `str::parse::<u32>` makes of ASCII text: an optional `+`, then one
/// or more digits whose value fits in a `u32`.
pub open spec fn parse_u32_spec(f: Seq<u8>) -> Option<u32> {
    let d = if f.len() > 0 && f[0] == 0x2b {
        f.drop_first()
    } else {
        f
    };
    if d.len() > 0 && all_digits(d) && digits_value(d) <= u32::MAX {
        Some(digits_value(d) as u32)
    } else {
        None
    }
}

/// Field `n` of the `;`-separated list `s`, if there are that many.
pub open spec fn field(s: Seq<u8>, n: nat) -> Option<Seq<u8>>
    decreases s.len(),
{
    if s.len() == 0 {
        if n == 0 {
            Some(s)
        } else {
            None
        }
    } else if s[0] == 0x3b {
        if n == 0 {
            Some(Seq::empty())
        } else {
            field(s.drop_first(), (n - 1) as nat)
        }
    } else {
        match field(s.drop_first(), n) {
            Some(f) => if n == 0 {
                Some(seq![s[0]] + f)
            } else {
                Some(f)
            },
            None => None,
        }
    }
}

/// The numeric value of `;`-separated parameter `n` of `s`.
pub open spec fn param_spec(s: Seq<u8>, n: nat) -> Option<u32> {
    match field(s, n) {
        Some(f) => parse_u32_spec(f),
        None => None,
    }
}

proof fn lemma_digits_value_nonneg(d: Seq<u8>)
    requires
        all_digits(d),
    ensures
        digits_value(d) >= 0,
    decreases d.len(),
{
    if d.len() > 0 {
        assert(all_digits(d.drop_last()));
        lemma_digits_value_nonneg(d.drop_last());
    }
}

/// Parses `s[from..to]` as `str::parse::<u32>` would.
fn parse_u32(s: &Vec<u8>, from: usize, to: usize) -> (r: Option<u32>)
    requires
        from <= to <= s.len(),
    ensures
        r == parse_u32_spec(s@.subrange(from as int, to as int)),
{
    let f = Ghost(s@.subrange(from as int, to as int));
    let mut i = from;
    if i < to && s[i] == 0x2b {
        i = i + 1;
    }
    let d = Ghost(s@.subrange(i as int, to as int));
    proof {
        if f@.len() > 0 && f@[0] == 0x2b {
            assert(d@ =~= f@.drop_first());
        } else {
            assert(d@ =~= f@);
        }
    }
    if i == to {
        return None;
    }
    let start = i;
    let mut v: u64 = 0;
    while i < to
        invariant
            start <= i <= to <= s.len(),
            start < to,
            d@ == s@.subrange(start as int, to as int),
            f@ == s@.subrange(from as int, to as int),
            d@ == (if f@.len() > 0 && f@[0] == 0x2b {
                f@.drop_first()
            } else {
                f@
            }),
            all_digits(s@.subrange(start as int, i as int)),
            v == digits_value(s@.subrange(start as int, i as int)),
            v <= u32::MAX,
        decreases to - i,
    {
        let b = s[i];
        proof {
            assert(s@.subrange(start as int, i + 1).drop_last() =~= s@.subrange(
                start as int,
                i as int,
            ));
        }
        if b < 0x30 || b > 0x39 {
            proof {
                assert(d@[i - start] == b);
                assert(!(0x30 <= d@[i - start] <= 0x39));
            }
            return None;
        }
        let nv = v * 10 + (b - 0x30) as u64;
        if nv > 0xffff_ffff {
            proof {
                let pre = s@.subrange(start as int, i + 1);
                assert(pre.last() == b);
                assert(digits_value(pre) == v * 10 + (b - 0x30));
                assert(d@.take(i + 1 - start) =~= pre);
                assert forall|m: int| 0 <= m < pre.len() implies 0x30 <= #[trigger] pre[m] <= 0x39 by {
                    if m < pre.len() - 1 {
                        assert(pre[m] == s@.subrange(start as int, i as int)[m]);
                    }
                }
                // every further digit only grows the value
                lemma_digits_prefix_bound(d@, (i + 1 - start) as int);
            }
            return None;
        }
        proof {
            let pre = s@.subrange(start as int, i + 1);
            assert(pre.last() == b);
            assert forall|m: int| 0 <= m < pre.len() implies 0x30 <= #[trigger] pre[m] <= 0x39 by {
                if m < pre.len() - 1 {
                    assert(pre[m] == s@.subrange(start as int, i as int)[m]);
                }
            }
        }
        v = nv;
        i = i + 1;
    }
    proof {
        assert(s@.subrange(start as int, to as int) =~= d@);
    }
    Some(v as u32)
}

/// The value of a run of digits is at least the value of any prefix of it.
proof fn lemma_digits_prefix_bound(d: Seq<u8>, k: int)
    requires
        0 <= k <= d.len(),
        all_digits(d.take(k)),
        digits_value(d.take(k)) > u32::MAX,
    ensures
        !(all_digits(d) && digits_value(d) <= u32::MAX),
    decreases d.len() - k,
{
    if all_digits(d) {
        if k == d.len() {
            assert(d.take(k) =~= d);
        } else {
            assert(d.take(k + 1).drop_last() =~= d.take(k));
            assert(all_digits(d.take(k + 1)));
            lemma_digits_prefix_bound(d, k + 1);
        }
    }
}

/// Returns `;`-separated parameter `n` of `s`, parsed as a `u32`.
fn param(s: &Vec<u8>, n: usize) -> (r: Option<u32>)
    ensures
        r == param_spec(s@, n as nat),
{
    // Find the bounds of field `n`.
    let mut i: usize = 0;
    let mut k: usize = 0;
    proof {
        assert(s@.skip(0) =~= s@);
    }
    while k < n
        invariant
            i <= s.len(),
            k <= n,
            field(s@.skip(i as int), (n - k) as nat) == field(s@, n as nat),
        decreases n - k,
    {
        // skip to just past the next separator
        let ghost i0 = i;
        while i < s.len() && s[i] != 0x3b
            invariant
                i0 <= i <= s.len(),
                k < n,
                forall|j: int| i0 <= j < i ==> s@[j] != 0x3b,
                field(s@.skip(i as int), (n - k) as nat) == field(s@.skip(i0 as int), (n - k) as nat),
            decreases s.len() - i,
        {
            proof {
                let t = s@.skip(i as int);
                assert(t.drop_first() =~= s@.skip(i + 1));
                lemma_field_nonzero_skip(t, (n - k) as nat);
            }
            i = i + 1;
        }
        if i == s.len() {
            proof {
                let t = s@.skip(i as int);
                assert(t.len() == 0);
            }
            return None;
        }
        proof {
            let t = s@.skip(i as int);
            assert(t.drop_first() =~= s@.skip(i + 1));
        }
        i = i + 1;
        k = k + 1;
    }
    let mut j = i;
    while j < s.len() && s[j] != 0x3b
        invariant
            i <= j <= s.len(),
            forall|m: int| i <= m < j ==> s@[m] != 0x3b,
        decreases s.len() - j,
    {
        j = j + 1;
    }
    proof {
        lemma_field_zero(s@.skip(i as int), (j - i) as int);
        assert(s@.skip(i as int).take(j - i) =~= s@.subrange(i as int, j as int));
    }
    parse_u32(s, i, j)
}

proof fn lemma_field_nonzero_skip(t: Seq<u8>, n: nat)
    requires
        n > 0,
        t.len() > 0,
        t[0] != 0x3b,
    ensures
        field(t, n) == field(t.drop_first(), n),
{
}

/// Field 0 of `t` is its prefix up to the first separator at `j`.
proof fn lemma_field_zero(t: Seq<u8>, j: int)
    requires
        0 <= j <= t.len(),
        forall|m: int| 0 <= m < j ==> t[m] != 0x3b,
        j == t.len() || t[j] == 0x3b,
    ensures
        field(t, 0) == Some(t.take(j)),
    decreases t.len(),
{
    if t.len() == 0 {
        assert(t.take(j) =~= t);
    } else if j == 0 {
        assert(t.take(0) =~= Seq::<u8>::empty());
    } else {
        assert forall|m: int| 0 <= m < j - 1 implies t.drop_first()[m] != 0x3b by {
            assert(t.drop_first()[m] == t[m + 1]);
        }
        lemma_field_zero(t.drop_first(), j - 1);
        assert(seq![t[0]] + t.drop_first().take(j - 1) =~= t.take(j));
    }
}

// ------------------------------------------------------------ the machine

/// Where the parser stands.
#[derive(Debug, Clone, Copy, PartialEq, Eq, Structural)]
pub enum State {
    /// Outside any escape sequence.
    Ground,
    /// Saw `ESC`.
    Escape,
    /// Inside `CSI` parameter or intermediate bytes.
    Csi,
    /// Inside an `SS3` sequence (`ESC O`).
    Ss3,
    /// Accumulating a multi-byte UTF-8 character.
    Utf8,
}

/// The parser as a mathematical value.
pub struct ParserView {
    pub state: State,
    /// `CSI`/`SS3` bytes collected after the introducer.
    pub seq: Seq<u8>,
    /// Partial UTF-8 character.
    pub utf8: Seq<u8>,
    /// Total byte length of the UTF-8 character being accumulated.
    pub utf8_len: nat,
    /// Number of `ESC` bytes that introduced the current sequence.
    pub esc_count: u8,
}

/// The parser with every field cleared.
pub open spec fn reset_view(esc_count: u8, state: State) -> ParserView {
    ParserView { state, seq: Seq::empty(), utf8: Seq::empty(), utf8_len: 0, esc_count }
}

/// The idle parser.
pub open spec fn ground_view() -> ParserView {
    reset_view(0, State::Ground)
}

/// Whether the sequence carries an implicit `ALT`.
pub open spec fn alt_modified(v: ParserView) -> bool {
    v.esc_count == 2 || param_spec(v.seq, 1) == Some(3u32)
}

pub open spec fn arrow_left_spec(v: ParserView) -> Key {
    if alt_modified(v) {
        Key::AltLeft
    } else {
        Key::Left
    }
}

pub open spec fn arrow_right_spec(v: ParserView) -> Key {
    if alt_modified(v) {
        Key::AltRight
    } else {
        Key::Right
    }
}

/// The key a `CSI ... ~` sequence names, by its first parameter.
pub open spec fn decode_tilde_spec(v: ParserView) -> Option<Key> {
    match param_spec(v.seq, 0) {
        None => None,
        Some(n) => if n == 1 || n == 7 {
            Some(Key::Home)
        } else if n == 2 {
            Some(Key::Insert)
        } else if n == 3 {
            Some(Key::Delete)
        } else if n == 4 || n == 8 {
            Some(Key::End)
        } else if n == 5 {
            Some(Key::PageUp)
        } else if n == 6 {
            Some(Key::PageDown)
        } else if 11 <= n <= 15 {
            Some(Key::F((n - 10) as u8))
        } else if 17 <= n <= 21 {
            Some(Key::F((n - 11) as u8))
        } else if 23 <= n <= 26 {
            Some(Key::F((n - 12) as u8))
        } else if n == 200 {
            Some(Key::BracketedPasteStart)
        } else if n == 201 {
            Some(Key::BracketedPasteEnd)
        } else {
            None
        },
    }
}

/// The key a complete `CSI` sequence with final byte `b` names.
pub open spec fn decode_csi_spec(v: ParserView, b: u8) -> Option<Key> {
    if b == 0x41 {
        Some(Key::Up)
    } else if b == 0x42 {
        Some(Key::Down)
    } else if b == 0x43 {
        Some(arrow_right_spec(v))
    } else if b == 0x44 {
        Some(arrow_left_spec(v))
    } else if b == 0x48 {
        Some(Key::Home)
    } else if b == 0x46 {
        Some(Key::End)
    } else if b == 0x7e {
        decode_tilde_spec(v)
    } else {
        None
    }
}

pub open spec fn opt_keys(k: Option<Key>) -> Seq<Key> {
    match k {
        Some(k) => seq![k],
        None => Seq::empty(),
    }
}

/// Starting a UTF-8 character with lead byte `b`.
pub open spec fn begin_utf8_spec(v: ParserView, b: u8) -> (ParserView, Seq<Key>) {
    match utf8_len_spec(b) {
        None => (
            reset_view(
                v.esc_count,
                if v.esc_count > 0 {
                    State::Escape
                } else {
                    State::Ground
                },
            ),
            seq![Key::Unknown(seq![b])],
        ),
        Some(len) => (
            ParserView { state: State::Utf8, utf8: seq![b], utf8_len: len as nat, ..v },
            Seq::empty(),
        ),
    }
}

/// A byte in the ground state.
pub open spec fn ground_spec(v: ParserView, b: u8) -> (ParserView, Seq<Key>) {
    if b == 0x1b {
        (ParserView { state: State::Escape, esc_count: 1, ..v }, Seq::empty())
    } else if b == 0x09 {
        (v, seq![Key::Tab])
    } else if b == 0x0a {
        (v, seq![Key::LineFeed])
    } else if b == 0x0d {
        (v, seq![Key::Enter])
    } else if b == 0x7f {
        (v, seq![Key::Backspace])
    } else if b <= 0x1f {
        (v, seq![Key::Ctrl(ctrl_char_spec(b))])
    } else if b <= 0x7e {
        (v, seq![Key::Char((b as u8) as char)])
    } else {
        begin_utf8_spec(v, b)
    }
}

/// A byte after `ESC`.
pub open spec fn escape_spec(v: ParserView, b: u8) -> (ParserView, Seq<Key>) {
    if b == 0x1b && v.esc_count == 1 {
        (ParserView { esc_count: 2, ..v }, Seq::empty())
    } else if b == 0x5b {
        (ParserView { state: State::Csi, seq: Seq::empty(), ..v }, Seq::empty())
    } else if b == 0x4f {
        (ParserView { state: State::Ss3, seq: Seq::empty(), ..v }, Seq::empty())
    } else if b == 0x7f {
        (ground_view(), seq![Key::AltBackspace])
    } else if b <= 0x1f {
        (ground_view(), seq![Key::CtrlAlt(ctrl_char_spec(b))])
    } else if b <= 0x7e {
        (ground_view(), seq![Key::Alt((b as u8) as char)])
    } else {
        begin_utf8_spec(v, b)
    }
}

/// The bytes of an unrecognized `CSI` sequence ending in `b`.
pub open spec fn csi_bytes(v: ParserView, b: u8) -> Seq<u8> {
    seq![0x1bu8, 0x5bu8] + v.seq + seq![b]
}

/// A byte inside a `CSI` sequence.
pub open spec fn csi_spec(v: ParserView, b: u8) -> (ParserView, Seq<Key>) {
    if 0x20 <= b <= 0x3f {
        if v.seq.len() < MAX_SEQ {
            (ParserView { seq: v.seq.push(b), ..v }, Seq::empty())
        } else {
            (v, Seq::empty())
        }
    } else if 0x40 <= b <= 0x7e {
        if v.seq.len() < MAX_SEQ {
            (ground_view(), opt_keys(decode_csi_spec(v, b)))
        } else {
            (ground_view(), seq![Key::Unknown(csi_bytes(v, b))])
        }
    } else {
        (ground_view(), seq![Key::Unknown(csi_bytes(v, b))])
    }
}

/// The byte after `ESC O`.
pub open spec fn ss3_spec(v: ParserView, b: u8) -> (ParserView, Seq<Key>) {
    let k = if b == 0x41 {
        Some(Key::Up)
    } else if b == 0x42 {
        Some(Key::Down)
    } else if b == 0x43 {
        Some(arrow_right_spec(v))
    } else if b == 0x44 {
        Some(arrow_left_spec(v))
    } else if b == 0x48 {
        Some(Key::Home)
    } else if b == 0x46 {
        Some(Key::End)
    } else if 0x50 <= b <= 0x53 {
        Some(Key::F((b - 0x4f) as u8))
    } else {
        None
    };
    (ground_view(), opt_keys(k))
}

/// A byte while accumulating a UTF-8 character.
pub open spec fn utf8_spec(v: ParserView, b: u8) -> (ParserView, Seq<Key>) {
    if b & 0xc0 != 0x80 {
        let (v2, k2) = ground_spec(ground_view(), b);
        (v2, seq![Key::Unknown(v.utf8)] + k2)
    } else {
        let u = v.utf8.push(b);
        if u.len() < v.utf8_len {
            (ParserView { utf8: u, ..v }, Seq::empty())
        } else if valid_utf8(u) {
            let c = decode_utf8(u)[0];
            (
                ground_view(),
                seq![
                    if v.esc_count > 0 {
                        Key::Alt(c)
                    } else {
                        Key::Char(c)
                    },
                ],
            )
        } else {
            (ground_view(), seq![Key::Unknown(u)])
        }
    }
}

/// One byte of input: the next parser and the keys it completes.
pub open spec fn step_spec(v: ParserView, b: u8) -> (ParserView, Seq<Key>) {
    match v.state {
        State::Ground => ground_spec(v, b),
        State::Escape => escape_spec(v, b),
        State::Csi => csi_spec(v, b),
        State::Ss3 => ss3_spec(v, b),
        State::Utf8 => utf8_spec(v, b),
    }
}

/// Feeding `input` byte by byte: the final parser and every key completed.
pub open spec fn parse_spec(v: ParserView, input: Seq<u8>) -> (ParserView, Seq<Key>)
    decreases input.len(),
{
    if input.len() == 0 {
        (v, Seq::empty())
    } else {
        let (v1, k1) = parse_spec(v, input.drop_last());
        let (v2, k2) = step_spec(v1, input.last());
        (v2, k1 + k2)
    }
}

/// What every reachable parser satisfies: the parameter buffer is bounded
/// and holds only parameter bytes, and a partial character is shorter than
/// the character it begins.
pub open spec fn view_wf(v: ParserView) -> bool {
    &&& v.seq.len() <= MAX_SEQ
    &&& forall|i: int| 0 <= i < v.seq.len() ==> 0x20 <= #[trigger] v.seq[i] <= 0x3f
    &&& v.utf8_len <= 4
    &&& v.utf8.len() <= 4
    &&& v.state == State::Utf8 ==> 1 <= v.utf8.len() < v.utf8_len
    &&& v.esc_count <= 2
}

/// Resumable parser turning raw terminal bytes into [`KeySeq`] values.
pub struct Parser {
    state: State,
    seq: Vec<u8>,
    utf8: Vec<u8>,
    utf8_len: usize,
    esc_count: u8,
}


impl View for Parser {
    type V = ParserView;

    closed spec fn view(&self) -> ParserView {
        ParserView {
            state: self.state,
            seq: self.seq@,
            utf8: self.utf8@,
            utf8_len: self.utf8_len as nat,
            esc_count: self.esc_count,
        }
    }
}

proof fn lemma_key_views_push(ks: Seq<KeySeq>, k: KeySeq)
    ensures
        key_views(ks.push(k)) == key_views(ks) + seq![k@],
{
    assert(key_views(ks.push(k)) =~= key_views(ks) + seq![k@]);
}

fn push_key(keys: &mut Vec<KeySeq>, k: KeySeq)
    ensures
        key_views(final(keys)@) == key_views(old(keys)@) + seq![k@],
{
    proof {
        lemma_key_views_push(keys@, k);
    }
    keys.push(k);
}

impl Parser {
    /// The parser is in a state reachable from [`Parser::new`].
    pub open spec fn wf(&self) -> bool {
        view_wf(self@)
    }

    /// Creates a parser in the ground state.
    pub fn new() -> (p: Self)
        ensures
            p.wf(),
            p@ == ground_view(),
    {
        let p = Parser {
            state: State::Ground,
            seq: Vec::new(),
            utf8: Vec::new(),
            utf8_len: 0,
            esc_count: 0,
        };
        proof {
            assert(p@.seq =~= Seq::<u8>::empty());
            assert(p@.utf8 =~= Seq::<u8>::empty());
        }
        p
    }

    /// Feeds `input` to the parser, returning every key completed by it.
    ///
    /// A trailing partial sequence is retained; pass the following bytes to a
    /// later call to complete it.
    pub fn parse(&mut self, input: &[u8]) -> (keys: Vec<KeySeq>)
        requires
            old(self).wf(),
        ensures
            final(self).wf(),
            (final(self)@, key_views(keys@)) == parse_spec(old(self)@, input@),
    {
        let mut keys: Vec<KeySeq> = Vec::new();
        let mut i: usize = 0;
        proof {
            assert(input@.take(0) =~= Seq::<u8>::empty());
            assert(key_views(keys@) =~= Seq::<Key>::empty());
        }
        while i < input.len()
            invariant
                self.wf(),
                i <= input.len(),
                (self@, key_views(keys@)) == parse_spec(old(self)@, input@.take(i as int)),
            decreases input.len() - i,
        {
            proof {
                assert(input@.take(i + 1).drop_last() =~= input@.take(i as int));
            }
            let ghost before = key_views(keys@);
            self.step(input[i], &mut keys);
            proof {
                let (v1, k1) = parse_spec(old(self)@, input@.take(i as int));
                let (v2, k2) = step_spec(v1, input@[i as int]);
                assert(input@.take(i + 1).last() == input@[i as int]);
                assert(key_views(keys@) =~= k1 + k2);
            }
            i = i + 1;
        }
        proof {
            assert(input@.take(input.len() as int) =~= input@);
        }
        keys
    }

    /// Returns `true` when no sequence is partially consumed.
    pub fn is_idle(&self) -> (r: bool)
        ensures
            r == (self@.state == State::Ground),
    {
        match self.state {
            State::Ground => true,
            _ => false,
        }
    }

    /// Number of `CSI` parameter bytes currently held.
    pub fn sequence_len(&self) -> (r: usize)
        ensures
            r == self@.seq.len(),
    {
        self.seq.len()
    }

    fn step(&mut self, byte: u8, keys: &mut Vec<KeySeq>)
        requires
            old(self).wf(),
        ensures
            final(self).wf(),
            final(self)@ == step_spec(old(self)@, byte).0,
            key_views(final(keys)@) == key_views(old(keys)@) + step_spec(old(self)@, byte).1,
    {
        match self.state {
            State::Ground => self.ground(byte, keys),
            State::Escape => self.escape(byte, keys),
            State::Csi => self.csi(byte, keys),
            State::Ss3 => self.ss3(byte, keys),
            State::Utf8 => self.utf8(byte, keys),
        }
    }

    fn reset(&mut self)
        ensures
            final(self).wf(),
            final(self)@ == ground_view(),
    {
        self.state = State::Ground;
        self.seq.clear();
        self.utf8.clear();
        self.utf8_len = 0;
        self.esc_count = 0;
        proof {
            assert(self@.seq =~= Seq::<u8>::empty());
            assert(self@.utf8 =~= Seq::<u8>::empty());
        }
    }

    fn ground(&mut self, byte: u8, keys: &mut Vec<KeySeq>)
        requires
            old(self).wf(),
        ensures
            final(self).wf(),
            final(self)@ == ground_spec(old(self)@, byte).0,
            key_views(final(keys)@) == key_views(old(keys)@) + ground_spec(old(self)@, byte).1,
    {
        if byte == 0x1b {
            self.state = State::Escape;
            self.esc_count = 1;
        } else if byte == 0x09 {
            push_key(keys, KeySeq::Tab);
        } else if byte == 0x0a {
            push_key(keys, KeySeq::LineFeed);
        } else if byte == 0x0d {
            push_key(keys, KeySeq::Enter);
        } else if byte == 0x7f {
            push_key(keys, KeySeq::Backspace);
        } else if byte <= 0x1f {
            push_key(keys, KeySeq::Ctrl(ctrl_char(byte)));
        } else if byte <= 0x7e {
            push_key(keys, KeySeq::Char(byte as char));
        } else {
            self.begin_utf8(byte, keys);
        }
    }

    fn escape(&mut self, byte: u8, keys: &mut Vec<KeySeq>)
        requires
            old(self).wf(),
        ensures
            final(self).wf(),
            final(self)@ == escape_spec(old(self)@, byte).0,
            key_views(final(keys)@) == key_views(old(keys)@) + escape_spec(old(self)@, byte).1,
    {
        if byte == 0x1b && self.esc_count == 1 {
            self.esc_count = 2;
        } else if byte == 0x5b {
            self.state = State::Csi;
            self.seq.clear();
            proof {
                assert(self@.seq =~= Seq::<u8>::empty());
            }
        } else if byte == 0x4f {
            self.state = State::Ss3;
            self.seq.clear();
            proof {
                assert(self@.seq =~= Seq::<u8>::empty());
            }
        } else if byte == 0x7f {
            push_key(keys, KeySeq::AltBackspace);
            self.reset();
        } else if byte <= 0x1f {
            push_key(keys, KeySeq::CtrlAlt(ctrl_char(byte)));
            self.reset();
        } else if byte <= 0x7e {
            push_key(keys, KeySeq::Alt(byte as char));
            self.reset();
        } else {
            self.begin_utf8(byte, keys);
        }
    }

    /// The bytes of the current `CSI` sequence, ending in `byte`.
    fn csi_bytes(&self, byte: u8) -> (v: Vec<u8>)
        ensures
            v@ == csi_bytes(self@, byte),
    {
        let mut v: Vec<u8> = Vec::new();
        v.push(0x1b);
        v.push(0x5b);
        let mut i: usize = 0;
        while i < self.seq.len()
            invariant
                i <= self.seq.len(),
                v@ == seq![0x1bu8, 0x5bu8] + self.seq@.take(i as int),
            decreases self.seq.len() - i,
        {
            v.push(self.seq[i]);
            proof {
                assert(seq![0x1bu8, 0x5bu8] + self.seq@.take(i + 1) =~= (seq![0x1bu8, 0x5bu8]
                    + self.seq@.take(i as int)).push(self.seq@[i as int]));
            }
            i = i + 1;
        }
        v.push(byte);
        proof {
            assert(self.seq@.take(self.seq@.len() as int) =~= self.seq@);
            assert(v@ =~= csi_bytes(self@, byte));
        }
        v
    }

    fn csi(&mut self, byte: u8, keys: &mut Vec<KeySeq>)
        requires
            old(self).wf(),
        ensures
            final(self).wf(),
            final(self)@ == csi_spec(old(self)@, byte).0,
            key_views(final(keys)@) == key_views(old(keys)@) + csi_spec(old(self)@, byte).1,
    {
        if 0x20 <= byte && byte <= 0x3f {
            if self.seq.len() < MAX_SEQ {
                self.seq.push(byte);
                proof {
                    assert forall|i: int| 0 <= i < self@.seq.len() implies 0x20 <= #[trigger] self@.seq[i] <= 0x3f by {
                        if i < self@.seq.len() - 1 {
                            assert(self@.seq[i] == old(self)@.seq[i]);
                        }
                    }
                }
            }
        } else if 0x40 <= byte && byte <= 0x7e {
            if self.seq.len() < MAX_SEQ {
                match self.decode_csi(byte) {
                    Some(k) => {
                        push_key(keys, k);
                    },
                    None => {
                        proof {
                            assert(key_views(keys@) =~= key_views(keys@) + Seq::<Key>::empty());
                        }
                    },
                }
            } else {
                let bytes = self.csi_bytes(byte);
                push_key(keys, KeySeq::Unknown(bytes));
            }
            self.reset();
        } else {
            let bytes = self.csi_bytes(byte);
            push_key(keys, KeySeq::Unknown(bytes));
            self.reset();
        }
    }

    fn ss3(&mut self, byte: u8, keys: &mut Vec<KeySeq>)
        requires
            old(self).wf(),
        ensures
            final(self).wf(),
            final(self)@ == ss3_spec(old(self)@, byte).0,
            key_views(final(keys)@) == key_views(old(keys)@) + ss3_spec(old(self)@, byte).1,
    {
        let key = if byte == 0x41 {
            Some(KeySeq::Up)
        } else if byte == 0x42 {
            Some(KeySeq::Down)
        } else if byte == 0x43 {
            Some(self.arrow_right())
        } else if byte == 0x44 {
            Some(self.arrow_left())
        } else if byte == 0x48 {
            Some(KeySeq::Home)
        } else if byte == 0x46 {
            Some(KeySeq::End)
        } else if 0x50 <= byte && byte <= 0x53 {
            Some(KeySeq::F(byte - 0x4f))
        } else {
            None
        };
        match key {
            Some(k) => {
                push_key(keys, k);
            },
            None => {
                proof {
                    assert(key_views(keys@) =~= key_views(keys@) + Seq::<Key>::empty());
                }
            },
        }
        self.reset();
    }

    /// Whether the sequence carries an implicit `ALT`.
    fn alt_modified(&self) -> (r: bool)
        ensures
            r == alt_modified(self@),
    {
        if self.esc_count == 2 {
            return true;
        }
        match self.modifier() {
            Some(m) => m == 3,
            None => false,
        }
    }

    fn arrow_left(&self) -> (k: KeySeq)
        ensures
            k@ == arrow_left_spec(self@),
    {
        if self.alt_modified() {
            KeySeq::AltLeft
        } else {
            KeySeq::Left
        }
    }

    fn arrow_right(&self) -> (k: KeySeq)
        ensures
            k@ == arrow_right_spec(self@),
    {
        if self.alt_modified() {
            KeySeq::AltRight
        } else {
            KeySeq::Right
        }
    }

    /// Returns the `xterm` modifier parameter, the second `;`-separated field
    /// of the `CSI` parameter list. `3` means `ALT`.
    fn modifier(&self) -> (r: Option<u32>)
        ensures
            r == param_spec(self@.seq, 1),
    {
        param(&self.seq, 1)
    }

    /// Returns the first `;`-separated `CSI` parameter.
    fn first_param(&self) -> (r: Option<u32>)
        ensures
            r == param_spec(self@.seq, 0),
    {
        param(&self.seq, 0)
    }

    fn decode_csi(&self, final_byte: u8) -> (r: Option<KeySeq>)
        ensures
            opt_view(r) == decode_csi_spec(self@, final_byte),
    {
        if final_byte == 0x41 {
            Some(KeySeq::Up)
        } else if final_byte == 0x42 {
            Some(KeySeq::Down)
        } else if final_byte == 0x43 {
            Some(self.arrow_right())
        } else if final_byte == 0x44 {
            Some(self.arrow_left())
        } else if final_byte == 0x48 {
            Some(KeySeq::Home)
        } else if final_byte == 0x46 {
            Some(KeySeq::End)
        } else if final_byte == 0x7e {
            self.decode_tilde()
        } else {
            None
        }
    }

    fn decode_tilde(&self) -> (r: Option<KeySeq>)
        ensures
            opt_view(r) == decode_tilde_spec(self@),
    {
        let n = match self.first_param() {
            Some(n) => n,
            None => {
                return None;
            },
        };
        if n == 1 || n == 7 {
            Some(KeySeq::Home)
        } else if n == 2 {
            Some(KeySeq::Insert)
        } else if n == 3 {
            Some(KeySeq::Delete)
        } else if n == 4 || n == 8 {
            Some(KeySeq::End)
        } else if n == 5 {
            Some(KeySeq::PageUp)
        } else if n == 6 {
            Some(KeySeq::PageDown)
        } else if 11 <= n && n <= 15 {
            Some(KeySeq::F((n - 10) as u8))
        } else if 17 <= n && n <= 21 {
            Some(KeySeq::F((n - 11) as u8))
        } else if 23 <= n && n <= 26 {
            Some(KeySeq::F((n - 12) as u8))
        } else if n == 200 {
            Some(KeySeq::BracketedPasteStart)
        } else if n == 201 {
            Some(KeySeq::BracketedPasteEnd)
        } else {
            None
        }
    }

    /// Starts accumulating a UTF-8 character, emitting [`KeySeq::Unknown`] if
    /// `byte` cannot begin a valid sequence.
    fn begin_utf8(&mut self, byte: u8, keys: &mut Vec<KeySeq>)
        requires
            old(self).wf(),
            byte >= 0x80,
        ensures
            final(self).wf(),
            final(self)@ == begin_utf8_spec(old(self)@, byte).0,
            key_views(final(keys)@) == key_views(old(keys)@) + begin_utf8_spec(old(self)@, byte).1,
    {
        match utf8_len(byte) {
            None => {
                let mut bad: Vec<u8> = Vec::new();
                bad.push(byte);
                proof {
                    assert(bad@ =~= seq![byte]);
                }
                push_key(keys, KeySeq::Unknown(bad));
                let alt = self.esc_count;
                self.reset();
                // A pending ALT survives, so `ESC <bad byte> a` is still ALT-a.
                self.esc_count = alt;
                if alt > 0 {
                    self.state = State::Escape;
                }
            },
            Some(len) => {
                self.utf8.clear();
                self.utf8.push(byte);
                self.utf8_len = len;
                self.state = State::Utf8;
                proof {
                    assert(self@.utf8 =~= seq![byte]);
                }
            },
        }
    }

    fn utf8(&mut self, byte: u8, keys: &mut Vec<KeySeq>)
        requires
            old(self).wf(),
            old(self)@.state == State::Utf8,
        ensures
            final(self).wf(),
            final(self)@ == utf8_spec(old(self)@, byte).0,
            key_views(final(keys)@) == key_views(old(keys)@) + utf8_spec(old(self)@, byte).1,
    {
        if byte & 0xc0 != 0x80 {
            // Truncated sequence: report what we have, then reprocess this byte
            // from the ground state so no input is lost.
            let mut partial: Vec<u8> = Vec::new();
            std::mem::swap(&mut partial, &mut self.utf8);
            let ghost mid = key_views(keys@);
            push_key(keys, KeySeq::Unknown(partial));
            self.reset();
            self.ground(byte, keys);
            proof {
                let (v2, k2) = ground_spec(ground_view(), byte);
                assert(key_views(keys@) =~= key_views(old(keys)@) + (seq![Key::Unknown(old(self)@.utf8)] + k2));
            }
            return;
        }
        self.utf8.push(byte);
        if self.utf8.len() < self.utf8_len {
            return;
        }
        let alt = self.esc_count > 0;
        let decoded = str_from_utf8(self.utf8.as_slice());
        match decoded {
            Some(s) => {
                proof {
                    encode_utf8_decode_utf8(s@);
                    if s@.len() == 0 {
                        assert(encode_utf8(s@) =~= Seq::<u8>::empty());
                    }
                }
                let c = s.get_char(0);
                if alt {
                    push_key(keys, KeySeq::Alt(c));
                } else {
                    push_key(keys, KeySeq::Char(c));
                }
            },
            None => {
                let u = self.utf8.clone();
                push_key(keys, KeySeq::Unknown(u));
            },
        }
        self.reset();
    }
}

/// The view of an optional key.
pub open spec fn opt_view(k: Option<KeySeq>) -> Option<Key> {
    match k {
        Some(k) => Some(k@),
        None => None,
    }
}

impl Default for Parser {
    fn default() -> (p: Self)
        ensures
            p.wf(),
            p@ == ground_view(),
    {
        Parser::new()
    }
}

// ----------------------------------------------------------------- laws

/// Splitting the input into two reads changes nothing: parsing `a` and then
/// `b` from where `a` left the parser yields the same parser and the same
/// keys as parsing `a + b` at once.
pub proof fn law_chunking_does_not_change_the_result(v: ParserView, a: Seq<u8>, b: Seq<u8>)
    ensures
        ({
            let (va, ka) = parse_spec(v, a);
            let (vb, kb) = parse_spec(va, b);
            parse_spec(v, a + b) == (vb, ka + kb)
        }),
    decreases b.len(),
{
    if b.len() == 0 {
        assert(a + b =~= a);
        let (va, ka) = parse_spec(v, a);
        assert(ka + Seq::<Key>::empty() =~= ka);
    } else {
        assert((a + b).drop_last() =~= a + b.drop_last());
        assert((a + b).last() == b.last());
        law_chunking_does_not_change_the_result(v, a, b.drop_last());
        let (va, ka) = parse_spec(v, a);
        let (vb1, kb1) = parse_spec(va, b.drop_last());
        let (vb, kb2) = step_spec(vb1, b.last());
        assert(ka + kb1 + kb2 =~= ka + (kb1 + kb2));
    }
}

/// A lowercase letter always returns the parser to the ground state, so no
/// input can leave it stuck inside a partial sequence.
pub proof fn law_a_letter_ends_any_sequence(v: ParserView, b: u8)
    requires
        0x61 <= b <= 0x7a,
    ensures
        step_spec(v, b).0.state == State::Ground,
{
    assert(b & 0xc0 != 0x80) by (bit_vector)
        requires
            0x61 <= b <= 0x7a,
    ;
}

/// The key named by the final byte of a cursor-key sequence: `A` up, `B`
/// down, `C` right, `D` left, `H` home, `F` end.
pub open spec fn cursor_key_named(x: u8) -> Option<Key> {
    if x == 0x41 {
        Some(Key::Up)
    } else if x == 0x42 {
        Some(Key::Down)
    } else if x == 0x43 {
        Some(Key::Right)
    } else if x == 0x44 {
        Some(Key::Left)
    } else if x == 0x48 {
        Some(Key::Home)
    } else if x == 0x46 {
        Some(Key::End)
    } else {
        None
    }
}

/// A cursor key decodes to the same key whether the terminal sends it in
/// application mode (`ESC O x`) or in normal mode (`ESC [ x`): the key its
/// final byte names, and the parser is idle again afterwards.
pub proof fn law_cursor_keys_decode_alike_in_both_modes(x: u8)
    requires
        cursor_key_named(x) is Some,
    ensures
        parse_spec(ground_view(), seq![0x1bu8, 0x4fu8, x]) == (ground_view(), seq![cursor_key_named(x)->0]),
        parse_spec(ground_view(), seq![0x1bu8, 0x5bu8, x]) == (ground_view(), seq![cursor_key_named(x)->0]),
{
    reveal_with_fuel(parse_spec, 4);
    let o = seq![0x1bu8, 0x4fu8, x];
    let c = seq![0x1bu8, 0x5bu8, x];
    assert(o.drop_last().drop_last().drop_last() =~= Seq::<u8>::empty());
    assert(c.drop_last().drop_last().drop_last() =~= Seq::<u8>::empty());
    assert(o.drop_last().drop_last() =~= seq![0x1bu8]);
    assert(c.drop_last().drop_last() =~= seq![0x1bu8]);
    assert(o.drop_last() =~= seq![0x1bu8, 0x4fu8]);
    assert(c.drop_last() =~= seq![0x1bu8, 0x5bu8]);
    let v1 = ParserView { state: State::Escape, esc_count: 1, ..ground_view() };
    assert(parse_spec(ground_view(), seq![0x1bu8]).0 == v1);
    assert(param_spec(Seq::<u8>::empty(), 1) is None) by {
        reveal_with_fuel(field, 3);
    }
    assert(Seq::<Key>::empty() + Seq::<Key>::empty() + seq![cursor_key_named(x)->0] =~= seq![cursor_key_named(x)->0]);
}

/// In application mode `ESC O P` through `ESC O S` are the function keys
/// F1 through F4, in that order.
pub proof fn law_application_mode_function_keys(x: u8)
    requires
        0x50 <= x <= 0x53,
    ensures
        parse_spec(ground_view(), seq![0x1bu8, 0x4fu8, x]) == (ground_view(), seq![Key::F((x - 0x4f) as u8)]),
        1 <= x - 0x4f <= 4,
{
    reveal_with_fuel(parse_spec, 4);
    let o = seq![0x1bu8, 0x4fu8, x];
    assert(o.drop_last().drop_last().drop_last() =~= Seq::<u8>::empty());
    assert(o.drop_last().drop_last() =~= seq![0x1bu8]);
    assert(o.drop_last() =~= seq![0x1bu8, 0x4fu8]);
    assert(Seq::<Key>::empty() + Seq::<Key>::empty() + seq![Key::F((x - 0x4f) as u8)] =~= seq![Key::F((x - 0x4f) as u8)]);
}

/// Printable ASCII typed at an idle parser decodes back to itself, one
/// `Char` per byte, and leaves the parser idle.
pub proof fn law_printable_ascii_round_trips(text: Seq<u8>)
    requires
        forall|i: int| 0 <= i < text.len() ==> 0x20 <= #[trigger] text[i] <= 0x7e,
    ensures
        parse_spec(ground_view(), text) == (
            ground_view(),
            Seq::new(text.len(), |i: int| Key::Char((text[i] as u8) as char)),
        ),
    decreases text.len(),
{
    if text.len() == 0 {
        assert(Seq::new(0, |i: int| Key::Char((text[i] as u8) as char)) =~= Seq::<Key>::empty());
    } else {
        let t = text.drop_last();
        assert forall|i: int| 0 <= i < t.len() implies 0x20 <= #[trigger] t[i] <= 0x7e by {
            assert(t[i] == text[i]);
        }
        law_printable_ascii_round_trips(t);
        assert(0x20 <= text[text.len() - 1] <= 0x7e);
        assert(Seq::new(t.len(), |i: int| Key::Char((t[i] as u8) as char)) + seq![
            Key::Char((text.last() as u8) as char),
        ] =~= Seq::new(text.len(), |i: int| Key::Char((text[i] as u8) as char)));
    }
}

} // verus!
