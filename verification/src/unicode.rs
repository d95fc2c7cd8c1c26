//! Character classes, UTF-8 lengths and display widths used by the editing
//! operations and the renderer.

use unicode_width::{UnicodeWidthChar, UnicodeWidthStr};
use vstd::prelude::*;
use vstd::utf8::*;

verus! {

// ------------------------------------------------------------ UTF-8 lengths

/// Number of bytes in the UTF-8 encoding of `c`.
pub open spec fn char_len(c: char) -> nat {
    if (c as u32) < 0x80 {
        1
    } else if (c as u32) < 0x800 {
        2
    } else if (c as u32) < 0x10000 {
        3
    } else {
        4
    }
}

/// Number of bytes in the UTF-8 encoding of `s`.
pub open spec fn byte_len(s: Seq<char>) -> nat
    decreases s.len(),
{
    if s.len() == 0 {
        0
    } else {
        byte_len(s.drop_last()) + char_len(s.last())
    }
}

/// Byte offset of the character boundary before character `i` of `s`.
pub open spec fn offset(s: Seq<char>, i: int) -> nat {
    byte_len(s.take(i))
}

/// `char_len` is the length of the UTF-8 encoding that `vstd` defines.
pub proof fn lemma_char_len_is_encoding_len(c: char)
    ensures
        char_len(c) == encode_scalar(c as u32).len(),
        1 <= char_len(c) <= 4,
{
    char_is_scalar(c);
}

/// `byte_len` is the length of the UTF-8 encoding that `vstd` defines.
pub proof fn lemma_byte_len_is_encoding_len(s: Seq<char>)
    ensures
        byte_len(s) == encode_utf8(s).len(),
    decreases s.len(),
{
    if s.len() > 0 {
        lemma_byte_len_append(seq![s[0]], s.drop_first());
        assert(seq![s[0]] + s.drop_first() =~= s);
        lemma_byte_len_single(s[0]);
        lemma_char_len_is_encoding_len(s[0]);
        lemma_byte_len_is_encoding_len(s.drop_first());
    }
}

pub proof fn lemma_byte_len_single(c: char)
    ensures
        byte_len(seq![c]) == char_len(c),
{
    assert(seq![c].drop_last() =~= Seq::<char>::empty());
    assert(byte_len(Seq::<char>::empty()) == 0);
}

/// The encoded length of a concatenation is the sum of the lengths.
pub proof fn lemma_byte_len_append(a: Seq<char>, b: Seq<char>)
    ensures
        byte_len(a + b) == byte_len(a) + byte_len(b),
    decreases b.len(),
{
    if b.len() == 0 {
        assert(a + b =~= a);
    } else {
        assert((a + b).drop_last() =~= a + b.drop_last());
        lemma_byte_len_append(a, b.drop_last());
    }
}

/// Adding a character to a prefix adds its length.
pub proof fn lemma_offset_succ(s: Seq<char>, i: int)
    requires
        0 <= i < s.len(),
    ensures
        offset(s, i + 1) == offset(s, i) + char_len(s[i]),
{
    assert(s.take(i + 1).drop_last() =~= s.take(i));
}

/// Offsets strictly increase with the character index.
pub proof fn lemma_offset_mono(s: Seq<char>, i: int, j: int)
    requires
        0 <= i <= j <= s.len(),
    ensures
        offset(s, i) <= offset(s, j),
        i < j ==> offset(s, i) < offset(s, j),
    decreases j - i,
{
    if i < j {
        lemma_offset_succ(s, j - 1);
        lemma_offset_mono(s, i, j - 1);
    }
}

/// Two offsets are equal only at the same index.
pub proof fn lemma_offset_injective(s: Seq<char>, i: int, j: int)
    requires
        0 <= i <= s.len(),
        0 <= j <= s.len(),
        offset(s, i) == offset(s, j),
    ensures
        i == j,
{
    if i < j {
        lemma_offset_mono(s, i, j);
    } else if j < i {
        lemma_offset_mono(s, j, i);
    }
}

/// The offset of the whole sequence is its length in bytes.
pub proof fn lemma_offset_full(s: Seq<char>)
    ensures
        offset(s, s.len() as int) == byte_len(s),
{
    assert(s.take(s.len() as int) =~= s);
}

/// The offset of character `k` is `char_len` of the first character plus the
/// offset of `k - 1` in the rest.
pub proof fn lemma_offset_first(s: Seq<char>, k: int)
    requires
        1 <= k <= s.len(),
    ensures
        offset(s, k) == char_len(s[0]) + offset(s.drop_first(), k - 1),
{
    assert(s.take(k) =~= seq![s[0]] + s.drop_first().take(k - 1));
    lemma_byte_len_append(seq![s[0]], s.drop_first().take(k - 1));
    lemma_byte_len_single(s[0]);
}

/// Every character offset is a character boundary of the UTF-8 encoding.
pub proof fn lemma_offset_is_char_boundary(s: Seq<char>, k: int)
    requires
        0 <= k <= s.len(),
    ensures
        is_char_boundary(encode_utf8(s), offset(s, k) as int),
    decreases k,
{
    broadcast use encode_utf8_valid_utf8;

    if k == 0 {
        assert(s.take(0) =~= Seq::<char>::empty());
        assert(offset(s, 0) == 0);
    } else {
        let bytes = encode_utf8(s);
        encode_utf8_first_scalar(s);
        lemma_char_len_is_encoding_len(s[0]);
        assert(pop_first_scalar(bytes) =~= encode_utf8(s.drop_first()));
        lemma_offset_first(s, k);
        lemma_offset_is_char_boundary(s.drop_first(), k - 1);
        lemma_byte_len_is_encoding_len(s);
        lemma_offset_le_total_u(s, k);
    }
}

proof fn lemma_offset_le_total_u(s: Seq<char>, i: int)
    requires
        0 <= i <= s.len(),
    ensures
        offset(s, i) <= byte_len(s),
{
    lemma_offset_mono(s, i, s.len() as int);
    lemma_offset_full(s);
}

/// Returns the UTF-8 length of `c`.
pub fn len_utf8(c: char) -> (n: usize)
    ensures
        n == char_len(c),
        1 <= n <= 4,
{
    let u = c as u32;
    if u < 0x80 {
        1
    } else if u < 0x800 {
        2
    } else if u < 0x10000 {
        3
    } else {
        4
    }
}

// ---------------------------------------------------------- character classes

/// The Unicode `White_Space` property, which is what `char::is_whitespace`
/// tests.
pub open spec fn spec_is_whitespace(c: char) -> bool {
    let u = c as u32;
    ||| 0x09 <= u <= 0x0d
    ||| u == 0x20
    ||| u == 0x85
    ||| u == 0xa0
    ||| u == 0x1680
    ||| 0x2000 <= u <= 0x200a
    ||| u == 0x2028
    ||| u == 0x2029
    ||| u == 0x202f
    ||| u == 0x205f
    ||| u == 0x3000
}

/// Whether `c` is whitespace in the sense of the Unicode `White_Space`
/// property.
pub fn is_whitespace(c: char) -> (r: bool)
    ensures
        r == spec_is_whitespace(c),
{
    let u = c as u32;
    (0x09 <= u && u <= 0x0d) || u == 0x20 || u == 0x85 || u == 0xa0 || u == 0x1680 || (0x2000
        <= u && u <= 0x200a) || u == 0x2028 || u == 0x2029 || u == 0x202f || u == 0x205f || u
        == 0x3000
}

/// ASCII letters and digits.
pub open spec fn is_ascii_alnum(c: char) -> bool {
    ('a' <= c && c <= 'z') || ('A' <= c && c <= 'Z') || ('0' <= c && c <= '9')
}

/// What `char::is_alphanumeric` answers for `c`: the Unicode `Alphabetic` or
/// `Numeric` property.
pub uninterp spec fn unicode_alphanumeric(c: char) -> bool;

/// Calls `char::is_alphanumeric`. Its result is named `unicode_alphanumeric`;
/// for ASCII input it is exactly the letters and digits, as the Unicode
/// property tables give them.
#[verifier::external_body]
fn alphanumeric(c: char) -> (r: bool)
    ensures
        r == unicode_alphanumeric(c),
        (c as u32) < 0x80 ==> (r <==> is_ascii_alnum(c)),
{
    c.is_alphanumeric()
}

/// Word separators: everything that is not a letter or a digit.
pub open spec fn spec_is_separator(c: char) -> bool {
    !unicode_alphanumeric(c)
}

/// Returns whether `c` separates words.
pub fn is_separator(c: char) -> (r: bool)
    ensures
        r == spec_is_separator(c),
        (c as u32) < 0x80 ==> (r <==> !is_ascii_alnum(c)),
{
    !alphanumeric(c)
}

/// The opening bracket paired with the closing bracket `c`.
pub open spec fn spec_mirror_left(c: char) -> Option<char> {
    if c == ')' {
        Some('(')
    } else if c == ']' {
        Some('[')
    } else if c == '}' {
        Some('{')
    } else if c == '>' {
        Some('<')
    } else {
        None
    }
}

/// The closing bracket paired with the opening bracket `c`.
pub open spec fn spec_mirror_right(c: char) -> Option<char> {
    if c == '(' {
        Some(')')
    } else if c == '[' {
        Some(']')
    } else if c == '{' {
        Some('}')
    } else if c == '<' {
        Some('>')
    } else {
        None
    }
}

/// Returns the opening bracket for a closing bracket.
pub fn mirror_left(c: char) -> (r: Option<char>)
    ensures
        r == spec_mirror_left(c),
{
    if c == ')' {
        Some('(')
    } else if c == ']' {
        Some('[')
    } else if c == '}' {
        Some('{')
    } else if c == '>' {
        Some('<')
    } else {
        None
    }
}

/// Returns the closing bracket for an opening bracket.
pub fn mirror_right(c: char) -> (r: Option<char>)
    ensures
        r == spec_mirror_right(c),
{
    if c == '(' {
        Some(')')
    } else if c == '[' {
        Some(']')
    } else if c == '{' {
        Some('}')
    } else if c == '<' {
        Some('>')
    } else {
        None
    }
}

/// A separator that is not a bracket: what expression movement skips.
pub open spec fn spec_is_xeparator(c: char) -> bool {
    spec_is_separator(c) && spec_mirror_left(c).is_none() && spec_mirror_right(c).is_none()
}

/// Returns whether `c` is a separator other than a bracket.
pub fn is_xeparator(c: char) -> (r: bool)
    ensures
        r == spec_is_xeparator(c),
{
    is_separator(c) && mirror_left(c).is_none() && mirror_right(c).is_none()
}

// ------------------------------------------------------------------ case

/// The first character of the lowercase mapping of `c`
/// (`c.to_lowercase().next()`, or `c` itself if the mapping is empty).
pub uninterp spec fn lowercase_of(c: char) -> char;

/// The first character of the uppercase mapping of `c`.
pub uninterp spec fn uppercase_of(c: char) -> char;

/// Calls `char::to_lowercase` and keeps its first character. The result is
/// named `lowercase_of`; for ASCII input it is the ASCII lowercase letter, as
/// the Unicode case tables give it.
#[verifier::external_body]
fn lowercase_first(c: char) -> (r: char)
    ensures
        r == lowercase_of(c),
        'A' <= c <= 'Z' ==> r as u32 == c as u32 + 32,
        (c as u32) < 0x80 && !('A' <= c <= 'Z') ==> r == c,
{
    c.to_lowercase().next().unwrap_or(c)
}

/// Calls `char::to_uppercase` and keeps its first character. The result is
/// named `uppercase_of`; for ASCII input it is the ASCII uppercase letter.
#[verifier::external_body]
fn uppercase_first(c: char) -> (r: char)
    ensures
        r == uppercase_of(c),
        'a' <= c <= 'z' ==> r as u32 == c as u32 - 32,
        (c as u32) < 0x80 && !('a' <= c <= 'z') ==> r == c,
{
    c.to_uppercase().next().unwrap_or(c)
}

/// Lowercases a single character.
pub fn to_lowercase(c: char) -> (r: char)
    ensures
        r == lowercase_of(c),
        'A' <= c <= 'Z' ==> r as u32 == c as u32 + 32,
        (c as u32) < 0x80 && !('A' <= c <= 'Z') ==> r == c,
{
    lowercase_first(c)
}

/// Uppercases a single character.
pub fn to_uppercase(c: char) -> (r: char)
    ensures
        r == uppercase_of(c),
        'a' <= c <= 'z' ==> r as u32 == c as u32 - 32,
        (c as u32) < 0x80 && !('a' <= c <= 'z') ==> r == c,
{
    uppercase_first(c)
}

// ------------------------------------------------------------------ widths

/// The column width `unicode-width` assigns to `c` on its own, `None` for a
/// control character.
pub uninterp spec fn columns_of(c: char) -> Option<usize>;

/// The column width `unicode-width` assigns to a whole string, which accounts
/// for ligatures and emoji sequences.
pub uninterp spec fn str_columns(s: Seq<char>) -> usize;

/// Calls `UnicodeWidthChar::width`. The result is named `columns_of`; the
/// crate returns `None` exactly for the C0 and C1 control characters, `1` for
/// printable ASCII, and never more than `3` (its lookup table stores two-bit
/// widths, and the one wider entry is `3`).
#[verifier::external_body]
fn unicode_char_width(c: char) -> (r: Option<usize>)
    ensures
        r == columns_of(c),
        r is None <==> ((c as u32) < 0x20 || (0x7f <= (c as u32) && (c as u32) < 0xa0)),
        0x20 <= (c as u32) < 0x7f ==> r == Some(1usize),
        r matches Some(w) ==> w <= 3,
{
    c.width()
}

/// Calls `UnicodeWidthStr::width`. The result is named `str_columns`.
#[verifier::external_body]
pub(crate) fn unicode_str_width(s: &str) -> (r: usize)
    ensures
        r == str_columns(s@),
{
    s.width()
}

/// Display width of a single character, zero for control characters.
pub open spec fn spec_char_width(c: char) -> nat {
    match columns_of(c) {
        Some(w) => w as nat,
        None => 0,
    }
}

/// Returns the number of terminal columns `c` occupies.
pub fn char_width(c: char) -> (r: usize)
    ensures
        r == spec_char_width(c),
        r <= 3,
        ((c as u32) < 0x20 || (0x7f <= (c as u32) && (c as u32) < 0xa0)) ==> r == 0,
{
    match unicode_char_width(c) {
        Some(w) => w,
        None => 0,
    }
}

/// Where the width scan stands: in text, after an `ESC`, or inside a control
/// sequence introduced by `ESC [`.
#[derive(Clone, Copy, PartialEq, Eq, Structural)]
pub enum WidthScan {
    Text,
    Escape,
    Csi,
}

/// One step of the width scan: the next state and the columns `c` adds.
pub open spec fn width_step(st: WidthScan, c: char) -> (WidthScan, nat) {
    match st {
        WidthScan::Text => if c == '\x1b' {
            (WidthScan::Escape, 0)
        } else {
            (WidthScan::Text, spec_char_width(c))
        },
        WidthScan::Escape => if c == '[' {
            (WidthScan::Csi, 0)
        } else {
            (WidthScan::Text, 0)
        },
        WidthScan::Csi => if 0x20 <= (c as u32) <= 0x3f {
            (WidthScan::Csi, 0)
        } else if 0x40 <= (c as u32) <= 0x7e {
            (WidthScan::Text, 0)
        } else if c == '\x1b' {
            (WidthScan::Escape, 0)
        } else {
            (WidthScan::Text, spec_char_width(c))
        },
    }
}

/// State and columns after scanning `s` from `st`.
pub open spec fn width_scan(st: WidthScan, s: Seq<char>) -> (WidthScan, nat)
    decreases s.len(),
{
    if s.len() == 0 {
        (st, 0)
    } else {
        let (st1, w1) = width_scan(st, s.drop_last());
        let (st2, w2) = width_step(st1, s.last());
        (st2, w1 + w2)
    }
}

/// Display width of text that may contain ANSI escape sequences: the escape
/// sequences occupy no columns.
pub open spec fn spec_display_width(s: Seq<char>) -> nat {
    width_scan(WidthScan::Text, s).1
}

/// One step of the width scan, as [`width_step`] defines it.
pub(crate) fn scan_step(st: WidthScan, c: char) -> (r: (WidthScan, usize))
    ensures
        (r.0, r.1 as nat) == width_step(st, c),
        r.1 <= 3,
{
    let cw = char_width(c);
    match st {
        WidthScan::Text => if c == '\x1b' {
            (WidthScan::Escape, 0)
        } else {
            (WidthScan::Text, cw)
        },
        WidthScan::Escape => if c == '[' {
            (WidthScan::Csi, 0)
        } else {
            (WidthScan::Text, 0)
        },
        WidthScan::Csi => {
            let u = c as u32;
            if 0x20 <= u && u <= 0x3f {
                (WidthScan::Csi, 0)
            } else if 0x40 <= u && u <= 0x7e {
                (WidthScan::Text, 0)
            } else if c == '\x1b' {
                (WidthScan::Escape, 0)
            } else {
                (WidthScan::Text, cw)
            }
        },
    }
}

/// Returns the number of columns `s` occupies on screen, skipping `ESC`
/// sequences such as colour codes.
pub fn display_width(s: &str) -> (r: usize)
    requires
        s@.len() * 3 <= usize::MAX,
    ensures
        r == spec_display_width(s@),
        r <= 3 * s@.len(),
{
    let n = s.unicode_len();
    let mut st = WidthScan::Text;
    let mut w: usize = 0;
    let mut i: usize = 0;
    while i < n
        invariant
            n == s@.len(),
            i <= n,
            n * 3 <= usize::MAX,
            width_scan(WidthScan::Text, s@.take(i as int)) == (st, w as nat),
            w <= 3 * i,
        decreases n - i,
    {
        let c = s.get_char(i);
        proof {
            assert(s@.take(i + 1).drop_last() =~= s@.take(i as int));
        }
        let (st2, add) = scan_step(st, c);
        st = st2;
        w = w + add;
        i = i + 1;
    }
    proof {
        assert(s@.take(n as int) =~= s@);
    }
    w
}

// ------------------------------------------------------------------- runes

/// One decoded character with its UTF-8 encoding.
#[derive(Debug, Clone, Copy)]
pub struct Rune {
    /// The Unicode scalar value.
    pub codepoint: u32,
    /// The UTF-8 encoding, padded with zero bytes.
    pub bytes: [u8; 4],
    /// How many of `bytes` the encoding uses.
    pub len: usize,
}

/// Calls `char::from_u32`, which answers the character with scalar value
/// `v`, or `None` when `v` is not a Unicode scalar value.
#[verifier::external_body]
fn char_from_u32(v: u32) -> (r: Option<char>)
    ensures
        r is Some <==> is_scalar(v),
        r matches Some(c) ==> c as u32 == v,
{
    char::from_u32(v)
}

impl Rune {
    /// Decodes `bytes`, which must all be valid UTF-8, as its first
    /// character. Returns `None` for empty or invalid input.
    pub fn decode(bytes: &[u8]) -> (r: Option<Self>)
        ensures
            r is Some <==> valid_utf8(bytes@) && bytes@.len() > 0,
            r matches Some(rune) ==> {
                let c = decode_utf8(bytes@)[0];
                &&& rune.codepoint == c as u32
                &&& rune.len == char_len(c)
                &&& rune.bytes@.take(rune.len as int) == encode_scalar(c as u32)
                &&& forall|i: int| rune.len <= i < 4 ==> rune.bytes@[i] == 0
            },
    {
        let s = match crate::parser::str_from_utf8(bytes) {
            Some(s) => s,
            None => return None,
        };
        proof {
            encode_utf8_decode_utf8(s@);
        }
        let v = crate::text::chars_of(s);
        if v.len() == 0 {
            proof {
                assert(encode_utf8(s@) =~= Seq::<u8>::empty());
            }
            return None;
        }
        let c = v[0];
        let n = len_utf8(c);
        let sb = s.as_bytes();
        proof {
            encode_utf8_first_scalar(s@);
            lemma_char_len_is_encoding_len(c);
            assert(encode_utf8(s@) == encode_scalar(c as u32) + encode_utf8(s@.drop_first()));
            assert(sb@.len() >= n);
        }
        let b0 = sb[0];
        let b1 = if n > 1 {
            sb[1]
        } else {
            0
        };
        let b2 = if n > 2 {
            sb[2]
        } else {
            0
        };
        let b3 = if n > 3 {
            sb[3]
        } else {
            0
        };
        let rune = Rune { codepoint: c as u32, bytes: [b0, b1, b2, b3], len: n };
        proof {
            assert(rune.bytes@.take(n as int) =~= encode_scalar(c as u32)) by {
                assert forall|i: int| 0 <= i < n implies rune.bytes@[i] == encode_scalar(c as u32)[i] by {
                    assert(encode_utf8(s@)[i] == encode_scalar(c as u32)[i]);
                }
            }
        }
        Some(rune)
    }

    /// Columns the character occupies, zero for a control character or a
    /// code point that is not a character.
    pub fn width(&self) -> (r: usize)
        ensures
            r == if is_scalar(self.codepoint) {
                spec_char_width(self.codepoint as char)
            } else {
                0
            },
    {
        match char_from_u32(self.codepoint) {
            Some(c) => {
                proof {
                    char_u32_cast(c, self.codepoint);
                }
                char_width(c)
            },
            None => char_width('\0'),
        }
    }
}

} // verus!
