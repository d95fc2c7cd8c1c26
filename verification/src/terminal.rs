//! Terminal geometry and the decisions made about the terminal.
//!
//! Reading the window size, the environment and the terminal's replies is
//! the caller's I/O; this module decides what those answers mean.

use crate::text::chars_of;
use crate::unicode::{is_whitespace, spec_is_whitespace};
use vstd::prelude::*;
use vstd::string::StringSliceAdditionalSpecFns;
use vstd::utf8::{decode_utf8, encode_utf8_decode_utf8, valid_utf8};
use crate::parser::str_from_utf8;

verus! {

/// Fallback height when the terminal will not report its own.
pub const DEFAULT_ROWS: u16 = 24;

/// Fallback width when the terminal will not report its own.
pub const DEFAULT_COLS: u16 = 80;

/// Size of the terminal window in character cells.
///
/// A size obtained through [`WinSize::clamped`] has both fields non-zero: a
/// terminal reporting zero is replaced by the conventional 80x24, because the
/// renderer divides by the column count.
#[derive(Debug, Clone, Copy, PartialEq, Eq, Structural)]
pub struct WinSize {
    /// Number of rows.
    pub rows: u16,
    /// Number of columns.
    pub cols: u16,
}

impl Default for WinSize {
    fn default() -> (r: Self)
        ensures
            r.rows == DEFAULT_ROWS,
            r.cols == DEFAULT_COLS,
    {
        WinSize { rows: DEFAULT_ROWS, cols: DEFAULT_COLS }
    }
}

impl WinSize {
    /// Replaces any zero dimension with the conventional default.
    pub fn clamped(self) -> (r: Self)
        ensures
            r.rows == if self.rows == 0 {
                DEFAULT_ROWS
            } else {
                self.rows
            },
            r.cols == if self.cols == 0 {
                DEFAULT_COLS
            } else {
                self.cols
            },
            r.rows > 0,
            r.cols > 0,
    {
        WinSize {
            rows: if self.rows == 0 {
                DEFAULT_ROWS
            } else {
                self.rows
            },
            cols: if self.cols == 0 {
                DEFAULT_COLS
            } else {
                self.cols
            },
        }
    }

    /// Columns as a `usize`, never zero: a zero width reads as the
    /// conventional default.
    pub fn cols(self) -> (r: usize)
        ensures
            r == if self.cols == 0 {
                DEFAULT_COLS
            } else {
                self.cols
            },
            r > 0,
    {
        if self.cols == 0 {
            DEFAULT_COLS as usize
        } else {
            self.cols as usize
        }
    }

    /// Rows as a `usize`, never zero: a zero height reads as the
    /// conventional default.
    pub fn rows(self) -> (r: usize)
        ensures
            r == if self.rows == 0 {
                DEFAULT_ROWS
            } else {
                self.rows
            },
            r > 0,
    {
        if self.rows == 0 {
            DEFAULT_ROWS as usize
        } else {
            self.rows as usize
        }
    }
}

/// Outcome of waiting for input.
#[derive(Debug, Clone, Copy, PartialEq, Eq, Structural)]
pub enum Wait {
    /// Input is available to read.
    Ready,
    /// The timeout elapsed.
    Timeout,
    /// A signal arrived. The caller should handle it and wait again.
    Interrupted,
}

// ------------------------------------------------------- terminal names

/// `c` with ASCII capitals lowered; every other character is unchanged.
pub open spec fn ascii_lower(c: char) -> char {
    if 'A' <= c <= 'Z' {
        ((c as u32) + 32) as char
    } else {
        c
    }
}

/// Equality of two texts ignoring the case of ASCII letters.
pub open spec fn eq_ignore_ascii_case(a: Seq<char>, b: Seq<char>) -> bool {
    a.len() == b.len() && forall|i: int| 0 <= i < a.len() ==> ascii_lower(#[trigger] a[i])
        == ascii_lower(b[i])
}

/// The terminals that cannot handle the escape sequences the editor emits.
pub open spec fn unsupported_terms() -> Seq<Seq<char>> {
    seq![seq!['d', 'u', 'm', 'b'], seq!['c', 'o', 'n', 's', '2', '5'], seq!['e', 'm', 'a', 'c', 's']]
}

fn lower(c: char) -> (r: char)
    ensures
        r == ascii_lower(c),
{
    if 'A' <= c && c <= 'Z' {
        let u = c as u8 + 32;
        u as char
    } else {
        c
    }
}

fn same_ignoring_ascii_case(a: &Vec<char>, b: &Vec<char>) -> (r: bool)
    ensures
        r == eq_ignore_ascii_case(a@, b@),
{
    if a.len() != b.len() {
        return false;
    }
    let mut i: usize = 0;
    while i < a.len()
        invariant
            a.len() == b.len(),
            i <= a.len(),
            forall|j: int| 0 <= j < i ==> ascii_lower(#[trigger] a@[j]) == ascii_lower(b@[j]),
        decreases a.len() - i,
    {
        if lower(a[i]) != lower(b[i]) {
            return false;
        }
        i = i + 1;
    }
    true
}

/// Whether `$TERM` naming `term` means the terminal cannot render escape
/// sequences. The comparison ignores ASCII case.
pub fn is_unsupported_term_name(term: &str) -> (r: bool)
    ensures
        r == exists|i: int|
            0 <= i < unsupported_terms().len() && eq_ignore_ascii_case(
                term@,
                #[trigger] unsupported_terms()[i],
            ),
{
    let t = chars_of(term);
    let names: Vec<Vec<char>> = vec![vec!['d', 'u', 'm', 'b'], vec!['c', 'o', 'n', 's', '2', '5'], vec!['e', 'm', 'a', 'c', 's']];
    proof {
        assert(names@[0]@ == unsupported_terms()[0]);
        assert(names@[1]@ == unsupported_terms()[1]);
        assert(names@[2]@ == unsupported_terms()[2]);
    }
    let mut i: usize = 0;
    while i < names.len()
        invariant
            names@.len() == 3,
            i <= 3,
            t@ == term@,
            forall|j: int| 0 <= j < 3 ==> (#[trigger] names@[j])@ == unsupported_terms()[j],
            forall|j: int| 0 <= j < i ==> !eq_ignore_ascii_case(term@, #[trigger] unsupported_terms()[j]),
        decreases 3 - i,
    {
        if same_ignoring_ascii_case(&t, &names[i]) {
            proof {
                assert(eq_ignore_ascii_case(term@, unsupported_terms()[i as int]));
            }
            return true;
        }
        i = i + 1;
    }
    false
}

// ------------------------------------------------------------ dimensions

/// `s` without leading and trailing whitespace.
pub open spec fn trim_ws(s: Seq<char>) -> Seq<char>
    decreases s.len(),
{
    if s.len() > 0 && spec_is_whitespace(s[0]) {
        trim_ws(s.drop_first())
    } else if s.len() > 0 && spec_is_whitespace(s.last()) {
        trim_ws(s.drop_last())
    } else {
        s
    }
}

/// Whether `c` is an ASCII digit.
pub open spec fn is_digit(c: char) -> bool {
    '0' <= c <= '9'
}

/// The number the digits of `s` spell, most significant first.
pub open spec fn digits_value(s: Seq<char>) -> nat
    decreases s.len(),
{
    if s.len() == 0 {
        0
    } else {
        digits_value(s.drop_last()) * 10 + ((s.last() as u32) - ('0' as u32)) as nat
    }
}

/// The `u16` that `str::parse` reads from `s`: an optional `+` and one or
/// more decimal digits whose value fits in a `u16`.
pub open spec fn parse_u16_spec(s: Seq<char>) -> Option<u16> {
    digits_u16(
        if s.len() > 0 && s[0] == '+' {
            s.drop_first()
        } else {
            s
        },
    )
}

/// Trimming a run of whitespace off the front.
proof fn lemma_trim_front(s: Seq<char>, k: int)
    requires
        0 <= k <= s.len(),
        forall|j: int| 0 <= j < k ==> spec_is_whitespace(#[trigger] s[j]),
    ensures
        trim_ws(s) == trim_ws(s.skip(k)),
    decreases k,
{
    if k > 0 {
        assert(s.drop_first().skip(k - 1) =~= s.skip(k));
        assert forall|j: int| 0 <= j < k - 1 implies spec_is_whitespace(#[trigger] s.drop_first()[j]) by {
            assert(s.drop_first()[j] == s[j + 1]);
        }
        lemma_trim_front(s.drop_first(), k - 1);
    } else {
        assert(s.skip(0) =~= s);
    }
}

/// Trimming a run of whitespace off the back, once the front is clean.
proof fn lemma_trim_back(s: Seq<char>, e: int)
    requires
        0 <= e <= s.len(),
        forall|j: int| e <= j < s.len() ==> spec_is_whitespace(#[trigger] s[j]),
        e > 0 ==> !spec_is_whitespace(s[0]),
        e > 0 ==> !spec_is_whitespace(s[e - 1]),
    ensures
        trim_ws(s) == s.take(e),
    decreases s.len(),
{
    if s.len() > e {
        assert(s.drop_last().take(e) =~= s.take(e));
        if s.len() > 0 && spec_is_whitespace(s[0]) {
            assert(e == 0);
            assert(s.drop_first().take(0) =~= s.take(0));
            assert forall|j: int| 0 <= j < s.drop_first().len() implies spec_is_whitespace(#[trigger] s.drop_first()[j]) by {
                assert(s.drop_first()[j] == s[j + 1]);
            }
            lemma_trim_back(s.drop_first(), 0);
        } else {
            lemma_trim_back(s.drop_last(), e);
        }
    } else {
        assert(s.take(e) =~= s);
        if s.len() > 0 {
            assert(!spec_is_whitespace(s[0]));
            assert(s.last() == s[e - 1]);
        }
    }
}

/// The whitespace-trimmed part of `v[from..to]`, as a range.
fn trim_range(v: &Vec<char>, from: usize, to: usize) -> (r: (usize, usize))
    requires
        from <= to <= v.len(),
    ensures
        from <= r.0 <= r.1 <= to,
        trim_ws(v@.subrange(from as int, to as int)) == v@.subrange(r.0 as int, r.1 as int),
{
    let ghost sub = v@.subrange(from as int, to as int);
    let mut start = from;
    while start < to && is_whitespace(v[start])
        invariant
            from <= start <= to <= v.len(),
            forall|j: int| from <= j < start ==> spec_is_whitespace(#[trigger] v@[j]),
        decreases to - start,
    {
        start = start + 1;
    }
    let mut end = to;
    while end > start && is_whitespace(v[end - 1])
        invariant
            from <= start <= end <= to <= v.len(),
            forall|j: int| end <= j < to ==> spec_is_whitespace(#[trigger] v@[j]),
        decreases end,
    {
        end = end - 1;
    }
    proof {
        assert forall|j: int| 0 <= j < start - from implies spec_is_whitespace(#[trigger] sub[j]) by {
            assert(sub[j] == v@[from + j]);
        }
        lemma_trim_front(sub, start - from);
        let sk = sub.skip(start - from);
        assert(sk =~= v@.subrange(start as int, to as int));
        assert forall|j: int| end - start <= j < sk.len() implies spec_is_whitespace(#[trigger] sk[j]) by {
            assert(sk[j] == v@[start + j]);
        }
        if end > start {
            assert(sk[0] == v@[start as int]);
            assert(sk[end - start - 1] == v@[end - 1]);
        }
        lemma_trim_back(sk, end - start);
        assert(sk.take(end - start) =~= v@.subrange(start as int, end as int));
    }
    (start, end)
}

/// The value of a non-empty run of digits that fits in a `u16`.
pub open spec fn digits_u16(d: Seq<char>) -> Option<u16> {
    if d.len() > 0 && (forall|i: int| 0 <= i < d.len() ==> is_digit(#[trigger] d[i]))
        && digits_value(d) <= u16::MAX {
        Some(digits_value(d) as u16)
    } else {
        None
    }
}

/// Reads the digits `v[i..end]` as a `u16`.
fn parse_digits(v: &Vec<char>, i: usize, end: usize) -> (r: Option<u16>)
    requires
        i <= end <= v.len(),
    ensures
        r == digits_u16(v@.subrange(i as int, end as int)),
{
    let ghost d = v@.subrange(i as int, end as int);
    if i == end {
        return None;
    }
    proof {
        assert(d.take(0) =~= Seq::<char>::empty());
    }
    let mut value: u32 = 0;
    let mut k = i;
    while k < end
        invariant
            i <= k <= end <= v.len(),
            d == v@.subrange(i as int, end as int),
            forall|j: int| i <= j < k ==> is_digit(#[trigger] v@[j]),
            value == digits_value(d.take(k - i)),
            value <= u16::MAX,
        decreases end - k,
    {
        let c = v[k];
        if !('0' <= c && c <= '9') {
            proof {
                assert(!is_digit(d[k - i]));
            }
            return None;
        }
        proof {
            assert(d.take(k + 1 - i).drop_last() =~= d.take(k - i));
            assert(d.take(k + 1 - i).last() == c);
        }
        let digit = (c as u32) - ('0' as u32);
        value = value * 10 + digit;
        if value > 65535 {
            proof {
                assert forall|j: int| 0 <= j < k + 1 - i implies is_digit(#[trigger] d[j]) by {
                    assert(d[j] == v@[i + j]);
                }
                if forall|j: int| 0 <= j < d.len() ==> is_digit(#[trigger] d[j]) {
                    lemma_digits_mono(d, k + 1 - i, d.len() as int);
                    assert(d.take(d.len() as int) =~= d);
                }
            }
            return None;
        }
        k = k + 1;
    }
    proof {
        assert(d.take(end - i) =~= d);
        assert forall|j: int| 0 <= j < d.len() implies is_digit(#[trigger] d[j]) by {
            assert(d[j] == v@[i + j]);
        }
    }
    Some(value as u16)
}

/// Reads the `u16` in `v[from..to]`, ignoring surrounding whitespace, the way
/// `str::trim` followed by `str::parse` does.
fn parse_u16_in(v: &Vec<char>, from: usize, to: usize) -> (r: Option<u16>)
    requires
        from <= to <= v.len(),
    ensures
        r == parse_u16_spec(trim_ws(v@.subrange(from as int, to as int))),
{
    let (start, end) = trim_range(v, from, to);
    let ghost t = v@.subrange(start as int, end as int);
    let mut i = start;
    if i < end && v[i] == '+' {
        i = i + 1;
    }
    proof {
        assert(v@.subrange(i as int, end as int) =~= if t.len() > 0 && t[0] == '+' {
            t.drop_first()
        } else {
            t
        });
    }
    parse_digits(v, i, end)
}

/// Parses a window dimension the way `$ROWS` and `$COLUMNS` are read:
/// surrounding whitespace is ignored, and only a positive number that fits
/// in a `u16` counts.
pub fn parse_dimension(s: &str) -> (r: Option<u16>)
    ensures
        r == (match parse_u16_spec(trim_ws(s@)) {
            Some(n) => if n > 0 {
                Some(n)
            } else {
                None
            },
            None => None,
        }),
{
    let v = chars_of(s);
    proof {
        assert(v@.subrange(0, v@.len() as int) =~= s@);
    }
    match parse_u16_in(&v, 0, v.len()) {
        Some(n) => if n > 0 {
            Some(n)
        } else {
            None
        },
        None => None,
    }
}

proof fn lemma_digits_mono(d: Seq<char>, k: int, m: int)
    requires
        0 <= k <= m <= d.len(),
        forall|j: int| 0 <= j < m ==> is_digit(#[trigger] d[j]),
    ensures
        digits_value(d.take(m)) >= digits_value(d.take(k)),
    decreases m - k,
{
    if m > k {
        lemma_digits_mono(d, k, m - 1);
        assert(d.take(m).drop_last() =~= d.take(m - 1));
        assert(is_digit(d[m - 1]));
        assert(d.take(m).last() == d[m - 1]);
        let p = digits_value(d.take(m - 1));
        assert(p * 10 >= p) by (nonlinear_arith)
            requires
                p >= 0,
        ;
    }
}

/// Fills each unknown (zero) dimension of `size` from `rows` and `cols`
/// where those are known.
pub fn fill_unknown(size: WinSize, rows: Option<u16>, cols: Option<u16>) -> (r: WinSize)
    ensures
        r.rows == if size.rows == 0 && rows is Some {
            rows->0
        } else {
            size.rows
        },
        r.cols == if size.cols == 0 && cols is Some {
            cols->0
        } else {
            size.cols
        },
{
    let mut s = size;
    if s.rows == 0 {
        if let Some(r) = rows {
            s.rows = r;
        }
    }
    if s.cols == 0 {
        if let Some(c) = cols {
            s.cols = c;
        }
    }
    s
}

// ------------------------------------------------------ size query reply

/// Index of the first `c` in `s`, or its length when there is none.
pub open spec fn first_index(s: Seq<char>, c: char) -> int
    decreases s.len(),
{
    if s.len() == 0 {
        0
    } else if s[0] == c {
        0
    } else {
        1 + first_index(s.drop_first(), c)
    }
}

/// What a reply to the cursor position query says the size is: after
/// `ESC [`, the text up to the first `R` holds the rows and the columns
/// separated by `;`.
pub open spec fn size_reply_spec(s: Seq<char>) -> Option<WinSize> {
    if s.len() >= 2 && s[0] == '\x1b' && s[1] == '[' {
        let body = s.skip(2);
        let pre = body.take(first_index(body, 'R'));
        let semi = first_index(pre, ';');
        if semi == pre.len() {
            None
        } else {
            let rest = pre.skip(semi + 1);
            match (
                parse_u16_spec(trim_ws(pre.take(semi))),
                parse_u16_spec(trim_ws(rest.take(first_index(rest, ';')))),
            ) {
                (Some(rows), Some(cols)) => Some(WinSize { rows, cols }),
                _ => None,
            }
        }
    } else {
        None
    }
}

proof fn lemma_first_index(s: Seq<char>, c: char, k: int)
    requires
        0 <= k <= s.len(),
        forall|j: int| 0 <= j < k ==> s[j] != c,
        k == s.len() || s[k] == c,
    ensures
        first_index(s, c) == k,
    decreases k,
{
    if k > 0 {
        lemma_first_index(s.drop_first(), c, k - 1);
    }
}

/// Position of the first `c` in `v[from..to]`, or `to`.
fn find_char(v: &Vec<char>, from: usize, to: usize, c: char) -> (r: usize)
    requires
        from <= to <= v.len(),
    ensures
        from <= r <= to,
        r - from == first_index(v@.subrange(from as int, to as int), c),
{
    let mut k = from;
    while k < to && v[k] != c
        invariant
            from <= k <= to <= v.len(),
            forall|j: int| from <= j < k ==> v@[j] != c,
        decreases to - k,
    {
        k = k + 1;
    }
    proof {
        let sub = v@.subrange(from as int, to as int);
        assert forall|j: int| 0 <= j < k - from implies sub[j] != c by {
            assert(sub[j] == v@[from + j]);
        }
        lemma_first_index(sub, c, k - from);
    }
    k
}

/// Reads the window size out of a terminal's reply to the cursor position
/// query.
pub fn parse_size_reply(reply: &[u8]) -> (r: Option<WinSize>)
    ensures
        r == if valid_utf8(reply@) {
            size_reply_spec(decode_utf8(reply@))
        } else {
            None
        },
{
    let text = match str_from_utf8(reply) {
        Some(t) => t,
        None => return None,
    };
    proof {
        encode_utf8_decode_utf8(text@);
    }
    let v = chars_of(text);
    let ghost s = v@;
    if v.len() < 2 || v[0] != '\x1b' || v[1] != '[' {
        return None;
    }
    let n = v.len();
    let r_at = find_char(&v, 2, n, 'R');
    let semi = find_char(&v, 2, r_at, ';');
    proof {
        let body = s.skip(2);
        assert(body =~= s.subrange(2, n as int));
        let pre = body.take(first_index(body, 'R'));
        assert(pre =~= s.subrange(2, r_at as int));
    }
    if semi == r_at {
        return None;
    }
    let cols_end = find_char(&v, semi + 1, r_at, ';');
    proof {
        let body = s.skip(2);
        let pre = body.take(first_index(body, 'R'));
        let sm = first_index(pre, ';');
        assert(pre.take(sm) =~= s.subrange(2, semi as int));
        let rest = pre.skip(sm + 1);
        assert(rest =~= s.subrange(semi + 1, r_at as int));
        assert(rest.take(first_index(rest, ';')) =~= s.subrange(semi + 1, cols_end as int));
    }
    let rows = parse_u16_in(&v, 2, semi);
    let cols = parse_u16_in(&v, semi + 1, cols_end);
    match (rows, cols) {
        (Some(rows), Some(cols)) => Some(WinSize { rows, cols }),
        _ => None,
    }
}

} // verus!
