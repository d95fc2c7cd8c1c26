//! The editable line buffer and every operation that mutates it.
//!
//! The buffer holds text plus a cursor that always sits on a character
//! boundary. The public interface speaks in byte offsets, as `str` does;
//! internally the text is a vector of characters and the cursor a character
//! index, so a cursor inside a character cannot even be expressed.

use crate::text::{
    chars_of, push_range, lemma_byte_len_bound, lemma_offset_le_total, splice, string_of, string_of_range,
};
use crate::unicode::{
    byte_len, char_len, is_separator, is_xeparator, lemma_byte_len_append, lemma_offset_full,
    lemma_offset_injective, lemma_offset_is_char_boundary, lemma_offset_mono, lemma_offset_succ, len_utf8, lowercase_of,
    mirror_left, mirror_right, offset, spec_is_separator, spec_is_xeparator, spec_mirror_left,
    spec_mirror_right, to_lowercase, to_uppercase, uppercase_of,
};
use vstd::prelude::*;
use vstd::utf8::{encode_utf8, is_char_boundary};

verus! {

// ------------------------------------------------------------------ scanning

/// The character classes that movement and deletion scan over.
#[derive(Clone, Copy, PartialEq, Eq, Structural)]
pub enum CharClass {
    /// Separators: anything that is not a letter or digit.
    Separator,
    /// Word characters: letters and digits.
    Word,
    /// Separators other than brackets.
    Xeparator,
}

/// Whether `c` belongs to `class`.
pub open spec fn in_class(class: CharClass, c: char) -> bool {
    match class {
        CharClass::Separator => spec_is_separator(c),
        CharClass::Word => !spec_is_separator(c),
        CharClass::Xeparator => spec_is_xeparator(c),
    }
}

fn class_holds(class: CharClass, c: char) -> (r: bool)
    ensures
        r == in_class(class, c),
{
    match class {
        CharClass::Separator => is_separator(c),
        CharClass::Word => !is_separator(c),
        CharClass::Xeparator => is_xeparator(c),
    }
}

/// The index reached by moving left from `i` over characters of `class`.
pub open spec fn scan_back(s: Seq<char>, i: int, class: CharClass) -> int
    decreases i,
{
    if i <= 0 || i > s.len() {
        i
    } else if !in_class(class, s[i - 1]) {
        i
    } else {
        scan_back(s, i - 1, class)
    }
}

/// The index reached by moving right from `i` over characters of `class`.
pub open spec fn scan_fwd(s: Seq<char>, i: int, class: CharClass) -> int
    decreases s.len() - i,
{
    if i < 0 || i >= s.len() {
        i
    } else if !in_class(class, s[i]) {
        i
    } else {
        scan_fwd(s, i + 1, class)
    }
}

pub proof fn lemma_scan_back_range(s: Seq<char>, i: int, class: CharClass)
    requires
        0 <= i <= s.len(),
    ensures
        0 <= scan_back(s, i, class) <= i,
    decreases i,
{
    if i > 0 && in_class(class, s[i - 1]) {
        lemma_scan_back_range(s, i - 1, class);
    }
}

pub proof fn lemma_scan_fwd_range(s: Seq<char>, i: int, class: CharClass)
    requires
        0 <= i <= s.len(),
    ensures
        i <= scan_fwd(s, i, class) <= s.len(),
    decreases s.len() - i,
{
    if i < s.len() && in_class(class, s[i]) {
        lemma_scan_fwd_range(s, i + 1, class);
    }
}

/// One word to the right of `i`: skip separators, then the word.
pub open spec fn forward_word_spec(s: Seq<char>, i: int) -> int {
    scan_fwd(s, scan_fwd(s, i, CharClass::Separator), CharClass::Word)
}

/// One word to the left of `i`.
pub open spec fn backward_word_spec(s: Seq<char>, i: int) -> int {
    scan_back(s, scan_back(s, i, CharClass::Separator), CharClass::Word)
}

/// Advances `i` until it sits on a word boundary, as word transposition needs.
pub open spec fn escape_word_spec(s: Seq<char>, i: int) -> int
    decreases s.len() - i,
{
    if i <= 0 || i >= s.len() {
        i
    } else if spec_is_separator(s[i]) || spec_is_separator(s[i - 1]) {
        i
    } else {
        escape_word_spec(s, i + 1)
    }
}

pub proof fn lemma_escape_word_range(s: Seq<char>, i: int)
    requires
        0 <= i <= s.len(),
    ensures
        i <= escape_word_spec(s, i) <= s.len(),
    decreases s.len() - i,
{
    if 0 < i < s.len() && !(spec_is_separator(s[i]) || spec_is_separator(s[i - 1])) {
        lemma_escape_word_range(s, i + 1);
    }
}

/// Whether `b` is a byte offset that falls between characters of `s`.
pub open spec fn is_boundary(s: Seq<char>, b: int) -> bool {
    exists|k: int| 0 <= k <= s.len() && offset(s, k) == b
}

/// Text and cursor after inserting `s` at character index `p`.
pub open spec fn insert_step(t: Seq<char>, p: int, s: Seq<char>) -> (Seq<char>, int) {
    (t.take(p) + s + t.skip(p), p + s.len())
}

/// Text and cursor after deleting the character before index `p`.
pub open spec fn rubout_step(t: Seq<char>, p: int) -> (Seq<char>, int) {
    if p <= 0 {
        (t, p)
    } else {
        (t.take(p - 1) + t.skip(p), p - 1)
    }
}

/// Text and cursor after `n` consecutive rubouts.
pub open spec fn rubout_steps(t: Seq<char>, p: int, n: nat) -> (Seq<char>, int)
    decreases n,
{
    if n == 0 {
        (t, p)
    } else {
        let (t1, p1) = rubout_step(t, p);
        rubout_steps(t1, p1, (n - 1) as nat)
    }
}


/// Scans left from `j` for the opening bracket `left` that balances a
/// closing bracket `right`, counting nested pairs in `depth`.
pub open spec fn match_back(s: Seq<char>, right: char, left: char, j: int, depth: nat) -> Option<
    int,
>
    decreases j + 1,
{
    if j < 0 || j >= s.len() {
        None
    } else if s[j] == left && depth == 0 && s[j] != right {
        Some(j)
    } else if j == 0 {
        None
    } else {
        let d: nat = if s[j] == right {
            depth + 1
        } else if s[j] == left {
            (depth - 1) as nat
        } else {
            depth
        };
        match_back(s, right, left, j - 1, d)
    }
}

/// Scans right from `j` for the closing bracket `right` that balances an
/// opening bracket `left`.
pub open spec fn match_fwd(s: Seq<char>, left: char, right: char, j: int, depth: nat) -> Option<
    int,
>
    decreases s.len() - j,
{
    if j < 0 || j >= s.len() {
        None
    } else if s[j] == right && depth == 0 && s[j] != left {
        Some(j)
    } else if j + 1 >= s.len() {
        None
    } else {
        let d: nat = if s[j] == left {
            depth + 1
        } else if s[j] == right {
            (depth - 1) as nat
        } else {
            depth
        };
        match_fwd(s, left, right, j + 1, d)
    }
}

/// How many times `c` occurs in `s`.
pub open spec fn occurrences(s: Seq<char>, c: char) -> nat
    decreases s.len(),
{
    if s.len() == 0 {
        0
    } else {
        (if s[0] == c {
            1nat
        } else {
            0nat
        }) + occurrences(s.drop_first(), c)
    }
}

/// `s` balances `open` against `close`: it holds as many of each, and no
/// prefix of it holds more of `close` than of `open`.
pub open spec fn balanced(s: Seq<char>, open: char, close: char) -> bool {
    &&& occurrences(s, open) == occurrences(s, close)
    &&& forall|k: int| 0 <= k <= s.len() ==> occurrences(#[trigger] s.take(k), close) <= occurrences(s.take(k), open)
}

pub proof fn lemma_occurrences_append(a: Seq<char>, b: Seq<char>, c: char)
    ensures
        occurrences(a + b, c) == occurrences(a, c) + occurrences(b, c),
    decreases a.len(),
{
    if a.len() == 0 {
        assert(a + b =~= b);
    } else {
        assert((a + b).drop_first() =~= a.drop_first() + b);
        lemma_occurrences_append(a.drop_first(), b, c);
    }
}

pub proof fn lemma_occurrences_single(x: char, c: char)
    ensures
        occurrences(seq![x], c) == (if x == c {
            1nat
        } else {
            0nat
        }),
{
    assert(seq![x].drop_first() =~= Seq::<char>::empty());
    lemma_occurrences_empty(seq![x].drop_first(), c);
}

pub proof fn lemma_occurrences_empty(s: Seq<char>, c: char)
    requires
        s.len() == 0,
    ensures
        occurrences(s, c) == 0,
{
}

/// What a forward bracket scan that succeeds has passed over: from `j` to
/// the bracket it stops at, the closing brackets never outrun the opening
/// ones plus `depth`, and at the stop they are level.
proof fn lemma_match_fwd_balanced(s: Seq<char>, left: char, right: char, j: int, depth: nat)
    requires
        left != right,
        0 <= j,
        match_fwd(s, left, right, j, depth) is Some,
    ensures
        ({
            let m = match_fwd(s, left, right, j, depth)->0;
            &&& j <= m < s.len()
            &&& s[m] == right
            &&& depth + occurrences(s.subrange(j, m), left) == occurrences(s.subrange(j, m), right)
            &&& forall|k: int| j <= k <= m ==> occurrences(#[trigger] s.subrange(j, k), right) <= depth
                + occurrences(s.subrange(j, k), left)
        }),
    decreases s.len() - j,
{
    let m = match_fwd(s, left, right, j, depth)->0;
    if s[j] == right && depth == 0 && s[j] != left {
        assert forall|k: int| j <= k <= m implies occurrences(#[trigger] s.subrange(j, k), right) <= depth
            + occurrences(s.subrange(j, k), left) by {
            lemma_occurrences_empty(s.subrange(j, k), right);
        }
        lemma_occurrences_empty(s.subrange(j, m), right);
        lemma_occurrences_empty(s.subrange(j, m), left);
    } else {
        let d: nat = if s[j] == left {
            depth + 1
        } else if s[j] == right {
            (depth - 1) as nat
        } else {
            depth
        };
        lemma_match_fwd_balanced(s, left, right, j + 1, d);
        assert forall|k: int| j + 1 <= k <= m implies #[trigger] s.subrange(j, k) == seq![s[j]] + s.subrange(j + 1, k) by {
            assert(s.subrange(j, k) =~= seq![s[j]] + s.subrange(j + 1, k));
        }
        lemma_occurrences_single(s[j], left);
        lemma_occurrences_single(s[j], right);
        assert forall|k: int| j + 1 <= k <= m implies occurrences(#[trigger] s.subrange(j, k), right) <= depth
            + occurrences(s.subrange(j, k), left) && occurrences(s.subrange(j, k), right) == occurrences(seq![s[j]], right) + occurrences(s.subrange(j + 1, k), right)
            && occurrences(s.subrange(j, k), left) == occurrences(seq![s[j]], left) + occurrences(s.subrange(j + 1, k), left) by {
            lemma_occurrences_append(seq![s[j]], s.subrange(j + 1, k), left);
            lemma_occurrences_append(seq![s[j]], s.subrange(j + 1, k), right);
            assert(occurrences(s.subrange(j + 1, k), right) <= d + occurrences(s.subrange(j + 1, k), left));
        }
        assert forall|k: int| j <= k <= m implies occurrences(#[trigger] s.subrange(j, k), right) <= depth
            + occurrences(s.subrange(j, k), left) by {
            if k == j {
                lemma_occurrences_empty(s.subrange(j, k), right);
            }
        }
        assert(occurrences(s.subrange(j, m), right) == occurrences(seq![s[j]], right) + occurrences(s.subrange(j + 1, m), right));
    }
}

/// What a backward bracket scan that succeeds has passed over: from `j`
/// back to the bracket it stops at, the opening brackets never outrun the
/// closing ones plus `depth`, and at the stop they are level.
proof fn lemma_match_back_balanced(s: Seq<char>, right: char, left: char, j: int, depth: nat)
    requires
        left != right,
        j < s.len(),
        match_back(s, right, left, j, depth) is Some,
    ensures
        ({
            let i = match_back(s, right, left, j, depth)->0;
            &&& 0 <= i <= j
            &&& s[i] == left
            &&& depth + occurrences(s.subrange(i + 1, j + 1), right) == occurrences(s.subrange(i + 1, j + 1), left)
            &&& forall|k: int| i + 1 <= k <= j + 1 ==> occurrences(#[trigger] s.subrange(k, j + 1), left) <= depth
                + occurrences(s.subrange(k, j + 1), right)
        }),
    decreases j + 1,
{
    let i = match_back(s, right, left, j, depth)->0;
    if s[j] == left && depth == 0 && s[j] != right {
        assert forall|k: int| i + 1 <= k <= j + 1 implies occurrences(#[trigger] s.subrange(k, j + 1), left) <= depth
            + occurrences(s.subrange(k, j + 1), right) by {
            lemma_occurrences_empty(s.subrange(k, j + 1), left);
        }
        lemma_occurrences_empty(s.subrange(i + 1, j + 1), right);
        lemma_occurrences_empty(s.subrange(i + 1, j + 1), left);
    } else {
        let d: nat = if s[j] == right {
            depth + 1
        } else if s[j] == left {
            (depth - 1) as nat
        } else {
            depth
        };
        lemma_match_back_balanced(s, right, left, j - 1, d);
        lemma_occurrences_single(s[j], left);
        lemma_occurrences_single(s[j], right);
        assert forall|k: int| i + 1 <= k <= j implies occurrences(#[trigger] s.subrange(k, j + 1), left) <= depth
            + occurrences(s.subrange(k, j + 1), right) && occurrences(s.subrange(k, j + 1), right) == occurrences(s.subrange(k, j), right) + occurrences(seq![s[j]], right)
            && occurrences(s.subrange(k, j + 1), left) == occurrences(s.subrange(k, j), left) + occurrences(seq![s[j]], left) by {
            assert(s.subrange(k, j + 1) =~= s.subrange(k, j) + seq![s[j]]);
            lemma_occurrences_append(s.subrange(k, j), seq![s[j]], left);
            lemma_occurrences_append(s.subrange(k, j), seq![s[j]], right);
            assert(occurrences(s.subrange(k, j), left) <= d + occurrences(s.subrange(k, j), right));
        }
        assert forall|k: int| i + 1 <= k <= j + 1 implies occurrences(#[trigger] s.subrange(k, j + 1), left) <= depth
            + occurrences(s.subrange(k, j + 1), right) by {
            if k == j + 1 {
                lemma_occurrences_empty(s.subrange(k, j + 1), left);
            }
        }
        assert(occurrences(s.subrange(i + 1, j + 1), right) == occurrences(s.subrange(i + 1, j), right) + occurrences(seq![s[j]], right));
    }
}

/// The bracket found as the partner of the one opening at the cursor is
/// its closing bracket, and the text between them is balanced in that
/// kind of bracket.
pub proof fn law_bracket_found_forward_encloses_balanced_text(t: Seq<char>, p: int)
    requires
        mirror_right_spec(t, p) is Some,
    ensures
        ({
            let (a, b) = mirror_right_spec(t, p)->0;
            &&& a == p
            &&& a < b < t.len()
            &&& spec_mirror_right(t[a]) == Some(t[b])
            &&& balanced(t.subrange(a + 1, b), t[a], t[b])
        }),
{
    let left = t[p];
    let right = spec_mirror_right(left)->0;
    lemma_match_fwd_balanced(t, left, right, p + 1, 0);
    let b = match_fwd(t, left, right, p + 1, 0)->0;
    let s = t.subrange(p + 1, b);
    assert forall|k: int| 0 <= k <= s.len() implies occurrences(#[trigger] s.take(k), right) <= occurrences(s.take(k), left) by {
        assert(s.take(k) =~= t.subrange(p + 1, p + 1 + k));
    }
}

/// The bracket found as the partner of the one closing before the cursor
/// is its opening bracket, and the text between them is balanced in that
/// kind of bracket.
pub proof fn law_bracket_found_backward_encloses_balanced_text(t: Seq<char>, p: int)
    requires
        mirror_left_spec(t, p) is Some,
    ensures
        ({
            let (a, b) = mirror_left_spec(t, p)->0;
            &&& b == p - 1
            &&& 0 <= a < b < t.len()
            &&& spec_mirror_left(t[b]) == Some(t[a])
            &&& balanced(t.subrange(a + 1, b), t[a], t[b])
        }),
{
    let right = t[p - 1];
    let left = spec_mirror_left(right)->0;
    lemma_match_back_balanced(t, right, left, p - 2, 0);
    let a = match_back(t, right, left, p - 2, 0)->0;
    let b = p - 1;
    let s = t.subrange(a + 1, b);
    assert forall|k: int| 0 <= k <= s.len() implies occurrences(#[trigger] s.take(k), right) <= occurrences(s.take(k), left) by {
        assert(s =~= s.take(k) + t.subrange(a + 1 + k, b));
        lemma_occurrences_append(s.take(k), t.subrange(a + 1 + k, b), left);
        lemma_occurrences_append(s.take(k), t.subrange(a + 1 + k, b), right);
    }
}

/// A forward bracket scan stops at the first bracket where the closing
/// brackets passed over, with `depth`, catch up with the opening ones.
proof fn lemma_match_fwd_finds_level_point(s: Seq<char>, left: char, right: char, j: int, depth: nat, m: int)
    requires
        left != right,
        0 <= j <= m < s.len(),
        s[m] == right,
        depth + occurrences(s.subrange(j, m), left) == occurrences(s.subrange(j, m), right),
        forall|k: int| j <= k <= m ==> occurrences(#[trigger] s.subrange(j, k), right) <= depth
            + occurrences(s.subrange(j, k), left),
    ensures
        match_fwd(s, left, right, j, depth) == Some(m),
    decreases s.len() - j,
{
    lemma_occurrences_single(s[j], left);
    lemma_occurrences_single(s[j], right);
    assert forall|k: int| j + 1 <= k <= m implies #[trigger] s.subrange(j, k) == seq![s[j]] + s.subrange(j + 1, k)
        && occurrences(s.subrange(j, k), right) == occurrences(seq![s[j]], right) + occurrences(s.subrange(j + 1, k), right)
        && occurrences(s.subrange(j, k), left) == occurrences(seq![s[j]], left) + occurrences(s.subrange(j + 1, k), left) by {
        assert(s.subrange(j, k) =~= seq![s[j]] + s.subrange(j + 1, k));
        lemma_occurrences_append(seq![s[j]], s.subrange(j + 1, k), left);
        lemma_occurrences_append(seq![s[j]], s.subrange(j + 1, k), right);
    }
    if m == j {
        lemma_occurrences_empty(s.subrange(j, m), left);
        lemma_occurrences_empty(s.subrange(j, m), right);
    } else {
        assert(occurrences(s.subrange(j, j + 1), right) <= depth + occurrences(s.subrange(j, j + 1), left));
        assert(s.subrange(j + 1, j + 1).len() == 0);
        lemma_occurrences_empty(s.subrange(j + 1, j + 1), left);
        lemma_occurrences_empty(s.subrange(j + 1, j + 1), right);
        let d: nat = if s[j] == left {
            depth + 1
        } else if s[j] == right {
            (depth - 1) as nat
        } else {
            depth
        };
        assert forall|k: int| j + 1 <= k <= m implies occurrences(#[trigger] s.subrange(j + 1, k), right) <= d
            + occurrences(s.subrange(j + 1, k), left) by {
            assert(occurrences(s.subrange(j, k), right) <= depth + occurrences(s.subrange(j, k), left));
        }
        lemma_match_fwd_finds_level_point(s, left, right, j + 1, d, m);
    }
}

/// A backward bracket scan stops at the first bracket where the opening
/// brackets passed over, with `depth`, catch up with the closing ones.
proof fn lemma_match_back_finds_level_point(s: Seq<char>, right: char, left: char, j: int, depth: nat, i: int)
    requires
        left != right,
        0 <= i <= j < s.len(),
        s[i] == left,
        depth + occurrences(s.subrange(i + 1, j + 1), right) == occurrences(s.subrange(i + 1, j + 1), left),
        forall|k: int| i + 1 <= k <= j + 1 ==> occurrences(#[trigger] s.subrange(k, j + 1), left) <= depth
            + occurrences(s.subrange(k, j + 1), right),
    ensures
        match_back(s, right, left, j, depth) == Some(i),
    decreases j + 1,
{
    lemma_occurrences_single(s[j], left);
    lemma_occurrences_single(s[j], right);
    assert forall|k: int| i + 1 <= k <= j implies #[trigger] s.subrange(k, j + 1) == s.subrange(k, j) + seq![s[j]]
        && occurrences(s.subrange(k, j + 1), right) == occurrences(s.subrange(k, j), right) + occurrences(seq![s[j]], right)
        && occurrences(s.subrange(k, j + 1), left) == occurrences(s.subrange(k, j), left) + occurrences(seq![s[j]], left) by {
        assert(s.subrange(k, j + 1) =~= s.subrange(k, j) + seq![s[j]]);
        lemma_occurrences_append(s.subrange(k, j), seq![s[j]], left);
        lemma_occurrences_append(s.subrange(k, j), seq![s[j]], right);
    }
    if i == j {
        lemma_occurrences_empty(s.subrange(i + 1, j + 1), left);
        lemma_occurrences_empty(s.subrange(i + 1, j + 1), right);
    } else {
        assert(occurrences(s.subrange(j, j + 1), left) <= depth + occurrences(s.subrange(j, j + 1), right));
        assert(s.subrange(j, j).len() == 0);
        lemma_occurrences_empty(s.subrange(j, j), left);
        lemma_occurrences_empty(s.subrange(j, j), right);
        let d: nat = if s[j] == right {
            depth + 1
        } else if s[j] == left {
            (depth - 1) as nat
        } else {
            depth
        };
        assert forall|k: int| i + 1 <= k <= j implies occurrences(#[trigger] s.subrange(k, j), left) <= d
            + occurrences(s.subrange(k, j), right) by {
            assert(occurrences(s.subrange(k, j + 1), left) <= depth + occurrences(s.subrange(k, j + 1), right));
        }
        assert(occurrences(s.subrange(i + 1, j + 1), right) == occurrences(s.subrange(i + 1, j), right) + occurrences(seq![s[j]], right));
        assert(occurrences(s.subrange(i + 1, j + 1), left) == occurrences(s.subrange(i + 1, j), left) + occurrences(seq![s[j]], left));
        lemma_match_back_finds_level_point(s, right, left, j - 1, d, i);
    }
}

/// An opening bracket at the cursor whose closing bracket follows a
/// balanced text is matched with that closing bracket.
pub proof fn law_balanced_partner_is_found_forward(t: Seq<char>, p: int, b: int)
    requires
        0 <= p < b < t.len(),
        spec_mirror_right(t[p]) == Some(t[b]),
        balanced(t.subrange(p + 1, b), t[p], t[b]),
    ensures
        mirror_right_spec(t, p) == Some((p, b)),
{
    let s = t.subrange(p + 1, b);
    assert forall|k: int| p + 1 <= k <= b implies occurrences(#[trigger] t.subrange(p + 1, k), t[b]) <= 0
        + occurrences(t.subrange(p + 1, k), t[p]) by {
        assert(s.take(k - p - 1) =~= t.subrange(p + 1, k));
    }
    lemma_match_fwd_finds_level_point(t, t[p], t[b], p + 1, 0, b);
}

/// A closing bracket before the cursor whose opening bracket precedes a
/// balanced text is matched with that opening bracket.
pub proof fn law_balanced_partner_is_found_backward(t: Seq<char>, a: int, p: int)
    requires
        0 <= a < p - 1,
        p <= t.len(),
        spec_mirror_left(t[p - 1]) == Some(t[a]),
        balanced(t.subrange(a + 1, p - 1), t[a], t[p - 1]),
    ensures
        mirror_left_spec(t, p) == Some((a, p - 1)),
{
    let b = p - 1;
    let s = t.subrange(a + 1, b);
    let left = t[a];
    let right = t[b];
    assert forall|k: int| a + 1 <= k <= b implies occurrences(#[trigger] t.subrange(k, b), left) <= 0
        + occurrences(t.subrange(k, b), right) by {
        assert(s =~= s.take(k - a - 1) + t.subrange(k, b));
        lemma_occurrences_append(s.take(k - a - 1), t.subrange(k, b), left);
        lemma_occurrences_append(s.take(k - a - 1), t.subrange(k, b), right);
    }
    lemma_match_back_finds_level_point(t, right, left, p - 2, 0, a);
}

/// The bracket pair closing immediately before cursor index `p`, as
/// character indices of the opening and closing bracket.
pub open spec fn mirror_left_spec(t: Seq<char>, p: int) -> Option<(int, int)> {
    if p <= 1 || p > t.len() {
        None
    } else {
        match spec_mirror_left(t[p - 1]) {
            None => None,
            Some(left) => match match_back(t, t[p - 1], left, p - 2, 0) {
                Some(j) => Some((j, p - 1)),
                None => None,
            },
        }
    }
}

/// The bracket pair opening at cursor index `p`.
pub open spec fn mirror_right_spec(t: Seq<char>, p: int) -> Option<(int, int)> {
    if p < 0 || p >= t.len() {
        None
    } else {
        match spec_mirror_right(t[p]) {
            None => None,
            Some(right) => match match_fwd(t, t[p], right, p + 1, 0) {
                Some(j) => Some((p, j)),
                None => None,
            },
        }
    }
}

/// Byte offsets of a pair of character indices.
pub open spec fn pair_offsets(t: Seq<char>, m: Option<(int, int)>) -> Option<(usize, usize)> {
    match m {
        Some((a, b)) => Some((offset(t, a) as usize, offset(t, b) as usize)),
        None => None,
    }
}

/// Scans right from `pos` for the closing bracket of the expression that
/// encloses `pos`, skipping over bracketed sub-expressions recorded in
/// `stack` (the closers still expected).
pub open spec fn closing_bracket(s: Seq<char>, pos: int, stack: Seq<char>) -> Option<int>
    decreases s.len() - pos,
{
    if pos < 0 || pos >= s.len() {
        None
    } else if stack.len() > 0 {
        let st = if s[pos] == stack.last() {
            stack.drop_last()
        } else {
            stack
        };
        closing_bracket(s, pos + 1, st)
    } else if spec_mirror_right(s[pos]) is Some {
        closing_bracket(s, pos + 1, stack.push(spec_mirror_right(s[pos])->0))
    } else if spec_mirror_left(s[pos]) is Some {
        Some(pos)
    } else {
        closing_bracket(s, pos + 1, stack)
    }
}

/// Scans left from `pos` over one item (a word or a bracketed expression),
/// returning where it starts.
pub open spec fn item_start(s: Seq<char>, pos: int, stack: Seq<char>) -> Option<int>
    decreases pos,
{
    if pos <= 0 || pos > s.len() {
        None
    } else if stack.len() > 0 {
        let st = if s[pos - 1] == stack.last() {
            stack.drop_last()
        } else {
            stack
        };
        item_start(s, pos - 1, st)
    } else if spec_mirror_left(s[pos - 1]) is Some {
        item_start(s, pos - 1, stack.push(spec_mirror_left(s[pos - 1])->0))
    } else if spec_is_separator(s[pos - 1]) {
        Some(pos)
    } else {
        item_start(s, pos - 1, stack)
    }
}

/// Scans right from `pos` over one item, returning where it ends.
pub open spec fn item_end(s: Seq<char>, pos: int, stack: Seq<char>) -> int
    decreases s.len() - pos,
{
    if pos < 0 || pos >= s.len() {
        pos
    } else if stack.len() > 0 {
        let st = if s[pos] == stack.last() {
            stack.drop_last()
        } else {
            stack
        };
        item_end(s, pos + 1, st)
    } else if spec_mirror_right(s[pos]) is Some {
        item_end(s, pos + 1, stack.push(spec_mirror_right(s[pos])->0))
    } else if spec_is_separator(s[pos]) {
        pos
    } else {
        item_end(s, pos + 1, stack)
    }
}

/// Text and cursor after barfing: the closing bracket of the expression
/// around the cursor moves left past the last item in it.
pub open spec fn barf_spec(t: Seq<char>, p: int) -> Option<(Seq<char>, int)> {
    match closing_bracket(t, p, Seq::empty()) {
        None => None,
        Some(end) => match item_start(t, scan_back(t, end, CharClass::Xeparator), Seq::empty()) {
            None => None,
            Some(q1) => {
                let q = scan_back(t, q1, CharClass::Xeparator);
                Some(
                    (
                        t.take(q) + seq![t[end]] + t.subrange(q, end) + t.skip(end + 1),
                        if p > q {
                            p + 1
                        } else {
                            p
                        },
                    ),
                )
            },
        },
    }
}

/// Text after slurping: the closing bracket of the expression around the
/// cursor moves right past the first item after it.
pub open spec fn slurp_spec(t: Seq<char>, p: int) -> Option<Seq<char>> {
    match closing_bracket(t, p, Seq::empty()) {
        None => None,
        Some(point) => {
            let e = item_end(t, scan_fwd(t, point + 1, CharClass::Xeparator), Seq::empty());
            Some(t.take(point) + t.subrange(point + 1, e) + seq![t[point]] + t.skip(e))
        },
    }
}

/// How a word's letters are changed.
#[derive(Clone, Copy, PartialEq, Eq, Structural)]
pub enum CaseOp {
    Lower,
    Upper,
    Capitalize,
}

/// The word `w` with `op` applied to its letters.
pub open spec fn case_map(op: CaseOp, w: Seq<char>) -> Seq<char> {
    Seq::new(
        w.len(),
        |i: int|
            match op {
                CaseOp::Lower => lowercase_of(w[i]),
                CaseOp::Upper => uppercase_of(w[i]),
                CaseOp::Capitalize => if i == 0 {
                    uppercase_of(w[i])
                } else {
                    w[i]
                },
            },
    )
}


/// Text and cursor after transposing the characters around index `p`.
pub open spec fn transpose_spec(t: Seq<char>, p: int) -> (Seq<char>, int) {
    let b = if p == t.len() && p > 0 {
        p - 1
    } else {
        p
    };
    if b <= 0 || b >= t.len() {
        (t, p)
    } else {
        (t.take(b - 1) + seq![t[b], t[b - 1]] + t.skip(b + 1), b + 1)
    }
}

/// Text and cursor after swapping the words around index `p`.
pub open spec fn transpose_words_spec(t: Seq<char>, p: int) -> (Seq<char>, int) {
    let i = if p == t.len() {
        backward_word_spec(t, p)
    } else {
        p
    };
    let pivot = escape_word_spec(t, i);
    let xj = scan_back(t, pivot, CharClass::Separator);
    let xi = scan_back(t, xj, CharClass::Word);
    let yi = scan_fwd(t, pivot, CharClass::Separator);
    let yj = scan_fwd(t, yi, CharClass::Word);
    if !(xi < xj && xj < yi && yi < yj) {
        (t, p)
    } else {
        (
            t.take(xi) + t.subrange(yi, yj) + t.subrange(xj, yi) + t.subrange(xi, xj) + t.skip(yj),
            yj,
        )
    }
}

/// Moving left over a run of `class` characters that starts at `lo` stops
/// at `lo`.
pub proof fn lemma_scan_back_run(s: Seq<char>, lo: int, i: int, class: CharClass)
    requires
        0 <= lo <= i <= s.len(),
        forall|k: int| lo <= k < i ==> in_class(class, #[trigger] s[k]),
        lo == 0 || !in_class(class, s[lo - 1]),
    ensures
        scan_back(s, i, class) == lo,
    decreases i,
{
    if i > lo {
        lemma_scan_back_run(s, lo, i - 1, class);
    }
}

/// Moving right over a run of `class` characters that ends at `hi` stops
/// at `hi`.
pub proof fn lemma_scan_fwd_run(s: Seq<char>, i: int, hi: int, class: CharClass)
    requires
        0 <= i <= hi <= s.len(),
        forall|k: int| i <= k < hi ==> in_class(class, #[trigger] s[k]),
        hi == s.len() || !in_class(class, s[hi]),
    ensures
        scan_fwd(s, i, class) == hi,
    decreases hi - i,
{
    if i < hi {
        lemma_scan_fwd_run(s, i + 1, hi, class);
    }
}

/// Whether `t[a..b]` is a whole word: letters and digits only, with no word
/// character just before or just after it.
pub open spec fn whole_word(t: Seq<char>, a: int, b: int) -> bool {
    &&& 0 <= a < b <= t.len()
    &&& forall|k: int| a <= k < b ==> !spec_is_separator(#[trigger] t[k])
    &&& a == 0 || spec_is_separator(t[a - 1])
    &&& b == t.len() || spec_is_separator(t[b])
}

/// Whether `t[a..b]` is a non-empty run of separators.
pub open spec fn separator_run(t: Seq<char>, a: int, b: int) -> bool {
    &&& 0 <= a < b <= t.len()
    &&& forall|k: int| a <= k < b ==> spec_is_separator(#[trigger] t[k])
}

/// With the cursor right after a word `t[xi..p]` that separators
/// `t[p..yi]` and then a word `t[yi..yj]` follow, transposing words swaps the
/// two words, keeps the separators between them, and leaves the cursor after
/// the pair.
pub proof fn law_transpose_words_after_a_word(t: Seq<char>, xi: int, p: int, yi: int, yj: int)
    requires
        whole_word(t, xi, p),
        separator_run(t, p, yi),
        whole_word(t, yi, yj),
    ensures
        transpose_words_spec(t, p) == (t.take(xi) + t.subrange(yi, yj) + t.subrange(p, yi) + t.subrange(xi, p) + t.skip(yj), yj),
{
    assert(spec_is_separator(t[p]));
    assert(escape_word_spec(t, p) == p);
    lemma_scan_back_run(t, p, p, CharClass::Separator);
    lemma_scan_back_run(t, xi, p, CharClass::Word);
    lemma_scan_fwd_run(t, p, yi, CharClass::Separator);
    lemma_scan_fwd_run(t, yi, yj, CharClass::Word);
}

/// With the cursor at the end of a line that ends in a word `t[yi..]`,
/// after separators `t[xj..yi]` and a word `t[xi..xj]`, transposing words
/// swaps the last two words and leaves the cursor at the end.
pub proof fn law_transpose_words_at_the_end(t: Seq<char>, xi: int, xj: int, yi: int)
    requires
        whole_word(t, xi, xj),
        separator_run(t, xj, yi),
        whole_word(t, yi, t.len() as int),
    ensures
        transpose_words_spec(t, t.len() as int) == (t.take(xi) + t.skip(yi) + t.subrange(xj, yi) + t.subrange(xi, xj), t.len() as int),
{
    let n = t.len() as int;
    lemma_scan_back_run(t, n, n, CharClass::Separator);
    lemma_scan_back_run(t, yi, n, CharClass::Word);
    assert(spec_is_separator(t[yi - 1]));
    assert(escape_word_spec(t, yi) == yi);
    lemma_scan_back_run(t, xj, yi, CharClass::Separator);
    lemma_scan_back_run(t, xi, xj, CharClass::Word);
    lemma_scan_fwd_run(t, yi, yi, CharClass::Separator);
    lemma_scan_fwd_run(t, yi, n, CharClass::Word);
    assert(t.skip(n) =~= Seq::<char>::empty());
    assert(t.subrange(yi, n) =~= t.skip(yi));
    assert(t.take(xi) + t.subrange(yi, n) + t.subrange(xj, yi) + t.subrange(xi, xj) + t.skip(n) =~= t.take(xi) + t.skip(yi) + t.subrange(xj, yi) + t.subrange(xi, xj));
}

/// Text and cursor after changing the case of the word at or after `p`.
pub open spec fn case_word_spec(t: Seq<char>, p: int, op: CaseOp) -> (Seq<char>, int) {
    let start = scan_fwd(t, p, CharClass::Separator);
    let end = scan_fwd(t, start, CharClass::Word);
    if start == end {
        (t, p)
    } else {
        (t.take(start) + case_map(op, t.subrange(start, end)) + t.skip(end), end)
    }
}

// ------------------------------------------------------------ the buffer

/// The mark `m` kept within text `t`: moved back to its end if it lay past
/// it.
pub open spec fn clamped_mark(m: int, t: Seq<char>) -> int {
    if m <= byte_len(t) {
        m
    } else {
        byte_len(t) as int
    }
}

/// Inserting text never shortens the encoding, so a mark inside the old
/// text stays inside the new one.
proof fn lemma_insert_keeps_mark(t: Seq<char>, p: int, s: Seq<char>, m: int)
    requires
        0 <= p <= t.len(),
        m <= byte_len(t),
    ensures
        clamped_mark(m, t.take(p) + s + t.skip(p)) == m,
{
    assert(t =~= t.take(p) + t.skip(p));
    lemma_byte_len_append(t.take(p), t.skip(p));
    lemma_byte_len_append(t.take(p), s);
    lemma_byte_len_append(t.take(p) + s, t.skip(p));
}

/// A line of text being edited, with a cursor and a mark.
#[derive(Debug, Clone)]
pub struct LineBuffer {
    chars: Vec<char>,
    data: String,
    /// Character index of the cursor.
    pos: usize,
    /// Byte offset of the mark set by `CTRL-SPACE`.
    mark: usize,
}

impl LineBuffer {
    /// The text in the buffer.
    pub closed spec fn text(&self) -> Seq<char> {
        self.chars@
    }

    /// The cursor, as an index into [`LineBuffer::text`].
    pub closed spec fn pos(&self) -> int {
        self.pos as int
    }

    /// The mark, as a byte offset.
    pub closed spec fn mark(&self) -> int {
        self.mark as int
    }

    /// The buffer is consistent: the cursor and the mark lie within the
    /// text, and the text is small enough that every byte offset fits in a
    /// `usize`.
    pub closed spec fn wf(&self) -> bool {
        &&& self.data@ == self.chars@
        &&& self.pos <= self.chars.len()
        &&& self.chars.len() <= usize::MAX / 4
        &&& self.mark <= byte_len(self.chars@)
    }

    /// Consistency exposed to callers: what `wf` implies about the view.
    pub proof fn lemma_wf(&self)
        requires
            self.wf(),
        ensures
            0 <= self.pos() <= self.text().len(),
            self.text().len() <= usize::MAX / 4,
            byte_len(self.text()) <= usize::MAX,
            0 <= self.mark() <= byte_len(self.text()),
    {
        lemma_byte_len_bound(self.chars@);
    }

    /// Creates an empty buffer.
    pub fn new() -> (b: Self)
        ensures
            b.wf(),
            b.text() == Seq::<char>::empty(),
            b.pos() == 0,
            b.mark() == 0,
    {
        LineBuffer { chars: Vec::new(), data: String::new(), pos: 0, mark: 0 }
    }

    /// Replaces the text and cursor, rebuilding the string view and keeping
    /// the mark within the new text.
    fn commit(&mut self, chars: Vec<char>, pos: usize)
        requires
            pos <= chars.len(),
            chars.len() <= usize::MAX / 4,
        ensures
            final(self).wf(),
            final(self).text() == chars@,
            final(self).pos() == pos,
            final(self).mark() == clamped_mark(old(self).mark(), chars@),
    {
        self.data = string_of(&chars);
        let total = crate::text::str_byte_len(self.data.as_str());
        if self.mark > total {
            self.mark = total;
        }
        self.chars = chars;
        self.pos = pos;
    }

    // ------------------------------------------------------------ access

    /// The buffer contents.
    pub fn as_str(&self) -> (s: &str)
        requires
            self.wf(),
        ensures
            s@ == self.text(),
    {
        self.data.as_str()
    }

    /// Byte offset of character index `i`.
    fn byte_offset(&self, i: usize) -> (r: usize)
        requires
            self.wf(),
            i <= self.chars.len(),
        ensures
            r == offset(self.text(), i as int),
    {
        let mut acc: usize = 0;
        let mut k: usize = 0;
        proof {
            assert(self.chars@.take(0) =~= Seq::<char>::empty());
            lemma_byte_len_bound(self.chars@);
        }
        while k < i
            invariant
                self.wf(),
                k <= i <= self.chars.len(),
                acc == offset(self.chars@, k as int),
                byte_len(self.chars@) <= usize::MAX,
            decreases i - k,
        {
            proof {
                lemma_offset_succ(self.chars@, k as int);
                lemma_offset_le_total(self.chars@, k + 1);
            }
            acc = acc + len_utf8(self.chars[k]);
            k = k + 1;
        }
        acc
    }

    /// Character index whose offset is `b`, if `b` is a boundary.
    fn index_of_offset(&self, b: usize) -> (r: Option<usize>)
        requires
            self.wf(),
        ensures
            r matches Some(k) ==> k <= self.text().len() && offset(self.text(), k as int) == b,
            r is None ==> !is_boundary(self.text(), b as int),
    {
        let mut acc: usize = 0;
        let mut k: usize = 0;
        proof {
            assert(self.chars@.take(0) =~= Seq::<char>::empty());
            lemma_byte_len_bound(self.chars@);
        }
        while k < self.chars.len() && acc < b
            invariant
                self.wf(),
                k <= self.chars.len(),
                acc == offset(self.chars@, k as int),
                acc <= b,
                byte_len(self.chars@) <= usize::MAX,
                forall|j: int| 0 <= j < k ==> offset(self.chars@, j) < b,
            decreases self.chars.len() - k,
        {
            proof {
                lemma_offset_succ(self.chars@, k as int);
                lemma_offset_le_total(self.chars@, k + 1);
            }
            let next = acc + len_utf8(self.chars[k]);
            if next > b {
                proof {
                    assert forall|j: int| 0 <= j <= self.chars@.len() implies offset(self.chars@, j) != b by {
                        if j <= k {
                            if j < k {
                            } else {
                            }
                        } else {
                            lemma_offset_mono(self.chars@, k + 1, j);
                        }
                    }
                }
                return None;
            }
            acc = next;
            k = k + 1;
        }
        if acc == b {
            Some(k)
        } else {
            proof {
                // acc < b and k == len
                assert forall|j: int| 0 <= j <= self.chars@.len() implies offset(self.chars@, j) != b by {
                    if j == k {
                    } else {
                        lemma_offset_mono(self.chars@, j, k as int);
                    }
                }
            }
            None
        }
    }

    /// Byte offset of the cursor.
    pub fn cursor(&self) -> (r: usize)
        requires
            self.wf(),
        ensures
            r == offset(self.text(), self.pos()),
    {
        self.byte_offset(self.pos)
    }

    /// Number of characters in the buffer.
    pub fn char_count(&self) -> (r: usize)
        requires
            self.wf(),
        ensures
            r == self.text().len(),
    {
        self.chars.len()
    }

    /// Whether the buffer is empty.
    pub fn is_empty(&self) -> (r: bool)
        requires
            self.wf(),
        ensures
            r == (self.text().len() == 0),
    {
        self.chars.len() == 0
    }

    /// Largest character index whose offset is at most `b`.
    fn floor_index(&self, b: usize) -> (k: usize)
        requires
            self.wf(),
        ensures
            k <= self.text().len(),
            offset(self.text(), k as int) <= b,
            k < self.text().len() ==> offset(self.text(), k + 1) > b,
    {
        let mut acc: usize = 0;
        let mut k: usize = 0;
        proof {
            assert(self.chars@.take(0) =~= Seq::<char>::empty());
            lemma_byte_len_bound(self.chars@);
        }
        while k < self.chars.len()
            invariant
                self.wf(),
                k <= self.chars.len(),
                acc == offset(self.chars@, k as int),
                acc <= b,
                byte_len(self.chars@) <= usize::MAX,
            decreases self.chars.len() - k,
        {
            proof {
                lemma_offset_succ(self.chars@, k as int);
                lemma_offset_le_total(self.chars@, k + 1);
            }
            let next = acc + len_utf8(self.chars[k]);
            if next > b {
                return k;
            }
            acc = next;
            k = k + 1;
        }
        k
    }

    /// Moves the cursor to byte offset `b`, clamped to the buffer and snapped
    /// down to the nearest character boundary.
    pub fn set_cursor(&mut self, b: usize)
        requires
            old(self).wf(),
        ensures
            final(self).wf(),
            final(self).text() == old(self).text(),
            final(self).mark() == old(self).mark(),
            final(self).pos() <= final(self).text().len(),
            offset(final(self).text(), final(self).pos()) <= b,
            final(self).pos() < final(self).text().len() ==> offset(
                final(self).text(),
                final(self).pos() + 1,
            ) > b,
    {
        self.pos = self.floor_index(b);
    }

    /// Empties the buffer and resets the cursor and mark.
    pub fn clear(&mut self)
        ensures
            final(self).wf(),
            final(self).text() == Seq::<char>::empty(),
            final(self).pos() == 0,
            final(self).mark() == 0,
    {
        self.chars = Vec::new();
        self.data = String::new();
        self.pos = 0;
        self.mark = 0;
    }

    /// Replaces the contents and places the cursor at the end.
    pub fn set_content(&mut self, content: &str)
        requires
            old(self).wf(),
            content@.len() <= usize::MAX / 4,
        ensures
            final(self).wf(),
            final(self).text() == content@,
            final(self).pos() == content@.len(),
            final(self).mark() == if old(self).mark() <= byte_len(content@) {
                old(self).mark()
            } else {
                byte_len(content@) as int
            },
    {
        let chars = chars_of(content);
        let n = chars.len();
        self.commit(chars, n);
        let total = self.byte_offset(n);
        proof {
            lemma_offset_full(self.chars@);
        }
        if self.mark > total {
            self.mark = total;
        }
    }

    // --------------------------------------------------- boundary helpers

    /// Byte offset of the character boundary before byte offset `b`.
    pub fn backward(&self, b: usize) -> (r: usize)
        requires
            self.wf(),
            is_boundary(self.text(), b as int),
        ensures
            forall|k: int|
                #![trigger offset(self.text(), k)]
                0 <= k <= self.text().len() && offset(self.text(), k) == b ==> r == if k == 0 {
                    b as int
                } else {
                    offset(self.text(), k - 1) as int
                },
    {
        let k = self.index_of_offset(b).unwrap();
        proof {
            assert forall|j: int|
                0 <= j <= self.text().len() && offset(self.text(), j) == b implies j == k by {
                lemma_offset_injective(self.text(), j, k as int);
            }
        }
        if k == 0 {
            b
        } else {
            self.byte_offset(k - 1)
        }
    }

    /// Byte offset of the character boundary after byte offset `b`.
    pub fn forward(&self, b: usize) -> (r: usize)
        requires
            self.wf(),
            is_boundary(self.text(), b as int),
        ensures
            forall|k: int|
                #![trigger offset(self.text(), k)]
                0 <= k <= self.text().len() && offset(self.text(), k) == b ==> r == if k
                    == self.text().len() {
                    b as int
                } else {
                    offset(self.text(), k + 1) as int
                },
    {
        let k = self.index_of_offset(b).unwrap();
        proof {
            assert forall|j: int|
                0 <= j <= self.text().len() && offset(self.text(), j) == b implies j == k by {
                lemma_offset_injective(self.text(), j, k as int);
            }
        }
        if k == self.chars.len() {
            b
        } else {
            self.byte_offset(k + 1)
        }
    }

    /// Character starting at byte offset `b`, if any.
    pub fn char_at(&self, b: usize) -> (r: Option<char>)
        requires
            self.wf(),
        ensures
            !is_boundary(self.text(), b as int) ==> r is None,
            forall|k: int|
                #![trigger offset(self.text(), k)]
                0 <= k <= self.text().len() && offset(self.text(), k) == b ==> r == if k
                    < self.text().len() {
                    Some(self.text()[k])
                } else {
                    None::<char>
                },
    {
        match self.index_of_offset(b) {
            None => None,
            Some(k) => {
                proof {
                    assert forall|j: int|
                        0 <= j <= self.text().len() && offset(self.text(), j) == b implies j
                        == k by {
                        lemma_offset_injective(self.text(), j, k as int);
                    }
                }
                if k < self.chars.len() {
                    Some(self.chars[k])
                } else {
                    None
                }
            },
        }
    }

    /// Character ending at byte offset `b`, if any.
    pub fn char_before(&self, b: usize) -> (r: Option<char>)
        requires
            self.wf(),
        ensures
            !is_boundary(self.text(), b as int) ==> r is None,
            forall|k: int|
                #![trigger offset(self.text(), k)]
                0 <= k <= self.text().len() && offset(self.text(), k) == b ==> r == if k > 0 {
                    Some(self.text()[k - 1])
                } else {
                    None::<char>
                },
    {
        match self.index_of_offset(b) {
            None => None,
            Some(k) => {
                proof {
                    assert forall|j: int|
                        0 <= j <= self.text().len() && offset(self.text(), j) == b implies j
                        == k by {
                        lemma_offset_injective(self.text(), j, k as int);
                    }
                }
                if k > 0 {
                    Some(self.chars[k - 1])
                } else {
                    None
                }
            },
        }
    }

    // ------------------------------------------------------------ scanning

    fn scan_back_exec(&self, i: usize, class: CharClass) -> (r: usize)
        requires
            self.wf(),
            i <= self.text().len(),
        ensures
            r == scan_back(self.text(), i as int, class),
            r <= i,
    {
        let mut j = i;
        while j > 0 && class_holds(class, self.chars[j - 1])
            invariant
                self.wf(),
                j <= i <= self.chars.len(),
                scan_back(self.chars@, j as int, class) == scan_back(self.chars@, i as int, class),
            decreases j,
        {
            j = j - 1;
        }
        j
    }

    fn scan_fwd_exec(&self, i: usize, class: CharClass) -> (r: usize)
        requires
            self.wf(),
            i <= self.text().len(),
        ensures
            r == scan_fwd(self.text(), i as int, class),
            i <= r <= self.text().len(),
    {
        let mut j = i;
        while j < self.chars.len() && class_holds(class, self.chars[j])
            invariant
                self.wf(),
                i <= j <= self.chars.len(),
                scan_fwd(self.chars@, j as int, class) == scan_fwd(self.chars@, i as int, class),
            decreases self.chars.len() - j,
        {
            j = j + 1;
        }
        j
    }

    fn forward_word(&self, i: usize) -> (r: usize)
        requires
            self.wf(),
            i <= self.text().len(),
        ensures
            r == forward_word_spec(self.text(), i as int),
            i <= r <= self.text().len(),
    {
        let j = self.scan_fwd_exec(i, CharClass::Separator);
        self.scan_fwd_exec(j, CharClass::Word)
    }

    fn backward_word(&self, i: usize) -> (r: usize)
        requires
            self.wf(),
            i <= self.text().len(),
        ensures
            r == backward_word_spec(self.text(), i as int),
            r <= i,
    {
        let j = self.scan_back_exec(i, CharClass::Separator);
        self.scan_back_exec(j, CharClass::Word)
    }

    fn escape_word(&self, i: usize) -> (r: usize)
        requires
            self.wf(),
            i <= self.text().len(),
        ensures
            r == escape_word_spec(self.text(), i as int),
            i <= r <= self.text().len(),
    {
        let mut j = i;
        while j != 0 && j < self.chars.len()
            invariant
                self.wf(),
                i <= j <= self.chars.len(),
                escape_word_spec(self.chars@, j as int) == escape_word_spec(self.chars@, i as int),
            ensures
                i <= j <= self.chars.len(),
                escape_word_spec(self.chars@, j as int) == escape_word_spec(self.chars@, i as int),
                escape_word_spec(self.chars@, j as int) == j,
            decreases self.chars.len() - j,
        {
            if is_separator(self.chars[j]) || is_separator(self.chars[j - 1]) {
                break;
            }
            j = j + 1;
        }
        j
    }

    // ----------------------------------------------------------- insertion

    /// Inserts `s` at the cursor and advances past it.
    pub fn insert(&mut self, s: &str)
        requires
            old(self).wf(),
            old(self).text().len() + s@.len() <= usize::MAX / 4,
        ensures
            final(self).wf(),
            (final(self).text(), final(self).pos()) == insert_step(
                old(self).text(),
                old(self).pos(),
                s@,
            ),
            final(self).mark() == old(self).mark(),
    {
        let ins = chars_of(s);
        let chars = splice(&self.chars, self.pos, self.pos, &ins);
        let pos = self.pos + ins.len();
        proof {
            assert(self.chars@.take(self.pos as int) + ins@ + self.chars@.skip(self.pos as int)
                =~= self.chars@.take(self.pos as int) + s@ + self.chars@.skip(self.pos as int));
            lemma_insert_keeps_mark(self.chars@, self.pos as int, s@, self.mark as int);
        }
        self.commit(chars, pos);
    }

    /// Inserts a single character at the cursor.
    pub fn insert_char(&mut self, c: char)
        requires
            old(self).wf(),
            old(self).text().len() + 1 <= usize::MAX / 4,
        ensures
            final(self).wf(),
            (final(self).text(), final(self).pos()) == insert_step(
                old(self).text(),
                old(self).pos(),
                seq![c],
            ),
            final(self).mark() == old(self).mark(),
    {
        let mut ins: Vec<char> = Vec::new();
        ins.push(c);
        proof {
            assert(ins@ =~= seq![c]);
        }
        let chars = splice(&self.chars, self.pos, self.pos, &ins);
        let pos = self.pos + 1;
        proof {
            lemma_insert_keeps_mark(self.chars@, self.pos as int, ins@, self.mark as int);
        }
        self.commit(chars, pos);
    }

    /// Replaces the text between byte offsets `start` and `end` with
    /// `replacement`, keeping the cursor on the same text where it can.
    ///
    /// Does nothing if the range is reversed, runs past the end, or does not
    /// fall on character boundaries.
    pub fn replace_range(&mut self, start: usize, end: usize, replacement: &str)
        requires
            old(self).wf(),
            old(self).text().len() + replacement@.len() <= usize::MAX / 4,
        ensures
            final(self).wf(),
            (start > end || !is_boundary(old(self).text(), start as int) || !is_boundary(
                old(self).text(),
                end as int,
            )) ==> final(self).text() == old(self).text() && final(self).pos() == old(self).pos() && final(self).mark() == old(self).mark(),
            forall|ks: int, ke: int|
                #![trigger offset(old(self).text(), ks), offset(old(self).text(), ke)]
                start <= end && 0 <= ks <= old(self).text().len() && 0 <= ke <= old(self).text().len() && offset(old(self).text(), ks) == start && offset(
                    old(self).text(),
                    ke,
                ) == end ==> {
                    &&& final(self).text() == old(self).text().take(ks) + replacement@ + old(self).text().skip(ke)
                    &&& final(self).pos() == if old(self).pos() >= ke {
                        old(self).pos() - (ke - ks) + replacement@.len()
                    } else if old(self).pos() > ks {
                        ks + replacement@.len()
                    } else {
                        old(self).pos()
                    }
                    &&& final(self).mark() == if old(self).mark() <= byte_len(final(self).text()) {
                        old(self).mark()
                    } else {
                        byte_len(final(self).text()) as int
                    }
                },
    {
        if start > end {
            return;
        }
        let ks = match self.index_of_offset(start) {
            Some(k) => k,
            None => {
                return;
            },
        };
        let ke = match self.index_of_offset(end) {
            Some(k) => k,
            None => {
                return;
            },
        };
        proof {
            if ke < ks {
                lemma_offset_mono(self.chars@, ke as int, ks as int);
            }
            assert forall|a: int, b: int|
                0 <= a <= self.chars@.len() && 0 <= b <= self.chars@.len() && offset(self.chars@, a)
                    == start && offset(self.chars@, b) == end implies a == ks && b == ke by {
                lemma_offset_injective(self.chars@, a, ks as int);
                lemma_offset_injective(self.chars@, b, ke as int);
            }
        }
        let ins = chars_of(replacement);
        let chars = splice(&self.chars, ks, ke, &ins);
        let rn = ins.len();
        let pos = if self.pos >= ke {
            self.pos - (ke - ks) + rn
        } else if self.pos > ks {
            ks + rn
        } else {
            self.pos
        };
        self.commit(chars, pos);
        let total = self.byte_offset(self.chars.len());
        proof {
            lemma_offset_full(self.chars@);
        }
        if self.mark > total {
            self.mark = total;
        }
    }

    // ------------------------------------------------------------ deletion

    /// Removes characters `from..to`, leaving the cursor at `pos`.
    fn remove_range(&mut self, from: usize, to: usize, pos: usize)
        requires
            old(self).wf(),
            from <= to <= old(self).text().len(),
            pos <= old(self).text().len() - (to - from),
        ensures
            final(self).wf(),
            final(self).text() == old(self).text().take(from as int) + old(self).text().skip(
                to as int,
            ),
            final(self).pos() == pos,
            final(self).mark() == clamped_mark(old(self).mark(), final(self).text()),
    {
        let empty: Vec<char> = Vec::new();
        let chars = splice(&self.chars, from, to, &empty);
        proof {
            assert(self.chars@.take(from as int) + empty@ + self.chars@.skip(to as int)
                =~= self.chars@.take(from as int) + self.chars@.skip(to as int));
        }
        self.commit(chars, pos);
    }

    /// Deletes the character at the cursor.
    pub fn delete(&mut self)
        requires
            old(self).wf(),
        ensures
            final(self).wf(),
            final(self).pos() == old(self).pos(),
            final(self).mark() == clamped_mark(old(self).mark(), final(self).text()),
            final(self).text() == if old(self).pos() == old(self).text().len() {
                old(self).text()
            } else {
                old(self).text().remove(old(self).pos())
            },
    {
        if self.pos == self.chars.len() {
            return;
        }
        let p = self.pos;
        proof {
            assert(self.chars@.take(p as int) + self.chars@.skip(p + 1) =~= self.chars@.remove(
                p as int,
            ));
        }
        self.remove_range(p, p + 1, p);
    }

    /// Deletes the character before the cursor.
    pub fn rubout(&mut self)
        requires
            old(self).wf(),
        ensures
            final(self).wf(),
            (final(self).text(), final(self).pos()) == rubout_step(
                old(self).text(),
                old(self).pos(),
            ),
            final(self).mark() == clamped_mark(old(self).mark(), final(self).text()),
    {
        if self.pos == 0 {
            return;
        }
        let p = self.pos;
        self.remove_range(p - 1, p, p - 1);
    }

    /// Deletes the word after the cursor, returning it for the kill ring.
    pub fn delete_word(&mut self) -> (killed: String)
        requires
            old(self).wf(),
        ensures
            final(self).wf(),
            killed@ == old(self).text().subrange(
                old(self).pos(),
                forward_word_spec(old(self).text(), old(self).pos()),
            ),
            final(self).text() == old(self).text().take(old(self).pos()) + old(self).text().skip(
                forward_word_spec(old(self).text(), old(self).pos()),
            ),
            final(self).pos() == old(self).pos(),
            final(self).mark() == clamped_mark(old(self).mark(), final(self).text()),
    {
        let p = self.pos;
        let end = self.forward_word(p);
        let killed = string_of_range(&self.chars, p, end);
        self.remove_range(p, end, p);
        killed
    }

    /// Deletes the word before the cursor, returning it for the kill ring.
    pub fn rubout_word(&mut self) -> (killed: String)
        requires
            old(self).wf(),
        ensures
            final(self).wf(),
            killed@ == old(self).text().subrange(
                backward_word_spec(old(self).text(), old(self).pos()),
                old(self).pos(),
            ),
            final(self).text() == old(self).text().take(
                backward_word_spec(old(self).text(), old(self).pos()),
            ) + old(self).text().skip(old(self).pos()),
            final(self).pos() == backward_word_spec(old(self).text(), old(self).pos()),
            final(self).mark() == clamped_mark(old(self).mark(), final(self).text()),
    {
        let p = self.pos;
        let start = self.backward_word(p);
        let killed = string_of_range(&self.chars, start, p);
        self.remove_range(start, p, start);
        killed
    }

    /// Deletes from the cursor to the end of the line.
    pub fn kill_to_end(&mut self) -> (killed: String)
        requires
            old(self).wf(),
        ensures
            final(self).wf(),
            killed@ == old(self).text().skip(old(self).pos()),
            final(self).text() == old(self).text().take(old(self).pos()),
            final(self).text() + killed@ == old(self).text(),
            final(self).pos() == old(self).pos(),
            final(self).mark() == clamped_mark(old(self).mark(), final(self).text()),
    {
        let p = self.pos;
        let n = self.chars.len();
        let killed = string_of_range(&self.chars, p, n);
        self.remove_range(p, n, p);
        proof {
            assert(old(self).text().subrange(p as int, n as int) =~= old(self).text().skip(
                p as int,
            ));
            assert(old(self).text().take(p as int) + old(self).text().skip(n as int)
                =~= old(self).text().take(p as int));
        }
        killed
    }

    /// Deletes from the start of the line to the cursor.
    pub fn kill_to_start(&mut self) -> (killed: String)
        requires
            old(self).wf(),
        ensures
            final(self).wf(),
            killed@ == old(self).text().take(old(self).pos()),
            final(self).text() == old(self).text().skip(old(self).pos()),
            killed@ + final(self).text() == old(self).text(),
            final(self).pos() == 0,
            final(self).mark() == clamped_mark(old(self).mark(), final(self).text()),
    {
        let p = self.pos;
        let killed = string_of_range(&self.chars, 0, p);
        self.remove_range(0, p, 0);
        proof {
            assert(old(self).text().subrange(0, p as int) =~= old(self).text().take(p as int));
            assert(old(self).text().take(0) + old(self).text().skip(p as int) =~= old(self).text().skip(p as int));
        }
        killed
    }

    // ------------------------------------------------------------ movement

    /// Moves the cursor one character left.
    pub fn move_left(&mut self)
        requires
            old(self).wf(),
        ensures
            final(self).wf(),
            final(self).text() == old(self).text(),
            final(self).mark() == old(self).mark(),
            final(self).pos() == if old(self).pos() > 0 {
                old(self).pos() - 1
            } else {
                0
            },
    {
        if self.pos > 0 {
            self.pos = self.pos - 1;
        }
    }

    /// Moves the cursor one character right.
    pub fn move_right(&mut self)
        requires
            old(self).wf(),
        ensures
            final(self).wf(),
            final(self).text() == old(self).text(),
            final(self).mark() == old(self).mark(),
            final(self).pos() == if old(self).pos() < old(self).text().len() {
                old(self).pos() + 1
            } else {
                old(self).pos()
            },
    {
        if self.pos < self.chars.len() {
            self.pos = self.pos + 1;
        }
    }

    /// Moves the cursor to the start of the line.
    pub fn move_home(&mut self)
        requires
            old(self).wf(),
        ensures
            final(self).wf(),
            final(self).text() == old(self).text(),
            final(self).mark() == old(self).mark(),
            final(self).pos() == 0,
    {
        self.pos = 0;
    }

    /// Moves the cursor to the end of the line.
    pub fn move_end(&mut self)
        requires
            old(self).wf(),
        ensures
            final(self).wf(),
            final(self).text() == old(self).text(),
            final(self).mark() == old(self).mark(),
            final(self).pos() == old(self).text().len(),
    {
        self.pos = self.chars.len();
    }

    /// Moves the cursor one word left.
    pub fn move_word_left(&mut self)
        requires
            old(self).wf(),
        ensures
            final(self).wf(),
            final(self).text() == old(self).text(),
            final(self).mark() == old(self).mark(),
            final(self).pos() == backward_word_spec(old(self).text(), old(self).pos()),
    {
        self.pos = self.backward_word(self.pos);
    }

    /// Moves the cursor one word right.
    pub fn move_word_right(&mut self)
        requires
            old(self).wf(),
        ensures
            final(self).wf(),
            final(self).text() == old(self).text(),
            final(self).mark() == old(self).mark(),
            final(self).pos() == forward_word_spec(old(self).text(), old(self).pos()),
    {
        self.pos = self.forward_word(self.pos);
    }

    // ------------------------------------------------------- bracket pairs

    fn mirror_left_idx(&self, p: usize) -> (r: Option<(usize, usize)>)
        requires
            self.wf(),
            p <= self.text().len(),
        ensures
            r matches Some((a, b)) ==> mirror_left_spec(self.text(), p as int) == Some(
                (a as int, b as int),
            ) && a < b < self.text().len(),
            r is None ==> mirror_left_spec(self.text(), p as int) is None,
    {
        if p <= 1 {
            return None;
        }
        let index = p - 1;
        let right = self.chars[index];
        let left = match mirror_left(right) {
            Some(l) => l,
            None => {
                return None;
            },
        };
        let mut depth: usize = 0;
        let mut j: usize = index - 1;
        loop
            invariant
                self.wf(),
                j < index < self.chars.len(),
                index == p - 1,
                right == self.chars@[index as int],
                spec_mirror_left(right) == Some(left),
                depth + j < index,
                match_back(self.chars@, right, left, j as int, depth as nat) == match_back(
                    self.chars@,
                    right,
                    left,
                    index - 1,
                    0,
                ),
            decreases j,
        {
            let c = self.chars[j];
            if c == left && depth == 0 && c != right {
                return Some((j, index));
            }
            if j == 0 {
                return None;
            }
            if c == right {
                depth = depth + 1;
            } else if c == left {
                depth = depth - 1;
            }
            j = j - 1;
        }
    }

    fn mirror_right_idx(&self, p: usize) -> (r: Option<(usize, usize)>)
        requires
            self.wf(),
            p <= self.text().len(),
        ensures
            r matches Some((a, b)) ==> mirror_right_spec(self.text(), p as int) == Some(
                (a as int, b as int),
            ) && a < b < self.text().len(),
            r is None ==> mirror_right_spec(self.text(), p as int) is None,
    {
        if p >= self.chars.len() {
            return None;
        }
        let left = self.chars[p];
        let right = match mirror_right(left) {
            Some(r) => r,
            None => {
                return None;
            },
        };
        let mut depth: usize = 0;
        let mut j: usize = p + 1;
        if j >= self.chars.len() {
            return None;
        }
        loop
            invariant
                self.wf(),
                p < j < self.chars.len(),
                left == self.chars@[p as int],
                spec_mirror_right(left) == Some(right),
                depth + p < j,
                match_fwd(self.chars@, left, right, j as int, depth as nat) == match_fwd(
                    self.chars@,
                    left,
                    right,
                    p + 1,
                    0,
                ),
            decreases self.chars.len() - j,
        {
            let c = self.chars[j];
            if c == right && depth == 0 && c != left {
                return Some((p, j));
            }
            if j + 1 >= self.chars.len() {
                return None;
            }
            if c == left {
                depth = depth + 1;
            } else if c == right {
                depth = depth - 1;
            }
            j = j + 1;
        }
    }

    fn offsets_of(&self, m: Option<(usize, usize)>) -> (r: Option<(usize, usize)>)
        requires
            self.wf(),
            m matches Some((a, b)) ==> a <= self.text().len() && b <= self.text().len(),
        ensures
            r == pair_offsets(
                self.text(),
                match m {
                    Some((a, b)) => Some((a as int, b as int)),
                    None => None,
                },
            ),
    {
        match m {
            Some((a, b)) => Some((self.byte_offset(a), self.byte_offset(b))),
            None => None,
        }
    }

    /// Finds the bracket pair closing immediately before the cursor.
    ///
    /// Returns the byte offsets of the opening and closing brackets.
    pub fn mirror_left_match(&self) -> (r: Option<(usize, usize)>)
        requires
            self.wf(),
        ensures
            r == pair_offsets(self.text(), mirror_left_spec(self.text(), self.pos())),
    {
        let m = self.mirror_left_idx(self.pos);
        self.offsets_of(m)
    }

    /// Finds the bracket pair opening at the cursor.
    pub fn mirror_right_match(&self) -> (r: Option<(usize, usize)>)
        requires
            self.wf(),
        ensures
            r == pair_offsets(self.text(), mirror_right_spec(self.text(), self.pos())),
    {
        let m = self.mirror_right_idx(self.pos);
        self.offsets_of(m)
    }

    /// Bracket pair to highlight for the current cursor position, if any: the
    /// pair closing before the cursor, else the pair opening at it.
    pub fn mirror_match(&self) -> (r: Option<(usize, usize)>)
        requires
            self.wf(),
        ensures
            r == pair_offsets(
                self.text(),
                if mirror_left_spec(self.text(), self.pos()) is Some {
                    mirror_left_spec(self.text(), self.pos())
                } else {
                    mirror_right_spec(self.text(), self.pos())
                },
            ),
    {
        let m = self.mirror_left_idx(self.pos);
        if m.is_some() {
            self.offsets_of(m)
        } else {
            self.offsets_of(self.mirror_right_idx(self.pos))
        }
    }

    /// Moves the cursor left by one balanced expression.
    pub fn move_expr_left(&mut self)
        requires
            old(self).wf(),
        ensures
            final(self).wf(),
            final(self).text() == old(self).text(),
            final(self).mark() == old(self).mark(),
            final(self).pos() == ({
                let t = old(self).text();
                let q = scan_back(t, old(self).pos(), CharClass::Xeparator);
                match mirror_left_spec(t, q) {
                    Some((a, _)) => a,
                    None => scan_back(t, q, CharClass::Word),
                }
            }),
    {
        let q = self.scan_back_exec(self.pos, CharClass::Xeparator);
        match self.mirror_left_idx(q) {
            Some((a, _)) => {
                self.pos = a;
            },
            None => {
                self.pos = self.scan_back_exec(q, CharClass::Word);
            },
        }
    }

    /// Moves the cursor right by one balanced expression.
    pub fn move_expr_right(&mut self)
        requires
            old(self).wf(),
        ensures
            final(self).wf(),
            final(self).text() == old(self).text(),
            final(self).mark() == old(self).mark(),
            final(self).pos() == ({
                let t = old(self).text();
                let q = scan_fwd(t, old(self).pos(), CharClass::Xeparator);
                match mirror_right_spec(t, q) {
                    Some((_, b)) => b + 1,
                    None => scan_fwd(t, q, CharClass::Word),
                }
            }),
    {
        let q = self.scan_fwd_exec(self.pos, CharClass::Xeparator);
        match self.mirror_right_idx(q) {
            Some((_, b)) => {
                self.pos = b + 1;
            },
            None => {
                self.pos = self.scan_fwd_exec(q, CharClass::Word);
            },
        }
    }

    // ---------------------------------------------------------------- mark

    /// Records the cursor position as the mark.
    pub fn set_mark(&mut self)
        requires
            old(self).wf(),
        ensures
            final(self).wf(),
            final(self).text() == old(self).text(),
            final(self).pos() == old(self).pos(),
            final(self).mark() == offset(old(self).text(), old(self).pos()),
    {
        self.mark = self.byte_offset(self.pos);
        proof {
            lemma_offset_le_total(self.chars@, self.pos as int);
        }
    }

    /// Moves the cursor to the mark, snapped down to a character boundary,
    /// if the mark still lies within the buffer.
    pub fn goto_mark(&mut self)
        requires
            old(self).wf(),
        ensures
            final(self).wf(),
            final(self).text() == old(self).text(),
            final(self).mark() == old(self).mark(),
            old(self).mark() > byte_len(old(self).text()) ==> final(self).pos() == old(self).pos(),
            old(self).mark() <= byte_len(old(self).text()) ==> {
                &&& offset(final(self).text(), final(self).pos()) <= old(self).mark()
                &&& final(self).pos() < final(self).text().len() ==> offset(
                    final(self).text(),
                    final(self).pos() + 1,
                ) > old(self).mark()
            },
    {
        let total = self.byte_offset(self.chars.len());
        proof {
            lemma_offset_full(self.chars@);
        }
        if self.mark <= total {
            let m = self.mark;
            self.set_cursor(m);
        }
    }

    // ---------------------------------------------------------- transforms

    /// Swaps the two characters around the cursor and moves past them.
    pub fn transpose(&mut self)
        requires
            old(self).wf(),
        ensures
            final(self).wf(),
            (final(self).text(), final(self).pos()) == transpose_spec(
                old(self).text(),
                old(self).pos(),
            ),
            final(self).mark() == clamped_mark(old(self).mark(), final(self).text()),
    {
        let n = self.chars.len();
        let b = if self.pos == n && self.pos > 0 {
            self.pos - 1
        } else {
            self.pos
        };
        if b == 0 || b >= n {
            return;
        }
        let mut ins: Vec<char> = Vec::new();
        ins.push(self.chars[b]);
        ins.push(self.chars[b - 1]);
        let chars = splice(&self.chars, b - 1, b + 1, &ins);
        proof {
            assert(ins@ =~= seq![self.chars@[b as int], self.chars@[b - 1]]);
        }
        self.commit(chars, b + 1);
    }

    /// Swaps the word before the cursor with the word after it.
    pub fn transpose_words(&mut self)
        requires
            old(self).wf(),
        ensures
            final(self).wf(),
            (final(self).text(), final(self).pos()) == transpose_words_spec(
                old(self).text(),
                old(self).pos(),
            ),
            final(self).mark() == clamped_mark(old(self).mark(), final(self).text()),
    {
        let n = self.chars.len();
        let i = if self.pos == n {
            self.backward_word(self.pos)
        } else {
            self.pos
        };
        let pivot = self.escape_word(i);
        let xj = self.scan_back_exec(pivot, CharClass::Separator);
        let xi = self.scan_back_exec(xj, CharClass::Word);
        let yi = self.scan_fwd_exec(pivot, CharClass::Separator);
        let yj = self.scan_fwd_exec(yi, CharClass::Word);
        if !(xi < xj && xj < yi && yi < yj) {
            return;
        }
        let mut mid: Vec<char> = Vec::new();
        push_range(&mut mid, &self.chars, yi, yj);
        push_range(&mut mid, &self.chars, xj, yi);
        push_range(&mut mid, &self.chars, xi, xj);
        let chars = splice(&self.chars, xi, yj, &mid);
        proof {
            let t = self.chars@;
            assert(t.take(xi as int) + (t.subrange(yi as int, yj as int) + t.subrange(
                xj as int,
                yi as int,
            ) + t.subrange(xi as int, xj as int)) + t.skip(yj as int) =~= t.take(xi as int)
                + t.subrange(yi as int, yj as int) + t.subrange(xj as int, yi as int)
                + t.subrange(xi as int, xj as int) + t.skip(yj as int));
        }
        self.commit(chars, yj);
    }

    /// Applies `op` to each character of the word at or after the cursor,
    /// leaving the cursor after the word.
    fn case_word(&mut self, op: CaseOp)
        requires
            old(self).wf(),
        ensures
            final(self).wf(),
            (final(self).text(), final(self).pos()) == case_word_spec(
                old(self).text(),
                old(self).pos(),
                op,
            ),
            final(self).mark() == clamped_mark(old(self).mark(), final(self).text()),
    {
        let start = self.scan_fwd_exec(self.pos, CharClass::Separator);
        let end = self.scan_fwd_exec(start, CharClass::Word);
        if start == end {
            return;
        }
        let mut mapped: Vec<char> = Vec::new();
        let mut k = start;
        while k < end
            invariant
                self.wf(),
                start <= k <= end <= self.chars.len(),
                start < end,
                mapped@ == case_map(op, self.chars@.subrange(start as int, end as int)).take(
                    k - start,
                ),
            decreases end - k,
        {
            let c = self.chars[k];
            let d = match op {
                CaseOp::Lower => to_lowercase(c),
                CaseOp::Upper => to_uppercase(c),
                CaseOp::Capitalize => if k == start {
                    to_uppercase(c)
                } else {
                    c
                },
            };
            mapped.push(d);
            proof {
                let w = self.chars@.subrange(start as int, end as int);
                assert(case_map(op, w).take(k + 1 - start) =~= case_map(op, w).take(k - start).push(
                    d,
                ));
            }
            k = k + 1;
        }
        proof {
            let w = self.chars@.subrange(start as int, end as int);
            assert(case_map(op, w).take(end - start) =~= case_map(op, w));
        }
        let chars = splice(&self.chars, start, end, &mapped);
        self.commit(chars, end);
    }

    /// Lowercases the next word.
    pub fn lowercase_word(&mut self)
        requires
            old(self).wf(),
        ensures
            final(self).wf(),
            (final(self).text(), final(self).pos()) == case_word_spec(
                old(self).text(),
                old(self).pos(),
                CaseOp::Lower,
            ),
            final(self).mark() == clamped_mark(old(self).mark(), final(self).text()),
    {
        self.case_word(CaseOp::Lower)
    }

    /// Uppercases the next word.
    pub fn uppercase_word(&mut self)
        requires
            old(self).wf(),
        ensures
            final(self).wf(),
            (final(self).text(), final(self).pos()) == case_word_spec(
                old(self).text(),
                old(self).pos(),
                CaseOp::Upper,
            ),
            final(self).mark() == clamped_mark(old(self).mark(), final(self).text()),
    {
        self.case_word(CaseOp::Upper)
    }

    /// Uppercases the first character of the next word.
    pub fn capitalize_word(&mut self)
        requires
            old(self).wf(),
        ensures
            final(self).wf(),
            (final(self).text(), final(self).pos()) == case_word_spec(
                old(self).text(),
                old(self).pos(),
                CaseOp::Capitalize,
            ),
            final(self).mark() == clamped_mark(old(self).mark(), final(self).text()),
    {
        self.case_word(CaseOp::Capitalize)
    }

    /// Collapses the run of separators surrounding the cursor.
    pub fn squeeze(&mut self)
        requires
            old(self).wf(),
        ensures
            final(self).wf(),
            final(self).mark() == clamped_mark(old(self).mark(), final(self).text()),
            ({
                let t = old(self).text();
                let p = old(self).pos();
                let start = scan_back(t, p, CharClass::Separator);
                let end = scan_fwd(t, p, CharClass::Separator);
                if start >= end {
                    final(self).text() == t && final(self).pos() == p
                } else {
                    final(self).text() == t.take(start) + t.skip(end) && final(self).pos()
                        == start
                }
            }),
    {
        let start = self.scan_back_exec(self.pos, CharClass::Separator);
        let end = self.scan_fwd_exec(self.pos, CharClass::Separator);
        if start >= end {
            return;
        }
        self.remove_range(start, end, start);
    }

    // ------------------------------------------------------------- paredit

    fn closing_bracket_exec(&self, p: usize) -> (r: Option<usize>)
        requires
            self.wf(),
            p <= self.text().len(),
        ensures
            r matches Some(e) ==> closing_bracket(self.text(), p as int, Seq::empty()) == Some(
                e as int,
            ) && p <= e < self.text().len(),
            r is None ==> closing_bracket(self.text(), p as int, Seq::empty()) is None,
    {
        let mut stack: Vec<char> = Vec::new();
        let mut pos = p;
        loop
            invariant
                self.wf(),
                p <= pos <= self.chars.len(),
                closing_bracket(self.chars@, pos as int, stack@) == closing_bracket(
                    self.chars@,
                    p as int,
                    Seq::empty(),
                ),
            decreases self.chars.len() - pos,
        {
            if pos == self.chars.len() {
                return None;
            }
            let c = self.chars[pos];
            if stack.len() > 0 {
                if c == stack[stack.len() - 1] {
                    stack.pop();
                }
            } else {
                match mirror_right(c) {
                    Some(rhs) => {
                        stack.push(rhs);
                    },
                    None => {
                        if mirror_left(c).is_some() {
                            return Some(pos);
                        }
                    },
                }
            }
            pos = pos + 1;
        }
    }

    fn item_start_exec(&self, from: usize) -> (r: Option<usize>)
        requires
            self.wf(),
            from <= self.text().len(),
        ensures
            r matches Some(q) ==> item_start(self.text(), from as int, Seq::empty()) == Some(
                q as int,
            ) && 0 < q <= from,
            r is None ==> item_start(self.text(), from as int, Seq::empty()) is None,
    {
        let mut stack: Vec<char> = Vec::new();
        let mut pos = from;
        loop
            invariant
                self.wf(),
                pos <= from <= self.chars.len(),
                item_start(self.chars@, pos as int, stack@) == item_start(
                    self.chars@,
                    from as int,
                    Seq::empty(),
                ),
            decreases pos,
        {
            if pos == 0 {
                return None;
            }
            let c = self.chars[pos - 1];
            if stack.len() > 0 {
                if c == stack[stack.len() - 1] {
                    stack.pop();
                }
            } else {
                match mirror_left(c) {
                    Some(lhs) => {
                        stack.push(lhs);
                    },
                    None => {
                        if is_separator(c) {
                            return Some(pos);
                        }
                    },
                }
            }
            pos = pos - 1;
        }
    }

    fn item_end_exec(&self, from: usize) -> (r: usize)
        requires
            self.wf(),
            from <= self.text().len(),
        ensures
            r == item_end(self.text(), from as int, Seq::empty()),
            from <= r <= self.text().len(),
    {
        let mut stack: Vec<char> = Vec::new();
        let mut pos = from;
        while pos < self.chars.len()
            invariant
                self.wf(),
                from <= pos <= self.chars.len(),
                item_end(self.chars@, pos as int, stack@) == item_end(
                    self.chars@,
                    from as int,
                    Seq::empty(),
                ),
            decreases self.chars.len() - pos,
        {
            let c = self.chars[pos];
            if stack.len() > 0 {
                if c == stack[stack.len() - 1] {
                    stack.pop();
                }
            } else {
                match mirror_right(c) {
                    Some(rhs) => {
                        stack.push(rhs);
                    },
                    None => {
                        if is_separator(c) {
                            return pos;
                        }
                    },
                }
            }
            pos = pos + 1;
        }
        pos
    }

    /// Moves the last item inside the enclosing s-expression to outside it.
    ///
    /// `(a| b c)` becomes `(a| b) c`. Text that has no enclosing expression,
    /// or no item to move, is left alone.
    pub fn barf(&mut self)
        requires
            old(self).wf(),
        ensures
            final(self).wf(),
            final(self).mark() == clamped_mark(old(self).mark(), final(self).text()),
            barf_spec(old(self).text(), old(self).pos()) matches Some((t, p)) ==> final(self).text() == t && final(self).pos() == p,
            barf_spec(old(self).text(), old(self).pos()) is None ==> final(self).text() == old(self).text() && final(self).pos() == old(self).pos(),
    {
        let end = match self.closing_bracket_exec(self.pos) {
            Some(e) => e,
            None => {
                return;
            },
        };
        let q0 = self.scan_back_exec(end, CharClass::Xeparator);
        let q1 = match self.item_start_exec(q0) {
            Some(q) => q,
            None => {
                return;
            },
        };
        let q = self.scan_back_exec(q1, CharClass::Xeparator);
        let mut mid: Vec<char> = Vec::new();
        mid.push(self.chars[end]);
        push_range(&mut mid, &self.chars, q, end);
        let chars = splice(&self.chars, q, end + 1, &mid);
        let pos = if self.pos > q {
            self.pos + 1
        } else {
            self.pos
        };
        proof {
            let t = self.chars@;
            assert(t.take(q as int) + mid@ + t.skip(end + 1) =~= t.take(q as int) + seq![
                t[end as int],
            ] + t.subrange(q as int, end as int) + t.skip(end + 1));
        }
        self.commit(chars, pos);
    }

    /// Moves the first item after the enclosing s-expression inside it.
    ///
    /// `(a| b) c d` becomes `(a| b c) d`. The cursor stays where it is.
    pub fn slurp(&mut self)
        requires
            old(self).wf(),
        ensures
            final(self).wf(),
            final(self).mark() == clamped_mark(old(self).mark(), final(self).text()),
            final(self).pos() == old(self).pos(),
            slurp_spec(old(self).text(), old(self).pos()) matches Some(t) ==> final(self).text()
                == t,
            slurp_spec(old(self).text(), old(self).pos()) is None ==> final(self).text() == old(self).text(),
    {
        let point = match self.closing_bracket_exec(self.pos) {
            Some(e) => e,
            None => {
                return;
            },
        };
        let from = self.scan_fwd_exec(point + 1, CharClass::Xeparator);
        let e = self.item_end_exec(from);
        let mut mid: Vec<char> = Vec::new();
        push_range(&mut mid, &self.chars, point + 1, e);
        mid.push(self.chars[point]);
        let chars = splice(&self.chars, point, e, &mid);
        proof {
            let t = self.chars@;
            assert(t.take(point as int) + mid@ + t.skip(e as int) =~= t.take(point as int)
                + t.subrange(point + 1, e as int) + seq![t[point as int]] + t.skip(e as int));
        }
        let pos = self.pos;
        self.commit(chars, pos);
    }

    /// The cursor always sits on a character boundary of the buffer's UTF-8
    /// text.
    pub proof fn lemma_cursor_on_char_boundary(&self)
        requires
            self.wf(),
        ensures
            is_char_boundary(encode_utf8(self.text()), offset(self.text(), self.pos()) as int),
    {
        lemma_offset_is_char_boundary(self.chars@, self.pos as int);
    }
}

/// Inserting text and then rubbing out as many characters as were inserted
/// restores the original text and cursor.
pub proof fn law_insert_then_rubout_is_identity(t: Seq<char>, p: int, s: Seq<char>)
    requires
        0 <= p <= t.len(),
    ensures
        ({
            let (t1, p1) = insert_step(t, p, s);
            rubout_steps(t1, p1, s.len()) == (t, p)
        }),
    decreases s.len(),
{
    if s.len() == 0 {
        assert(t.take(p) + s + t.skip(p) =~= t);
    } else {
        let (t1, p1) = insert_step(t, p, s);
        let s2 = s.drop_last();
        let (t2, p2) = rubout_step(t1, p1);
        assert(t1.take(p1 - 1) + t1.skip(p1) =~= t.take(p) + s2 + t.skip(p));
        assert(insert_step(t, p, s2) == (t2, p2));
        law_insert_then_rubout_is_identity(t, p, s2);
    }
}

} // verus!
