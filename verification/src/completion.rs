//! Tab completion.
//!
//! A provider reports *where* in the line a completion starts as well as what
//! the candidates are. Making the replacement range explicit is what keeps the
//! editor from having to re-derive a word boundary the provider already knew.

use crate::history::string_views;
use crate::text::{chars_of, index_of_offset_in, is_boundary_in, offset_of, split_at_char, str_byte_len, string_of};
use crate::unicode::{
    byte_len, display_width, is_whitespace, lemma_offset_injective, offset, spec_display_width,
    spec_is_whitespace,
};
use vstd::prelude::*;
use vstd::utf8::encode_utf8;

verus! {

// ------------------------------------------------------------- ordering

/// Strict lexicographic order on texts, by code point. This is the order
/// `String` sorts in: UTF-8 keeps the order of code points.
pub open spec fn lex_lt(a: Seq<char>, b: Seq<char>) -> bool
    decreases a.len(),
{
    if a.len() == 0 {
        b.len() > 0
    } else if b.len() == 0 {
        false
    } else if a[0] != b[0] {
        (a[0] as u32) < (b[0] as u32)
    } else {
        lex_lt(a.drop_first(), b.drop_first())
    }
}

/// Every text comes strictly before the ones after it.
pub open spec fn strictly_sorted(s: Seq<Seq<char>>) -> bool {
    forall|i: int, j: int| 0 <= i < j < s.len() ==> lex_lt(#[trigger] s[i], #[trigger] s[j])
}

/// No text comes after one that follows it.
pub open spec fn sorted(s: Seq<Seq<char>>) -> bool {
    forall|i: int, j: int| 0 <= i < j < s.len() ==> !lex_lt(#[trigger] s[j], #[trigger] s[i])
}

pub proof fn lemma_lex_irreflexive(a: Seq<char>)
    ensures
        !lex_lt(a, a),
    decreases a.len(),
{
    if a.len() > 0 {
        lemma_lex_irreflexive(a.drop_first());
    }
}

pub proof fn lemma_lex_asymmetric(a: Seq<char>, b: Seq<char>)
    ensures
        !(lex_lt(a, b) && lex_lt(b, a)),
    decreases a.len(),
{
    if a.len() > 0 && b.len() > 0 && a[0] == b[0] {
        lemma_lex_asymmetric(a.drop_first(), b.drop_first());
    }
}

pub proof fn lemma_lex_transitive(a: Seq<char>, b: Seq<char>, c: Seq<char>)
    requires
        lex_lt(a, b),
        lex_lt(b, c),
    ensures
        lex_lt(a, c),
    decreases a.len(),
{
    if a.len() > 0 && b.len() > 0 && c.len() > 0 && a[0] == b[0] && b[0] == c[0] {
        lemma_lex_transitive(a.drop_first(), b.drop_first(), c.drop_first());
    }
}

pub proof fn lemma_lex_total(a: Seq<char>, b: Seq<char>)
    requires
        a != b,
    ensures
        lex_lt(a, b) || lex_lt(b, a),
    decreases a.len(),
{
    if a.len() > 0 && b.len() > 0 && a[0] == b[0] {
        if a.drop_first() =~= b.drop_first() {
            assert forall|i: int| 0 <= i < a.len() implies a[i] == b[i] by {
                if i > 0 {
                    assert(a[i] == a.drop_first()[i - 1]);
                    assert(b[i] == b.drop_first()[i - 1]);
                }
            }
            assert(a =~= b);
        } else {
            lemma_lex_total(a.drop_first(), b.drop_first());
        }
    } else if a.len() == 0 && b.len() == 0 {
        assert(a =~= b);
    } else if a.len() > 0 && b.len() > 0 {
        vstd::utf8::char_u32_cast(a[0], a[0] as u32);
        vstd::utf8::char_u32_cast(b[0], b[0] as u32);
    }
}

proof fn lemma_lex_skip(a: Seq<char>, b: Seq<char>, i: int)
    requires
        0 <= i <= a.len(),
        i <= b.len(),
        a.take(i) == b.take(i),
    ensures
        lex_lt(a, b) == lex_lt(a.skip(i), b.skip(i)),
    decreases i,
{
    if i > 0 {
        assert(a[0] == a.take(i)[0]);
        assert(b[0] == b.take(i)[0]);
        assert(a.drop_first().take(i - 1) =~= a.take(i).drop_first());
        assert(b.drop_first().take(i - 1) =~= b.take(i).drop_first());
        lemma_lex_skip(a.drop_first(), b.drop_first(), i - 1);
        assert(a.drop_first().skip(i - 1) =~= a.skip(i));
        assert(b.drop_first().skip(i - 1) =~= b.skip(i));
    } else {
        assert(a.skip(0) =~= a);
        assert(b.skip(0) =~= b);
    }
}

/// Whether `a` comes strictly before `b`.
fn less(a: &Vec<char>, b: &Vec<char>) -> (r: bool)
    ensures
        r == lex_lt(a@, b@),
{
    let mut i: usize = 0;
    while i < a.len() && i < b.len()
        invariant
            i <= a.len(),
            i <= b.len(),
            a@.take(i as int) == b@.take(i as int),
        decreases a.len() - i,
    {
        if a[i] != b[i] {
            proof {
                lemma_lex_skip(a@, b@, i as int);
                assert(a@.skip(i as int)[0] == a@[i as int]);
                assert(b@.skip(i as int)[0] == b@[i as int]);
            }
            return (a[i] as u32) < (b[i] as u32);
        }
        proof {
            assert(a@.take(i + 1) =~= a@.take(i as int).push(a@[i as int]));
            assert(b@.take(i + 1) =~= b@.take(i as int).push(b@[i as int]));
        }
        i = i + 1;
    }
    proof {
        lemma_lex_skip(a@, b@, i as int);
    }
    a.len() < b.len()
}

/// Whether `a` and `b` hold the same text.
pub(crate) fn same(a: &Vec<char>, b: &Vec<char>) -> (r: bool)
    ensures
        r == (a@ == b@),
{
    if a.len() != b.len() {
        return false;
    }
    let mut i: usize = 0;
    while i < a.len()
        invariant
            a.len() == b.len(),
            i <= a.len(),
            forall|j: int| 0 <= j < i ==> a@[j] == b@[j],
        decreases a.len() - i,
    {
        if a[i] != b[i] {
            return false;
        }
        i = i + 1;
    }
    proof {
        assert(a@ =~= b@);
    }
    true
}

/// The views of a sequence of character vectors.
pub open spec fn char_views(s: Seq<Vec<char>>) -> Seq<Seq<char>> {
    Seq::new(s.len(), |i: int| s[i]@)
}

/// First position in the sorted `keys` whose text does not come before `c`.
fn insertion_point(keys: &Vec<Vec<char>>, c: &Vec<char>) -> (p: usize)
    ensures
        p <= keys.len(),
        forall|j: int| 0 <= j < p ==> lex_lt(#[trigger] char_views(keys@)[j], c@),
        p < keys.len() ==> !lex_lt(char_views(keys@)[p as int], c@),
{
    let mut p: usize = 0;
    while p < keys.len() && less(&keys[p], c)
        invariant
            p <= keys.len(),
            forall|j: int| 0 <= j < p ==> lex_lt(#[trigger] char_views(keys@)[j], c@),
        decreases keys.len() - p,
    {
        p = p + 1;
    }
    p
}

/// Rebuilds strings from character vectors.
fn strings_of(keys: &Vec<Vec<char>>) -> (r: Vec<String>)
    ensures
        string_views(r@) == char_views(keys@),
{
    let mut r: Vec<String> = Vec::new();
    let mut i: usize = 0;
    while i < keys.len()
        invariant
            i <= keys.len(),
            string_views(r@) == char_views(keys@).take(i as int),
        decreases keys.len() - i,
    {
        let s = string_of(&keys[i]);
        let ghost before = r@;
        r.push(s);
        proof {
            crate::history::lemma_string_views_push(before, s);
            assert(char_views(keys@).take(i + 1) =~= char_views(keys@).take(i as int).push(
                keys@[i as int]@,
            ));
        }
        i = i + 1;
    }
    proof {
        assert(char_views(keys@).take(keys@.len() as int) =~= char_views(keys@));
    }
    r
}

/// The characters of each string.
fn keys_of(items: &Vec<String>) -> (r: Vec<Vec<char>>)
    ensures
        char_views(r@) == string_views(items@),
{
    let mut r: Vec<Vec<char>> = Vec::new();
    let mut i: usize = 0;
    while i < items.len()
        invariant
            i <= items.len(),
            char_views(r@) == string_views(items@).take(i as int),
        decreases items.len() - i,
    {
        let k = chars_of(items[i].as_str());
        let ghost before = r@;
        r.push(k);
        proof {
            assert(char_views(r@) =~= char_views(before).push(k@));
            assert(string_views(items@).take(i + 1) =~= string_views(items@).take(i as int).push(
                items@[i as int]@,
            ));
        }
        i = i + 1;
    }
    proof {
        assert(string_views(items@).take(items@.len() as int) =~= string_views(items@));
    }
    r
}

/// Sorts texts and drops repeats: the result is strictly sorted and holds
/// exactly the texts of `items`.
fn sorted_unique(items: &Vec<String>) -> (r: Vec<String>)
    ensures
        strictly_sorted(string_views(r@)),
        forall|x: Seq<char>| string_views(r@).contains(x) <==> string_views(items@).contains(x),
{
    let src = keys_of(items);
    let mut keys: Vec<Vec<char>> = Vec::new();
    let mut i: usize = 0;
    while i < src.len()
        invariant
            i <= src.len(),
            char_views(src@) == string_views(items@),
            strictly_sorted(char_views(keys@)),
            forall|x: Seq<char>| char_views(keys@).contains(x) <==> char_views(src@).take(
                i as int,
            ).contains(x),
        decreases src.len() - i,
    {
        let c = src[i].clone();
        proof {
            assert(c@ == char_views(src@)[i as int]);
        }
        let p = insertion_point(&keys, &c);
        let ghost k = char_views(keys@);
        let ghost taken = char_views(src@).take(i + 1);
        proof {
            assert(char_views(src@).take(i + 1) =~= char_views(src@).take(i as int).push(c@));
        }
        if p < keys.len() && same(&keys[p], &c) {
            proof {
                assert(k[p as int] == c@);
                assert forall|x: Seq<char>| k.contains(x) <==> taken.contains(x) by {
                    if x == c@ {
                        assert(k[p as int] == x);
                        assert(taken[i as int] == x);
                    }
                    if taken.contains(x) && x != c@ {
                        let j = choose|j: int| 0 <= j < taken.len() && taken[j] == x;
                        assert(char_views(src@).take(i as int)[j] == x);
                    }
                    if k.contains(x) {
                        let j = choose|j: int| 0 <= j < k.len() && k[j] == x;
                        assert(char_views(src@).take(i as int).contains(x));
                        let jj = choose|jj: int| 0 <= jj < i && char_views(src@).take(i as int)[jj] == x;
                        assert(taken[jj] == x);
                    }
                }
            }
        } else {
            proof {
                if p < keys.len() {
                    assert(k[p as int] != c@);
                    lemma_lex_total(k[p as int], c@);
                }
            }
            keys.insert(p, c);
            proof {
                let k2 = char_views(keys@);
                assert(k2 =~= k.insert(p as int, c@));
                assert forall|a: int, b: int| 0 <= a < b < k2.len() implies lex_lt(
                    #[trigger] k2[a],
                    #[trigger] k2[b],
                ) by {
                    if b == p {
                        assert(k2[a] == k[a]);
                    } else if a == p {
                        assert(k2[b] == k[b - 1]);
                        if b - 1 > p {
                            lemma_lex_transitive(c@, k[p as int], k[b - 1]);
                        }
                    } else if b < p {
                        assert(k2[a] == k[a] && k2[b] == k[b]);
                    } else if a < p {
                        assert(k2[a] == k[a] && k2[b] == k[b - 1]);
                        assert(lex_lt(c@, k[b - 1])) by {
                            if b - 1 > p {
                                lemma_lex_transitive(c@, k[p as int], k[b - 1]);
                            }
                        }
                        lemma_lex_transitive(k[a], c@, k[b - 1]);
                    } else {
                        assert(k2[a] == k[a - 1] && k2[b] == k[b - 1]);
                    }
                }
                assert forall|x: Seq<char>| k2.contains(x) <==> taken.contains(x) by {
                    if k2.contains(x) {
                        let j = choose|j: int| 0 <= j < k2.len() && k2[j] == x;
                        if j == p {
                            assert(taken[i as int] == x);
                        } else {
                            let jk = if j < p { j } else { j - 1 };
                            assert(k[jk] == x);
                            assert(k.contains(x));
                            assert(char_views(src@).take(i as int).contains(x));
                            let jj = choose|jj: int| 0 <= jj < i && char_views(src@).take(i as int)[jj] == x;
                            assert(taken[jj] == x);
                        }
                    }
                    if taken.contains(x) {
                        let j = choose|j: int| 0 <= j < taken.len() && taken[j] == x;
                        if j == i {
                            assert(k2[p as int] == x);
                        } else {
                            assert(char_views(src@).take(i as int)[j] == x);
                            assert(k.contains(x));
                            let jk = choose|jk: int| 0 <= jk < k.len() && k[jk] == x;
                            if jk < p {
                                assert(k2[jk] == x);
                            } else {
                                assert(k2[jk + 1] == x);
                            }
                        }
                    }
                }
            }
        }
        i = i + 1;
    }
    proof {
        assert(char_views(src@).take(src@.len() as int) =~= char_views(src@));
    }
    strings_of(&keys)
}

// ---------------------------------------------------------- common prefix

/// Number of leading characters `a` and `b` share.
pub open spec fn shared_chars(a: Seq<char>, b: Seq<char>) -> nat
    decreases a.len(),
{
    if a.len() == 0 || b.len() == 0 || a[0] != b[0] {
        0
    } else {
        1 + shared_chars(a.drop_first(), b.drop_first())
    }
}

/// Number of leading characters every text in `cs` shares with the first.
pub open spec fn common_chars(cs: Seq<Seq<char>>) -> nat
    decreases cs.len(),
{
    if cs.len() == 0 {
        0
    } else if cs.len() == 1 {
        cs[0].len()
    } else {
        let a = common_chars(cs.drop_last());
        let b = shared_chars(cs[0], cs.last());
        if a <= b {
            a
        } else {
            b
        }
    }
}

proof fn lemma_shared_chars(a: Seq<char>, b: Seq<char>, k: int)
    requires
        0 <= k <= a.len(),
        k <= b.len(),
        forall|j: int| 0 <= j < k ==> a[j] == b[j],
        k == a.len() || k == b.len() || a[k] != b[k],
    ensures
        shared_chars(a, b) == k,
    decreases k,
{
    if k > 0 {
        lemma_shared_chars(a.drop_first(), b.drop_first(), k - 1);
    }
}

proof fn lemma_shared_prefix(a: Seq<char>, b: Seq<char>)
    ensures
        shared_chars(a, b) <= a.len(),
        shared_chars(a, b) <= b.len(),
        a.take(shared_chars(a, b) as int) == b.take(shared_chars(a, b) as int),
    decreases a.len(),
{
    if !(a.len() == 0 || b.len() == 0 || a[0] != b[0]) {
        lemma_shared_prefix(a.drop_first(), b.drop_first());
        let k = shared_chars(a, b) as int;
        assert(a.take(k) =~= seq![a[0]] + a.drop_first().take(k - 1));
        assert(b.take(k) =~= seq![b[0]] + b.drop_first().take(k - 1));
    } else {
        assert(a.take(0) =~= b.take(0));
    }
}

/// Every text in `cs` starts with the first `common_chars(cs)` characters of
/// the first one.
proof fn lemma_common_prefix(cs: Seq<Seq<char>>)
    requires
        cs.len() > 0,
    ensures
        common_chars(cs) <= cs[0].len(),
        forall|i: int|
            0 <= i < cs.len() ==> common_chars(cs) <= (#[trigger] cs[i]).len() && cs[i].take(
                common_chars(cs) as int,
            ) == cs[0].take(common_chars(cs) as int),
    decreases cs.len(),
{
    if cs.len() > 1 {
        let d = cs.drop_last();
        lemma_common_prefix(d);
        lemma_shared_prefix(cs[0], cs.last());
        let k = common_chars(cs) as int;
        let a = common_chars(d) as int;
        let b = shared_chars(cs[0], cs.last()) as int;
        assert forall|i: int| 0 <= i < cs.len() implies k <= (#[trigger] cs[i]).len() && cs[i].take(k)
            == cs[0].take(k) by {
            if i < cs.len() - 1 {
                assert(cs[i] == d[i]);
                assert(d[i].take(a) == d[0].take(a));
                assert(cs[i].take(k) =~= cs[i].take(a).take(k));
                assert(cs[0].take(k) =~= cs[0].take(a).take(k));
            } else {
                assert(cs[i].take(k) =~= cs[i].take(b).take(k));
                assert(cs[0].take(k) =~= cs[0].take(b).take(k));
            }
        }
    }
}

/// Number of leading characters `a` and `b` share.
fn shared_count(a: &Vec<char>, b: &Vec<char>) -> (r: usize)
    ensures
        r == shared_chars(a@, b@),
{
    let mut i: usize = 0;
    while i < a.len() && i < b.len() && a[i] == b[i]
        invariant
            i <= a.len(),
            i <= b.len(),
            forall|j: int| 0 <= j < i ==> a@[j] == b@[j],
        decreases a.len() - i,
    {
        i = i + 1;
    }
    proof {
        lemma_shared_chars(a@, b@, i as int);
    }
    i
}

// ------------------------------------------------------------ completions

/// Candidate completions for a position in a line.
#[derive(Debug, Clone)]
pub struct Completions {
    start: usize,
    candidates: Vec<String>,
}

impl Default for Completions {
    fn default() -> (r: Self)
        ensures
            r.spec_start() == 0,
            r.spec_candidates() == Seq::<Seq<char>>::empty(),
    {
        Completions::new(0)
    }
}

impl Completions {
    /// Byte offset in the line where a candidate begins replacing text.
    pub closed spec fn spec_start(&self) -> int {
        self.start as int
    }

    /// The candidates, in the order they will be offered.
    pub closed spec fn spec_candidates(&self) -> Seq<Seq<char>> {
        string_views(self.candidates@)
    }

    /// Creates an empty set whose candidates replace `line[start..pos]`.
    ///
    /// `start` must be a character boundary at or before the cursor.
    pub fn new(start: usize) -> (r: Self)
        ensures
            r.spec_start() == start,
            r.spec_candidates() == Seq::<Seq<char>>::empty(),
    {
        let r = Completions { start, candidates: Vec::new() };
        proof {
            assert(r.spec_candidates() =~= Seq::<Seq<char>>::empty());
        }
        r
    }

    /// Byte offset in the line where a candidate begins replacing text.
    pub fn start(&self) -> (r: usize)
        ensures
            r == self.spec_start(),
    {
        self.start
    }

    /// Adds a candidate. The candidate is the full replacement text, not a
    /// suffix.
    pub fn add(&mut self, candidate: &str)
        ensures
            final(self).spec_start() == old(self).spec_start(),
            final(self).spec_candidates() == old(self).spec_candidates().push(candidate@),
    {
        let ghost before = self.candidates@;
        let s = candidate.to_owned();
        self.candidates.push(s);
        proof {
            crate::history::lemma_string_views_push(before, s);
        }
    }

    /// The candidates, in the order they will be offered.
    pub fn candidates(&self) -> (r: &[String])
        ensures
            string_views(r@) == self.spec_candidates(),
    {
        self.candidates.as_slice()
    }

    /// Number of candidates.
    pub fn len(&self) -> (r: usize)
        ensures
            r == self.spec_candidates().len(),
    {
        self.candidates.len()
    }

    /// Whether there are no candidates.
    pub fn is_empty(&self) -> (r: bool)
        ensures
            r == (self.spec_candidates().len() == 0),
    {
        self.candidates.len() == 0
    }

    /// Sorts candidates and removes duplicates.
    pub fn sort_dedup(&mut self)
        ensures
            final(self).spec_start() == old(self).spec_start(),
            strictly_sorted(final(self).spec_candidates()),
            forall|x: Seq<char>|
                final(self).spec_candidates().contains(x) <==> old(
                    self,
                ).spec_candidates().contains(x),
    {
        self.candidates = sorted_unique(&self.candidates);
    }

    /// Longest prefix shared by every candidate, as a byte length.
    ///
    /// The result is a character boundary in every candidate, so it is safe
    /// to use for slicing.
    pub fn common_prefix_len(&self) -> (r: usize)
        ensures
            self.spec_candidates().len() == 0 ==> r == 0,
            self.spec_candidates().len() > 0 ==> r == offset(
                self.spec_candidates()[0],
                common_chars(self.spec_candidates()) as int,
            ),
            forall|i: int|
                0 <= i < self.spec_candidates().len() ==> r == offset(
                    #[trigger] self.spec_candidates()[i],
                    common_chars(self.spec_candidates()) as int,
                ) && common_chars(self.spec_candidates()) <= self.spec_candidates()[i].len(),
    {
        let n = self.candidates.len();
        if n == 0 {
            return 0;
        }
        let ghost cs = self.spec_candidates();
        let first = chars_of(self.candidates[0].as_str());
        let mut len: usize = first.len();
        let mut i: usize = 1;
        proof {
            assert(cs.take(1) =~= seq![cs[0]]);
            assert(first@ == cs[0]);
        }
        while i < n
            invariant
                1 <= i <= n == cs.len(),
                cs == self.spec_candidates(),
                first@ == cs[0],
                len == common_chars(cs.take(i as int)),
            decreases n - i,
        {
            let other = chars_of(self.candidates[i].as_str());
            let m = shared_count(&first, &other);
            proof {
                assert(other@ == cs[i as int]);
                let t = cs.take(i + 1);
                assert(t.drop_last() =~= cs.take(i as int));
                assert(t[0] == cs[0]);
                assert(t.last() == cs[i as int]);
            }
            if m < len {
                len = m;
            }
            i = i + 1;
        }
        proof {
            assert(cs.take(n as int) =~= cs);
            lemma_common_prefix(cs);
            assert forall|i: int| 0 <= i < cs.len() implies offset(#[trigger] cs[i], len as int) == offset(
                cs[0],
                len as int,
            ) by {
                assert(cs[i].take(len as int) == cs[0].take(len as int));
            }
        }
        let _ = str_byte_len(self.candidates[0].as_str());
        offset_of(&first, len)
    }
}

// ------------------------------------------------------------- words

/// Character index where the word ending before character `k` starts: just
/// after the last whitespace character before `k`, or 0.
pub open spec fn ws_start(s: Seq<char>, k: int) -> int
    decreases k,
{
    if k <= 0 {
        0
    } else if spec_is_whitespace(s[k - 1]) {
        k
    } else {
        ws_start(s, k - 1)
    }
}

proof fn lemma_ws_start(s: Seq<char>, k: int)
    requires
        0 <= k <= s.len(),
    ensures
        0 <= ws_start(s, k) <= k,
        forall|j: int| ws_start(s, k) <= j < k ==> !spec_is_whitespace(#[trigger] s[j]),
        ws_start(s, k) > 0 ==> spec_is_whitespace(s[ws_start(s, k) - 1]),
    decreases k,
{
    if k > 0 && !spec_is_whitespace(s[k - 1]) {
        lemma_ws_start(s, k - 1);
    }
}

/// Character index of byte offset `pos` in `line`, which must be a boundary.
fn char_index(line: &str, v: &Vec<char>, pos: usize) -> (k: usize)
    requires
        v@ == line@,
        is_boundary_in(line@, pos as int),
    ensures
        k <= line@.len(),
        offset(line@, k as int) == pos,
{
    let _ = str_byte_len(line);
    match index_of_offset_in(v, pos) {
        Some(k) => k,
        None => {
            proof {
                assert(false);
            }
            0
        },
    }
}

/// Start of the shell-like word ending at `pos`.
///
/// The word extends back to the last whitespace character. Backslashes are
/// not treated as escapes, and path separators do not end a word: a
/// completion for `src/buf` has to see the whole `src/buf` in order to know
/// which directory to read.
pub fn word_start(line: &str, pos: usize) -> (r: usize)
    requires
        is_boundary_in(line@, pos as int),
    ensures
        forall|k: int|
            0 <= k <= line@.len() && offset(line@, k) == pos ==> r == offset(
                line@,
                #[trigger] ws_start(line@, k),
            ),
{
    let v = chars_of(line);
    let k = char_index(line, &v, pos);
    let mut j = k;
    while j > 0 && !is_whitespace(v[j - 1])
        invariant
            j <= k <= v@.len(),
            v@ == line@,
            ws_start(line@, k as int) == ws_start(line@, j as int),
        decreases j,
    {
        j = j - 1;
    }
    proof {
        assert forall|k2: int| 0 <= k2 <= line@.len() && offset(line@, k2) == pos implies k2 == k by {
            lemma_offset_injective(line@, k2, k as int);
        }
    }
    let _ = str_byte_len(line);
    offset_of(&v, j)
}

/// Character index just past the last `c` in `s`, or 0.
pub open spec fn after_last(s: Seq<char>, c: char) -> int
    decreases s.len(),
{
    if s.len() == 0 {
        0
    } else if s.last() == c {
        s.len() as int
    } else {
        after_last(s.drop_last(), c)
    }
}

/// Splits a path-like word into its directory part (with trailing
/// separator) and the file-name prefix being completed.
pub fn split_path_word(word: &str) -> (r: (&str, &str))
    ensures
        r.0@ == word@.take(after_last(word@, '/')),
        r.1@ == word@.skip(after_last(word@, '/')),
{
    let v = chars_of(word);
    let mut j = v.len();
    proof {
        assert(word@.take(word@.len() as int) =~= word@);
    }
    while j > 0 && v[j - 1] != '/'
        invariant
            j <= v@.len(),
            v@ == word@,
            after_last(word@, '/') == after_last(word@.take(j as int), '/'),
        decreases j,
    {
        proof {
            assert(word@.take(j as int).drop_last() =~= word@.take(j - 1));
        }
        j = j - 1;
    }
    proof {
        assert(word@.take(word@.len() as int) =~= word@);
        if j > 0 {
            assert(word@.take(j as int).last() == '/');
        }
    }
    split_at_char(word, j)
}

/// Whether `s` starts with `p`.
pub open spec fn has_prefix(s: Seq<char>, p: Seq<char>) -> bool {
    p.len() <= s.len() && s.take(p.len() as int) == p
}

/// `p` is a prefix of `s` exactly when `s` is `p` followed by something,
/// so every text starts with itself and with the empty text.
pub proof fn law_prefix_means_followed_by(s: Seq<char>, p: Seq<char>)
    ensures
        has_prefix(s, p) <==> exists|q: Seq<char>| s == p + q,
        has_prefix(s, s),
        has_prefix(s, Seq::<char>::empty()),
{
    if has_prefix(s, p) {
        assert(s =~= p + s.skip(p.len() as int));
    }
    if exists|q: Seq<char>| s == p + q {
        let q = choose|q: Seq<char>| s == p + q;
        assert(s.take(p.len() as int) =~= p);
    }
    assert(s.take(s.len() as int) =~= s);
    assert(s.take(0) =~= Seq::<char>::empty());
}

pub(crate) fn starts_with_chars(s: &Vec<char>, p: &Vec<char>) -> (r: bool)
    ensures
        r == has_prefix(s@, p@),
{
    if p.len() > s.len() {
        return false;
    }
    let mut i: usize = 0;
    while i < p.len()
        invariant
            p.len() <= s.len(),
            i <= p.len(),
            forall|j: int| 0 <= j < i ==> s@[j] == p@[j],
        decreases p.len() - i,
    {
        if s[i] != p[i] {
            return false;
        }
        i = i + 1;
    }
    proof {
        assert(s@.take(p@.len() as int) =~= p@);
    }
    true
}

// --------------------------------------------------------------- paths

/// Calls `dirs::home_dir` and hands the path back as its raw bytes. What it
/// returns depends on the environment (`$HOME`, or the password database
/// when that is unset or empty), so nothing is stated about it.
#[verifier::external_body]
pub(crate) fn home_dir() -> Option<Vec<u8>> {
    match dirs::home_dir() {
        Some(p) => Some(p.into_os_string().into_encoded_bytes()),
        None => None,
    }
}

/// `rest` appended to the directory `base` the way `Path::join` does for a
/// relative `rest`: a separator goes between them unless `base` is empty or
/// already ends in one.
pub open spec fn joined(base: Seq<u8>, rest: Seq<u8>) -> Seq<u8> {
    if base.len() == 0 || base.last() == 0x2f {
        base + rest
    } else {
        base.push(0x2f) + rest
    }
}

fn append(out: &mut Vec<char>, s: &Vec<char>)
    ensures
        final(out)@ == old(out)@ + s@,
{
    let mut i: usize = 0;
    while i < s.len()
        invariant
            i <= s.len(),
            out@ == old(out)@ + s@.take(i as int),
        decreases s.len() - i,
    {
        out.push(s[i]);
        proof {
            assert(old(out)@ + s@.take(i + 1) =~= (old(out)@ + s@.take(i as int)).push(s@[i as int]));
        }
        i = i + 1;
    }
    proof {
        assert(s@.take(s@.len() as int) =~= s@);
    }
}

/// Joins a relative path onto a directory, both as bytes.
pub fn join_path(base: &[u8], rest: &[u8]) -> (r: Vec<u8>)
    ensures
        r@ == joined(base@, rest@),
{
    let mut v: Vec<u8> = Vec::new();
    let mut i: usize = 0;
    while i < base.len()
        invariant
            i <= base@.len(),
            v@ == base@.take(i as int),
        decreases base@.len() - i,
    {
        v.push(base[i]);
        proof {
            assert(base@.take(i + 1) =~= base@.take(i as int).push(base@[i as int]));
        }
        i = i + 1;
    }
    proof {
        assert(base@.take(base@.len() as int) =~= base@);
    }
    let n = v.len();
    if n > 0 && v[n - 1] != 0x2f {
        v.push(0x2f);
    }
    let ghost head = v@;
    let mut j: usize = 0;
    while j < rest.len()
        invariant
            j <= rest@.len(),
            v@ == head + rest@.take(j as int),
        decreases rest@.len() - j,
    {
        v.push(rest[j]);
        proof {
            assert(head + rest@.take(j + 1) =~= (head + rest@.take(j as int)).push(rest@[j as int]));
        }
        j = j + 1;
    }
    proof {
        assert(rest@.take(rest@.len() as int) =~= rest@);
    }
    v
}

/// `s` without its leading `/` characters.
pub open spec fn trim_slashes(s: Seq<char>) -> Seq<char>
    decreases s.len(),
{
    if s.len() > 0 && s[0] == '/' {
        trim_slashes(s.drop_first())
    } else {
        s
    }
}

/// What follows a leading `~` that `expand_tilde` handles: nothing, or a
/// path starting with `/`. `~user` is not handled.
pub open spec fn tilde_rest(dir: Seq<char>) -> Option<Seq<char>> {
    if dir.len() > 0 && dir[0] == '~' && (dir.len() == 1 || dir[1] == '/') {
        Some(dir.drop_first())
    } else {
        None
    }
}

/// Expands a leading `~` or `~/` to the home directory `home`, a path
/// given as bytes.
pub fn expand_tilde_with(dir: &str, home: Option<&[u8]>) -> (r: Option<Vec<u8>>)
    ensures
        r matches Some(p) ==> tilde_rest(dir@) matches Some(rest) && home matches Some(h)
            && p@ == joined(h@, encode_utf8(trim_slashes(rest))),
        r is None <==> tilde_rest(dir@) is None || home is None,
{
    let v = chars_of(dir);
    if v.len() == 0 || v[0] != '~' || (v.len() > 1 && v[1] != '/') {
        return None;
    }
    let h = match home {
        Some(h) => h,
        None => return None,
    };
    let mut i: usize = 1;
    while i < v.len() && v[i] == '/'
        invariant
            1 <= i <= v@.len(),
            v@ == dir@,
            trim_slashes(dir@.drop_first()) == trim_slashes(dir@.skip(i as int)),
        decreases v.len() - i,
    {
        proof {
            assert(dir@.skip(i as int).drop_first() =~= dir@.skip(i + 1));
        }
        i = i + 1;
    }
    proof {
        assert(dir@.skip(1) =~= dir@.drop_first());
    }
    let mut rest: Vec<char> = Vec::new();
    let mut j = i;
    while j < v.len()
        invariant
            i <= j <= v@.len(),
            rest@ == v@.subrange(i as int, j as int),
        decreases v.len() - j,
    {
        rest.push(v[j]);
        proof {
            assert(v@.subrange(i as int, j + 1) =~= v@.subrange(i as int, j as int).push(v@[j as int]));
        }
        j = j + 1;
    }
    proof {
        assert(v@.subrange(i as int, v@.len() as int) =~= dir@.skip(i as int));
    }
    let rest_s = string_of(&rest);
    let rest_b = rest_s.as_str().as_bytes_vec();
    Some(join_path(h, rest_b.as_slice()))
}

/// Expands a leading `~` or `~/` to the user's home directory.
///
/// Returns `None` when `dir` does not start that way or the home directory
/// is unknown.
pub fn expand_tilde(dir: &str) -> (r: Option<Vec<u8>>)
    ensures
        tilde_rest(dir@) is None ==> r is None,
        r matches Some(p) ==> exists|h: Seq<u8>|
            p@ == joined(h, encode_utf8(trim_slashes(tilde_rest(dir@)->0))),
{
    let home = home_dir();
    match home {
        Some(h) => {
            let r = expand_tilde_with(dir, Some(h.as_slice()));
            proof {
                if r is Some {
                    assert(r->0@ == joined(h@, encode_utf8(trim_slashes(tilde_rest(dir@)->0))));
                }
            }
            r
        },
        None => expand_tilde_with(dir, None),
    }
}

// ------------------------------------------------------------ providers

/// Supplies completions for a line and cursor position.
pub trait CompletionProvider {
    /// Returns candidates for the word ending at `pos`.
    ///
    /// `pos` is a byte offset into `line` and is always a character boundary.
    fn complete(&self, line: &str, pos: usize) -> Completions
        requires
            is_boundary_in(line@, pos as int),
    ;
}

/// A provider that never completes anything.
#[derive(Debug, Clone, Copy)]
pub struct NoCompleter;

impl Default for NoCompleter {
    fn default() -> (r: Self)
        ensures
            r == NoCompleter,
    {
        NoCompleter
    }
}

impl CompletionProvider for NoCompleter {
    fn complete(&self, line: &str, pos: usize) -> (r: Completions)
        ensures
            r.spec_start() == pos,
            r.spec_candidates().len() == 0,
    {
        Completions::new(pos)
    }
}

/// The candidate a directory entry named `name` gives for a word whose
/// directory part is `dir`: the whole word, with a `/` after a directory.
pub open spec fn entry_candidate(dir: Seq<char>, name: Seq<char>, is_dir: bool) -> Seq<char> {
    if is_dir {
        (dir + name).push('/')
    } else {
        dir + name
    }
}

/// The word ending at byte offset `pos` of `line`, as (character index of
/// its start, its text).
pub open spec fn word_before(line: Seq<char>, k: int) -> Seq<char> {
    line.subrange(ws_start(line, k), k)
}

/// The word ending at `pos` (from the last whitespace before it), with the
/// byte offset where it starts.
pub(crate) fn word_at<'a>(line: &'a str, pos: usize) -> (r: (usize, &'a str))
    requires
        is_boundary_in(line@, pos as int),
    ensures
        forall|k: int|
            0 <= k <= line@.len() && offset(line@, k) == pos ==> {
                &&& r.0 == offset(line@, ws_start(line@, k))
                &&& r.1@ == #[trigger] word_before(line@, k)
            },
{
    let v = chars_of(line);
    let k = char_index(line, &v, pos);
    let start = word_start(line, pos);
    let mut j = k;
    while j > 0 && !is_whitespace(v[j - 1])
        invariant
            j <= k <= v@.len(),
            v@ == line@,
            ws_start(line@, k as int) == ws_start(line@, j as int),
        decreases j,
    {
        j = j - 1;
    }
    let (_, rest) = split_at_char(line, j);
    let (word, _) = split_at_char(rest, k - j);
    proof {
        assert(word@ =~= line@.subrange(j as int, k as int));
        assert forall|k2: int| 0 <= k2 <= line@.len() && offset(line@, k2) == pos implies k2 == k by {
            lemma_offset_injective(line@, k2, k as int);
        }
    }
    (start, word)
}

/// Completes filesystem paths, including `~` expansion.
///
/// Listing the directory is the caller's I/O: [`FileCompleter::directory`]
/// says which directory to read, and [`FileCompleter::complete_from`] turns
/// its entries into completions.
#[derive(Debug, Clone, Copy)]
pub struct FileCompleter;

impl Default for FileCompleter {
    fn default() -> (r: Self)
        ensures
            r == FileCompleter,
    {
        FileCompleter
    }
}

impl FileCompleter {
    /// Creates a file completer.
    pub fn new() -> (r: Self)
        ensures
            r == FileCompleter,
    {
        FileCompleter
    }

    /// The word ending at `pos`, split into its directory part and the
    /// prefix being completed, with the byte offset where the word starts.
    fn word_parts<'a>(&self, line: &'a str, pos: usize) -> (r: (usize, &'a str, &'a str))
        requires
            is_boundary_in(line@, pos as int),
        ensures
            forall|k: int|
                0 <= k <= line@.len() && offset(line@, k) == pos ==> {
                    let w = #[trigger] word_before(line@, k);
                    &&& r.0 == offset(line@, ws_start(line@, k))
                    &&& r.1@ == w.take(after_last(w, '/'))
                    &&& r.2@ == w.skip(after_last(w, '/'))
                },
    {
        let v = chars_of(line);
        let k = char_index(line, &v, pos);
        let start = word_start(line, pos);
        let mut j = k;
        while j > 0 && !is_whitespace(v[j - 1])
            invariant
                j <= k <= v@.len(),
                v@ == line@,
                ws_start(line@, k as int) == ws_start(line@, j as int),
            decreases j,
        {
            j = j - 1;
        }
        let (_, rest) = split_at_char(line, j);
        let (word, _) = split_at_char(rest, k - j);
        proof {
            assert(word@ =~= line@.subrange(j as int, k as int));
            assert forall|k2: int| 0 <= k2 <= line@.len() && offset(line@, k2) == pos implies k2 == k by {
                lemma_offset_injective(line@, k2, k as int);
            }
        }
        let (dir, prefix) = split_path_word(word);
        (start, dir, prefix)
    }

    /// The directory whose entries complete the word ending at `pos`, as
    /// the bytes of its path: `.` for a bare name, the directory part after
    /// `~` expansion, or the directory part as typed.
    pub fn directory(&self, line: &str, pos: usize) -> (r: Vec<u8>)
        requires
            is_boundary_in(line@, pos as int),
        ensures
            forall|k: int|
                0 <= k <= line@.len() && offset(line@, k) == pos ==> {
                    let w = #[trigger] word_before(line@, k);
                    let d = w.take(after_last(w, '/'));
                    &&& d.len() == 0 ==> r@ == seq![0x2eu8]
                    &&& d.len() > 0 && tilde_rest(d) is None ==> r@ == encode_utf8(d)
                    &&& d.len() > 0 && tilde_rest(d) is Some ==> (r@ == encode_utf8(d) || exists|h: Seq<u8>|
                        r@ == joined(h, encode_utf8(trim_slashes(tilde_rest(d)->0))))
                },
    {
        let (_, dir, _) = self.word_parts(line, pos);
        if dir.unicode_len() == 0 {
            let mut v: Vec<u8> = Vec::new();
            v.push(0x2e);
            proof {
                assert(v@ =~= seq![0x2eu8]);
            }
            return v;
        }
        match expand_tilde(dir) {
            Some(p) => p,
            None => dir.as_bytes_vec(),
        }
    }

    /// Completions for the word ending at `pos`, given the entries of
    /// [`FileCompleter::directory`] as `(name, is_dir)` pairs, or `None`
    /// when the directory could not be read.
    ///
    /// Each candidate is the whole word, so the editor can replace
    /// `line[start..pos]` with it verbatim; candidates are sorted and
    /// distinct.
    pub fn complete_from(&self, line: &str, pos: usize, entries: Option<&[(String, bool)]>) -> (r:
        Completions)
        requires
            is_boundary_in(line@, pos as int),
        ensures
            forall|k: int|
                0 <= k <= line@.len() && offset(line@, k) == pos ==> {
                    let w = #[trigger] word_before(line@, k);
                    let d = w.take(after_last(w, '/'));
                    let p = w.skip(after_last(w, '/'));
                    &&& r.spec_start() == offset(line@, ws_start(line@, k))
                    &&& strictly_sorted(r.spec_candidates())
                    &&& entries is None ==> r.spec_candidates().len() == 0
                    &&& entries matches Some(es) ==> forall|x: Seq<char>|
                        r.spec_candidates().contains(x) <==> exists|i: int|
                            0 <= i < es@.len() && has_prefix(es@[i].0@, p) && x
                                == #[trigger] entry_candidate(d, es@[i].0@, es@[i].1)
                },
    {
        let (start, dir, prefix) = self.word_parts(line, pos);
        let lv = chars_of(line);
        let k = char_index(line, &lv, pos);
        proof {
            assert forall|k2: int| 0 <= k2 <= line@.len() && offset(line@, k2) == pos implies k2 == k by {
                lemma_offset_injective(line@, k2, k as int);
            }
            let w = word_before(line@, k as int);
            assert(start == offset(line@, ws_start(line@, k as int)));
            assert(dir@ == w.take(after_last(w, '/')));
            assert(prefix@ == w.skip(after_last(w, '/')));
        }
        let mut completions = Completions::new(start);
        let es = match entries {
            Some(es) => es,
            None => {
                proof {
                    assert(strictly_sorted(completions.spec_candidates()));
                }
                return completions;
            },
        };
        let d = chars_of(dir);
        let pf = chars_of(prefix);
        let mut i: usize = 0;
        while i < es.len()
            invariant
                i <= es@.len(),
                completions.spec_start() == start,
                d@ == dir@,
                pf@ == prefix@,
                forall|x: Seq<char>|
                    completions.spec_candidates().contains(x) <==> exists|j: int|
                        0 <= j < i && has_prefix(es@[j].0@, prefix@) && x
                            == #[trigger] entry_candidate(dir@, es@[j].0@, es@[j].1),
            decreases es@.len() - i,
        {
            let name = chars_of(es[i].0.as_str());
            let ghost before = completions.spec_candidates();
            if starts_with_chars(&name, &pf) {
                let mut c = d.clone();
                append(&mut c, &name);
                if es[i].1 {
                    c.push('/');
                }
                let cand = string_of(&c);
                completions.add(cand.as_str());
                proof {
                    assert(c@ == entry_candidate(dir@, es@[i as int].0@, es@[i as int].1));
                    assert forall|x: Seq<char>|
                        completions.spec_candidates().contains(x) <==> exists|j: int|
                            0 <= j < i + 1 && has_prefix(es@[j].0@, prefix@) && x
                                == #[trigger] entry_candidate(dir@, es@[j].0@, es@[j].1) by {
                        if completions.spec_candidates().contains(x) {
                            let m = choose|m: int| 0 <= m < completions.spec_candidates().len() && completions.spec_candidates()[m] == x;
                            if m < before.len() {
                                assert(before.contains(x));
                            }
                        }
                        if exists|j: int|
                            0 <= j < i + 1 && has_prefix(es@[j].0@, prefix@) && x
                                == #[trigger] entry_candidate(dir@, es@[j].0@, es@[j].1) {
                            let j = choose|j: int|
                                0 <= j < i + 1 && has_prefix(es@[j].0@, prefix@) && x
                                    == #[trigger] entry_candidate(dir@, es@[j].0@, es@[j].1);
                            if j < i {
                                assert(before.contains(x));
                                let m = choose|m: int| 0 <= m < before.len() && before[m] == x;
                                assert(completions.spec_candidates()[m] == x);
                            } else {
                                assert(completions.spec_candidates()[before.len() as int] == x);
                            }
                        }
                    }
                }
            } else {
                proof {
                    assert(!has_prefix(es@[i as int].0@, prefix@));
                    assert forall|x: Seq<char>|
                        completions.spec_candidates().contains(x) <==> exists|j: int|
                            0 <= j < i + 1 && has_prefix(es@[j].0@, prefix@) && x
                                == #[trigger] entry_candidate(dir@, es@[j].0@, es@[j].1) by {
                        if exists|j: int|
                            0 <= j < i + 1 && has_prefix(es@[j].0@, prefix@) && x
                                == #[trigger] entry_candidate(dir@, es@[j].0@, es@[j].1) {
                            let j = choose|j: int|
                                0 <= j < i + 1 && has_prefix(es@[j].0@, prefix@) && x
                                    == #[trigger] entry_candidate(dir@, es@[j].0@, es@[j].1);
                            assert(j < i);
                        }
                    }
                }
            }
            i = i + 1;
        }
        completions.sort_dedup();
        proof {
            let w = word_before(line@, k as int);
            assert(dir@ == w.take(after_last(w, '/')));
        }
        completions
    }
}

/// The texts of `cs` that start with `w`, in order.
pub open spec fn with_prefix(cs: Seq<Seq<char>>, w: Seq<char>) -> Seq<Seq<char>>
    decreases cs.len(),
{
    if cs.len() == 0 {
        Seq::empty()
    } else if has_prefix(cs.last(), w) {
        with_prefix(cs.drop_last(), w).push(cs.last())
    } else {
        with_prefix(cs.drop_last(), w)
    }
}

/// Whether every character of `s` is whitespace.
pub open spec fn all_whitespace(s: Seq<char>) -> bool {
    forall|i: int| 0 <= i < s.len() ==> spec_is_whitespace(#[trigger] s[i])
}

/// Completes a fixed list of words at the start of a line, delegating
/// anything later in the line to another provider.
///
/// This is the shape most REPLs want: commands first, then arguments.
pub struct CommandCompleter<P: CompletionProvider> {
    commands: Vec<String>,
    rest: P,
}

impl<P: CompletionProvider> CommandCompleter<P> {
    /// The commands offered, in sorted order.
    pub closed spec fn commands(&self) -> Seq<Seq<char>> {
        string_views(self.commands@)
    }

    /// The provider asked past the first word.
    pub closed spec fn fallback(&self) -> P {
        self.rest
    }

    /// Creates a completer offering `commands` in the first word position
    /// and handing every later word to `rest`.
    pub fn new(commands: &[&str], rest: P) -> (r: Self)
        ensures
            r.fallback() == rest,
            sorted(r.commands()),
            r.commands().to_multiset() == Seq::new(commands@.len(), |i: int| commands@[i]@).to_multiset(),
    {
        let ghost input = Seq::new(commands@.len(), |i: int| commands@[i]@);
        let mut keys: Vec<Vec<char>> = Vec::new();
        let mut i: usize = 0;
        proof {
            assert(input.take(0) =~= Seq::<Seq<char>>::empty());
            assert(char_views(keys@) =~= Seq::<Seq<char>>::empty());
        }
        while i < commands.len()
            invariant
                i <= commands@.len(),
                input == Seq::new(commands@.len(), |i: int| commands@[i]@),
                sorted(char_views(keys@)),
                char_views(keys@).to_multiset() == input.take(i as int).to_multiset(),
            decreases commands@.len() - i,
        {
            let c = chars_of(commands[i]);
            let p = insertion_point(&keys, &c);
            let ghost k = char_views(keys@);
            keys.insert(p, c);
            proof {
                let k2 = char_views(keys@);
                assert(k2 =~= k.insert(p as int, c@));
                if p < k.len() {
                    if k[p as int] != c@ {
                        lemma_lex_total(k[p as int], c@);
                    }
                }
                assert forall|a: int, b: int| 0 <= a < b < k2.len() implies !lex_lt(
                    #[trigger] k2[b],
                    #[trigger] k2[a],
                ) by {
                    if b == p {
                        assert(k2[a] == k[a]);
                        lemma_lex_asymmetric(k[a], c@);
                    } else if a == p {
                        assert(k2[b] == k[b - 1]);
                        if lex_lt(k[b - 1], c@) {
                            if b - 1 > p {
                                if k[p as int] == k[b - 1] {
                                } else {
                                    assert(!lex_lt(k[b - 1], k[p as int]));
                                    lemma_lex_total(k[p as int], k[b - 1]);
                                    lemma_lex_transitive(k[p as int], k[b - 1], c@);
                                }
                            }
                        }
                    } else if b < p {
                        assert(k2[a] == k[a] && k2[b] == k[b]);
                    } else if a < p {
                        assert(k2[a] == k[a] && k2[b] == k[b - 1]);
                        if lex_lt(k[b - 1], k[a]) {
                            lemma_lex_transitive(k[b - 1], k[a], c@);
                            if b - 1 == p {
                            } else {
                                if k[p as int] == k[b - 1] {
                                } else {
                                    assert(!lex_lt(k[b - 1], k[p as int]));
                                    lemma_lex_total(k[p as int], k[b - 1]);
                                    lemma_lex_transitive(k[p as int], k[b - 1], c@);
                                }
                            }
                        }
                    } else {
                        assert(k2[a] == k[a - 1] && k2[b] == k[b - 1]);
                    }
                }
                assert(k2.remove(p as int) =~= k);
                assert(input.take(i + 1) =~= input.take(i as int).push(input[i as int]));
                assert(input[i as int] == c@);
                assert(k2.to_multiset() =~= k.to_multiset().insert(c@)) by {
                    broadcast use vstd::seq_lib::group_to_multiset_ensures;
                    assert(k2.remove(p as int).to_multiset() =~= k2.to_multiset().remove(k2[p as int]));
                    assert(k2.to_multiset().count(c@) > 0) by {
                        assert(k2.contains(c@)) by {
                            assert(k2[p as int] == c@);
                        }
                    }
                }
                assert(input.take(i + 1).to_multiset() =~= input.take(i as int).to_multiset().insert(c@)) by {
                    broadcast use vstd::seq_lib::group_to_multiset_ensures;
                }
            }
            i = i + 1;
        }
        proof {
            assert(input.take(commands@.len() as int) =~= input);
        }
        CommandCompleter { commands: strings_of(&keys), rest }
    }
}

impl<P: CompletionProvider> CompletionProvider for CommandCompleter<P> {
    /// In the first word of the line, the commands that start with what has
    /// been typed of it; elsewhere, whatever the other provider offers.
    fn complete(&self, line: &str, pos: usize) -> (r: Completions)
        ensures
            forall|k: int|
                0 <= k <= line@.len() && offset(line@, k) == pos && all_whitespace(
                    line@.take(#[trigger] ws_start(line@, k)),
                ) ==> r.spec_start() == offset(line@, ws_start(line@, k)) && r.spec_candidates()
                    == with_prefix(self.commands(), word_before(line@, k)),
    {
        let v = chars_of(line);
        let k = char_index(line, &v, pos);
        let start = word_start(line, pos);
        let mut j = k;
        while j > 0 && !is_whitespace(v[j - 1])
            invariant
                j <= k <= v@.len(),
                v@ == line@,
                ws_start(line@, k as int) == ws_start(line@, j as int),
            decreases j,
        {
            j = j - 1;
        }
        proof {
            assert forall|k2: int| 0 <= k2 <= line@.len() && offset(line@, k2) == pos implies k2 == k by {
                lemma_offset_injective(line@, k2, k as int);
            }
            assert(ws_start(line@, j as int) == j);
        }
        let mut m: usize = 0;
        while m < j
            invariant
                m <= j <= k <= v@.len(),
                v@ == line@,
                j == ws_start(line@, k as int),
                is_boundary_in(line@, pos as int),
                offset(line@, k as int) == pos,
                forall|k2: int| 0 <= k2 <= line@.len() && offset(line@, k2) == pos ==> k2 == k,
                forall|q: int| 0 <= q < m ==> spec_is_whitespace(#[trigger] v@[q]),
            decreases j - m,
        {
            if !is_whitespace(v[m]) {
                proof {
                    assert(!all_whitespace(line@.take(j as int))) by {
                        assert(line@.take(j as int)[m as int] == v@[m as int]);
                    }
                }
                return self.rest.complete(line, pos);
            }
            m = m + 1;
        }
        let mut word: Vec<char> = Vec::new();
        let mut q = j;
        while q < k
            invariant
                j <= q <= k <= v@.len(),
                word@ == v@.subrange(j as int, q as int),
            decreases k - q,
        {
            word.push(v[q]);
            proof {
                assert(v@.subrange(j as int, q + 1) =~= v@.subrange(j as int, q as int).push(v@[q as int]));
            }
            q = q + 1;
        }
        let mut completions = Completions::new(start);
        let mut i: usize = 0;
        proof {
            assert(self.commands().take(0) =~= Seq::<Seq<char>>::empty());
            assert(completions.spec_candidates() =~= with_prefix(self.commands().take(0), word@));
        }
        while i < self.commands.len()
            invariant
                i <= self.commands@.len(),
                completions.spec_start() == start,
                completions.spec_candidates() == with_prefix(self.commands().take(i as int), word@),
            decreases self.commands@.len() - i,
        {
            let c = chars_of(self.commands[i].as_str());
            proof {
                let t = self.commands().take(i + 1);
                assert(t.drop_last() =~= self.commands().take(i as int));
                assert(t.last() == c@);
            }
            if starts_with_chars(&c, &word) {
                completions.add(self.commands[i].as_str());
            }
            i = i + 1;
        }
        proof {
            assert(self.commands().take(self.commands@.len() as int) =~= self.commands());
        }
        completions
    }
}

// ------------------------------------------------------------- columns

/// The widest display width among `cs`, or 0.
pub open spec fn widest(cs: Seq<Seq<char>>) -> nat
    decreases cs.len(),
{
    if cs.len() == 0 {
        0
    } else {
        let a = widest(cs.drop_last());
        let b = spec_display_width(cs.last());
        if a >= b {
            a
        } else {
            b
        }
    }
}

/// `n` spaces.
pub open spec fn spaces(n: int) -> Seq<char> {
    Seq::new(n as nat, |i: int| ' ')
}

/// How many columns of width `column` fit in `width`, and at least one.
pub open spec fn column_count(column: nat, width: nat) -> nat {
    if width / column >= 1 {
        width / column
    } else {
        1
    }
}

/// Rows needed for `n` items in `columns` columns.
pub open spec fn row_count(n: nat, columns: nat) -> nat {
    ((n + columns - 1) / (columns as int)) as nat
}

/// The text of the cell in row `row` and column `col`. Items run down the
/// columns, so reading down a column follows the order of `cs`; every item
/// with another after it on the row is padded to the column width.
pub open spec fn cell(cs: Seq<Seq<char>>, rows: nat, columns: nat, column: nat, row: int, col: int) -> Seq<char> {
    let idx = col * rows + row;
    if idx < cs.len() {
        if col + 1 < columns && idx + rows < cs.len() {
            cs[idx] + spaces(column - spec_display_width(cs[idx]))
        } else {
            cs[idx]
        }
    } else {
        Seq::empty()
    }
}

/// The cells of row `row` in the first `k` columns.
pub open spec fn row_text(cs: Seq<Seq<char>>, rows: nat, columns: nat, column: nat, row: int, k: int) -> Seq<char>
    decreases k,
{
    if k <= 0 {
        Seq::empty()
    } else {
        row_text(cs, rows, columns, column, row, k - 1) + cell(cs, rows, columns, column, row, k - 1)
    }
}

/// `s` without trailing whitespace.
pub open spec fn trim_end(s: Seq<char>) -> Seq<char>
    decreases s.len(),
{
    if s.len() > 0 && spec_is_whitespace(s.last()) {
        trim_end(s.drop_last())
    } else {
        s
    }
}

/// The lines `format_columns` prints for `cs` in a terminal `width` columns
/// wide.
pub open spec fn column_lines(cs: Seq<Seq<char>>, width: nat) -> Seq<Seq<char>> {
    if cs.len() == 0 {
        Seq::empty()
    } else {
        let column = widest(cs) + 2;
        let columns = column_count(column, width);
        let rows = row_count(cs.len(), columns);
        Seq::new(rows, |row: int| trim_end(row_text(cs, rows, columns, column, row, columns as int)))
    }
}

proof fn lemma_widest(cs: Seq<Seq<char>>)
    ensures
        forall|i: int| 0 <= i < cs.len() ==> spec_display_width(#[trigger] cs[i]) <= widest(cs),
        cs.len() > 0 ==> exists|i: int| 0 <= i < cs.len() && widest(cs) == spec_display_width(#[trigger] cs[i]),
    decreases cs.len(),
{
    if cs.len() > 0 {
        lemma_widest(cs.drop_last());
        assert forall|i: int| 0 <= i < cs.len() implies spec_display_width(#[trigger] cs[i]) <= widest(cs) by {
            if i < cs.len() - 1 {
                assert(cs[i] == cs.drop_last()[i]);
            }
        }
        if widest(cs) != spec_display_width(cs.last()) {
            let j = choose|j: int| 0 <= j < cs.drop_last().len() && widest(cs.drop_last()) == spec_display_width(#[trigger] cs.drop_last()[j]);
            assert(cs[j] == cs.drop_last()[j]);
        } else {
            assert(cs[cs.len() - 1] == cs.last());
        }
    }
}

/// Strips trailing whitespace from `v`.
fn trim_end_vec(v: &mut Vec<char>)
    ensures
        final(v)@ == trim_end(old(v)@),
{
    while v.len() > 0 && is_whitespace(v[v.len() - 1])
        invariant
            trim_end(v@) == trim_end(old(v)@),
        decreases v.len(),
    {
        let ghost before = v@;
        v.pop();
        proof {
            assert(v@ =~= before.drop_last());
        }
    }
}

/// Formats `candidates` into columns that fit within `width` terminal
/// columns. Returns the lines to print, without trailing newlines.
pub fn format_columns(candidates: &[String], width: usize) -> (r: Vec<String>)
    requires
        candidates@.len() <= usize::MAX / 2,
        forall|i: int| 0 <= i < candidates@.len() ==> (#[trigger] candidates@[i])@.len() * 3 + 2 <= usize::MAX,
    ensures
        string_views(r@) == column_lines(string_views(candidates@), width as nat),
{
    let ghost cs = string_views(candidates@);
    let n = candidates.len();
    if n == 0 {
        let r: Vec<String> = Vec::new();
        proof {
            assert(string_views(r@) =~= column_lines(cs, width as nat));
        }
        return r;
    }
    let mut widest_w: usize = 0;
    let mut i: usize = 0;
    let mut widths: Vec<usize> = Vec::new();
    proof {
        assert(cs.take(0) =~= Seq::<Seq<char>>::empty());
    }
    while i < n
        invariant
            i <= n == candidates@.len() == cs.len(),
            cs == string_views(candidates@),
            forall|j: int| 0 <= j < candidates@.len() ==> (#[trigger] candidates@[j])@.len() * 3 + 2 <= usize::MAX,
            widest_w == widest(cs.take(i as int)),
            widths@.len() == i,
            forall|j: int| 0 <= j < i ==> widths@[j] == spec_display_width(#[trigger] cs[j]),
            forall|j: int| 0 <= j < i ==> widths@[j] <= 3 * (#[trigger] cs[j]).len(),
            i > 0 ==> exists|j: int| 0 <= j < i && widest_w == widths@[j],
        decreases n - i,
    {
        let w = display_width(candidates[i].as_str());
        proof {
            assert(cs[i as int] == candidates@[i as int]@);
            assert(cs.take(i + 1).drop_last() =~= cs.take(i as int));
            assert(cs.take(i + 1).last() == cs[i as int]);
        }
        let ghost old_w = widths@;
        let ghost old_widest = widest_w;
        widths.push(w);
        if w > widest_w {
            widest_w = w;
        }
        proof {
            if widest_w != w {
                let j = choose|j: int| 0 <= j < i && old_widest == old_w[j];
                assert(widths@[j] == old_w[j]);
            } else {
                assert(widths@[i as int] == w);
            }
        }
        i = i + 1;
    }
    proof {
        assert(cs.take(n as int) =~= cs);
        let j = choose|j: int| 0 <= j < n && widest_w == widths@[j];
        assert(widest_w == spec_display_width(cs[j]));
        assert(candidates@[j]@.len() * 3 + 2 <= usize::MAX);
        assert(cs[j] == candidates@[j]@);
        lemma_widest(cs);
    }
    let column = widest_w + 2;
    let columns = if width / column >= 1 {
        width / column
    } else {
        1
    };
    proof {
        assert(columns <= usize::MAX / 2) by (nonlinear_arith)
            requires
                columns == 1 || columns == width / column,
                column >= 2,
        ;
    }
    let rows = (n + columns - 1) / columns;
    proof {
        assert(rows * columns <= n + columns - 1) by (nonlinear_arith)
            requires
                rows == (n + columns - 1) / (columns as int),
                columns >= 1,
        ;
        assert(rows >= 1) by (nonlinear_arith)
            requires
                rows == (n + columns - 1) / (columns as int),
                columns >= 1,
                n >= 1,
        ;
        assert(rows <= n) by (nonlinear_arith)
            requires
                rows == (n + columns - 1) / (columns as int),
                columns >= 1,
                n >= 1,
        ;
        assert(columns <= width || columns == 1);
        assert(columns == column_count(column as nat, width as nat));
        assert(rows == row_count(n as nat, columns as nat));
    }
    let mut lines: Vec<String> = Vec::new();
    let mut row: usize = 0;
    while row < rows
        invariant
            row <= rows,
            1 <= columns <= usize::MAX / 2,
            rows * columns <= n + columns - 1,
            rows <= n <= usize::MAX / 2,
            n == candidates@.len() == cs.len(),
            cs == string_views(candidates@),
            widths@.len() == n,
            forall|j: int| 0 <= j < n ==> widths@[j] == spec_display_width(#[trigger] cs[j]),
            column == widest(cs) + 2,
            forall|j: int| 0 <= j < n ==> spec_display_width(#[trigger] cs[j]) <= widest(cs),
            columns == column_count(column as nat, width as nat),
            rows == row_count(n as nat, columns as nat),
            string_views(lines@) == Seq::new(row as nat, |q: int| trim_end(row_text(cs, rows as nat, columns as nat, column as nat, q, columns as int))),
        decreases rows - row,
    {
        let mut line: Vec<char> = Vec::new();
        let mut col: usize = 0;
        let mut idx: usize = row;
        while col < columns
            invariant
                col <= columns,
                row < rows,
                1 <= columns <= usize::MAX / 2,
                rows * columns <= n + columns - 1,
                rows <= n <= usize::MAX / 2,
                n == candidates@.len() == cs.len(),
                cs == string_views(candidates@),
                widths@.len() == n,
                forall|j: int| 0 <= j < n ==> widths@[j] == spec_display_width(#[trigger] cs[j]),
                column == widest(cs) + 2,
                forall|j: int| 0 <= j < n ==> spec_display_width(#[trigger] cs[j]) <= widest(cs),
                col < columns ==> idx == col * rows + row,
                line@ == row_text(cs, rows as nat, columns as nat, column as nat, row as int, col as int),
            decreases columns - col,
        {
            proof {
                assert(col * rows + rows <= columns * rows) by (nonlinear_arith)
                    requires
                        col < columns,
                ;
            }
            if idx < n {
                let text = chars_of(candidates[idx].as_str());
                proof {
                    assert(text@ == cs[idx as int]);
                }
                append(&mut line, &text);
                if col + 1 < columns && idx + rows < n {
                    let pad = column - widths[idx];
                    let mut k: usize = 0;
                    let ghost base = line@;
                    while k < pad
                        invariant
                            k <= pad,
                            line@ == base + spaces(k as int),
                        decreases pad - k,
                    {
                        line.push(' ');
                        proof {
                            assert(base + spaces(k + 1) =~= (base + spaces(k as int)).push(' '));
                        }
                        k = k + 1;
                    }
                    proof {
                        assert(line@ =~= row_text(cs, rows as nat, columns as nat, column as nat, row as int, col as int) + cell(cs, rows as nat, columns as nat, column as nat, row as int, col as int));
                    }
                } else {
                    proof {
                        assert(line@ =~= row_text(cs, rows as nat, columns as nat, column as nat, row as int, col as int) + cell(cs, rows as nat, columns as nat, column as nat, row as int, col as int));
                    }
                }
            } else {
                proof {
                    assert(line@ =~= row_text(cs, rows as nat, columns as nat, column as nat, row as int, col as int) + cell(cs, rows as nat, columns as nat, column as nat, row as int, col as int));
                }
            }
            if col + 1 < columns {
                proof {
                    assert((col + 1) * rows == col * rows + rows) by (nonlinear_arith);
                    assert((col + 2) * rows <= columns * rows) by (nonlinear_arith)
                        requires
                            col + 2 <= columns,
                    ;
                    assert((col + 2) * rows == col * rows + rows + rows) by (nonlinear_arith);
                }
                idx = idx + rows;
            }
            col = col + 1;
        }
        trim_end_vec(&mut line);
        let s = string_of(&line);
        let ghost before = lines@;
        lines.push(s);
        proof {
            crate::history::lemma_string_views_push(before, s);
            assert(string_views(lines@) =~= Seq::new((row + 1) as nat, |q: int| trim_end(row_text(cs, rows as nat, columns as nat, column as nat, q, columns as int))));
        }
        row = row + 1;
    }
    proof {
        assert(string_views(lines@) =~= column_lines(cs, width as nat));
    }
    lines
}

} // verus!
