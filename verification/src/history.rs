//! Command history: storage, search, and the file format it is saved in.
//!
//! Reading and writing the history file is the caller's business; this
//! module turns the file's bytes into entries and entries back into bytes.

use crate::text::{chars_of, string_of, offset_of};
use crate::unicode::{byte_len, offset, lemma_offset_mono, lemma_offset_succ, len_utf8};
use crate::parser::str_from_utf8;
use std::collections::VecDeque;
use vstd::prelude::*;
use vstd::string::StringSliceAdditionalSpecFns;
use vstd::utf8::{
    char_is_scalar, decode_utf8, encode_scalar, encode_utf8, encode_utf8_decode_utf8,
    encode_utf8_valid_utf8, has_width_1_encoding, valid_utf8,
};

verus! {

/// The views of a sequence of strings.
pub open spec fn string_views(s: Seq<String>) -> Seq<Seq<char>> {
    Seq::new(s.len(), |i: int| s[i]@)
}

/// Every entry's UTF-8 encoding fits in memory, so its byte offsets fit in
/// a `usize`.
pub open spec fn entries_fit(s: Seq<Seq<char>>) -> bool {
    forall|i: int| 0 <= i < s.len() ==> byte_len(#[trigger] s[i]) <= usize::MAX
}

/// The last `max` entries of `s`.
pub open spec fn newest(s: Seq<Seq<char>>, max: nat) -> Seq<Seq<char>> {
    if s.len() > max {
        s.skip(s.len() - max)
    } else {
        s
    }
}

/// Ring of previously entered lines, oldest first.
///
/// The navigation cursor is not stored here; it belongs to a single editing
/// session, so two prompts can walk the same history independently.
#[derive(Debug, Clone)]
pub struct History {
    entries: VecDeque<String>,
    max_size: usize,
}

impl History {
    /// The entries, oldest first.
    pub closed spec fn entries(&self) -> Seq<Seq<char>> {
        string_views(self.entries@)
    }

    /// Maximum number of entries retained.
    pub closed spec fn capacity(&self) -> nat {
        self.max_size as nat
    }

    /// The history never holds more entries than it may, and may hold at
    /// least one.
    pub closed spec fn wf(&self) -> bool {
        &&& self.max_size >= 1
        &&& self.entries@.len() <= self.max_size
        &&& entries_fit(self.entries())
    }

    /// What `wf` promises about the view.
    pub proof fn lemma_wf(&self)
        requires
            self.wf(),
        ensures
            self.capacity() >= 1,
            self.capacity() <= usize::MAX,
            self.entries().len() <= self.capacity(),
            entries_fit(self.entries()),
    {
    }

    /// Creates an empty history holding at most `max_size` entries.
    ///
    /// A `max_size` of zero is treated as one: a history that cannot hold
    /// anything would make every navigation key a silent no-op.
    pub fn new(max_size: usize) -> (h: Self)
        ensures
            h.wf(),
            h.entries() == Seq::<Seq<char>>::empty(),
            h.capacity() == if max_size == 0 {
                1
            } else {
                max_size
            },
    {
        let h = History { entries: VecDeque::new(), max_size: if max_size == 0 {
            1
        } else {
            max_size
        } };
        proof {
            assert(h.entries() =~= Seq::<Seq<char>>::empty());
        }
        h
    }

    /// Maximum number of entries retained.
    pub fn max_size(&self) -> (r: usize)
        ensures
            r == self.capacity(),
    {
        self.max_size
    }

    /// Number of entries.
    pub fn len(&self) -> (r: usize)
        ensures
            r == self.entries().len(),
    {
        self.entries.len()
    }

    /// Whether the history is empty.
    pub fn is_empty(&self) -> (r: bool)
        ensures
            r == (self.entries().len() == 0),
    {
        self.entries.len() == 0
    }

    /// The entries from oldest to newest.
    pub fn iter(&self) -> (r: Vec<&str>)
        ensures
            r@.len() == self.entries().len(),
            forall|i: int| 0 <= i < r@.len() ==> (#[trigger] r@[i])@ == self.entries()[i],
    {
        let mut r: Vec<&str> = Vec::new();
        let mut i: usize = 0;
        while i < self.entries.len()
            invariant
                i <= self.entries@.len(),
                r@.len() == i,
                forall|j: int| 0 <= j < i ==> (#[trigger] r@[j])@ == self.entries()[j],
            decreases self.entries@.len() - i,
        {
            r.push(self.entries[i].as_str());
            i = i + 1;
        }
        r
    }

    /// Returns entry `index`, counting from the oldest.
    pub fn get(&self, index: usize) -> (r: Option<&str>)
        ensures
            index < self.entries().len() ==> (r matches Some(s) && s@ == self.entries()[index as int]),
            index >= self.entries().len() ==> r is None,
    {
        if index < self.entries.len() {
            Some(self.entries[index].as_str())
        } else {
            None
        }
    }

    /// Overwrites entry `index`, counting from the oldest. An index past the
    /// end is ignored.
    pub fn set(&mut self, index: usize, line: &str)
        requires
            old(self).wf(),
            byte_len(line@) <= usize::MAX,
        ensures
            final(self).wf(),
            final(self).capacity() == old(self).capacity(),
            final(self).entries() == if index < old(self).entries().len() {
                old(self).entries().update(index as int, line@)
            } else {
                old(self).entries()
            },
    {
        if index < self.entries.len() {
            let _ = self.entries.remove(index);
            self.entries.insert(index, line.to_owned());
            proof {
                assert(self.entries() =~= old(self).entries().update(index as int, line@));
                assert forall|i: int| 0 <= i < self.entries().len() implies byte_len(#[trigger] self.entries()[i]) <= usize::MAX by {
                    if i != index {
                        assert(self.entries()[i] == old(self).entries()[i]);
                    }
                }
            }
        }
    }

    /// Appends `line` unless it is empty or repeats the most recent entry.
    ///
    /// Returns whether an entry was added.
    pub fn add(&mut self, line: &str) -> (added: bool)
        requires
            old(self).wf(),
            byte_len(line@) <= usize::MAX,
        ensures
            final(self).wf(),
            final(self).capacity() == old(self).capacity(),
            added == !(line@.len() == 0 || (old(self).entries().len() > 0 && old(
                self,
            ).entries().last() == line@)),
            added ==> final(self).entries() == newest(
                old(self).entries().push(line@),
                old(self).capacity(),
            ),
            !added ==> final(self).entries() == old(self).entries(),
    {
        let owned = line.to_owned();
        if line.is_empty() {
            return false;
        }
        let n = self.entries.len();
        if n > 0 && self.entries[n - 1] == owned {
            return false;
        }
        self.push(owned);
        true
    }

    /// Appends `line` unconditionally, evicting the oldest entry if full.
    ///
    /// Unlike [`History::add`] this keeps empty lines and consecutive
    /// duplicates, which is what reloading or resizing the ring needs.
    pub fn push(&mut self, line: String)
        requires
            old(self).wf(),
            byte_len(line@) <= usize::MAX,
        ensures
            final(self).wf(),
            final(self).capacity() == old(self).capacity(),
            final(self).entries() == newest(old(self).entries().push(line@), old(self).capacity()),
    {
        let ghost lv = line@;
        self.entries.push_back(line);
        proof {
            assert(self.entries() =~= old(self).entries().push(lv));
            assert forall|i: int| 0 <= i < self.entries().len() implies byte_len(#[trigger] self.entries()[i]) <= usize::MAX by {
                if i < old(self).entries().len() {
                    assert(self.entries()[i] == old(self).entries()[i]);
                }
            }
        }
        if self.entries.len() > self.max_size {
            let ghost before = self.entries();
            let _ = self.entries.pop_front();
            proof {
                assert(self.entries() =~= before.skip(1));
                assert(before.len() - self.max_size == 1);
                assert forall|i: int| 0 <= i < self.entries().len() implies byte_len(#[trigger] self.entries()[i]) <= usize::MAX by {
                    assert(self.entries()[i] == before[i + 1]);
                }
            }
        }
    }

    /// Removes and returns the newest entry.
    pub fn pop(&mut self) -> (r: Option<String>)
        requires
            old(self).wf(),
        ensures
            final(self).wf(),
            final(self).capacity() == old(self).capacity(),
            old(self).entries().len() == 0 ==> r is None && final(self).entries() == old(
                self,
            ).entries(),
            old(self).entries().len() > 0 ==> (r matches Some(s) && s@ == old(
                self,
            ).entries().last() && final(self).entries() == old(self).entries().drop_last()),
    {
        let r = self.entries.pop_back();
        proof {
            if old(self).entries().len() > 0 {
                assert(self.entries() =~= old(self).entries().drop_last());
                assert forall|i: int| 0 <= i < self.entries().len() implies byte_len(#[trigger] self.entries()[i]) <= usize::MAX by {
                    assert(self.entries()[i] == old(self).entries()[i]);
                }
            }
        }
        r
    }

    /// Removes every entry.
    pub fn clear(&mut self)
        requires
            old(self).wf(),
        ensures
            final(self).wf(),
            final(self).capacity() == old(self).capacity(),
            final(self).entries() == Seq::<Seq<char>>::empty(),
    {
        self.entries.clear();
        proof {
            assert(self.entries() =~= Seq::<Seq<char>>::empty());
        }
    }

    /// Searches backwards for `needle`, starting at entry `index` and scanning
    /// only the first `limit` bytes of that entry.
    ///
    /// Returns the entry index and the byte offset of the last match in it.
    /// Later entries are searched first, matching the direction of `CTRL-R`;
    /// once the search moves to an older entry the whole of it is eligible.
    pub fn search_backward(&self, needle: &str, index: usize, limit: usize) -> (r: Option<(usize, usize)>)
        requires
            self.wf(),
        ensures
            r == search_backward_spec(self.entries(), needle@, index as int, limit as int),
    {
        let nd = chars_of(needle);
        if nd.len() == 0 {
            return None;
        }
        let len = self.entries.len();
        if len == 0 {
            return None;
        }
        let mut i = if index < len - 1 {
            index
        } else {
            len - 1
        };
        let mut lim = limit;
        let ghost es = self.entries();
        loop
            invariant
                self.wf(),
                es == self.entries(),
                i < es.len(),
                nd@ == needle@,
                nd@.len() > 0,
                search_from(es, nd@, i as int, lim as int) == search_backward_spec(
                    es,
                    needle@,
                    index as int,
                    limit as int,
                ),
            decreases i,
        {
            let e = chars_of(self.entries[i].as_str());
            proof {
                assert(e@ == es[i as int]);
                assert(byte_len(e@) <= usize::MAX);
            }
            let k = count_within(&e, lim);
            let found = rfind_chars(&e, k, &nd);
            match found {
                Some(j) => {
                    proof {
                        lemma_offset_mono(e@, j as int, e@.len() as int);
                    }
                    let b = offset_of(&e, j);
                    return Some((i, b));
                },
                None => {},
            }
            proof {
                assert(search_from(es, nd@, i as int, lim as int) == search_from(
                    es,
                    nd@,
                    i - 1,
                    usize::MAX as int,
                ));
            }
            if i == 0 {
                return None;
            }
            i = i - 1;
            lim = usize::MAX;
        }
    }
}


/// Whether `n` occurs in `h` starting at character `j`.
pub open spec fn occurs_at(h: Seq<char>, n: Seq<char>, j: int) -> bool {
    0 <= j && j + n.len() <= h.len() && h.subrange(j, j + n.len()) == n
}

/// The last occurrence of `n` in `h` starting at or before `j`.
pub open spec fn last_occurrence_from(h: Seq<char>, n: Seq<char>, j: int) -> Option<int>
    decreases j + 1,
{
    if j < 0 {
        None
    } else if occurs_at(h, n, j) {
        Some(j)
    } else {
        last_occurrence_from(h, n, j - 1)
    }
}

/// The character index of the last occurrence of `n` in `h`, as `str::rfind`
/// reports it (in bytes, for valid UTF-8 the same position).
pub open spec fn rfind_spec(h: Seq<char>, n: Seq<char>) -> Option<int> {
    last_occurrence_from(h, n, h.len() - n.len())
}

/// The number of leading characters of `e` whose encoding fits in its
/// first `b` bytes.
pub open spec fn chars_within(e: Seq<char>, b: int) -> int {
    choose|k: int| 0 <= k <= e.len() && #[trigger] offset(e, k) <= b && (k == e.len() || offset(e, k + 1) > b)
}

/// Counts the leading characters of `e` whose encoding fits in `b` bytes.
fn count_within(e: &Vec<char>, b: usize) -> (k: usize)
    ensures
        k == chars_within(e@, b as int),
        k <= e.len(),
{
    let mut k: usize = 0;
    let mut acc: usize = 0;
    while k < e.len() && len_utf8(e[k]) <= b - acc
        invariant
            k <= e.len(),
            acc == offset(e@, k as int),
            acc <= b,
        decreases e.len() - k,
    {
        proof {
            lemma_offset_succ(e@, k as int);
        }
        acc = acc + len_utf8(e[k]);
        k = k + 1;
    }
    proof {
        if k < e.len() {
            lemma_offset_succ(e@, k as int);
        }
        let kk = chars_within(e@, b as int);
        assert(0 <= k <= e@.len() && offset(e@, k as int) <= b && (k == e@.len() || offset(e@, k + 1) > b));
        if kk < k {
            lemma_offset_mono(e@, kk + 1, k as int);
        } else if kk > k {
            lemma_offset_mono(e@, k + 1, kk);
        }
    }
    k
}

/// Backward search from entry `i`, looking only at the first `limit` bytes of
/// it (the characters that fit in them) and at the whole of every older
/// entry.
pub open spec fn search_from(es: Seq<Seq<char>>, n: Seq<char>, i: int, limit: int) -> Option<
    (usize, usize),
>
    decreases i + 1,
{
    if i < 0 || i >= es.len() {
        None
    } else {
        let e = es[i];
        let found = rfind_spec(e.take(chars_within(e, limit)), n);
        match found {
            Some(j) => Some((i as usize, offset(e, j) as usize)),
            None => search_from(es, n, i - 1, usize::MAX as int),
        }
    }
}

/// What [`History::search_backward`] finds.
pub open spec fn search_backward_spec(es: Seq<Seq<char>>, n: Seq<char>, index: int, limit: int) -> Option<(usize, usize)> {
    if n.len() == 0 || es.len() == 0 {
        None
    } else {
        search_from(
            es,
            n,
            if index < es.len() - 1 {
                index
            } else {
                es.len() - 1
            },
            limit,
        )
    }
}

/// The last occurrence of `n` within `e[..k]`.
fn rfind_chars(e: &Vec<char>, k: usize, n: &Vec<char>) -> (r: Option<usize>)
    requires
        k <= e.len(),
        n.len() > 0,
    ensures
        r matches Some(j) ==> rfind_spec(e@.take(k as int), n@) == Some(j as int) && j <= k,
        r is None ==> rfind_spec(e@.take(k as int), n@) is None,
{
    let ghost h = e@.take(k as int);
    if n.len() > k {
        proof {
            assert(last_occurrence_from(h, n@, h.len() - n@.len()) is None);
        }
        return None;
    }
    let mut j: usize = k - n.len();
    loop
        invariant
            k <= e.len(),
            h == e@.take(k as int),
            n.len() > 0,
            j + n.len() <= k,
            last_occurrence_from(h, n@, j as int) == rfind_spec(h, n@),
        decreases j,
    {
        // compare e[j..j + n.len()] with n
        let mut m: usize = 0;
        let mut same = true;
        while m < n.len()
            invariant
                m <= n.len(),
                j + n.len() <= k <= e.len(),
                h == e@.take(k as int),
                same == (forall|q: int| 0 <= q < m ==> e@[j + q] == n@[q]),
            decreases n.len() - m,
        {
            if e[j + m] != n[m] {
                same = false;
            }
            m = m + 1;
        }
        proof {
            if same {
                assert(h.subrange(j as int, j + n@.len()) =~= n@);
            } else {
                let q = choose|q: int| 0 <= q < n.len() && e@[j + q] != n@[q];
                assert(h.subrange(j as int, j + n@.len())[q] != n@[q]);
                assert(!occurs_at(h, n@, j as int));
                assert(last_occurrence_from(h, n@, j as int) == last_occurrence_from(h, n@, j - 1));
                assert(last_occurrence_from(h, n@, -1) is None);
            }
        }
        if same {
            return Some(j);
        }
        if j == 0 {
            return None;
        }
        j = j - 1;
    }

}

impl History {
    /// Replaces the entries with the lines of a history file's contents.
    ///
    /// A line that is empty or not valid UTF-8 is skipped rather than failing
    /// the load: one corrupt byte in a history file must not cost the caller
    /// their prompt. Only the newest `max_size` lines are kept.
    pub fn load_bytes(&mut self, content: &[u8])
        requires
            old(self).wf(),
        ensures
            final(self).wf(),
            final(self).capacity() == old(self).capacity(),
            final(self).entries() == loaded_entries(content@, old(self).capacity()),
    {
        let mut lines: Vec<String> = Vec::new();
        let mut cur: Vec<u8> = Vec::new();
        let mut i: usize = 0;
        let clen = content.len();
        proof {
            assert(content@.take(0) =~= Seq::<u8>::empty());
            lemma_split_lines_nonempty(content@.take(0));
            assert(split_lines(Seq::<u8>::empty()).drop_last() =~= Seq::<Seq<u8>>::empty());
            assert(string_views(lines@) =~= Seq::<Seq<char>>::empty());
        }
        while i < content.len()
            invariant
                i <= content.len(),
                cur@.len() <= i,
                split_lines(content@.take(i as int)).len() >= 1,
                split_lines(content@.take(i as int)).last() == cur@,
                kept_lines(split_lines(content@.take(i as int)).drop_last()) == string_views(
                    lines@,
                ),
                entries_fit(string_views(lines@)),
                content@.len() <= usize::MAX,
            decreases content.len() - i,
        {
            let b = content[i];
            proof {
                assert(content@.take(i + 1).drop_last() =~= content@.take(i as int));
                assert(content@.take(i + 1).last() == b);
                lemma_split_lines_nonempty(content@.take(i + 1));
            }
            if b == 0x0a {
                let seg = cur;
                cur = Vec::new();
                flush_line(&mut lines, &seg);
                proof {
                    let sp = split_lines(content@.take(i as int));
                    assert(split_lines(content@.take(i + 1)) == sp.push(Seq::<u8>::empty()));
                    assert(sp.push(Seq::<u8>::empty()).drop_last() =~= sp);
                    assert(sp.drop_last().push(sp.last()) =~= sp);
                }
            } else {
                cur.push(b);
                proof {
                    let sp = split_lines(content@.take(i as int));
                    assert(split_lines(content@.take(i + 1)) == sp.update(
                        sp.len() - 1,
                        sp.last().push(b),
                    ));
                    assert(sp.update(sp.len() - 1, sp.last().push(b)).drop_last() =~= sp.drop_last());
                }
            }
            i = i + 1;
        }
        proof {
            assert(content@.take(content@.len() as int) =~= content@);
            let sp = split_lines(content@);
            assert(sp.drop_last().push(sp.last()) =~= sp);
        }
        flush_line(&mut lines, &cur);
        // Keep the newest `max_size` lines.
        let n = lines.len();
        let first = if n > self.max_size {
            n - self.max_size
        } else {
            0
        };
        let mut entries: VecDeque<String> = VecDeque::new();
        let mut k = first;
        while k < n
            invariant
                first <= k <= n == lines@.len(),
                string_views(entries@) == string_views(lines@).subrange(first as int, k as int),
            decreases n - k,
        {
            let ghost before = entries@;
            let line = lines[k].clone();
            entries.push_back(line);
            proof {
                assert(entries@ == before.push(line));
                lemma_string_views_push(before, line);
                let all = string_views(lines@);
                assert(all[k as int] == lines@[k as int]@);
                assert(all.subrange(first as int, k + 1) =~= all.subrange(first as int, k as int).push(
                    all[k as int],
                ));
            }
            k = k + 1;
        }
        self.entries = entries;
        proof {
            let all = string_views(lines@);
            if n > self.max_size {
                assert(all.subrange(first as int, n as int) =~= all.skip(all.len() - self.max_size));
            } else {
                assert(all.subrange(0, n as int) =~= all);
            }
            assert forall|j: int| 0 <= j < self.entries().len() implies byte_len(#[trigger] self.entries()[j]) <= usize::MAX by {
                assert(self.entries()[j] == all[first + j]);
            }
        }
    }

    /// The history file's contents: each entry followed by a newline.
    pub fn to_bytes(&self) -> (r: Vec<u8>)
        ensures
            r@ == file_bytes(self.entries()),
    {
        let mut r: Vec<u8> = Vec::new();
        let mut i: usize = 0;
        proof {
            assert(self.entries().take(0) =~= Seq::<Seq<char>>::empty());
        }
        while i < self.entries.len()
            invariant
                i <= self.entries@.len(),
                r@ == file_bytes(self.entries().take(i as int)),
            decreases self.entries@.len() - i,
        {
            let bytes = self.entries[i].as_str().as_bytes();
            let mut j: usize = 0;
            while j < bytes.len()
                invariant
                    j <= bytes@.len(),
                    r@ == file_bytes(self.entries().take(i as int)) + bytes@.take(j as int),
                    i < self.entries@.len(),
                    bytes@ == encode_utf8(self.entries()[i as int]),
                decreases bytes@.len() - j,
            {
                r.push(bytes[j]);
                proof {
                    assert(file_bytes(self.entries().take(i as int)) + bytes@.take(j + 1) =~= (file_bytes(self.entries().take(i as int)) + bytes@.take(j as int)).push(
                        bytes@[j as int],
                    ));
                }
                j = j + 1;
            }
            r.push(0x0a);
            proof {
                assert(bytes@.take(bytes@.len() as int) =~= bytes@);
                assert(self.entries().take(i + 1).drop_last() =~= self.entries().take(i as int));
                assert(self.entries().take(i + 1).last() == self.entries()[i as int]);
            }
            i = i + 1;
        }
        proof {
            assert(self.entries().take(self.entries().len() as int) =~= self.entries());
        }
        r
    }
}

// ---------------------------------------------------------- file format

/// The lines of `b`: the runs of bytes between newlines. A file ending in a
/// newline has an empty last line.
pub open spec fn split_lines(b: Seq<u8>) -> Seq<Seq<u8>>
    decreases b.len(),
{
    if b.len() == 0 {
        seq![Seq::empty()]
    } else {
        let r = split_lines(b.drop_last());
        if b.last() == 0x0a {
            r.push(Seq::empty())
        } else {
            r.update(r.len() - 1, r.last().push(b.last()))
        }
    }
}

/// The entries a history file's lines become: every non-empty line that is
/// valid UTF-8, decoded.
pub open spec fn kept_lines(ls: Seq<Seq<u8>>) -> Seq<Seq<char>>
    decreases ls.len(),
{
    if ls.len() == 0 {
        Seq::empty()
    } else {
        let r = kept_lines(ls.drop_last());
        let l = ls.last();
        if l.len() > 0 && valid_utf8(l) {
            r.push(decode_utf8(l))
        } else {
            r
        }
    }
}

/// The entries loading `content` produces in a history of capacity `max`.
pub open spec fn loaded_entries(content: Seq<u8>, max: nat) -> Seq<Seq<char>> {
    newest(kept_lines(split_lines(content)), max)
}

/// The bytes a history with entries `es` is saved as.
pub open spec fn file_bytes(es: Seq<Seq<char>>) -> Seq<u8>
    decreases es.len(),
{
    if es.len() == 0 {
        Seq::empty()
    } else {
        file_bytes(es.drop_last()) + encode_utf8(es.last()) + seq![0x0au8]
    }
}

/// Appending a string appends its view.
pub proof fn lemma_string_views_push(s: Seq<String>, x: String)
    ensures
        string_views(s.push(x)) == string_views(s).push(x@),
{
    assert(string_views(s.push(x)) =~= string_views(s).push(x@));
}

pub proof fn lemma_split_lines_nonempty(b: Seq<u8>)
    ensures
        split_lines(b).len() >= 1,
    decreases b.len(),
{
    if b.len() > 0 {
        lemma_split_lines_nonempty(b.drop_last());
    }
}

/// Decodes `seg` and appends it to `lines` if it is a non-empty valid line.
fn flush_line(lines: &mut Vec<String>, seg: &Vec<u8>)
    requires
        entries_fit(string_views(old(lines)@)),
        seg@.len() <= usize::MAX,
    ensures
        entries_fit(string_views(final(lines)@)),
        string_views(final(lines)@) == if seg@.len() > 0 && valid_utf8(seg@) {
            string_views(old(lines)@).push(decode_utf8(seg@))
        } else {
            string_views(old(lines)@)
        },
{
    if seg.len() == 0 {
        return;
    }
    match str_from_utf8(seg.as_slice()) {
        Some(s) => {
            proof {
                vstd::utf8::encode_utf8_decode_utf8(s@);
                crate::unicode::lemma_byte_len_is_encoding_len(s@);
            }
            let owned = s.to_owned();
            lines.push(owned);
            proof {
                assert(string_views(lines@) =~= string_views(old(lines)@).push(decode_utf8(seg@)));
                assert forall|j: int| 0 <= j < string_views(lines@).len() implies byte_len(#[trigger] string_views(lines@)[j]) <= usize::MAX by {
                    if j < old(lines)@.len() {
                        assert(string_views(lines@)[j] == string_views(old(lines)@)[j]);
                    }
                }
            }
        },
        None => {},
    }
}


// ---------------------------------------------------------- round trip

/// An entry the history file can hold as a line of its own: non-empty and
/// free of newlines.
pub open spec fn storable(e: Seq<char>) -> bool {
    e.len() > 0 && forall|j: int| 0 <= j < e.len() ==> e[j] != '\n'
}

/// The lines a file of entries `es` splits into, before the empty tail.
pub open spec fn encoded_lines(es: Seq<Seq<char>>) -> Seq<Seq<u8>> {
    Seq::new(es.len(), |i: int| encode_utf8(es[i]))
}

/// No byte of the encoding of a character other than newline is a newline.
proof fn lemma_scalar_no_newline(c: char)
    requires
        c != '\n',
    ensures
        forall|j: int|
            0 <= j < encode_scalar(c as u32).len() ==> #[trigger] encode_scalar(c as u32)[j] != 0x0au8,
{
    char_is_scalar(c);
    let v = c as u32;
    assert(v != 10);
    if has_width_1_encoding(v) {
        assert(((v & 0x7F) as u8) != 10u8) by (bit_vector)
            requires
                v <= 0x7F,
                v != 10,
        ;
    } else {
        assert((0xC0u8 | ((v >> 6) & 0x1F) as u8) != 10u8) by (bit_vector);
        assert((0xE0u8 | ((v >> 12) & 0x0F) as u8) != 10u8) by (bit_vector);
        assert((0xF0u8 | ((v >> 18) & 0x7) as u8) != 10u8) by (bit_vector);
        assert((0x80u8 | (v & 0x3F) as u8) != 10u8) by (bit_vector);
        assert((0x80u8 | ((v >> 6) & 0x3F) as u8) != 10u8) by (bit_vector);
        assert((0x80u8 | ((v >> 12) & 0x3F) as u8) != 10u8) by (bit_vector);
    }
}

/// The encoding of a text without newlines has no newline byte, and is
/// non-empty when the text is.
proof fn lemma_encode_no_newline(e: Seq<char>)
    requires
        forall|j: int| 0 <= j < e.len() ==> e[j] != '\n',
    ensures
        forall|j: int| 0 <= j < encode_utf8(e).len() ==> encode_utf8(e)[j] != 0x0au8,
        e.len() > 0 ==> encode_utf8(e).len() > 0,
    decreases e.len(),
{
    if e.len() > 0 {
        lemma_scalar_no_newline(e[0]);
        crate::unicode::lemma_char_len_is_encoding_len(e[0]);
        lemma_encode_no_newline(e.drop_first());
        let a = encode_scalar(e[0] as u32);
        let b = encode_utf8(e.drop_first());
        assert forall|j: int| 0 <= j < (a + b).len() implies (a + b)[j] != 0x0au8 by {
            if j >= a.len() {
                assert((a + b)[j] == b[j - a.len()]);
            }
        }
    }
}

/// Appending bytes without a newline extends the last line.
proof fn lemma_split_lines_append_plain(a: Seq<u8>, b: Seq<u8>)
    requires
        forall|j: int| 0 <= j < b.len() ==> b[j] != 0x0au8,
    ensures
        split_lines(a + b) == split_lines(a).update(
            split_lines(a).len() - 1,
            split_lines(a).last() + b,
        ),
    decreases b.len(),
{
    lemma_split_lines_nonempty(a);
    let sa = split_lines(a);
    if b.len() == 0 {
        assert(a + b =~= a);
        assert(sa.update(sa.len() - 1, sa.last() + b) =~= sa);
    } else {
        let b0 = b.drop_last();
        lemma_split_lines_append_plain(a, b0);
        assert((a + b).drop_last() =~= a + b0);
        assert((a + b).last() == b.last());
        let r = split_lines(a + b0);
        assert(r.last() == sa.last() + b0);
        assert(r.last().push(b.last()) =~= sa.last() + b);
        assert(r.update(r.len() - 1, r.last().push(b.last())) =~= sa.update(
            sa.len() - 1,
            sa.last() + b,
        ));
    }
}

/// A saved file splits into the entries' encodings and an empty tail.
proof fn lemma_split_file_bytes(es: Seq<Seq<char>>)
    requires
        forall|i: int| 0 <= i < es.len() ==> storable(#[trigger] es[i]),
    ensures
        split_lines(file_bytes(es)) == encoded_lines(es).push(Seq::<u8>::empty()),
    decreases es.len(),
{
    if es.len() == 0 {
        assert(split_lines(Seq::<u8>::empty()) =~= encoded_lines(es).push(Seq::<u8>::empty()));
    } else {
        let ep = es.drop_last();
        assert forall|i: int| 0 <= i < ep.len() implies storable(#[trigger] ep[i]) by {
            assert(ep[i] == es[i]);
        }
        lemma_split_file_bytes(ep);
        assert(storable(es[es.len() - 1]));
        let e = es.last();
        lemma_encode_no_newline(e);
        let a = file_bytes(ep);
        let fb = file_bytes(es);
        lemma_split_lines_append_plain(a, encode_utf8(e));
        let sa = split_lines(a);
        assert(sa.last() == Seq::<u8>::empty());
        assert(Seq::<u8>::empty() + encode_utf8(e) =~= encode_utf8(e));
        assert(fb.drop_last() =~= a + encode_utf8(e));
        assert(fb.last() == 0x0au8);
        assert(encoded_lines(ep).push(Seq::<u8>::empty()).update(ep.len() as int, encode_utf8(e))
            =~= encoded_lines(es));
    }
}

/// Decoding the encodings of storable entries gives the entries back.
proof fn lemma_kept_encoded(es: Seq<Seq<char>>)
    requires
        forall|i: int| 0 <= i < es.len() ==> storable(#[trigger] es[i]),
    ensures
        kept_lines(encoded_lines(es)) == es,
        kept_lines(encoded_lines(es).push(Seq::<u8>::empty())) == es,
    decreases es.len(),
{
    assert(encoded_lines(es).push(Seq::<u8>::empty()).drop_last() =~= encoded_lines(es));
    if es.len() > 0 {
        let ep = es.drop_last();
        assert forall|i: int| 0 <= i < ep.len() implies storable(#[trigger] ep[i]) by {
            assert(ep[i] == es[i]);
        }
        lemma_kept_encoded(ep);
        assert(encoded_lines(es).drop_last() =~= encoded_lines(ep));
        let e = es.last();
        assert(storable(es[es.len() - 1]));
        lemma_encode_no_newline(e);
        encode_utf8_valid_utf8(e);
        encode_utf8_decode_utf8(e);
        assert(encoded_lines(es).last() == encode_utf8(e));
        assert(ep.push(e) =~= es);
    }
}

/// Saving entries and loading the file back into a history of capacity
/// `max` gives the newest `max` of them, as long as every entry is non-empty
/// and has no newline. An entry that is empty or holds a newline cannot
/// survive the line-per-entry file format.
pub proof fn law_saved_entries_load_back(es: Seq<Seq<char>>, max: nat)
    requires
        forall|i: int| 0 <= i < es.len() ==> storable(#[trigger] es[i]),
    ensures
        loaded_entries(file_bytes(es), max) == newest(es, max),
{
    lemma_split_file_bytes(es);
    lemma_kept_encoded(es);
}

} // verus!
