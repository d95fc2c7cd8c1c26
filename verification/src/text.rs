//! Conversions between `String`/`&str` and character vectors, and the facts
//! about UTF-8 byte lengths that the editing operations rely on.

use crate::unicode::{
    byte_len, len_utf8, lemma_byte_len_is_encoding_len, lemma_offset_full, lemma_offset_is_char_boundary,
    lemma_offset_mono, lemma_offset_succ, offset,
};
use vstd::string::StringSliceAdditionalSpecFns;
use vstd::utf8::{encode_scalar, encode_utf8, encode_utf8_decode_utf8};
use vstd::prelude::*;

verus! {

/// Calls `String::push`, which appends `c` to the end of the string.
#[verifier::external_body]
pub(crate) fn string_push(s: &mut String, c: char)
    ensures
        final(s)@ == old(s)@.push(c),
{
    s.push(c)
}

/// Builds a `String` holding `chars[from..to]`.
pub fn string_of_range(chars: &Vec<char>, from: usize, to: usize) -> (s: String)
    requires
        from <= to <= chars.len(),
    ensures
        s@ == chars@.subrange(from as int, to as int),
{
    let mut s = String::new();
    let mut i = from;
    while i < to
        invariant
            from <= i <= to <= chars.len(),
            s@ == chars@.subrange(from as int, i as int),
        decreases to - i,
    {
        string_push(&mut s, chars[i]);
        proof {
            assert(chars@.subrange(from as int, i + 1) =~= chars@.subrange(from as int, i as int).push(chars@[i as int]));
        }
        i = i + 1;
    }
    s
}

/// Builds a `String` holding all of `chars`.
pub fn string_of(chars: &Vec<char>) -> (s: String)
    ensures
        s@ == chars@,
{
    let s = string_of_range(chars, 0, chars.len());
    proof {
        assert(chars@.subrange(0, chars@.len() as int) =~= chars@);
    }
    s
}

/// The characters of `s`, in order.
pub fn chars_of(s: &str) -> (v: Vec<char>)
    ensures
        v@ == s@,
{
    let n = s.unicode_len();
    let mut v: Vec<char> = Vec::new();
    let mut i: usize = 0;
    while i < n
        invariant
            n == s@.len(),
            i <= n,
            v@ == s@.take(i as int),
        decreases n - i,
    {
        v.push(s.get_char(i));
        proof {
            assert(s@.take(i + 1) =~= s@.take(i as int).push(s@[i as int]));
        }
        i = i + 1;
    }
    proof {
        assert(s@.take(n as int) =~= s@);
    }
    v
}

/// Returns `src[..start] + ins + src[end..]`.
pub fn splice(src: &Vec<char>, start: usize, end: usize, ins: &Vec<char>) -> (r: Vec<char>)
    requires
        start <= end <= src.len(),
        src.len() + ins.len() <= usize::MAX,
    ensures
        r@ == src@.take(start as int) + ins@ + src@.skip(end as int),
{
    let mut r: Vec<char> = Vec::new();
    let mut i: usize = 0;
    while i < start
        invariant
            i <= start <= end <= src.len(),
            r@ == src@.take(i as int),
        decreases start - i,
    {
        r.push(src[i]);
        proof {
            assert(src@.take(i + 1) =~= src@.take(i as int).push(src@[i as int]));
        }
        i = i + 1;
    }
    let mut j: usize = 0;
    while j < ins.len()
        invariant
            i == start,
            j <= ins.len(),
            r@ == src@.take(start as int) + ins@.take(j as int),
        decreases ins.len() - j,
    {
        r.push(ins[j]);
        proof {
            assert(ins@.take(j + 1) =~= ins@.take(j as int).push(ins@[j as int]));
            assert(src@.take(start as int) + ins@.take(j + 1) =~= (src@.take(start as int)
                + ins@.take(j as int)).push(ins@[j as int]));
        }
        j = j + 1;
    }
    proof {
        assert(ins@.take(ins@.len() as int) =~= ins@);
    }
    let mut k: usize = end;
    while k < src.len()
        invariant
            start <= end <= k <= src.len(),
            r@ == src@.take(start as int) + ins@ + src@.subrange(end as int, k as int),
        decreases src.len() - k,
    {
        r.push(src[k]);
        proof {
            assert(src@.take(start as int) + ins@ + src@.subrange(end as int, k + 1) =~= (
            src@.take(start as int) + ins@ + src@.subrange(end as int, k as int)).push(
                src@[k as int],
            ));
        }
        k = k + 1;
    }
    proof {
        assert(src@.subrange(end as int, src@.len() as int) =~= src@.skip(end as int));
    }
    r
}

/// A sequence of at most `n` characters is at most `4 * n` bytes.
pub proof fn lemma_byte_len_bound(s: Seq<char>)
    ensures
        byte_len(s) <= 4 * s.len(),
    decreases s.len(),
{
    if s.len() > 0 {
        lemma_byte_len_bound(s.drop_last());
    }
}

/// Offsets are bounded by the total length.
pub proof fn lemma_offset_le_total(s: Seq<char>, i: int)
    requires
        0 <= i <= s.len(),
    ensures
        offset(s, i) <= byte_len(s),
{
    lemma_offset_mono(s, i, s.len() as int);
    lemma_offset_full(s);
}

/// Appends `src[from..to]` to `out`.
pub fn push_range(out: &mut Vec<char>, src: &Vec<char>, from: usize, to: usize)
    requires
        from <= to <= src.len(),
        old(out).len() + (to - from) <= usize::MAX,
    ensures
        final(out)@ == old(out)@ + src@.subrange(from as int, to as int),
{
    let mut i = from;
    while i < to
        invariant
            from <= i <= to <= src.len(),
            out@ == old(out)@ + src@.subrange(from as int, i as int),
        decreases to - i,
    {
        out.push(src[i]);
        proof {
            assert(old(out)@ + src@.subrange(from as int, i + 1) =~= (old(out)@ + src@.subrange(
                from as int,
                i as int,
            )).push(src@[i as int]));
        }
        i = i + 1;
    }
}

/// Whether `b` is a byte offset that falls between characters of `s`.
pub open spec fn is_boundary_in(s: Seq<char>, b: int) -> bool {
    exists|k: int| 0 <= k <= s.len() && offset(s, k) == b
}

/// Byte offset of character `k` of `e`.
pub fn offset_of(e: &Vec<char>, k: usize) -> (r: usize)
    requires
        k <= e.len(),
        byte_len(e@) <= usize::MAX,
    ensures
        r == offset(e@, k as int),
{
    let mut acc: usize = 0;
    let mut j: usize = 0;
    proof {
        assert(e@.take(0) =~= Seq::<char>::empty());
    }
    while j < k
        invariant
            j <= k <= e.len(),
            acc == offset(e@, j as int),
            byte_len(e@) <= usize::MAX,
        decreases k - j,
    {
        proof {
            lemma_offset_succ(e@, j as int);
            lemma_offset_mono(e@, j + 1, e@.len() as int);
            lemma_offset_full(e@);
        }
        acc = acc + len_utf8(e[j]);
        j = j + 1;
    }
    acc
}

/// Character index whose offset in `e` is `b`, if any.
pub fn index_of_offset_in(e: &Vec<char>, b: usize) -> (r: Option<usize>)
    requires
        byte_len(e@) <= usize::MAX,
    ensures
        r matches Some(k) ==> k <= e.len() && offset(e@, k as int) == b,
        r is None ==> !is_boundary_in(e@, b as int),
{
    let mut acc: usize = 0;
    let mut k: usize = 0;
    proof {
        assert(e@.take(0) =~= Seq::<char>::empty());
    }
    while k < e.len() && acc < b
        invariant
            k <= e.len(),
            acc == offset(e@, k as int),
            acc <= b,
            byte_len(e@) <= usize::MAX,
            forall|j: int| 0 <= j < k ==> offset(e@, j) < b,
        decreases e.len() - k,
    {
        proof {
            lemma_offset_succ(e@, k as int);
            lemma_offset_mono(e@, k + 1, e@.len() as int);
            lemma_offset_full(e@);
        }
        let next = acc + len_utf8(e[k]);
        if next > b {
            proof {
                assert forall|j: int| 0 <= j <= e@.len() implies offset(e@, j) != b by {
                    if j > k {
                        lemma_offset_mono(e@, k + 1, j);
                    }
                }
            }
            return None;
        }
        acc = next;
        k = k + 1;
    }
    if acc == b {
        Some(k)
    } else {
        proof {
            assert forall|j: int| 0 <= j <= e@.len() implies offset(e@, j) != b by {
                if j != k {
                    lemma_offset_mono(e@, j, k as int);
                }
            }
        }
        None
    }
}


/// The UTF-8 encoding of a concatenation is the concatenation of the
/// encodings.
pub proof fn lemma_encode_append(a: Seq<char>, b: Seq<char>)
    ensures
        encode_utf8(a + b) == encode_utf8(a) + encode_utf8(b),
    decreases a.len(),
{
    if a.len() == 0 {
        assert(a + b =~= b);
        assert(encode_utf8(a) =~= Seq::<u8>::empty());
        assert(Seq::<u8>::empty() + encode_utf8(b) =~= encode_utf8(b));
    } else {
        assert((a + b).drop_first() =~= a.drop_first() + b);
        assert((a + b)[0] == a[0]);
        lemma_encode_append(a.drop_first(), b);
        assert(encode_scalar(a[0] as u32) + (encode_utf8(a.drop_first()) + encode_utf8(b))
            =~= (encode_scalar(a[0] as u32) + encode_utf8(a.drop_first())) + encode_utf8(b));
    }
}

/// The byte length of a string's text fits in a `usize`.
pub fn str_byte_len(s: &str) -> (r: usize)
    ensures
        r == byte_len(s@),
{
    proof {
        lemma_byte_len_is_encoding_len(s@);
    }
    s.as_bytes().len()
}

/// Splits `s` before character `k`.
pub fn split_at_char(s: &str, k: usize) -> (r: (&str, &str))
    requires
        k <= s@.len(),
    ensures
        r.0@ == s@.take(k as int),
        r.1@ == s@.skip(k as int),
{
    let v = chars_of(s);
    let n = str_byte_len(s);
    let b = offset_of(&v, k);
    proof {
        lemma_offset_is_char_boundary(s@, k as int);
        let a = s@.take(k as int);
        let c = s@.skip(k as int);
        assert(a + c =~= s@);
        lemma_encode_append(a, c);
        lemma_byte_len_is_encoding_len(a);
        assert(encode_utf8(s@).subrange(0, b as int) =~= encode_utf8(a));
        assert(encode_utf8(s@).subrange(b as int, encode_utf8(s@).len() as int) =~= encode_utf8(c));
    }
    let r = s.split_at(b);
    proof {
        encode_utf8_decode_utf8(r.0@);
        encode_utf8_decode_utf8(r.1@);
        encode_utf8_decode_utf8(s@.take(k as int));
        encode_utf8_decode_utf8(s@.skip(k as int));
    }
    r
}

/// The concatenation of `a` and `b`.
pub fn concat(a: &str, b: &str) -> (r: String)
    ensures
        r@ == a@ + b@,
{
    let mut v = chars_of(a);
    let w = chars_of(b);
    let ghost base = v@;
    let mut i: usize = 0;
    while i < w.len()
        invariant
            i <= w@.len(),
            v@ == base + w@.take(i as int),
        decreases w@.len() - i,
    {
        v.push(w[i]);
        proof {
            assert(base + w@.take(i + 1) =~= (base + w@.take(i as int)).push(w@[i as int]));
        }
        i = i + 1;
    }
    proof {
        assert(w@.take(w@.len() as int) =~= w@);
    }
    string_of(&v)
}

} // verus!
