//! Text primitives on character sequences: whitespace trimming, line
//! splitting, pattern search and prefix/suffix stripping, each given as a
//! spec function and an executable counterpart proved against it.

use vstd::prelude::*;
use vstd::utf8::*;
use vstd::string::StringSliceAdditionalSpecFns;

verus! {

/// The characters with the Unicode `White_Space` property, which is what
/// `char::is_whitespace` tests.
pub open spec fn is_ws(c: char) -> bool {
    ||| ('\u{09}' <= c && c <= '\u{0D}')
    ||| c == ' '
    ||| c == '\u{85}'
    ||| c == '\u{A0}'
    ||| c == '\u{1680}'
    ||| ('\u{2000}' <= c && c <= '\u{200A}')
    ||| c == '\u{2028}'
    ||| c == '\u{2029}'
    ||| c == '\u{202F}'
    ||| c == '\u{205F}'
    ||| c == '\u{3000}'
}

/// `s` without its leading whitespace.
pub open spec fn trim_start(s: Seq<char>) -> Seq<char>
    decreases s.len(),
{
    if s.len() > 0 && is_ws(s[0]) {
        trim_start(s.drop_first())
    } else {
        s
    }
}

/// `s` without its trailing whitespace.
pub open spec fn trim_end(s: Seq<char>) -> Seq<char>
    decreases s.len(),
{
    if s.len() > 0 && is_ws(s.last()) {
        trim_end(s.drop_last())
    } else {
        s
    }
}

/// `s` without leading and trailing whitespace.
pub open spec fn trim(s: Seq<char>) -> Seq<char> {
    trim_end(trim_start(s))
}

/// `p` occurs in `s` at index `i`.
pub open spec fn occurs_at(s: Seq<char>, p: Seq<char>, i: int) -> bool {
    0 <= i && i + p.len() <= s.len() && s.subrange(i, i + p.len()) == p
}

/// The first index at or after `k` where `p` occurs in `s`.
pub open spec fn find_from(s: Seq<char>, p: Seq<char>, k: int) -> Option<int>
    decreases s.len() + 1 - k,
{
    if k < 0 || k + p.len() > s.len() {
        None
    } else if occurs_at(s, p, k) {
        Some(k)
    } else {
        find_from(s, p, k + 1)
    }
}

/// The first index where `p` occurs in `s`.
pub open spec fn find(s: Seq<char>, p: Seq<char>) -> Option<int> {
    find_from(s, p, 0)
}

/// `s` split around the first occurrence of `p` (what `str::split_once` gives).
pub open spec fn split_once(s: Seq<char>, p: Seq<char>) -> Option<(Seq<char>, Seq<char>)> {
    match find(s, p) {
        Some(i) => Some((s.take(i), s.skip(i + p.len()))),
        None => None,
    }
}

/// `s` without the prefix `p`, if `s` starts with `p`.
pub open spec fn strip_prefix(s: Seq<char>, p: Seq<char>) -> Option<Seq<char>> {
    if p.len() <= s.len() && s.take(p.len() as int) == p {
        Some(s.skip(p.len() as int))
    } else {
        None
    }
}

/// `s` without the suffix `p`, if `s` ends with `p`.
pub open spec fn strip_suffix(s: Seq<char>, p: Seq<char>) -> Option<Seq<char>> {
    if p.len() <= s.len() && s.skip(s.len() - p.len()) == p {
        Some(s.take(s.len() - p.len()))
    } else {
        None
    }
}

pub open spec fn newline() -> Seq<char> {
    seq!['\n']
}

/// A line without the `'\r'` of a `"\r\n"` terminator.
pub open spec fn strip_cr(l: Seq<char>) -> Seq<char> {
    if l.len() > 0 && l.last() == '\r' {
        l.drop_last()
    } else {
        l
    }
}

/// The first line of a non-empty `s`, without its terminator.
pub open spec fn first_line(s: Seq<char>) -> Seq<char> {
    match find(s, newline()) {
        Some(i) => strip_cr(s.take(i)),
        None => s,
    }
}

/// What follows the first line of `s` and its `'\n'`.
pub open spec fn after_first_line(s: Seq<char>) -> Seq<char> {
    match find(s, newline()) {
        Some(i) => s.skip(i + 1),
        None => Seq::empty(),
    }
}

/// The lines of `s` as `str::lines` yields them: split at `'\n'`, a `'\r'`
/// before the `'\n'` dropped, and no empty line after a final `'\n'`.
pub open spec fn lines(s: Seq<char>) -> Seq<Seq<char>>
    decreases s.len(),
{
    if s.len() == 0 {
        Seq::empty()
    } else {
        proof {
            lemma_find_bounds(s, newline(), 0);
        }
        seq![first_line(s)] + lines(after_first_line(s))
    }
}

pub proof fn lemma_find_bounds(s: Seq<char>, p: Seq<char>, k: int)
    ensures
        find_from(s, p, k) matches Some(i) ==> k <= i && i + p.len() <= s.len() && occurs_at(s, p, i),
    decreases s.len() + 1 - k,
{
    if k < 0 || k + p.len() > s.len() {
    } else if occurs_at(s, p, k) {
    } else {
        lemma_find_bounds(s, p, k + 1);
    }
}

/// `trim_end(s)` is a prefix of `s` followed only by whitespace, and does
/// not itself end in whitespace.
pub proof fn lemma_trim_end(s: Seq<char>)
    ensures
        trim_end(s).len() <= s.len(),
        s.take(trim_end(s).len() as int) == trim_end(s),
        forall|i: int| trim_end(s).len() <= i < s.len() ==> is_ws(#[trigger] s[i]),
        trim_end(s).len() > 0 ==> !is_ws(trim_end(s).last()),
    decreases s.len(),
{
    if s.len() > 0 && is_ws(s.last()) {
        let d = s.drop_last();
        lemma_trim_end(d);
        let t = trim_end(d);
        assert(s.take(t.len() as int) =~= d.take(t.len() as int));
        assert forall|i: int| t.len() <= i < s.len() implies is_ws(#[trigger] s[i]) by {
            if i < d.len() {
                assert(s[i] == d[i]);
            }
        }
    } else {
        assert(s.take(s.len() as int) =~= s);
    }
}

/// The search from `k` finds the first index at or after `k` where `p`
/// occurs.
pub proof fn lemma_find_first(s: Seq<char>, p: Seq<char>, k: int, i: int)
    requires
        0 <= k <= i,
        occurs_at(s, p, i),
        forall|j: int| k <= j < i ==> !occurs_at(s, p, j),
    ensures
        find_from(s, p, k) == Some(i),
    decreases i - k,
{
    if k < i {
        lemma_find_first(s, p, k + 1, i);
    }
}

/// The search from `k` finds something where `p` occurs at or after `k`.
pub proof fn lemma_find_some(s: Seq<char>, p: Seq<char>, k: int, i: int)
    requires
        0 <= k <= i,
        occurs_at(s, p, i),
    ensures
        find_from(s, p, k) is Some,
    decreases i - k,
{
    if k < i && !occurs_at(s, p, k) {
        lemma_find_some(s, p, k + 1, i);
    }
}

/// The search from `k` finds nothing where `p` occurs nowhere at or after
/// `k`.
pub proof fn lemma_find_none(s: Seq<char>, p: Seq<char>, k: int)
    requires
        0 <= k,
        forall|j: int| k <= j ==> !occurs_at(s, p, j),
    ensures
        find_from(s, p, k) is None,
    decreases s.len() + 1 - k,
{
    if k + p.len() <= s.len() {
        lemma_find_none(s, p, k + 1);
    }
}

/// UTF-8 encoding distributes over concatenation.
pub proof fn lemma_encode_concat(a: Seq<char>, b: Seq<char>)
    ensures
        encode_utf8(a + b) == encode_utf8(a) + encode_utf8(b),
    decreases a.len(),
{
    if a.len() == 0 {
        assert(a + b =~= b);
        assert(encode_utf8(a) =~= Seq::<u8>::empty());
        assert(encode_utf8(a) + encode_utf8(b) =~= encode_utf8(b));
    } else {
        assert((a + b).drop_first() =~= a.drop_first() + b);
        lemma_encode_concat(a.drop_first(), b);
        assert((a + b)[0] == a[0]);
        assert(encode_utf8(a + b) =~= encode_scalar(a[0] as u32) + (encode_utf8(a.drop_first())
            + encode_utf8(b)));
    }
}

/// A character encodes as at least one byte.
pub proof fn lemma_encode_len(s: Seq<char>)
    ensures
        encode_utf8(s).len() >= s.len(),
    decreases s.len(),
{
    if s.len() > 0 {
        lemma_encode_len(s.drop_first());
        assert(encode_scalar(s[0] as u32).len() >= 1);
    }
}

/// An ASCII character encodes as the one byte of its code.
pub proof fn lemma_encode_ascii(c: char)
    requires
        (c as u32) < 128,
    ensures
        encode_utf8(seq![c]) == seq![c as u8],
        encode_utf8(seq![c]).len() == 1,
{
    let s = seq![c];
    assert(is_ascii_chars(s));
    is_ascii_chars_encode_utf8(s);
    assert(s[0] == c);
    assert(encode_utf8(s) =~= seq![c as u8]);
}

/// Splitting valid UTF-8 at two character boundaries `x <= y`: the part from
/// `x` on is valid, and `y - x` is a boundary in it.
pub proof fn lemma_boundary_in_suffix(b: Seq<u8>, x: int, y: int)
    requires
        valid_utf8(b),
        0 <= x <= y <= b.len(),
        is_char_boundary(b, x),
        is_char_boundary(b, y),
    ensures
        valid_utf8(b.skip(x)),
        is_char_boundary(b.skip(x), y - x),
{
    valid_utf8_split(b, x);
    assert(b.skip(x) =~= b.subrange(x, b.len() as int));
    let t = b.skip(x);
    if y == b.len() {
        is_char_boundary_start_end_of_seq(t);
    } else {
        is_char_boundary_iff_not_is_continuation_byte(b, y);
        is_char_boundary_iff_not_is_continuation_byte(t, y - x);
        assert(t[y - x] == b[y]);
    }
}

/// The part of `s` between the byte offsets `x` and `y`.
pub fn substr<'a>(s: &'a str, x: usize, y: usize) -> (r: &'a str)
    requires
        x <= y <= s.spec_bytes().len(),
        is_char_boundary(s.spec_bytes(), x as int),
        is_char_boundary(s.spec_bytes(), y as int),
    ensures
        r.spec_bytes() == s.spec_bytes().subrange(x as int, y as int),
{
    proof {
        encode_utf8_valid_utf8(s@);
        lemma_boundary_in_suffix(s.spec_bytes(), x as int, y as int);
    }
    let (_, rest) = s.split_at(x);
    proof {
        assert(rest.spec_bytes() =~= s.spec_bytes().skip(x as int));
    }
    let (mid, _) = rest.split_at(y - x);
    proof {
        assert(mid.spec_bytes() =~= s.spec_bytes().subrange(x as int, y as int));
    }
    mid
}

/// The characters of `s`, in order.
pub fn str_chars(s: &str) -> (v: Vec<char>)
    ensures
        v@ == s@,
{
    let mut v: Vec<char> = Vec::new();
    for c in it: s.chars()
        invariant
            v@ == it.seq().take(it.index() as int),
            it.seq() == s@,
    {
        v.push(c);
    }
    v
}

/// `char::is_whitespace`.
pub fn is_whitespace(c: char) -> (b: bool)
    ensures
        b == is_ws(c),
{
    let u = c as u32;
    (0x09 <= u && u <= 0x0D) || u == 0x20 || u == 0x85 || u == 0xA0 || u == 0x1680 || (0x2000
        <= u && u <= 0x200A) || u == 0x2028 || u == 0x2029 || u == 0x202F || u == 0x205F || u
        == 0x3000
}

/// The bounds of `v[lo..hi]` once its leading whitespace is dropped.
pub fn trim_start_at(v: &Vec<char>, lo: usize, hi: usize) -> (a: usize)
    requires
        lo <= hi <= v@.len(),
    ensures
        lo <= a <= hi,
        v@.subrange(a as int, hi as int) == trim_start(v@.subrange(lo as int, hi as int)),
{
    let mut a = lo;
    while a < hi && is_whitespace(v[a])
        invariant
            lo <= a <= hi <= v@.len(),
            trim_start(v@.subrange(a as int, hi as int)) == trim_start(
                v@.subrange(lo as int, hi as int),
            ),
        decreases hi - a,
    {
        assert(v@.subrange(a as int, hi as int).drop_first() =~= v@.subrange(
            a + 1,
            hi as int,
        ));
        a = a + 1;
    }
    a
}

/// The bounds of `v[lo..hi]` once its trailing whitespace is dropped.
pub fn trim_end_at(v: &Vec<char>, lo: usize, hi: usize) -> (b: usize)
    requires
        lo <= hi <= v@.len(),
    ensures
        lo <= b <= hi,
        v@.subrange(lo as int, b as int) == trim_end(v@.subrange(lo as int, hi as int)),
{
    let mut b = hi;
    while b > lo && is_whitespace(v[b - 1])
        invariant
            lo <= b <= hi <= v@.len(),
            trim_end(v@.subrange(lo as int, b as int)) == trim_end(
                v@.subrange(lo as int, hi as int),
            ),
        decreases b - lo,
    {
        assert(v@.subrange(lo as int, b as int).drop_last() =~= v@.subrange(
            lo as int,
            b - 1,
        ));
        b = b - 1;
    }
    b
}

/// `p` occurs in `v[lo..hi]` at index `i` of `v`.
pub fn matches_at(v: &Vec<char>, lo: usize, hi: usize, i: usize, p: &[char]) -> (b: bool)
    requires
        lo <= i <= hi <= v@.len(),
    ensures
        b == occurs_at(v@.subrange(lo as int, hi as int), p@, i - lo),
{
    if p.len() > hi - i {
        return false;
    }
    let mut j: usize = 0;
    while j < p.len()
        invariant
            lo <= i <= hi <= v@.len(),
            i + p@.len() <= hi,
            j <= p@.len(),
            forall|t: int| 0 <= t < j ==> v@[i + t] == p@[t],
        decreases p@.len() - j,
    {
        if v[i + j] != p[j] {
            assert(v@.subrange(lo as int, hi as int).subrange(i - lo, i - lo + p@.len())[j as int]
                == v@[i + j]);
            return false;
        }
        j = j + 1;
    }
    assert(v@.subrange(lo as int, hi as int).subrange(i - lo, i - lo + p@.len()) =~= p@);
    true
}

/// The first index of `v` at which `p` occurs in `v[lo..hi]`.
pub fn find_at(v: &Vec<char>, lo: usize, hi: usize, p: &[char]) -> (r: Option<usize>)
    requires
        lo <= hi <= v@.len(),
    ensures
        match find(v@.subrange(lo as int, hi as int), p@) {
            Some(i) => r == Some((lo + i) as usize),
            None => r is None,
        },
{
    let ghost s = v@.subrange(lo as int, hi as int);
    let mut k: usize = lo;
    while p.len() <= hi - k
        invariant
            lo <= k <= hi <= v@.len(),
            s == v@.subrange(lo as int, hi as int),
            find(s, p@) == find_from(s, p@, k - lo),
        decreases hi - k,
    {
        if matches_at(v, lo, hi, k, p) {
            return Some(k);
        }
        if p.len() == 0 {
            assert(s.subrange(k - lo, k - lo) =~= p@);
        }
        k = k + 1;
    }
    None
}

} // verus!
