//! The crates.io registry: `Cargo.toml` manifests.

use crate::buffer::{bytes_of, Lang, Pair};
use crate::proc::Cmd;
use crate::registry::{
    file_ends_with, last_segment, names_file, no_backslash, plain_name, starts_with_two_slashes,
    Registry,
};
use crate::text::{lemma_find_first, lemma_find_none, occurs_at};
use crate::text::{
    find, find_at, first_line, lemma_encode_ascii, lemma_encode_concat, lemma_find_bounds, lines,
    matches_at, newline, split_once, str_chars, strip_prefix, strip_suffix, trim, trim_end_at,
    trim_start_at,
};
use vstd::prelude::*;

verus! {

/// The crates.io registry.
pub struct Cargo;

/// `"version: "`, the start of the version line of `cargo info`.
pub open spec fn version_key() -> Seq<char> {
    seq!['v', 'e', 'r', 's', 'i', 'o', 'n', ':', ' ']
}

/// `"(latest "`, which `cargo info` puts before the latest version when it
/// is not the one shown.
pub open spec fn latest_key() -> Seq<char> {
    seq!['(', 'l', 'a', 't', 'e', 's', 't', ' ']
}

/// The text after `"version: "` on the first line that starts with it once
/// trimmed.
pub open spec fn first_version(ls: Seq<Seq<char>>) -> Option<Seq<char>>
    decreases ls.len(),
{
    if ls.len() == 0 {
        None
    } else {
        match strip_prefix(trim(ls[0]), version_key()) {
            Some(v) => Some(v),
            None => first_version(ls.drop_first()),
        }
    }
}

/// The latest version that the output of `cargo info` reports: the text of
/// its version line, or, where that line reads `"<v> (latest <w>)"`, the
/// `<w>`. `None` where there is no version line, or a `"(latest "` that is
/// not closed at the end of the line.
pub open spec fn cargo_info_version(out: Seq<char>) -> Option<Seq<char>> {
    match first_version(lines(out)) {
        None => None,
        Some(v) => match split_once(v, latest_key()) {
            Some((_, after)) => strip_suffix(after, seq![')']),
            None => Some(v),
        },
    }
}

/// A Cargo dependency value is a quoted string: its first and last
/// characters are one-byte quotes, and the ranges shift by one byte.
pub open spec fn cargo_accepts(value: Seq<char>, start: int, end: int) -> bool {
    &&& value.len() >= 2
    &&& (value[0] as u32) < 128
    &&& (value.last() as u32) < 128
    &&& start + 1 <= usize::MAX
    &&& end >= 1
}

/// The lines of `v[pos..n]` begin with the line `v[pos..le]`, and what
/// follows it is `v[next..n]`.
proof fn lemma_line_step(v: Seq<char>, pos: int, n: int, i: Option<int>, le: int, next: int)
    requires
        0 <= pos < n == v.len(),
        match find(v.subrange(pos, n), newline()) {
            Some(j) => i == Some(pos + j),
            None => i is None,
        },
        match i {
            Some(j) => next == j + 1 && (if j > pos && v[j - 1] == '\r' {
                le == j - 1
            } else {
                le == j
            }),
            None => next == n && le == n,
        },
    ensures
        pos <= le <= n,
        next <= n,
        lines(v.subrange(pos, n)) == seq![v.subrange(pos, le)] + lines(v.subrange(next, n)),
{
    let s = v.subrange(pos, n);
    lemma_find_bounds(s, newline(), 0);
    match i {
        Some(j) => {
            assert(s.take(j - pos) =~= v.subrange(pos, j));
            assert(s.skip(j - pos + 1) =~= v.subrange(next, n));
            if j > pos && v[j - 1] == '\r' {
                assert(v.subrange(pos, j).drop_last() =~= v.subrange(pos, le));
            }
            assert(first_line(s) =~= v.subrange(pos, le));
        },
        None => {
            assert(s =~= v.subrange(pos, le));
            assert(v.subrange(next, n) =~= Seq::<char>::empty());
        },
    }
}

/// The bounds in `v` of the text after `"version: "` on the first version
/// line.
fn version_line(v: &Vec<char>) -> (r: Option<(usize, usize)>)
    ensures
        match first_version(lines(v@)) {
            Some(t) => r matches Some((a, b)) && a <= b <= v@.len() && v@.subrange(
                a as int,
                b as int,
            ) == t,
            None => r is None,
        },
{
    let n = v.len();
    let nl = ['\n'];
    let key = ['v', 'e', 'r', 's', 'i', 'o', 'n', ':', ' '];
    assert(nl@ == newline());
    assert(key@ == version_key());
    let mut pos: usize = 0;
    assert(v@.subrange(0, n as int) =~= v@);
    while pos < n
        invariant
            n == v@.len(),
            pos <= n,
            nl@ == newline(),
            key@ == version_key(),
            first_version(lines(v@)) == first_version(lines(v@.subrange(pos as int, n as int))),
        decreases n - pos,
    {
        let i = find_at(v, pos, n, nl.as_slice());
        proof {
            lemma_find_bounds(v@.subrange(pos as int, n as int), newline(), 0);
        }
        let (end, next) = match i {
            Some(j) => (j, j + 1),
            None => (n, n),
        };
        let mut le = end;
        if i.is_some() && le > pos && v[le - 1] == '\r' {
            le = le - 1;
        }
        proof {
            let gi = match i {
                Some(j) => Some(j as int),
                None => None,
            };
            lemma_find_bounds(v@.subrange(pos as int, n as int), newline(), 0);
            lemma_line_step(v@, pos as int, n as int, gi, le as int, next as int);
        }
        let a = trim_start_at(v, pos, le);
        let b = trim_end_at(v, a, le);
        let ghost ls = lines(v@.subrange(pos as int, n as int));
        proof {
            assert(ls[0] == v@.subrange(pos as int, le as int));
            assert(ls.drop_first() =~= lines(v@.subrange(next as int, n as int)));
            assert(trim(ls[0]) == v@.subrange(a as int, b as int));
        }
        if matches_at(v, a, b, a, key.as_slice()) {
            proof {
                let t = v@.subrange(a as int, b as int);
                assert(t.take(9) =~= t.subrange(0, 9));
                assert(t.skip(9) =~= v@.subrange(a + 9, b as int));
            }
            return Some((a + 9, b));
        }
        proof {
            let t = v@.subrange(a as int, b as int);
            if t.len() >= 9 {
                assert(t.take(9) =~= t.subrange(0, 9));
            }
        }
        pos = next;
    }
    proof {
        assert(v@.subrange(pos as int, n as int) =~= Seq::<char>::empty());
    }
    None
}

impl Registry for Cargo {
    open spec fn accepts_dep(&self, value: Seq<char>, start: int, end: int) -> bool {
        cargo_accepts(value, start, end)
    }

    open spec fn parsed_latest(&self, out: Seq<char>, res: Result<String, String>) -> bool {
        match cargo_info_version(out) {
            Some(v) => res matches Ok(s) && s@ == v,
            None => res matches Err(e) && e@ == "cannot parse version"@,
        }
    }

    open spec fn parsed_dep<'a>(&self, pair: Pair<'a>, res: Result<Pair<'a>, String>) -> bool {
        res matches Ok(p) && p.key == pair.key && p.value@ == pair.value@.subrange(
            1,
            pair.value@.len() - 1,
        ) && p.range.start == pair.range.start + 1 && p.range.end == pair.range.end - 1
    }

    fn accepts(&self, pair: &Pair) -> (ok: bool) {
        let n = pair.value.unicode_len();
        n >= 2 && (pair.value.get_char(0) as u32) < 128 && (pair.value.get_char(n - 1) as u32)
            < 128 && pair.range.start < usize::MAX && pair.range.end >= 1
    }

    /// The latest version that `cargo info <pkg>` reports.
    fn cmd_parse(&self, out: &str) -> (res: Result<String, String>)
        ensures
            match cargo_info_version(out@) {
                Some(v) => res matches Ok(s) && s@ == v,
                None => res matches Err(e) && e@ == "cannot parse version"@,
            },
    {
        let v = str_chars(out);
        let err = "cannot parse version";
        match version_line(&v) {
            None => Err(err.to_owned()),
            Some((a, b)) => {
                let latest = ['(', 'l', 'a', 't', 'e', 's', 't', ' '];
                assert(latest@ == latest_key());
                let ghost t = v@.subrange(a as int, b as int);
                match find_at(&v, a, b, latest.as_slice()) {
                    Some(i) => {
                        proof {
                            lemma_find_bounds(t, latest_key(), 0);
                        }
                        let c = i + 8;
                        proof {
                            assert(t.skip(i - a + 8) =~= v@.subrange(c as int, b as int));
                        }
                        if c < b && v[b - 1] == ')' {
                            proof {
                                let after = v@.subrange(c as int, b as int);
                                assert(after.skip(after.len() - 1) =~= seq![')']);
                                assert(after.take(after.len() - 1) =~= v@.subrange(
                                    c as int,
                                    b - 1,
                                ));
                            }
                            Ok(out.substring_char(c, b - 1).to_owned())
                        } else {
                            proof {
                                let after = v@.subrange(c as int, b as int);
                                if after.len() >= 1 {
                                    assert(after.skip(after.len() - 1)[0] == v@[b - 1]);
                                }
                            }
                            Err(err.to_owned())
                        }
                    },
                    None => Ok(out.substring_char(a, b).to_owned()),
                }
            },
        }
    }

    fn cmd_version(&self, pkg: &str) -> (c: Cmd)
        ensures
            c.bin@ == "cargo"@,
            c.args@.len() == 2,
            c.args@[0]@ == "info"@,
            c.args@[1]@ == pkg@,
    {
        Cmd::new("cargo", ["info", pkg])
    }

    /// The version text inside the quotes of the value, with the range moved
    /// in by one byte at each end.
    fn dep_parse<'a>(&self, pair: Pair<'a>) -> (res: Result<Pair<'a>, String>)
        ensures
            res matches Ok(p) && p.key == pair.key && p.value@ == pair.value@.subrange(
                1,
                pair.value@.len() - 1,
            ) && p.range.start == pair.range.start + 1 && p.range.end == pair.range.end - 1,
    {
        let n = pair.value.unicode_len();
        let value = pair.value.substring_char(1, n - 1);
        Ok(Pair { key: pair.key, value, range: (pair.range.start + 1)..(pair.range.end - 1) })
    }

    fn deps_query(&self) -> (q: String)
        ensures
            q@ == CARGO_QUERY@,
    {
        CARGO_QUERY.to_owned()
    }

    fn manifest(&self) -> (l: Lang)
        ensures
            l == Lang::Toml,
    {
        Lang::Toml
    }

    fn supports(&self, file: &str) -> (b: bool)
        ensures
            no_backslash(file@) && !starts_with_two_slashes(file@) && names_file(
                file@,
                "Cargo.toml"@,
            ) ==> b,
            !(exists|i: int| occurs_at(file@, "Cargo.toml"@, i)) ==> !b,
            plain_name(last_segment(file@)) && last_segment(file@) != "Cargo.toml"@ ==> !b,
    {
        proof {
            reveal_strlit("Cargo.toml");
            assert(plain_name("Cargo.toml"@));
        }
        file_ends_with(file, "Cargo.toml")
    }
}

/// The first of the lines `ls` that starts with `"version: "` once trimmed
/// is the line `k`, and reads `"version: "` followed by `v`.
proof fn lemma_first_version_at(ls: Seq<Seq<char>>, k: int, v: Seq<char>)
    requires
        0 <= k < ls.len(),
        trim(ls[k]) == version_key() + v,
        forall|j: int|
            0 <= j < k ==> !(trim(#[trigger] ls[j]).len() >= version_key().len() && trim(
                ls[j],
            ).take(version_key().len() as int) == version_key()),
    ensures
        first_version(ls) == Some(v),
    decreases k,
{
    if k == 0 {
        assert((version_key() + v).take(version_key().len() as int) =~= version_key());
        assert((version_key() + v).skip(version_key().len() as int) =~= v);
    } else {
        let d = ls.drop_first();
        assert(ls[0] == ls[0]);
        assert forall|j: int| 0 <= j < k - 1 implies !(trim(#[trigger] d[j]).len()
            >= version_key().len() && trim(d[j]).take(version_key().len() as int)
            == version_key()) by {
            assert(d[j] == ls[j + 1]);
        }
        assert(d[k - 1] == ls[k]);
        lemma_first_version_at(d, k - 1, v);
    }
}

/// Where the first line of the output of `cargo info` that starts with
/// `"version: "` once trimmed reads `"version: <v>"`, and `<v>` holds no
/// `"(latest "`, `Cargo::cmd_parse` gives `<v>`, whatever characters it
/// holds.
pub proof fn lemma_cargo_version_plain(
    out: Seq<char>,
    k: int,
    v: Seq<char>,
    res: Result<String, String>,
)
    requires
        Cargo.parsed_latest(out, res),
        0 <= k < lines(out).len(),
        trim(lines(out)[k]) == version_key() + v,
        forall|j: int|
            0 <= j < k ==> !(trim(#[trigger] lines(out)[j]).len() >= version_key().len() && trim(
                lines(out)[j],
            ).take(version_key().len() as int) == version_key()),
        forall|i: int| !#[trigger] occurs_at(v, latest_key(), i),
    ensures
        res matches Ok(s) && s@ == v,
{
    lemma_first_version_at(lines(out), k, v);
    lemma_find_none(v, latest_key(), 0);
}

/// Where the first line of the output of `cargo info` that starts with
/// `"version: "` once trimmed reads `"version: <p>(latest <w>)"`, and `<p>`
/// holds no `"(latest "`, `Cargo::cmd_parse` gives `<w>`, whatever
/// characters the versions hold.
pub proof fn lemma_cargo_version_latest(
    out: Seq<char>,
    k: int,
    p: Seq<char>,
    w: Seq<char>,
    res: Result<String, String>,
)
    requires
        Cargo.parsed_latest(out, res),
        0 <= k < lines(out).len(),
        trim(lines(out)[k]) == version_key() + (p + latest_key() + w + seq![')']),
        forall|j: int|
            0 <= j < k ==> !(trim(#[trigger] lines(out)[j]).len() >= version_key().len() && trim(
                lines(out)[j],
            ).take(version_key().len() as int) == version_key()),
        forall|i: int|
            0 <= i < p.len() ==> !#[trigger] occurs_at(
                p + latest_key() + w + seq![')'],
                latest_key(),
                i,
            ),
    ensures
        res matches Ok(s) && s@ == w,
{
    let v = p + latest_key() + w + seq![')'];
    lemma_first_version_at(lines(out), k, v);
    assert(v.subrange(p.len() as int, (p.len() + latest_key().len()) as int) =~= latest_key());
    lemma_find_first(v, latest_key(), 0, p.len() as int);
    let after = v.skip((p.len() + latest_key().len()) as int);
    assert(after =~= w + seq![')']);
    assert(after.skip(after.len() - 1) =~= seq![')']);
    assert(after.take(after.len() - 1) =~= w);
}

/// Where no line of the output of `cargo info` starts with `"version: "`
/// once trimmed, `Cargo::cmd_parse` fails with "cannot parse version".
pub proof fn lemma_cargo_no_version_line(out: Seq<char>, res: Result<String, String>)
    requires
        Cargo.parsed_latest(out, res),
        forall|j: int|
            0 <= j < lines(out).len() ==> !(trim(#[trigger] lines(out)[j]).len()
                >= version_key().len() && trim(lines(out)[j]).take(version_key().len() as int)
                == version_key()),
    ensures
        res matches Err(e) && e@ == "cannot parse version"@,
{
    lemma_no_first_version(lines(out));
}

/// No line starts with `"version: "`, so there is no version line.
proof fn lemma_no_first_version(ls: Seq<Seq<char>>)
    requires
        forall|j: int|
            0 <= j < ls.len() ==> !(trim(#[trigger] ls[j]).len() >= version_key().len() && trim(
                ls[j],
            ).take(version_key().len() as int) == version_key()),
    ensures
        first_version(ls) is None,
    decreases ls.len(),
{
    if ls.len() > 0 {
        let d = ls.drop_first();
        assert(ls[0] == ls[0]);
        assert forall|j: int| 0 <= j < d.len() implies !(trim(#[trigger] d[j]).len()
            >= version_key().len() && trim(d[j]).take(version_key().len() as int)
            == version_key()) by {
            assert(d[j] == ls[j + 1]);
        }
        lemma_no_first_version(d);
    }
}

/// `Cargo::dep_parse` takes every quoted value, whatever its text between
/// the quotes, where the quotes are one byte each and its range can move in
/// by one byte at each end.
pub proof fn lemma_cargo_accepts_quoted(value: Seq<char>, start: int, end: int)
    requires
        value.len() >= 2,
        (value[0] as u32) < 128,
        (value.last() as u32) < 128,
        0 <= start < usize::MAX,
        1 <= end,
    ensures
        Cargo.accepts_dep(value, start, end),
{
}

/// A quoted value that is the text of the source at its range keeps being
/// so once `Cargo::dep_parse` drops its quotes and moves the range in.
pub proof fn lemma_cargo_dep_keeps_text(src: Seq<u8>, value: Seq<char>, start: int, end: int)
    requires
        cargo_accepts(value, start, end),
        0 <= start <= end <= src.len(),
        bytes_of(value) == src.subrange(start, end),
    ensures
        bytes_of(value.subrange(1, value.len() - 1)) == src.subrange(start + 1, end - 1),
{
    let n = value.len();
    let mid = value.subrange(1, n - 1);
    assert(value =~= seq![value[0]] + mid + seq![value.last()]);
    lemma_encode_ascii(value[0]);
    lemma_encode_ascii(value.last());
    lemma_encode_concat(seq![value[0]] + mid, seq![value.last()]);
    lemma_encode_concat(seq![value[0]], mid);
    let b = bytes_of(value);
    assert(b == seq![value[0] as u8] + bytes_of(mid) + seq![value.last() as u8]);
    assert(b.subrange(1, b.len() - 1) =~= bytes_of(mid));
    assert(src.subrange(start, end).subrange(1, b.len() - 1) =~= src.subrange(start + 1, end - 1));
}

/// The query for the dependencies of a `Cargo.toml`: each entry of its
/// `dependencies`, `dev-dependencies` and `build-dependencies` tables, the
/// name as `@key` and the quoted version as `@value`, whether the version is
/// the entry's value or the `version` field of an inline table.
pub const CARGO_QUERY: &'static str = "(table
  (bare_key) @_section
  (pair
    (bare_key) @key
    (string) @value)
  (#any-of? @_section \"dependencies\" \"dev-dependencies\" \"build-dependencies\"))

(table
  (bare_key) @_section
  (pair
    (bare_key) @key
    (inline_table
      (pair
        (bare_key) @_field
        (string) @value)))
  (#any-of? @_section \"dependencies\" \"dev-dependencies\" \"build-dependencies\")
  (#eq? @_field \"version\"))";

} // verus!
