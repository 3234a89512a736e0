//! The Python package index: `pyproject.toml` manifests with requirements of
//! the form `name==version`.

use crate::buffer::{
    value_at_range, bytes_of, is_slice_of, language_error_text, parses, query_fault_text, query_outcome, Buffer,
    QueryFault,
    Lang, Pair,
};
use crate::grammar::{grammar_loads, has_syntax_error, parse_gives_tree};
use crate::matches::Capture;
use crate::proc::Cmd;
use crate::registry::{
    file_ends_with, last_segment, names_file, no_backslash, plain_name, starts_with_two_slashes,
    Registry,
};
use crate::text::{lemma_find_first, lemma_find_none, lemma_find_some, occurs_at};
use crate::text::{
    find_at, lemma_encode_ascii, lemma_encode_len, lemma_encode_concat, lemma_find_bounds, split_once, str_chars,
};
use vstd::prelude::*;

verus! {

/// The Python package index.
pub struct Pip;

/// `"=="`, between the name and the version of a requirement.
pub open spec fn pin() -> Seq<char> {
    seq!['=', '=']
}

/// The text of a quoted value, without its quotes.
pub open spec fn unquoted(value: Seq<char>) -> Seq<char> {
    value.subrange(1, value.len() - 1)
}

/// The name and version of a quoted `"name==version"` requirement.
pub open spec fn requirement(value: Seq<char>) -> Option<(Seq<char>, Seq<char>)> {
    split_once(unquoted(value), pin())
}

/// A pip dependency value is a quoted string, its quotes one byte each;
/// where it is a requirement, the ranges computed from it fit in `usize`.
pub open spec fn pip_accepts(value: Seq<char>, start: int, end: int) -> bool {
    &&& value.len() >= 2
    &&& (value[0] as u32) < 128
    &&& (value.last() as u32) < 128
    &&& requirement(value) is Some ==> start + bytes_of(value).len() <= usize::MAX + 1
}

/// What `Pip::cmd_parse` gives for the output `out`: the errors of
/// `Buffer::new` and `Buffer::query_pairs` as they come, an error where the
/// query finds no pair, and otherwise the text of the first pair's value.
pub open spec fn latest_result(out: Seq<char>, res: Result<String, String>) -> bool {
    if !grammar_loads(Lang::Json) {
        res matches Err(e) && language_error_text(e)
    } else if !parses(Lang::Json, out) {
        res matches Err(e) && e@ == "failed to parse source"@
    } else {
        match query_outcome(Lang::Json, out, PIP_CMD_QUERY@) {
            Err(f) => res matches Err(e) && query_fault_text(f, e),
            Ok(kv) => if kv.len() == 0 {
                res matches Err(e) && e@ == "pip output missing lastest version"@
            } else {
                res matches Ok(v) && bytes_of(v@) == bytes_of(out).subrange(
                    kv[0].1.start as int,
                    kv[0].1.end as int,
                )
            },
        }
    }
}

/// What `Pip::dep_parse` gives for `pair`: the name and version of its
/// requirement, the range narrowed to the version's bytes, or an error
/// where the value holds no `==`.
pub open spec fn pip_dep_result<'a>(pair: Pair<'a>, res: Result<Pair<'a>, String>) -> bool {
    match requirement(pair.value@) {
        Some((name, version)) => res matches Ok(p) && p.key@ == name && p.value@ == version
            && p.range.start == pair.range.start + 1 + bytes_of(name).len() + 2 && p.range.end
            == p.range.start + bytes_of(version).len(),
        None => res matches Err(e) && e@ == "expected name==version dependency "@ + unquoted(
            pair.value@,
        ),
    }
}

impl Registry for Pip {
    open spec fn accepts_dep(&self, value: Seq<char>, start: int, end: int) -> bool {
        pip_accepts(value, start, end)
    }

    open spec fn parsed_latest(&self, out: Seq<char>, res: Result<String, String>) -> bool {
        latest_result(out, res)
    }

    open spec fn parsed_dep<'a>(&self, pair: Pair<'a>, res: Result<Pair<'a>, String>) -> bool {
        pip_dep_result(pair, res)
    }

    fn accepts(&self, pair: &Pair) -> (ok: bool) {
        let chars = str_chars(pair.value);
        let n = chars.len();
        if !(n >= 2 && (chars[0] as u32) < 128 && (chars[n - 1] as u32) < 128) {
            return false;
        }
        let sep = ['=', '='];
        assert(sep@ == pin());
        assert(chars@.subrange(1, n - 1) == unquoted(pair.value@));
        match find_at(&chars, 1, n - 1, sep.as_slice()) {
            None => true,
            Some(_) => {
                let len = pair.value.as_bytes().len();
                proof {
                    lemma_encode_len(pair.value@);
                }
                pair.range.start <= usize::MAX - (len - 1)
            },
        }
    }

    /// The `latest` field of the JSON that `pip3 index versions --json`
    /// prints: the value of the first pair that the query finds.
    fn cmd_parse(&self, out: &str) -> (res: Result<String, String>)
        ensures
            latest_result(out@, res),
            res matches Ok(v) ==> is_slice_of(bytes_of(out@), bytes_of(v@)),
    {
        let buf = match Buffer::new(out.to_owned(), Lang::Json) {
            Ok(b) => b,
            Err(e) => {
                return Err(e);
            },
        };
        let pairs = match buf.query_pairs(PIP_CMD_QUERY) {
            Ok(ps) => ps,
            Err(e) => {
                return Err(e);
            },
        };
        if pairs.len() == 0 {
            return Err("pip output missing lastest version".to_owned());
        }
        let v = pairs[0].value.to_owned();
        proof {
            let p = pairs@[0];
            assert(bytes_of(p.value@) == bytes_of(out@).subrange(
                p.range.start as int,
                p.range.end as int,
            ));
        }
        Ok(v)
    }

    fn cmd_version(&self, pkg: &str) -> (c: Cmd)
        ensures
            c.bin@ == "pip3"@,
            c.args@.len() == 4,
            c.args@[0]@ == "index"@,
            c.args@[1]@ == "versions"@,
            c.args@[2]@ == "--json"@,
            c.args@[3]@ == pkg@,
    {
        Cmd::new("pip3", ["index", "versions", "--json", pkg])
    }

    /// The name and version of a quoted `"name==version"` requirement, the
    /// range narrowed to the version's bytes.
    fn dep_parse<'a>(&self, pair: Pair<'a>) -> (res: Result<Pair<'a>, String>)
        ensures
            pip_dep_result(pair, res),
    {
        let n = pair.value.unicode_len();
        let val = pair.value.substring_char(1, n - 1);
        let chars = str_chars(val);
        let sep = ['=', '='];
        assert(sep@ == pin());
        assert(chars@.subrange(0, chars@.len() as int) =~= chars@);
        match find_at(&chars, 0, chars.len(), sep.as_slice()) {
            None => {
                let mut msg = "expected name==version dependency ".to_owned();
                msg.append(val);
                Err(msg)
            },
            Some(i) => {
                proof {
                    lemma_find_bounds(chars@, pin(), 0);
                }
                let name = val.substring_char(0, i);
                let version = val.substring_char(i + 2, chars.len());
                proof {
                    let v = pair.value@;
                    let m = unquoted(v);
                    assert(v =~= seq![v[0]] + (name@ + (pin() + version@)) + seq![v.last()]);
                    lemma_encode_ascii(v[0]);
                    lemma_encode_ascii(v.last());
                    lemma_encode_concat(seq![v[0]] + (name@ + (pin() + version@)), seq![v.last()]);
                    lemma_encode_concat(seq![v[0]], name@ + (pin() + version@));
                    lemma_encode_concat(name@, pin() + version@);
                    lemma_encode_concat(pin(), version@);
                    lemma_encode_ascii('=');
                    lemma_encode_concat(seq!['='], seq!['=']);
                    assert(seq!['='] + seq!['='] =~= pin());
                    assert(bytes_of(v).len() == 1 + bytes_of(name@).len() + 2 + bytes_of(
                        version@,
                    ).len() + 1);
                }
                let start = pair.range.start + 1 + name.len() + 2;
                let end = start + version.len();
                Ok(Pair { key: name, value: version, range: start..end })
            },
        }
    }

    fn deps_query(&self) -> (q: String)
        ensures
            q@ == PIP_QUERY@,
    {
        PIP_QUERY.to_owned()
    }

    fn manifest(&self) -> (l: Lang)
        ensures
            l == Lang::Toml,
    {
        Lang::Toml
    }

    fn supports(&self, file: &str) -> (b: bool)
        ensures
            no_backslash(file@) && !starts_with_two_slashes(file@) && names_file(
                file@,
                "pyproject.toml"@,
            ) ==> b,
            !(exists|i: int| occurs_at(file@, "pyproject.toml"@, i)) ==> !b,
            plain_name(last_segment(file@)) && last_segment(file@) != "pyproject.toml"@ ==> !b,
    {
        proof {
            reveal_strlit("pyproject.toml");
            assert(plain_name("pyproject.toml"@));
        }
        file_ends_with(file, "pyproject.toml")
    }
}

/// A quoted requirement that is the text of the source at its range yields
/// a version that is the text of the source at the range `Pip::dep_parse`
/// computes for it, a name that is the text between the opening quote and
/// the `==`, and a range that ends one byte before the closing quote's end.
pub proof fn lemma_pip_dep_keeps_text(src: Seq<u8>, value: Seq<char>, start: int, end: int)
    requires
        pip_accepts(value, start, end),
        requirement(value) is Some,
        0 <= start <= end <= src.len(),
        bytes_of(value) == src.subrange(start, end),
    ensures
        ({
            let (name, version) = requirement(value).unwrap();
            let vstart = start + 1 + bytes_of(name).len() + 2;
            &&& bytes_of(version) == src.subrange(vstart, vstart + bytes_of(version).len())
            &&& bytes_of(name) == src.subrange(start + 1, vstart - 2)
            &&& vstart + bytes_of(version).len() == end - 1
        }),
{
    let (name, version) = requirement(value).unwrap();
    let m = unquoted(value);
    lemma_find_bounds(m, pin(), 0);
    let i = crate::text::find(m, pin()).unwrap();
    assert(m.subrange(i, i + 2) == pin());
    assert(m =~= name + pin() + version);
    assert(value =~= seq![value[0]] + (name + (pin() + version)) + seq![value.last()]);
    lemma_encode_ascii(value[0]);
    lemma_encode_ascii(value.last());
    lemma_encode_concat(seq![value[0]] + (name + (pin() + version)), seq![value.last()]);
    lemma_encode_concat(seq![value[0]], name + (pin() + version));
    lemma_encode_concat(name, pin() + version);
    lemma_encode_concat(pin(), version);
    lemma_encode_ascii('=');
    lemma_encode_concat(seq!['='], seq!['=']);
    assert(seq!['='] + seq!['='] =~= pin());
    let b = bytes_of(value);
    let lp = bytes_of(name).len() as int;
    let lv = bytes_of(version).len() as int;
    let vstart = start + 1 + lp + 2;
    assert(b.subrange(1 + lp + 2, 1 + lp + 2 + lv) =~= bytes_of(version));
    assert(src.subrange(start, end).subrange(1 + lp + 2, 1 + lp + 2 + lv) =~= src.subrange(
        vstart,
        vstart + lv,
    ));
    assert(b.subrange(1, 1 + lp) =~= bytes_of(name));
    assert(src.subrange(start, end).subrange(1, 1 + lp) =~= src.subrange(start + 1, start + 1 + lp));
}

/// What `Pip::dep_parse` gives for a pair whose value is the text of the
/// source at its range: the version is the text at the new range, the name
/// the text between the opening quote and the `==`, and the new range ends
/// one byte before the old one, at the closing quote.
pub proof fn lemma_pip_dep_parse_texts<'a>(src: Seq<u8>, pair: Pair<'a>, d: Pair<'a>)
    requires
        value_at_range(src, pair),
        pip_accepts(pair.value@, pair.range.start as int, pair.range.end as int),
        pip_dep_result(pair, Ok(d)),
    ensures
        value_at_range(src, d),
        bytes_of(d.key@) == src.subrange(pair.range.start + 1, d.range.start - 2),
        d.range.end == pair.range.end - 1,
{
    lemma_encode_len(pair.value@);
    lemma_pip_dep_keeps_text(src, pair.value@, pair.range.start as int, pair.range.end as int);
}

/// On output that parses as JSON (and fits tree-sitter's 32-bit offsets)
/// and on which the query finds pairs, `Pip::cmd_parse` gives the text of
/// the first pair's value, that of the first match; where the query finds
/// none, it reports the missing version.
pub proof fn lemma_pip_latest_first_value(
    out: Seq<char>,
    res: Result<String, String>,
    kv: Seq<(Capture, Capture)>,
)
    requires
        Pip.parsed_latest(out, res),
        grammar_loads(Lang::Json),
        bytes_of(out).len() <= u32::MAX,
        parse_gives_tree(Lang::Json, out),
        !has_syntax_error(Lang::Json, out),
        query_outcome(Lang::Json, out, PIP_CMD_QUERY@) == Ok::<Seq<(Capture, Capture)>, QueryFault>(kv),
    ensures
        kv.len() > 0 ==> (res matches Ok(v) && bytes_of(v@) == bytes_of(out).subrange(
            kv[0].1.start as int,
            kv[0].1.end as int,
        )),
        kv.len() == 0 ==> (res matches Err(e) && e@ == "pip output missing lastest version"@),
{
}

/// `Pip::dep_parse` takes every quoted value, whatever its text between
/// the quotes, where the quotes are one byte each and the value's bytes,
/// from the start of its range, fit in `usize`.
pub proof fn lemma_pip_accepts_quoted(value: Seq<char>, start: int, end: int)
    requires
        value.len() >= 2,
        (value[0] as u32) < 128,
        (value.last() as u32) < 128,
        0 <= start,
        start + bytes_of(value).len() <= usize::MAX + 1,
    ensures
        Pip.accepts_dep(value, start, end),
{
}

/// `Pip::dep_parse` succeeds exactly on a requirement whose text inside
/// the quotes holds `==`, whatever other characters the name and version
/// hold.
pub proof fn lemma_pip_dep_parse_needs_pin<'a>(pair: Pair<'a>, res: Result<Pair<'a>, String>)
    requires
        Pip.parsed_dep(pair, res),
        pair.value@.len() >= 2,
    ensures
        res is Ok <==> exists|i: int|
            #[trigger] occurs_at(pair.value@.subrange(1, pair.value@.len() - 1), pin(), i),
{
    let u = pair.value@.subrange(1, pair.value@.len() - 1);
    if exists|i: int| #[trigger] occurs_at(u, pin(), i) {
        let i = choose|i: int| #[trigger] occurs_at(u, pin(), i);
        lemma_find_some(u, pin(), 0, i);
    } else {
        lemma_find_none(u, pin(), 0);
    }
}

/// Where the text inside the quotes first holds `==` at `i`,
/// `Pip::dep_parse` gives the text before it as the name and the text after
/// it as the version.
pub proof fn lemma_pip_dep_parse_split<'a>(pair: Pair<'a>, res: Result<Pair<'a>, String>, i: int)
    requires
        Pip.parsed_dep(pair, res),
        pair.value@.len() >= 2,
        occurs_at(pair.value@.subrange(1, pair.value@.len() - 1), pin(), i),
        forall|j: int|
            0 <= j < i ==> !#[trigger] occurs_at(
                pair.value@.subrange(1, pair.value@.len() - 1),
                pin(),
                j,
            ),
    ensures
        res matches Ok(d) && d.key@ == pair.value@.subrange(1, pair.value@.len() - 1).take(i)
            && d.value@ == pair.value@.subrange(1, pair.value@.len() - 1).skip(i + 2),
{
    let u = pair.value@.subrange(1, pair.value@.len() - 1);
    lemma_find_first(u, pin(), 0, i);
}

/// The query for the dependencies of a `pyproject.toml`: each string of the
/// `dependencies` array of its `project` table, as `@value`, with the key
/// `dependencies` as `@key`.
pub const PIP_QUERY: &'static str = "(table
  (bare_key) @_section
  (pair
    (bare_key) @key
    (array (string) @value))
  (#eq? @_section \"project\")
  (#eq? @key \"dependencies\"))";

/// The query for the latest version in the JSON that `pip3 index versions
/// --json` prints: the string value of its top-level `latest` field.
pub const PIP_CMD_QUERY: &'static str = "(document
  (object
    (pair
      key: (string (string_content) @key)
      value: (string (string_content) @value))
    (#eq? @key \"latest\")))";

} // verus!
