//! The npm registry: `package.json` manifests.

use crate::buffer::{Lang, Pair};
use crate::proc::Cmd;
use crate::registry::{
    file_ends_with, last_segment, names_file, no_backslash, plain_name, starts_with_two_slashes,
    Registry,
};
use crate::text::occurs_at;
use crate::text::{is_ws, lemma_trim_end, str_chars, trim_end, trim_end_at};
use vstd::prelude::*;

verus! {

/// The npm registry.
pub struct Npm;

impl Registry for Npm {
    open spec fn accepts_dep(&self, value: Seq<char>, start: int, end: int) -> bool {
        true
    }

    open spec fn parsed_latest(&self, out: Seq<char>, res: Result<String, String>) -> bool {
        res matches Ok(v) && v@ == trim_end(out)
    }

    open spec fn parsed_dep<'a>(&self, pair: Pair<'a>, res: Result<Pair<'a>, String>) -> bool {
        res matches Ok(p) && p == pair
    }

    fn accepts(&self, pair: &Pair) -> (ok: bool) {
        true
    }

    /// The output of `npm view <pkg> version` without trailing whitespace.
    fn cmd_parse(&self, out: &str) -> (res: Result<String, String>)
        ensures
            res matches Ok(v) && v@ == trim_end(out@),
    {
        let v = str_chars(out);
        let b = trim_end_at(&v, 0, v.len());
        assert(v@.subrange(0, v@.len() as int) =~= v@);
        Ok(out.substring_char(0, b).to_owned())
    }

    fn cmd_version(&self, pkg: &str) -> (c: Cmd)
        ensures
            c.bin@ == "npm"@,
            c.args@.len() == 3,
            c.args@[0]@ == "view"@,
            c.args@[1]@ == pkg@,
            c.args@[2]@ == "version"@,
    {
        Cmd::new("npm", ["view", pkg, "version"])
    }

    /// The pair as the query found it: the key is the package name and the
    /// value the version text, without quotes.
    fn dep_parse<'a>(&self, pair: Pair<'a>) -> (res: Result<Pair<'a>, String>)
        ensures
            res matches Ok(p) && p == pair,
    {
        Ok(pair)
    }

    fn deps_query(&self) -> (q: String)
        ensures
            q@ == NPM_QUERY@,
    {
        NPM_QUERY.to_owned()
    }

    fn manifest(&self) -> (l: Lang)
        ensures
            l == Lang::Json,
    {
        Lang::Json
    }

    fn supports(&self, file: &str) -> (b: bool)
        ensures
            no_backslash(file@) && !starts_with_two_slashes(file@) && names_file(
                file@,
                "package.json"@,
            ) ==> b,
            !(exists|i: int| occurs_at(file@, "package.json"@, i)) ==> !b,
            plain_name(last_segment(file@)) && last_segment(file@) != "package.json"@ ==> !b,
    {
        proof {
            reveal_strlit("package.json");
            assert("package.json"@ =~= seq!['p', 'a', 'c', 'k', 'a', 'g', 'e', '.', 'j', 's', 'o', 'n']);
            assert(plain_name("package.json"@));
        }
        file_ends_with(file, "package.json")
    }
}

/// `Npm::cmd_parse` gives the output of `npm view <pkg> version` without
/// its trailing whitespace: the output is the result followed by nothing
/// but whitespace, and the result does not end in whitespace.
pub proof fn lemma_npm_latest(out: Seq<char>, res: Result<String, String>)
    requires
        Npm.parsed_latest(out, res),
    ensures
        res matches Ok(v) && v@.len() <= out.len() && out.take(v@.len() as int) == v@ && (forall|
            i: int,
        | v@.len() <= i < out.len() ==> is_ws(#[trigger] out[i])) && (v@.len() > 0 ==> !is_ws(
            v@.last(),
        )),
{
    lemma_trim_end(out);
}

/// The query for the dependencies of a `package.json`: each entry of its
/// `dependencies` and `devDependencies` objects, the name as `@key` and the
/// version text inside the quotes as `@value`.
pub const NPM_QUERY: &'static str = "(document
  (object
    (pair
      key: (string (string_content) @_section)
      value: (object
        (pair
          key: (string (string_content) @key)
          value: (string (string_content) @value)))
      (#any-of? @_section \"dependencies\" \"devDependencies\"))))";

} // verus!
