//! What a package registry contributes: which manifests it handles, how its
//! dependencies are found in them, and how its command line tool reports a
//! package's latest version.

use crate::buffer::{Edit, Lang, Pair};
use crate::proc::Cmd;
use crate::text::occurs_at;
use vstd::prelude::*;

verus! {

/// A package registry and its manifest format.
pub trait Registry {
    /// `dep_parse` takes a pair with this value and range without failing.
    spec fn accepts_dep(&self, value: Seq<char>, start: int, end: int) -> bool;

    /// `dep_parse` takes this pair: the test that a caller without a proof
    /// makes before it hands the pair on.
    fn accepts(&self, pair: &Pair) -> (ok: bool)
        ensures
            ok == self.accepts_dep(pair.value@, pair.range.start as int, pair.range.end as int),
    ;

    /// `res` is what `cmd_parse` gives for the output `out`.
    spec fn parsed_latest(&self, out: Seq<char>, res: Result<String, String>) -> bool;

    /// The latest version, from the output of the `cmd_version` command.
    fn cmd_parse(&self, cmd: &str) -> (res: Result<String, String>)
        ensures
            self.parsed_latest(cmd@, res),
    ;

    /// The command that prints the latest version of `pkg`.
    fn cmd_version(&self, pkg: &str) -> Cmd;

    /// The dependency name and version text of a pair that `deps_query`
    /// found; its range is that of the version text.
    fn dep_parse<'a>(&self, pair: Pair<'a>) -> (res: Result<Pair<'a>, String>)
        requires
            self.accepts_dep(pair.value@, pair.range.start as int, pair.range.end as int),
        ensures
            self.parsed_dep(pair, res),
    ;

    /// `res` is what `dep_parse` gives for `pair`.
    spec fn parsed_dep<'a>(&self, pair: Pair<'a>, res: Result<Pair<'a>, String>) -> bool;

    /// The query that finds the dependencies in a manifest.
    fn deps_query(&self) -> String;

    /// The language of the manifest.
    fn manifest(&self) -> Lang;

    /// The registry handles the manifest at this path.
    fn supports(&self, file: &str) -> bool;
}

/// `deps` are the dependencies that `dep_parse` gives for `pairs`, one for
/// one and in order.
pub open spec fn deps_for<'a, R: Registry + ?Sized>(
    reg: &R,
    pairs: Seq<Pair<'a>>,
    deps: Seq<Pair<'a>>,
) -> bool {
    &&& deps.len() == pairs.len()
    &&& forall|i: int|
        0 <= i < pairs.len() ==> reg.parsed_dep(pairs[i], Ok::<Pair<'a>, String>(#[trigger] deps[i]))
}

/// `e` is the error of the first pair that `dep_parse` rejects, every pair
/// before it giving a dependency.
pub open spec fn deps_error<'a, R: Registry + ?Sized>(
    reg: &R,
    pairs: Seq<Pair<'a>>,
    e: String,
) -> bool {
    exists|k: int|
        #![trigger reg.parsed_dep(pairs[k], Err::<Pair<'a>, String>(e))]
        0 <= k < pairs.len() && reg.parsed_dep(pairs[k], Err::<Pair<'a>, String>(e)) && forall|
            i: int,
        | 0 <= i < k ==> gives_dep(reg, #[trigger] pairs[i])
}

/// `dep_parse` gives a dependency for `pair`.
pub open spec fn gives_dep<'a, R: Registry + ?Sized>(reg: &R, pair: Pair<'a>) -> bool {
    exists|d: Pair<'a>| #[trigger] reg.parsed_dep(pair, Ok::<Pair<'a>, String>(d))
}

/// The dependency of each pair that the query found, in order; the first
/// pair that `dep_parse` rejects ends with its error.
pub fn parse_deps<'a, R: Registry + ?Sized>(reg: &R, pairs: Vec<Pair<'a>>) -> (res: Result<
    Vec<Pair<'a>>,
    String,
>)
    requires
        forall|i: int|
            0 <= i < pairs@.len() ==> reg.accepts_dep(
                (#[trigger] pairs@[i]).value@,
                pairs@[i].range.start as int,
                pairs@[i].range.end as int,
            ),
    ensures
        res matches Ok(ds) ==> deps_for(reg, pairs@, ds@),
        res matches Err(e) ==> deps_error(reg, pairs@, e),
{
    let ghost all = pairs@;
    let n = pairs.len();
    let mut rest = pairs;
    let mut deps: Vec<Pair<'a>> = Vec::new();
    let mut i: usize = 0;
    while i < n
        invariant
            all == pairs@,
            n == all.len(),
            i <= n,
            rest@ == all.skip(i as int),
            deps@.len() == i,
            forall|t: int|
                0 <= t < all.len() ==> reg.accepts_dep(
                    (#[trigger] all[t]).value@,
                    all[t].range.start as int,
                    all[t].range.end as int,
                ),
            forall|t: int|
                0 <= t < i ==> reg.parsed_dep(all[t], Ok::<Pair<'a>, String>(#[trigger] deps@[t])),
        decreases n - i,
    {
        let p = rest.remove(0);
        assert(p == all[i as int]);
        assert(rest@ =~= all.skip(i + 1));
        match reg.dep_parse(p) {
            Ok(d) => {
                deps.push(d);
                assert(deps@[i as int] == d);
            },
            Err(e) => {
                proof {
                    assert forall|t: int| 0 <= t < i implies gives_dep(reg, #[trigger] all[t]) by {
                        assert(reg.parsed_dep(all[t], Ok::<Pair<'a>, String>(deps@[t])));
                    }
                }
                return Err(e);
            },
        }
        i = i + 1;
    }
    Ok(deps)
}

/// `edits` pair each dependency with the latest version that its command's
/// output gives, for as many dependencies as there are outputs.
pub open spec fn latest_for<'a, R: Registry + ?Sized>(
    reg: &R,
    deps: Seq<Pair<'a>>,
    outs: Seq<String>,
    edits: Seq<Edit<'a>>,
) -> bool {
    &&& edits.len() == if deps.len() <= outs.len() {
        deps.len()
    } else {
        outs.len()
    }
    &&& forall|i: int|
        0 <= i < edits.len() ==> (#[trigger] edits[i]).pair == deps[i] && reg.parsed_latest(
            outs[i]@,
            Ok::<String, String>(edits[i].value),
        )
}

/// `e` is the error of the first output that gives no version, every output
/// before it giving one.
pub open spec fn latest_error<'a, R: Registry + ?Sized>(
    reg: &R,
    deps: Seq<Pair<'a>>,
    outs: Seq<String>,
    e: String,
) -> bool {
    exists|k: int|
        #![trigger reg.parsed_latest(outs[k]@, Err::<String, String>(e))]
        0 <= k < deps.len() && k < outs.len() && reg.parsed_latest(
            outs[k]@,
            Err::<String, String>(e),
        ) && forall|i: int| 0 <= i < k ==> gives_latest(reg, #[trigger] outs[i]@)
}

/// The output `out` gives a version.
pub open spec fn gives_latest<R: Registry + ?Sized>(reg: &R, out: Seq<char>) -> bool {
    exists|v: String| #[trigger] reg.parsed_latest(out, Ok::<String, String>(v))
}

/// Each dependency, in order, with the latest version that the output of its
/// command gives; the first output that gives none ends with its error.
pub fn latest_edits<'a, R: Registry + ?Sized>(
    reg: &R,
    deps: Vec<Pair<'a>>,
    outs: &Vec<String>,
) -> (res: Result<Vec<Edit<'a>>, String>)
    ensures
        res matches Ok(es) ==> latest_for(reg, deps@, outs@, es@),
        res matches Err(e) ==> latest_error(reg, deps@, outs@, e),
{
    let ghost all = deps@;
    let n = if deps.len() <= outs.len() {
        deps.len()
    } else {
        outs.len()
    };
    let mut rest = deps;
    let mut edits: Vec<Edit<'a>> = Vec::new();
    let mut i: usize = 0;
    while i < n
        invariant
            all == deps@,
            n <= all.len(),
            n <= outs@.len(),
            n == if all.len() <= outs@.len() {
                all.len()
            } else {
                outs@.len()
            },
            i <= n,
            rest@ == all.skip(i as int),
            edits@.len() == i,
            forall|t: int|
                0 <= t < i ==> (#[trigger] edits@[t]).pair == all[t] && reg.parsed_latest(
                    outs@[t]@,
                    Ok::<String, String>(edits@[t].value),
                ),
        decreases n - i,
    {
        let d = rest.remove(0);
        assert(d == all[i as int]);
        assert(rest@ =~= all.skip(i + 1));
        match reg.cmd_parse(outs[i].as_str()) {
            Ok(v) => {
                edits.push(d.with_value(v));
            },
            Err(e) => {
                proof {
                    assert forall|t: int| 0 <= t < i implies gives_latest(
                        reg,
                        #[trigger] outs@[t]@,
                    ) by {
                        assert(reg.parsed_latest(outs@[t]@, Ok::<String, String>(edits@[t].value)));
                    }
                    assert(reg.parsed_latest(outs@[i as int]@, Err::<String, String>(e)));
                }
                return Err(e);
            },
        }
        i = i + 1;
    }
    Ok(edits)
}

/// `parse_deps` gives one dependency per pair, in order: as many as there
/// are pairs, each what `dep_parse` gives for the pair in its place.
pub proof fn lemma_deps_one_per_pair<'a, R: Registry + ?Sized>(
    reg: &R,
    pairs: Seq<Pair<'a>>,
    deps: Seq<Pair<'a>>,
)
    requires
        deps_for(reg, pairs, deps),
    ensures
        deps.len() == pairs.len(),
        forall|i: int|
            0 <= i < pairs.len() ==> reg.parsed_dep(pairs[i], Ok::<Pair<'a>, String>(#[trigger] deps[i])),
{
}

/// `latest_edits` gives one edit per dependency where there is an output
/// for each: as many edits as dependencies, each keeping its dependency's
/// pair, in order, with the version that the output in its place gives.
pub proof fn lemma_latest_one_per_dep<'a, R: Registry + ?Sized>(
    reg: &R,
    deps: Seq<Pair<'a>>,
    outs: Seq<String>,
    edits: Seq<Edit<'a>>,
)
    requires
        latest_for(reg, deps, outs, edits),
        outs.len() == deps.len(),
    ensures
        edits.len() == deps.len(),
        forall|i: int|
            0 <= i < deps.len() ==> (#[trigger] edits[i]).pair == deps[i] && reg.parsed_latest(
                outs[i]@,
                Ok::<String, String>(edits[i].value),
            ),
{
}

/// A single plain file name: not empty, without a slash, a backslash or a
/// colon (a separator or a drive prefix on some platform), not `.` or `..`.
pub open spec fn plain_name(child: Seq<char>) -> bool {
    &&& child.len() > 0
    &&& forall|i: int| 0 <= i < child.len() ==> child[i] != '/' && child[i] != '\\' && child[i] != ':'
    &&& child != seq!['.']
    &&& child != seq!['.', '.']
}

/// The path holds no backslash.
pub open spec fn no_backslash(path: Seq<char>) -> bool {
    forall|i: int| 0 <= i < path.len() ==> path[i] != '\\'
}

/// The path is the file name `name`, or ends with `/` and `name`.
pub open spec fn names_file(path: Seq<char>, name: Seq<char>) -> bool {
    ||| path == name
    ||| {
        &&& path.len() > name.len()
        &&& path.skip(path.len() - name.len()) == name
        &&& path[path.len() - name.len() - 1] == '/'
    }
}

/// The path begins with two slashes, which some platforms read as the
/// prefix of a network path.
pub open spec fn starts_with_two_slashes(path: Seq<char>) -> bool {
    path.len() >= 2 && path[0] == '/' && path[1] == '/'
}

/// The text after the last `/` of the path (the whole path where it has
/// none).
pub open spec fn last_segment(path: Seq<char>) -> Seq<char>
    decreases path.len(),
{
    if path.len() == 0 {
        path
    } else if path.last() == '/' {
        Seq::empty()
    } else {
        last_segment(path.drop_last()).push(path.last())
    }
}

/// `Path::ends_with`, on a path given as text: whether the last components
/// of `path` are those of `child`, whole components compared, as std
/// documents. Which characters separate components, and which prefixes a
/// path may have, differ between platforms, so the result is not named; the
/// contract claims what holds on every platform for a plain file name
/// `child`: a path without backslashes that does not begin with two slashes
/// and is `child` or ends with `/` and `child` ends with it; a path in which
/// `child` does not occur does not; and a path whose text after its last
/// `/` is a plain file name other than `child` does not. Other paths are
/// left unsaid.
#[verifier::external_body]
pub(crate) fn file_ends_with(path: &str, child: &str) -> (b: bool)
    ensures
        plain_name(child@) && no_backslash(path@) && !starts_with_two_slashes(path@) && names_file(
            path@,
            child@,
        ) ==> b,
        plain_name(child@) && !(exists|i: int| occurs_at(path@, child@, i)) ==> !b,
        plain_name(child@) && plain_name(last_segment(path@)) && last_segment(path@) != child@
            ==> !b,
{
    std::path::Path::new(path).ends_with(child)
}

} // verus!
