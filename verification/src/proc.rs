//! Commands to run, and running them a chunk at a time: every command of a
//! chunk is started before any of them is waited for.

use vstd::prelude::*;
use vstd::utf8::*;

verus! {

/// A program and its arguments.
pub struct Cmd {
    pub bin: &'static str,
    pub args: Vec<String>,
}

/// What a finished command left: whether it exited successfully, and the
/// bytes it wrote to its standard output and standard error.
pub struct CmdOutput {
    pub success: bool,
    pub stdout: Vec<u8>,
    pub stderr: Vec<u8>,
}

impl Cmd {
    /// The command that runs `bin` with `args`.
    pub fn new<const N: usize>(bin: &'static str, args: [&str; N]) -> (c: Cmd)
        ensures
            c.bin == bin,
            c.args@.len() == N,
            forall|i: int| 0 <= i < N ==> (#[trigger] c.args@[i])@ == args@[i]@,
    {
        let mut v: Vec<String> = Vec::new();
        let mut i: usize = 0;
        while i < N
            invariant
                i <= N,
                v@.len() == i,
                forall|j: int| 0 <= j < i ==> (#[trigger] v@[j])@ == args@[j]@,
            decreases N - i,
        {
            v.push(args[i].to_owned());
            i = i + 1;
        }
        Cmd { bin, args: v }
    }
}

/// The text of bytes decoded as UTF-8, each invalid sequence replaced by
/// U+FFFD, as `String::from_utf8_lossy` decodes them.
pub uninterp spec fn lossy_text(bytes: Seq<u8>) -> Seq<char>;

/// `String::from_utf8_lossy`, made an owned `String`. The contract names the
/// result and claims what std documents of valid input: it is decoded
/// unchanged. How invalid sequences are replaced is not stated.
#[verifier::external_body]
fn utf8_lossy(bytes: &[u8]) -> (s: String)
    ensures
        s@ == lossy_text(bytes@),
        valid_utf8(bytes@) ==> s@ == decode_utf8(bytes@),
{
    String::from_utf8_lossy(bytes).into_owned()
}

/// The start of the error of a command that did not exit successfully.
pub open spec fn cmd_failed() -> Seq<char> {
    seq!['c', 'o', 'm', 'm', 'a', 'n', 'd', ' ', 'f', 'a', 'i', 'l', 'e', 'd', ':', ' ']
}

/// `cmd` was started as `h`, and `h` finished with `o`.
pub open spec fn ran_as<H, S: Fn(&Cmd) -> Result<H, String>, W: Fn(H) -> Result<CmdOutput, String>>(
    spawn: S,
    wait: W,
    cmd: &Cmd,
    h: H,
    o: CmdOutput,
) -> bool {
    spawn.ensures((cmd,), Ok::<H, String>(h)) && wait.ensures((h,), Ok::<CmdOutput, String>(o))
}

/// `out` is the standard output of `cmd`, started and waited for with
/// success, decoded as `String::from_utf8_lossy` decodes it: unchanged where
/// it is valid UTF-8.
pub open spec fn output_of<H, S: Fn(&Cmd) -> Result<H, String>, W: Fn(H) -> Result<
    CmdOutput,
    String,
>>(spawn: S, wait: W, cmd: &Cmd, out: String) -> bool {
    exists|h: H, o: CmdOutput|
        #![trigger ran_as(spawn, wait, cmd, h, o)]
        ran_as(spawn, wait, cmd, h, o) && o.success && out@ == lossy_text(o.stdout@) && (valid_utf8(
            o.stdout@,
        ) ==> out@ == decode_utf8(o.stdout@))
}

/// `outs` is what a successful run of `cmds` gives: the decoded standard
/// output of every command, in the order of `cmds`. The chunk size has no
/// part in it.
pub open spec fn run_outputs<H, S: Fn(&Cmd) -> Result<H, String>, W: Fn(H) -> Result<
    CmdOutput,
    String,
>>(spawn: S, wait: W, cmds: Seq<Cmd>, outs: Seq<String>) -> bool {
    &&& outs.len() == cmds.len()
    &&& forall|i: int| 0 <= i < cmds.len() ==> output_of(spawn, wait, &cmds[i], #[trigger] outs[i])
}

/// The chunk size changes only how many commands run at once: where every
/// command writes the same standard output however it is started and
/// whatever runs beside it, two successful runs of the same commands, in
/// chunks of any sizes, give the same outputs in the same order.
pub proof fn lemma_run_outputs_same<H, S: Fn(&Cmd) -> Result<H, String>, W: Fn(H) -> Result<
    CmdOutput,
    String,
>>(spawn: S, wait: W, cmds: Seq<Cmd>, outs1: Seq<String>, outs2: Seq<String>)
    requires
        run_outputs(spawn, wait, cmds, outs1),
        run_outputs(spawn, wait, cmds, outs2),
        forall|c: &Cmd, h1: H, o1: CmdOutput, h2: H, o2: CmdOutput|
            #![trigger ran_as(spawn, wait, c, h1, o1), ran_as(spawn, wait, c, h2, o2)]
            ran_as(spawn, wait, c, h1, o1) && ran_as(spawn, wait, c, h2, o2) && o1.success
                && o2.success ==> o1.stdout@ == o2.stdout@,
    ensures
        outs1.len() == outs2.len(),
        forall|i: int| 0 <= i < outs1.len() ==> (#[trigger] outs1[i])@ == outs2[i]@,
{
    assert forall|i: int| 0 <= i < outs1.len() implies (#[trigger] outs1[i])@ == outs2[i]@ by {
        assert(output_of(spawn, wait, &cmds[i], outs1[i]));
        assert(output_of(spawn, wait, &cmds[i], outs2[i]));
    }
}

/// `cmd` was started, waited for, and exited successfully.
pub open spec fn ran_ok<H, S: Fn(&Cmd) -> Result<H, String>, W: Fn(H) -> Result<
    CmdOutput,
    String,
>>(spawn: S, wait: W, cmd: &Cmd) -> bool {
    exists|h: H, o: CmdOutput|
        #![trigger ran_as(spawn, wait, cmd, h, o)]
        ran_as(spawn, wait, cmd, h, o) && o.success
}

/// `cmd` was started.
pub open spec fn started<H, S: Fn(&Cmd) -> Result<H, String>>(spawn: S, cmd: &Cmd) -> bool {
    exists|h: H| #[trigger] spawn.ensures((cmd,), Ok::<H, String>(h))
}

/// `e` is the error of waiting for `cmd` once it was started: the wait failed
/// with `e`, or the command did not exit successfully and `e` is "command
/// failed: " followed by its standard error, decoded (unchanged where it is
/// valid UTF-8).
pub open spec fn wait_error<H, S: Fn(&Cmd) -> Result<H, String>, W: Fn(H) -> Result<
    CmdOutput,
    String,
>>(spawn: S, wait: W, cmd: &Cmd, e: String) -> bool {
    ||| exists|h: H|
        #![trigger wait.ensures((h,), Err::<CmdOutput, String>(e))]
        spawn.ensures((cmd,), Ok::<H, String>(h)) && wait.ensures((h,), Err::<CmdOutput, String>(e))
    ||| exists|h: H, o: CmdOutput|
        #![trigger ran_as(spawn, wait, cmd, h, o)]
        ran_as(spawn, wait, cmd, h, o) && !o.success && e@ == cmd_failed() + lossy_text(o.stderr@)
            && (valid_utf8(o.stderr@) ==> e@ == cmd_failed() + decode_utf8(o.stderr@))
}

/// The run of `cmds` in chunks of `chunk_size` ends with `e` at the command
/// `k` of the chunk that starts at `s`: every command before the chunk ran
/// with success, and every command of the chunk before `k` was started;
/// then either `k` could not be started, or every command of the chunk was
/// started, those before `k` ran with success, and waiting for `k` ended
/// with `e`.
pub open spec fn fails_at<H, S: Fn(&Cmd) -> Result<H, String>, W: Fn(H) -> Result<
    CmdOutput,
    String,
>>(spawn: S, wait: W, cmds: Seq<Cmd>, chunk_size: int, s: int, k: int, e: String) -> bool {
    &&& 0 <= s <= k < cmds.len()
    &&& s % chunk_size == 0
    &&& k < s + chunk_size
    &&& forall|i: int| 0 <= i < s ==> #[trigger] ran_ok(spawn, wait, &cmds[i])
    &&& forall|i: int| s <= i < k ==> #[trigger] started(spawn, &cmds[i])
    &&& {
        ||| spawn.ensures((&cmds[k],), Err::<H, String>(e))
        ||| {
            &&& forall|i: int|
                k <= i < s + chunk_size && i < cmds.len() ==> #[trigger] started(spawn, &cmds[i])
            &&& forall|i: int| s <= i < k ==> #[trigger] ran_ok(spawn, wait, &cmds[i])
            &&& wait_error(spawn, wait, &cmds[k], e)
        }
    }
}

/// `e` is the error that ends the run of `cmds` in chunks of `chunk_size`:
/// the first failure of the first chunk with one, a command that could not
/// be started coming before any wait of that chunk.
pub open spec fn run_error<H, S: Fn(&Cmd) -> Result<H, String>, W: Fn(H) -> Result<
    CmdOutput,
    String,
>>(spawn: S, wait: W, cmds: Seq<Cmd>, chunk_size: int, e: String) -> bool {
    exists|s: int, k: int| #[trigger] fails_at(spawn, wait, cmds, chunk_size, s, k, e)
}

/// Runs the commands `chunk_size` at a time: `spawn` starts each command of
/// a chunk, then `wait` waits for each in turn. The standard output of every
/// command, decoded, comes back in the order of `cmds`; the first command
/// of the first chunk with a failure that cannot be started (any of the
/// chunk, before any wait), or else that cannot be waited for or does not
/// exit successfully, ends the run with an error ("command failed: " and its
/// standard error in the last case).
pub fn run_all<H, S, W>(cmds: Vec<Cmd>, chunk_size: usize, spawn: S, wait: W) -> (res: Result<
    Vec<String>,
    String,
>) where S: Fn(&Cmd) -> Result<H, String>, W: Fn(H) -> Result<CmdOutput, String>
    requires
        chunk_size > 0,
        forall|c: &Cmd| spawn.requires((c,)),
        forall|h: H| wait.requires((h,)),
    ensures
        res matches Ok(outs) ==> run_outputs(spawn, wait, cmds@, outs@),
        res matches Err(e) ==> run_error(spawn, wait, cmds@, chunk_size as int, e),
{
    let n = cmds.len();
    let mut outs: Vec<String> = Vec::new();
    let mut start: usize = 0;
    while start < n
        invariant
            n == cmds@.len(),
            start <= n,
            outs@.len() == start,
            chunk_size > 0,
            start < n ==> (start as int) % (chunk_size as int) == 0,
            forall|c: &Cmd| spawn.requires((c,)),
            forall|h: H| wait.requires((h,)),
            forall|i: int|
                0 <= i < start ==> output_of(spawn, wait, &cmds@[i], #[trigger] outs@[i]),
            forall|i: int| 0 <= i < start ==> #[trigger] ran_ok(spawn, wait, &cmds@[i]),
        decreases n - start,
    {
        let end = if n - start > chunk_size {
            start + chunk_size
        } else {
            n
        };
        let mut children: Vec<H> = Vec::new();
        let mut i: usize = start;
        while i < end
            invariant
                n == cmds@.len(),
                start <= i <= end <= n,
                end <= start + chunk_size,
                (start as int) % (chunk_size as int) == 0,
                children@.len() == i - start,
                forall|c: &Cmd| spawn.requires((c,)),
                forall|t: int|
                    0 <= t < children@.len() ==> spawn.ensures(
                        (&cmds@[start + t],),
                        Ok::<H, String>(#[trigger] children@[t]),
                    ),
                forall|t: int| 0 <= t < start ==> #[trigger] ran_ok(spawn, wait, &cmds@[t]),
            decreases end - i,
        {
            match spawn(&cmds[i]) {
                Ok(h) => {
                    children.push(h);
                },
                Err(e) => {
                    proof {
                        assert forall|t: int| start <= t < i implies #[trigger] started(
                            spawn,
                            &cmds@[t],
                        ) by {
                            assert(spawn.ensures(
                                (&cmds@[start + (t - start)],),
                                Ok::<H, String>(children@[t - start]),
                            ));
                        }
                        assert(fails_at(
                            spawn,
                            wait,
                            cmds@,
                            chunk_size as int,
                            start as int,
                            i as int,
                            e,
                        ));
                    }
                    return Err(e);
                },
            }
            i = i + 1;
        }
        let mut j: usize = start;
        while j < end
            invariant
                n == cmds@.len(),
                start <= j <= end <= n,
                end <= start + chunk_size,
                end == n || end == start + chunk_size,
                (start as int) % (chunk_size as int) == 0,
                outs@.len() == j,
                children@.len() == end - j,
                forall|h: H| wait.requires((h,)),
                forall|t: int|
                    0 <= t < children@.len() ==> spawn.ensures(
                        (&cmds@[j + t],),
                        Ok::<H, String>(#[trigger] children@[t]),
                    ),
                forall|i: int|
                    0 <= i < j ==> output_of(spawn, wait, &cmds@[i], #[trigger] outs@[i]),
                forall|t: int| 0 <= t < j ==> #[trigger] ran_ok(spawn, wait, &cmds@[t]),
            decreases end - j,
        {
            let ghost before = children@;
            let h = children.remove(0);
            let ghost gh = h;
            assert(spawn.ensures((&cmds@[j as int],), Ok::<H, String>(gh))) by {
                assert(before[0] == gh);
            }
            assert forall|t: int| 0 <= t < children@.len() implies spawn.ensures(
                (&cmds@[(j + 1) + t],),
                Ok::<H, String>(#[trigger] children@[t]),
            ) by {
                assert(children@[t] == before[t + 1]);
            }
            proof {
                assert forall|t: int| j <= t < end implies #[trigger] started(spawn, &cmds@[t]) by {
                    assert(spawn.ensures(
                        (&cmds@[j + (t - j)],),
                        Ok::<H, String>(before[t - j]),
                    ));
                }
                assert forall|t: int| start <= t < j implies #[trigger] started(
                    spawn,
                    &cmds@[t],
                ) by {
                    assert(ran_ok(spawn, wait, &cmds@[t]));
                }
            }
            match wait(h) {
                Ok(o) => {
                    if o.success {
                        let text = utf8_lossy(o.stdout.as_slice());
                        outs.push(text);
                        assert(ran_as(spawn, wait, &cmds@[j as int], gh, o));
                        assert(output_of(spawn, wait, &cmds@[j as int], outs@[j as int]));
                        assert(ran_ok(spawn, wait, &cmds@[j as int]));
                    } else {
                        let mut msg = "command failed: ".to_owned();
                        let err = utf8_lossy(o.stderr.as_slice());
                        msg.append(err.as_str());
                        assert("command failed: "@ == cmd_failed()) by {
                            reveal_strlit("command failed: ");
                        }
                        assert(ran_as(spawn, wait, &cmds@[j as int], gh, o));
                        assert(wait_error(spawn, wait, &cmds@[j as int], msg));
                        assert(fails_at(
                            spawn,
                            wait,
                            cmds@,
                            chunk_size as int,
                            start as int,
                            j as int,
                            msg,
                        ));
                        return Err(msg);
                    }
                },
                Err(e) => {
                    assert(wait.ensures((gh,), Err::<CmdOutput, String>(e)));
                    assert(wait_error(spawn, wait, &cmds@[j as int], e));
                    assert(fails_at(
                        spawn,
                        wait,
                        cmds@,
                        chunk_size as int,
                        start as int,
                        j as int,
                        e,
                    ));
                    return Err(e);
                },
            }
            j = j + 1;
        }
        proof {
            if end < n {
                vstd::arithmetic::div_mod::lemma_mod_add_multiples_vanish(
                    start as int,
                    chunk_size as int,
                );
            }
        }
        start = end;
    }
    Ok(outs)
}

} // verus!
