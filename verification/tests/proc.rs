use pkg::proc::{run_all, Cmd, CmdOutput};

const CHUNK_SIZE: usize = 2;
const CMD_FAILED: &str = "command failed: ";

/// A started program of the scripted system below.
struct Child {
    code: i32,
    stdout: Vec<u8>,
    stderr: Vec<u8>,
}

/// Starts a program of a small scripted system: `sh -c "exit N"`,
/// `sh -c "printf X"`, `sh -c "printf X >&2; exit N"` and `cargo`; any other
/// program is not found, as the operating system reports it.
fn spawn(cmd: &Cmd) -> Result<Child, String> {
    let args: Vec<&str> = cmd.args.iter().map(|a| a.as_str()).collect();
    match (cmd.bin, args.as_slice()) {
        ("sh", ["-c", script]) => {
            let mut child = Child { code: 0, stdout: vec![], stderr: vec![] };
            for part in script.split(';').map(|p| p.trim()) {
                if let Some(code) = part.strip_prefix("exit ") {
                    child.code = code.parse().unwrap();
                } else if let Some(text) = part.strip_prefix("printf ") {
                    match text.strip_suffix(" >&2") {
                        Some(err) => child.stderr.extend(err.bytes()),
                        None => child.stdout.extend(text.bytes()),
                    }
                }
            }
            Ok(child)
        }
        ("cargo", []) => Ok(Child {
            code: 0,
            stdout: b"Rust's package manager\n\nUsage: cargo [OPTIONS] [COMMAND]\n".to_vec(),
            stderr: vec![],
        }),
        ("cargo", [sub, ..]) => Ok(Child {
            code: 101,
            stdout: vec![],
            stderr: format!("error: no such command: `{}`\n", sub).into_bytes(),
        }),
        _ => Err(std::io::Error::from_raw_os_error(2).to_string()),
    }
}

fn wait(child: Child) -> Result<CmdOutput, String> {
    Ok(CmdOutput {
        success: child.code == 0,
        stdout: child.stdout,
        stderr: child.stderr,
    })
}

#[test]
fn run_non_existing() {
    let cmd = Cmd {
        bin: "i-do-not-exist",
        args: vec![],
    };
    let res = run_all(vec![cmd], CHUNK_SIZE, spawn, wait);
    assert!(res.is_err());
    assert_eq!(
        res.err(),
        Some("No such file or directory (os error 2)".to_owned())
    );
}

#[test]
fn run_exit_code() {
    let cmd = Cmd::new("sh", ["-c", "exit 1"]);
    let res = run_all(vec![cmd], CHUNK_SIZE, spawn, wait);
    assert!(res.is_err());
    assert_eq!(res.err(), Some(CMD_FAILED.to_owned()));
}

#[test]
fn run_prints_err() {
    let cmd = Cmd::new("cargo", ["wrong"]);
    let res = run_all(vec![cmd], CHUNK_SIZE, spawn, wait);
    assert!(res.is_err());
    assert_ne!(res.err(), Some(CMD_FAILED.to_owned()));
}

#[test]
fn run_valid() {
    let cmd = Cmd {
        bin: "cargo",
        args: vec![],
    };
    let res = run_all(vec![cmd], CHUNK_SIZE, spawn, wait);
    assert!(res.is_ok());
    assert!(!res.unwrap()[0].is_empty())
}

#[test]
fn run_keeps_order_across_chunks() {
    let cmds = (0..5)
        .map(|i| Cmd {
            bin: "sh",
            args: vec!["-c".to_owned(), format!("printf {}", i)],
        })
        .collect();
    let res = run_all(cmds, CHUNK_SIZE, spawn, wait).unwrap();
    assert_eq!(res, vec!["0", "1", "2", "3", "4"]);
}

#[test]
fn run_failure_reports_stderr() {
    let cmd = Cmd::new("sh", ["-c", "printf oops >&2; exit 3"]);
    let res = run_all(vec![cmd], 1, spawn, wait);
    assert_eq!(res, Err("command failed: oops".to_owned()));
}

#[test]
fn run_stops_at_first_failure() {
    let ran = std::cell::Cell::new(0);
    let fake_spawn = |c: &Cmd| -> Result<usize, String> {
        ran.set(ran.get() + 1);
        Ok(c.args.len())
    };
    let fake_wait = |n: usize| -> Result<CmdOutput, String> {
        Ok(CmdOutput {
            success: n != 1,
            stdout: vec![b'0' + n as u8],
            stderr: vec![0xff],
        })
    };
    let cmds = vec![
        Cmd::new("x", []),
        Cmd::new("x", ["a"]),
        Cmd::new("x", ["a", "b"]),
    ];
    let res = run_all(cmds, 1, fake_spawn, fake_wait);
    assert_eq!(res, Err("command failed: \u{fffd}".to_owned()));
    assert_eq!(ran.get(), 2);
}

#[test]
fn cmd_new_owns_args() {
    let c = Cmd::new("pip3", ["index", "versions"]);
    assert_eq!(c.bin, "pip3");
    assert_eq!(c.args, vec!["index".to_owned(), "versions".to_owned()]);
}

#[test]
fn run_spawn_error_wins_within_chunk() {
    let cmds = || {
        vec![
            Cmd::new("sh", ["-c", "exit 1"]),
            Cmd { bin: "i-do-not-exist", args: vec![] },
        ]
    };
    assert_eq!(
        run_all(cmds(), 2, spawn, wait),
        Err("No such file or directory (os error 2)".to_owned())
    );
    assert_eq!(run_all(cmds(), 1, spawn, wait), Err(CMD_FAILED.to_owned()));
}

#[test]
fn run_empty_is_ok() {
    assert_eq!(run_all(vec![], CHUNK_SIZE, spawn, wait), Ok(vec![]));
}

#[test]
fn run_chunk_size_does_not_change_outputs() {
    let cmds = || -> Vec<Cmd> {
        (0..5)
            .map(|i| Cmd { bin: "sh", args: vec!["-c".to_owned(), format!("printf {}", i)] })
            .collect()
    };
    let one = run_all(cmds(), 1, spawn, wait).unwrap();
    assert_eq!(run_all(cmds(), 2, spawn, wait).unwrap(), one);
    assert_eq!(run_all(cmds(), 5, spawn, wait).unwrap(), one);
    assert_eq!(run_all(cmds(), 9, spawn, wait).unwrap(), one);
}
