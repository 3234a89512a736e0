use pkg::buffer::{Buffer, Pair};
use pkg::cargo::Cargo;
use pkg::registry::{latest_edits, Registry};

const CARGO_INFO: &str = "chrono #date #time\nDate and time library for Rust\nversion: 0.26.9\nlicense: MIT OR Apache-2.0\nrust-version: 1.61.0\ndocumentation: https://docs.rs/chrono/0.26.9\n";
const CARGO_INFO_LATEST: &str = "chrono #date #time\nDate and time library for Rust\nversion: 0.26.9 (latest 0.27.0)\nlicense: MIT OR Apache-2.0\nrust-version: 1.61.0\n";

const TOML: &str = "# manifest\n\n[dependencies]\nchrono = \"0.4.45\"\nserde = { version = \"1.0.200\", features = [\"derive\"] }\nregex = \"1.10\"\n";

#[test]
fn cargo_query() {
    let buf = Buffer::new(TOML.to_owned(), Cargo.manifest()).expect("should parse");
    let pairs = buf.query_pairs(&Cargo.deps_query()).expect("should query");
    assert_eq!(pairs.len(), 3);
}

#[test]
fn cmd_parse() {
    assert_eq!(Cargo.cmd_parse(CARGO_INFO), Ok("0.26.9".to_owned()));
}

#[test]
fn cmd_parse_latest() {
    assert_eq!(Cargo.cmd_parse(CARGO_INFO_LATEST), Ok("0.27.0".to_owned()));
}

#[test]
fn cmd_parse_trims_and_skips_crlf() {
    assert_eq!(
        Cargo.cmd_parse("name\r\n   version: 1.2.3  \r\nversion: 9.9.9\n"),
        Ok("1.2.3".to_owned())
    );
}

#[test]
fn cmd_parse_errors() {
    let err = Err("cannot parse version".to_owned());
    assert_eq!(Cargo.cmd_parse(""), err);
    assert_eq!(Cargo.cmd_parse("rust-version: 1.0\n"), err);
    assert_eq!(Cargo.cmd_parse("version: 1.0 (latest 2.0\n"), err);
}

#[test]
fn deps_parse_shifts_range() {
    let buf = Buffer::new(TOML.to_owned(), Cargo.manifest()).expect("should parse");
    let pairs = buf.query_pairs(&Cargo.deps_query()).expect("should query");
    let deps = pairs
        .into_iter()
        .map(|p| Cargo.dep_parse(p).expect("should parse"))
        .collect::<Vec<_>>();
    let dep = deps.first().expect("should have");
    assert_eq!(dep.key, "chrono");
    assert_eq!(dep.value, "0.4.45");
    assert_eq!(dep.range.start, 37);
    assert_eq!(dep.range.end, 43);
}

#[test]
fn deps_parse_keeps_value_at_range() {
    let buf = Buffer::new(TOML.to_owned(), Cargo.manifest()).expect("should parse");
    let pairs = buf.query_pairs(&Cargo.deps_query()).expect("should query");
    for p in pairs {
        let d = Cargo.dep_parse(p).expect("should parse");
        assert_eq!(&TOML[d.range.clone()], d.value);
    }
}

#[test]
fn dep_parse_strips_quotes() {
    let p = Pair { key: "k", value: "'é1'", range: 10..16 };
    let d = Cargo.dep_parse(p).unwrap();
    assert_eq!(d.value, "é1");
    assert_eq!(d.range, 11..15);
}

#[test]
fn cargo_command_and_manifest() {
    let c = Cargo.cmd_version("serde");
    assert_eq!(c.bin, "cargo");
    assert_eq!(c.args, vec!["info".to_owned(), "serde".to_owned()]);
    assert!(Cargo.supports("a/b/Cargo.toml"));
    assert!(Cargo.supports("Cargo.toml"));
    assert!(!Cargo.supports("a/package.json"));
    assert!(!Cargo.supports("a/MyCargo.toml"));
}

#[test]
fn cargo_accepts_quoted_values() {
    assert!(Cargo.accepts(&Pair { key: "k", value: "\"1\"", range: 3..6 }));
    assert!(!Cargo.accepts(&Pair { key: "k", value: "1", range: 3..4 }));
    assert!(!Cargo.accepts(&Pair { key: "k", value: "é1\"", range: 3..7 }));
    assert!(!Cargo.accepts(&Pair { key: "k", value: "\"1\"", range: usize::MAX..usize::MAX }));
}

#[test]
fn latest_edits_stops_at_first_unparsed_output() {
    let deps = vec![
        Pair { key: "a", value: "\"1\"", range: 0..3 },
        Pair { key: "b", value: "\"2\"", range: 4..7 },
    ];
    let outs = vec!["nothing here".to_owned(), "also nothing".to_owned()];
    assert_eq!(
        latest_edits(&Cargo, deps, &outs).err(),
        Some("cannot parse version".to_owned())
    );
}

#[test]
fn supports_only_the_last_component() {
    assert!(Cargo.supports("proj/Cargo.toml"));
    assert!(Cargo.supports("Cargo.toml"));
    assert!(!Cargo.supports("proj/MyCargo.toml"));
    assert!(!Cargo.supports("proj/cargo.toml"));
    assert!(!Cargo.supports("proj/package.json"));
}
