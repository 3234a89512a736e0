use pkg::buffer::{Buffer, Pair};
use pkg::pip::Pip;
use pkg::registry::{parse_deps, Registry};

const TOML: &str = "[project]\nname = \"app\"\nversion = \"0.1.0\"\ndependencies = [\n   \"lib0==1.2.3\",\n   \"lib1==0.9\",\n   \"lib2==4.0.1\",\n]\n";

#[test]
fn pip_query() {
    let buf = Buffer::new(TOML.to_owned(), Pip.manifest()).expect("should parse");
    let pairs = buf.query_pairs(&Pip.deps_query()).expect("should query");
    assert_eq!(pairs.len(), 3);
}

#[test]
fn parse_dep_splits() {
    let buf = Buffer::new(TOML.to_owned(), Pip.manifest()).expect("should parse");
    let pairs = buf.query_pairs(&Pip.deps_query()).expect("should query");
    let pair = pairs.into_iter().next().expect("should have 3");
    let dep = Pip.dep_parse(pair).expect("should parse");
    assert_eq!(dep.key, "lib0");
    assert_eq!(dep.value, "1.2.3");
    assert_eq!(dep.range.start, 68);
    assert_eq!(dep.range.end, 73);
}

#[test]
fn pip_dep_parse_keeps_value_at_range() {
    let buf = Buffer::new(TOML.to_owned(), Pip.manifest()).expect("should parse");
    for p in buf.query_pairs(&Pip.deps_query()).expect("should query") {
        let d = Pip.dep_parse(p).expect("should parse");
        assert_eq!(&TOML[d.range.clone()], d.value);
    }
}

#[test]
fn pip_dep_parse_needs_pin() {
    let p = Pair { key: "dependencies", value: "\"lib0>=1.2\"", range: 0..11 };
    assert_eq!(
        Pip.dep_parse(p).err(),
        Some("expected name==version dependency lib0>=1.2".to_owned())
    );
    let p = Pair { key: "dependencies", value: "\"a==b==c\"", range: 5..14 };
    let d = Pip.dep_parse(p).unwrap();
    assert_eq!((d.key, d.value, d.range), ("a", "b==c", 9..13));
}

#[test]
fn pip_cmd_parse() {
    let out = r#"{"name": "requests", "versions": ["2.32.3", "2.32.2"], "latest": "2.32.3"}"#;
    assert_eq!(Pip.cmd_parse(out), Ok("2.32.3".to_owned()));
    let out = r#"{"name": "requests", "versions": []}"#;
    assert_eq!(
        Pip.cmd_parse(out),
        Err("pip output missing lastest version".to_owned())
    );
    assert_eq!(Pip.cmd_parse("not json"), Err("failed to parse source".to_owned()));
    let out = r#"{"latest": "1.0", "name": "x", "other": {"latest": "9"}}"#;
    assert_eq!(Pip.cmd_parse(out), Ok("1.0".to_owned()));
}

#[test]
fn pip_command() {
    let c = Pip.cmd_version("requests");
    assert_eq!(c.bin, "pip3");
    assert_eq!(c.args.len(), 4);
    assert_eq!(c.args[3], "requests");
    assert!(Pip.supports("/x/pyproject.toml"));
}

#[test]
fn pip_accepts_quoted_requirements() {
    assert!(Pip.accepts(&Pair { key: "k", value: "\"a==1\"", range: 0..6 }));
    assert!(!Pip.accepts(&Pair { key: "k", value: "a", range: 0..1 }));
    assert!(!Pip.accepts(&Pair { key: "k", value: "\"a==1\"", range: usize::MAX - 2..usize::MAX }));
    assert!(Pip.accepts(&Pair { key: "k", value: "\"a>=1\"", range: usize::MAX - 2..usize::MAX }));
}

#[test]
fn pip_parse_deps_in_order_and_first_error() {
    let buf = Buffer::new(TOML.to_owned(), Pip.manifest()).expect("should parse");
    let pairs = buf.query_pairs(&Pip.deps_query()).expect("should query");
    let deps = parse_deps(&Pip, pairs).unwrap();
    let names: Vec<(&str, &str)> = deps.iter().map(|d| (d.key, d.value)).collect();
    assert_eq!(names, vec![("lib0", "1.2.3"), ("lib1", "0.9"), ("lib2", "4.0.1")]);
    for d in deps.iter() {
        assert_eq!(&TOML[d.range.clone()], d.value);
    }
    let pairs = vec![
        Pair { key: "k", value: "\"a==1\"", range: 0..6 },
        Pair { key: "k", value: "\"b>=2\"", range: 7..13 },
        Pair { key: "k", value: "\"c<3\"", range: 14..19 },
    ];
    assert_eq!(
        parse_deps(&Pip, pairs).err(),
        Some("expected name==version dependency b>=2".to_owned())
    );
}

#[test]
fn pip_dep_parse_name_sits_before_pin() {
    let src = "x = [\"lib0==1.2.3\"]";
    let p = Pair { key: "x", value: &src[5..18], range: 5..18 };
    let d = Pip.dep_parse(p).unwrap();
    assert_eq!(&src[6..d.range.start - 2], d.key);
    assert_eq!(d.range.end, 18 - 1);
    assert_eq!(&src[d.range.clone()], d.value);
}
