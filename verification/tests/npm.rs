use pkg::buffer::{Buffer, Lang, Pair};
use pkg::npm::Npm;
use pkg::registry::{latest_edits, Registry};

const JSON: &str = r#"{
  "name": "app",
  "dependencies": {
    "lib0": "22.3",
    "lib1": "1.0.0"
  },
  "devDependencies": {
    "lib2": "3.1"
  }
}
"#;

#[test]
fn npm_query() {
    let buf = Buffer::new(JSON.to_owned(), Npm.manifest()).expect("should parse");
    let pairs = buf.query_pairs(&Npm.deps_query()).expect("should query");
    assert_eq!(pairs.len(), 3);
}

#[test]
fn npm_cmd_parse_trims_end() {
    assert_eq!(Npm.cmd_parse("10.2.4\n"), Ok("10.2.4".to_owned()));
    assert_eq!(Npm.cmd_parse(" 1.0 \u{3000}\r\n"), Ok(" 1.0".to_owned()));
}

#[test]
fn npm_dep_parse_keeps_pair() {
    let buf = Buffer::new(JSON.to_owned(), Npm.manifest()).expect("should parse");
    let pairs = buf.query_pairs(&Npm.deps_query()).expect("should query");
    let p = pairs.into_iter().nth(2).unwrap();
    let range = p.range.clone();
    let d = Npm.dep_parse(p).unwrap();
    assert_eq!(d.key, "lib2");
    assert_eq!(d.value, "3.1");
    assert_eq!(d.range, range);
}

#[test]
fn npm_command_and_manifest() {
    let c = Npm.cmd_version("react");
    assert_eq!(c.bin, "npm");
    assert_eq!(c.args, vec!["view".to_owned(), "react".to_owned(), "version".to_owned()]);
    assert!(Npm.manifest() == Lang::Json);
    assert!(Npm.supports("web/package.json"));
    assert!(!Npm.supports("web/package.json.bak"));
}

#[test]
fn latest_edits_pairs_outputs_in_order() {
    let deps = vec![
        Pair { key: "a", value: "1", range: 0..1 },
        Pair { key: "b", value: "2", range: 2..3 },
    ];
    let outs = vec!["1.5\n".to_owned(), "2.0  \n".to_owned(), "9".to_owned()];
    let edits = latest_edits(&Npm, deps, &outs).unwrap();
    assert_eq!(edits.len(), 2);
    assert_eq!((edits[0].pair.key, edits[0].value.as_str()), ("a", "1.5"));
    assert_eq!((edits[1].pair.key, edits[1].value.as_str()), ("b", "2.0"));
}

#[test]
fn supports_plain_and_nested_paths() {
    assert!(Npm.supports("package.json"));
    assert!(Npm.supports("web/app/package.json"));
    assert!(!Npm.supports("web/Cargo.toml"));
    assert!(!Npm.supports("my-package.json"));
}
