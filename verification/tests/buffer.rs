use pkg::buffer::{Buffer, Lang, Pair};
use pkg::npm::NPM_QUERY;

const JSON: &str = r#"{
  "name": "app",
  "dependencies": {
    "lib0": "22.3",
    "lib1": "1.0.0"
  },
  "devDependencies": {
    "lib2": "3.1"
  }
}
"#;
const JSON_EMPTY: &str = "{}\n";
const JSON_INVALID: &str = "{\n  \"name\": \"app\",\n  \"dependencies\": {\n    \"lib0\" \"22.3\"\n";
const JSON_QUERY_INVALID: &str = "(pair key: (string) @key) (number) @value";

const TOML: &str = "# manifest\n\n[dependencies]\nchrono = \"0.4.45\"\nserde = { version = \"1.0.200\", features = [\"derive\"] }\nregex = \"1.10\"\n";
const TOML_EMPTY: &str = "";
const TOML_INVALID: &str = "[dependencies\nchrono = = \"0.4\"\n";

fn parse(src: &str, lang: Lang) -> Buffer {
    Buffer::new(src.to_owned(), lang).expect("should parse")
}

fn query_json(buf: &Buffer) -> Vec<Pair<'_>> {
    buf.query_pairs(NPM_QUERY).expect("should query")
}

#[test]
fn new_invalid_source() {
    assert!(Buffer::new(JSON_INVALID.to_owned(), Lang::Json).is_err());
    assert!(Buffer::new(TOML_INVALID.to_owned(), Lang::Toml).is_err());
}

#[test]
fn new_wrong_lang() {
    assert!(Buffer::new(JSON.to_owned(), Lang::Toml).is_err());
    assert!(Buffer::new(TOML.to_owned(), Lang::Json).is_err());
}

#[test]
fn new_valid() {
    assert!(Buffer::new(JSON_EMPTY.to_owned(), Lang::Json).is_ok());
    assert!(Buffer::new(JSON.to_owned(), Lang::Json).is_ok());
    assert!(Buffer::new(TOML_EMPTY.to_owned(), Lang::Toml).is_ok());
    assert!(Buffer::new(TOML.to_owned(), Lang::Toml).is_ok());
}

#[test]
fn new_invalid_source_message() {
    let err = Buffer::new(JSON_INVALID.to_owned(), Lang::Json).err();
    assert_eq!(err, Some("failed to parse source".to_owned()));
}

#[test]
fn query_pairs_invalid_query() {
    assert!(parse(JSON, Lang::Json).query_pairs("()").is_err());
}

#[test]
fn query_pairs_missing_matches() {
    assert!(parse(JSON, Lang::Json)
        .query_pairs(JSON_QUERY_INVALID)
        .is_err());
}

#[test]
fn query_pairs_missing_capture_names() {
    let buf = parse(JSON, Lang::Json);
    assert_eq!(
        buf.query_pairs("(pair key: (string) @value)").err(),
        Some("query must capture @key".to_owned())
    );
    assert_eq!(
        buf.query_pairs("(pair key: (string) @key)").err(),
        Some("query must capture @value".to_owned())
    );
    assert_eq!(
        buf.query_pairs(JSON_QUERY_INVALID).err(),
        Some("match missing @value".to_owned())
    );
}

#[test]
fn query_pairs() {
    let buf = parse(JSON, Lang::Json);
    let pairs = query_json(&buf);
    assert_eq!(pairs.len(), 3);
    assert_eq!(pairs[0].key, "lib0");
    assert_eq!(pairs[0].value, "22.3");
}

#[test]
fn query_pairs_ranges_on_char_boundaries() {
    let src = "{\"dependencies\": {\"é\": \"ü1\"}}";
    let buf = parse(src, Lang::Json);
    let pairs = buf.query_pairs(NPM_QUERY).expect("should query");
    assert_eq!(pairs.len(), 1);
    assert_eq!((pairs[0].key, pairs[0].value), ("é", "ü1"));
    assert!(src.is_char_boundary(pairs[0].range.start));
    assert!(src.is_char_boundary(pairs[0].range.end));
    assert_eq!(&src[pairs[0].range.clone()], "ü1");
}

#[test]
fn query_pairs_value_is_text_at_range() {
    let buf = parse(JSON, Lang::Json);
    for p in query_json(&buf) {
        assert_eq!(&JSON[p.range.clone()], p.value);
    }
}

#[test]
fn replace_json() {
    let buf_o = parse(JSON, Lang::Json);
    let leaves_o = query_json(&buf_o);
    let edits = leaves_o
        .into_iter()
        .map(|l| l.with_value("dummy".to_owned()))
        .collect();
    let buf = parse(&buf_o.replace(edits), Lang::Json);
    let leaves = query_json(&buf);

    assert_eq!(leaves.len(), 3);
    assert_eq!(leaves[0].key, "lib0");
    assert_eq!(leaves[0].value, "dummy");
    assert_eq!(leaves[1].key, "lib1");
    assert_eq!(leaves[1].value, "dummy");
}

#[test]
fn replace_no_edits_keeps_source() {
    let buf = parse(JSON, Lang::Json);
    assert_eq!(buf.replace(Vec::new()), JSON);
}

#[test]
fn replace_same_values_keeps_source() {
    let buf = parse(JSON, Lang::Json);
    let edits = query_json(&buf)
        .into_iter()
        .map(|p| {
            let v = p.value.to_owned();
            p.with_value(v)
        })
        .collect();
    assert_eq!(buf.replace(edits), JSON);
}

#[test]
fn replace_in_any_order() {
    let buf = parse(TOML, Lang::Toml);
    let a = Pair { key: "a", value: "", range: 0..1 };
    let b = Pair { key: "b", value: "", range: 2..10 };
    let c = Pair { key: "c", value: "", range: 12..12 };
    let edits = vec![
        a.with_value("##".to_owned()),
        c.with_value("+".to_owned()),
        b.with_value("é".to_owned()),
    ];
    let out = buf.replace(edits);
    let expected = format!("##{}{}{}+{}", &TOML[1..2], "é", &TOML[10..12], &TOML[12..]);
    assert_eq!(out, expected);
}

use pkg::buffer::Edit;
use pkg::matches::{pairs_from_matches, Capture};
use pkg::splice::{changed, same_text};

fn cap(index: u32, start: usize, end: usize) -> Capture {
    Capture { index, start, end }
}

#[test]
fn pairs_from_matches_takes_first_captures() {
    let src = "ab=cd;ef=gh";
    let matches = vec![
        vec![cap(0, 0, 2), cap(1, 3, 5), cap(1, 6, 8)],
        vec![cap(1, 9, 11), cap(0, 6, 8)],
    ];
    let pairs = pairs_from_matches(src, 0, 1, &matches).unwrap();
    assert_eq!(pairs.len(), 2);
    assert_eq!((pairs[0].key, pairs[0].value, pairs[0].range.clone()), ("ab", "cd", 3..5));
    assert_eq!((pairs[1].key, pairs[1].value, pairs[1].range.clone()), ("ef", "gh", 9..11));
}

#[test]
fn pairs_from_matches_faults_in_order() {
    let src = "ab=cd";
    let missing_value = vec![vec![cap(0, 0, 2)], vec![cap(1, 3, 5)]];
    assert_eq!(
        pairs_from_matches(src, 0, 1, &missing_value).err(),
        Some("match missing @value".to_owned())
    );
    let missing_key = vec![vec![cap(1, 3, 5)], vec![cap(0, 0, 2)]];
    assert_eq!(
        pairs_from_matches(src, 0, 1, &missing_key).err(),
        Some("match missing @key".to_owned())
    );
    assert_eq!(pairs_from_matches(src, 0, 1, &vec![]).unwrap().len(), 0);
}

#[test]
fn changed_keeps_only_new_values() {
    let edits: Vec<Edit> = vec![
        Pair { key: "a", value: "1.0", range: 0..3 }.with_value("1.0".to_owned()),
        Pair { key: "b", value: "2.0", range: 4..7 }.with_value("2.1".to_owned()),
        Pair { key: "c", value: "3.0", range: 8..11 }.with_value("3.0 ".to_owned()),
    ];
    let kept = changed(edits);
    let keys: Vec<&str> = kept.iter().map(|e| e.pair.key).collect();
    assert_eq!(keys, vec!["b", "c"]);
    assert!(same_text("é", "é"));
    assert!(!same_text("e", "é"));
}

#[test]
fn can_replace_checks_ranges() {
    let buf = Buffer::new("x = \"é\"\n".to_owned(), Lang::Toml).unwrap();
    let ok = vec![Pair { key: "x", value: "", range: 5..7 }.with_value("e".to_owned())];
    assert!(buf.can_replace(&ok));
    assert_eq!(buf.replace(ok), "x = \"e\"\n");
    let mid_char = vec![Pair { key: "x", value: "", range: 5..6 }.with_value("e".to_owned())];
    assert!(!buf.can_replace(&mid_char));
    let overlap = vec![
        Pair { key: "x", value: "", range: 0..3 }.with_value("".to_owned()),
        Pair { key: "y", value: "", range: 2..4 }.with_value("".to_owned()),
    ];
    assert!(!buf.can_replace(&overlap));
    let same_end = vec![
        Pair { key: "x", value: "", range: 1..1 }.with_value("a".to_owned()),
        Pair { key: "y", value: "", range: 0..1 }.with_value("b".to_owned()),
    ];
    assert!(!buf.can_replace(&same_end));
    let past_end = vec![Pair { key: "x", value: "", range: 8..10 }.with_value("".to_owned())];
    assert!(!buf.can_replace(&past_end));
}

#[test]
fn replace_changed_only_same_as_all() {
    let buf = parse(JSON, Lang::Json);
    let values = vec!["22.3".to_owned(), "2.0.0".to_owned(), "3.1".to_owned()];
    let all: Vec<Edit> = query_json(&buf)
        .into_iter()
        .zip(values.iter())
        .map(|(p, v)| p.with_value(v.clone()))
        .collect();
    let some = changed(
        query_json(&buf)
            .into_iter()
            .zip(values.iter())
            .map(|(p, v)| p.with_value(v.clone()))
            .collect(),
    );
    assert_eq!(some.len(), 1);
    assert_eq!(some[0].pair.key, "lib1");
    assert_eq!(buf.replace(all), buf.replace(some));
}

#[test]
fn with_value_keeps_pair() {
    let e = Pair { key: "k", value: "v", range: 1..2 }.with_value("w".to_owned());
    assert_eq!((e.pair.key, e.pair.value, e.pair.range, e.value.as_str()), ("k", "v", 1..2, "w"));
}

#[test]
fn replace_order_does_not_matter() {
    let src = "{\"a\": \"1\", \"b\": \"2\"}";
    let buf = parse(src, Lang::Json);
    let edits = |order: [usize; 2]| -> Vec<Edit> {
        let all = [
            Pair { key: "a", value: "1", range: 7..8 }.with_value("10".to_owned()),
            Pair { key: "b", value: "2", range: 17..18 }.with_value("20".to_owned()),
        ];
        let [x, y] = all;
        let mut v = vec![x, y];
        if order[0] == 1 {
            v.reverse();
        }
        v
    };
    assert_eq!(buf.replace(edits([0, 1])), "{\"a\": \"10\", \"b\": \"20\"}");
    assert_eq!(buf.replace(edits([1, 0])), "{\"a\": \"10\", \"b\": \"20\"}");
}
