//! Canonical text: serialization and exact parsing.

use fieldcrypt::canon::to_json;
use fieldcrypt::doc::Document;
use fieldcrypt::parse::parse_json;

fn obj(entries: Vec<(&str, Document)>) -> Document {
    Document::Object(entries.into_iter().map(|(k, v)| (k.to_string(), v)).collect())
}

fn text(s: &str) -> Document {
    Document::Text(s.to_string())
}

#[test]
fn serializes_scalars() {
    assert_eq!(to_json(&Document::Null), "null");
    assert_eq!(to_json(&Document::Bool(true)), "true");
    assert_eq!(to_json(&Document::Bool(false)), "false");
    assert_eq!(to_json(&Document::Int(0)), "0");
    assert_eq!(to_json(&Document::Int(-42)), "-42");
    assert_eq!(to_json(&Document::Int(i64::MAX)), "9223372036854775807");
    assert_eq!(to_json(&Document::Int(i64::MIN)), "-9223372036854775808");
    assert_eq!(to_json(&text("hi")), "\"hi\"");
}

#[test]
fn serializes_nested_structures() {
    let d = obj(vec![
        ("a", Document::Array(vec![Document::Int(1), text("x"), Document::Null])),
        ("b", obj(vec![("c", Document::Bool(false))])),
    ]);
    assert_eq!(to_json(&d), "{\"a\":[1,\"x\",null],\"b\":{\"c\":false}}");
}

#[test]
fn serializes_escapes() {
    let d = text("q\"b\\s\nt\tz\u{1}");
    assert_eq!(to_json(&d), "\"q\\\"b\\\\s\\nt\\tz\\u0001\"");
}

#[test]
fn matches_serde_compact_form() {
    let mine = obj(vec![
        ("k", Document::Array(vec![Document::Int(-3), text("a b"), Document::Bool(true)])),
        ("nl", Document::Null),
    ]);
    let mut inner = serde_json::Map::new();
    inner.insert(
        "k".to_string(),
        serde_json::Value::Array(vec![
            serde_json::Value::from(-3i64),
            serde_json::Value::from("a b"),
            serde_json::Value::from(true),
        ]),
    );
    inner.insert("nl".to_string(), serde_json::Value::Null);
    let theirs = serde_json::Value::Object(inner);
    assert_eq!(to_json(&mine), serde_json::to_string(&theirs).unwrap());
}

#[test]
fn parses_what_it_prints() {
    let cases = vec![
        Document::Null,
        Document::Int(907),
        Document::Int(-1),
        text("he\"ll\\o\n"),
        Document::Array(vec![]),
        obj(vec![]),
        obj(vec![
            ("list", Document::Array(vec![Document::Int(0), obj(vec![("in", text("deep"))])])),
            ("flag", Document::Bool(true)),
        ]),
    ];
    for d in cases {
        let printed = to_json(&d);
        let back = parse_json(&printed).expect("canonical text must parse");
        assert_eq!(back, d);
        assert_eq!(to_json(&back), printed);
    }
}

#[test]
fn parses_exact_texts() {
    assert_eq!(parse_json("{\"a\":\"b\"}").unwrap(), obj(vec![("a", text("b"))]));
    assert_eq!(parse_json("[1,2,3]").unwrap(),
        Document::Array(vec![Document::Int(1), Document::Int(2), Document::Int(3)]));
    assert_eq!(parse_json("\"\\u0007\"").unwrap(), text("\u{7}"));
}

#[test]
fn rejects_non_canonical_text() {
    assert!(parse_json("").is_err());
    assert!(parse_json("nul").is_err());
    assert!(parse_json("01").is_err());
    assert!(parse_json("-0").is_err());
    assert!(parse_json("1 ").is_err());
    assert!(parse_json("{\"a\": 1}").is_err(), "whitespace is not canonical");
    assert!(parse_json("[1,]").is_err());
    assert!(parse_json("{\"a\"}").is_err());
    assert!(parse_json("\"\\u0041\"").is_err(), "escapes are only for control characters");
    assert!(parse_json("\"unterminated").is_err());
    assert!(parse_json("9223372036854775808").is_err(), "out of range");
    assert!(parse_json("-9223372036854775808").is_ok());
    assert!(parse_json("-9223372036854775809").is_err());
    assert!(parse_json("not json").is_err());
}

#[test]
fn reports_a_position() {
    let e = parse_json("{\"a\":!}").unwrap_err();
    assert_eq!(e.at, 5);
    let e2 = parse_json("x").unwrap_err();
    assert_eq!(e2.at, 0);
}

#[test]
fn unicode_text_is_kept_literally() {
    let d = text("\u{e9}\u{2603}");
    assert_eq!(to_json(&d), "\"\u{e9}\u{2603}\"");
    assert_eq!(parse_json(&to_json(&d)).unwrap(), d);
}
