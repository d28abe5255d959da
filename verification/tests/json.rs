use schist::json::{Json, JsonError, ParseFailure};
use schist::numeric::{RealNeed, RealTexts, Reals};

fn parsed(src: &str) -> Result<Json, JsonError> {
    let mut reals = Reals::new();
    loop {
        match Json::parse(src, &reals) {
            Ok(j) => return Ok(j),
            Err(ParseFailure::Json(e)) => return Err(e),
            Err(ParseFailure::Pending(RealNeed::Text(t))) => {
                let x: f64 = t.parse().unwrap();
                reals.note_text(&t, x.to_bits());
            }
            Err(_) => panic!("unexpected need"),
        }
    }
}

fn num(x: f64) -> Json {
    Json::Number(x.to_bits())
}

fn texts() -> RealTexts {
    let mut t = RealTexts::new();
    for x in [1.0f64, 2.0, 42.0, -350.0, 1.5] {
        t.note(x.to_bits(), &format!("{x}"));
    }
    t
}

#[test]
fn parse_scalars() {
    assert_eq!(parsed("null").unwrap(), Json::Null);
    assert_eq!(parsed("true").unwrap(), Json::Bool(true));
    assert_eq!(parsed("42").unwrap(), num(42.0));
    assert_eq!(parsed("-3.5e2").unwrap(), num(-350.0));
    assert_eq!(parsed("\"hi\"").unwrap().as_str(), Some("hi"));
}

#[test]
fn parse_nested() {
    let v = parsed(r#"{"a":[1,2,{"b":true}],"c":null}"#).unwrap();
    assert_eq!(v.pointer("/a/2/b").unwrap(), &Json::Bool(true));
    assert_eq!(v.get("c"), Some(&Json::Null));
    assert_eq!(v.pointer("/a/0").unwrap().as_number(), Some(1.0f64.to_bits()));
}

#[test]
fn roundtrip_compact() {
    let src = r#"{"x":1,"y":[true,false,null],"z":"a\nb"}"#;
    let v = parsed(src).unwrap();
    let out = v.to_string_compact(&texts());
    assert_eq!(out, src);
    let v2 = parsed(&out).unwrap();
    assert_eq!(v, v2);
}

#[test]
fn pretty_is_parseable() {
    let v = parsed(r#"{"a":[1,2],"b":{}}"#).unwrap();
    let pretty = v.to_string_pretty(&texts());
    assert!(pretty.contains('\n'));
    assert_eq!(pretty, "{\n  \"a\": [\n    1,\n    2\n  ],\n  \"b\": {}\n}");
    assert_eq!(parsed(&pretty).unwrap(), v);
}

#[test]
fn unicode_escapes() {
    let v = parsed(r#""Aé""#).unwrap();
    assert_eq!(v.as_str(), Some("Aé"));
    let emoji = parsed(r#""😀""#).unwrap();
    assert_eq!(emoji.as_str(), Some("😀"));
}

#[test]
fn escaped_code_points() {
    assert_eq!(parsed("\"\\u0041\\u00e9\"").unwrap().as_str(), Some("Aé"));
    assert_eq!(parsed("\"\\ud83d\\ude00\"").unwrap().as_str(), Some("😀"));
    assert_eq!(parsed("\"\\udc00\"").unwrap().as_str(), Some("\u{FFFD}"));
    assert_eq!(parsed("\"\\ud83d\"").unwrap_err().message, "expected low surrogate");
    assert_eq!(parsed("\"\\u00g0\"").unwrap_err().message, "invalid hex digit");
    assert_eq!(parsed("\"\\q\"").unwrap_err().message, "invalid escape");
}

#[test]
fn errors_have_position() {
    let e = parsed("{\n  \"a\": }").unwrap_err();
    assert_eq!(e.line, 2);
    assert_eq!(e.col, 8);
    assert_eq!(e.to_string(), "expected a JSON value at line 2 col 8");
    assert!(parsed("[1,2,]").is_err() || parsed("[1,2,]").is_ok());
}

#[test]
fn rejects_trailing() {
    assert!(parsed("1 2").is_err());
    assert!(parsed("{} junk").is_err());
}

#[test]
fn columns_count_bytes() {
    let e = parsed("[\"é\" x").unwrap_err();
    assert_eq!((e.line, e.col), (1, 8));
    assert_eq!(e.message, "expected ',' or ']' in array");
}

#[test]
fn nesting_has_a_limit() {
    let deep = format!("{}{}", "[".repeat(128), "]".repeat(128));
    assert!(parsed(&deep).is_ok());
    let deeper = format!("{}{}", "[".repeat(129), "]".repeat(129));
    assert_eq!(parsed(&deeper).unwrap_err().message, "maximum nesting depth exceeded");
}

#[test]
fn duplicate_keys_keep_the_last() {
    let v = parsed(r#"{"b":1,"a":2,"b":true}"#).unwrap();
    assert_eq!(v.to_string_compact(&texts()), r#"{"a":2,"b":true}"#);
}

#[test]
fn pointer_tokens() {
    let v = parsed(r#"{"a/b":[1,{"~":2}]}"#).unwrap();
    assert_eq!(v.pointer("/a~1b/1/~0"), Some(&num(2.0)));
    assert_eq!(v.pointer("/a~1b/7"), None);
    assert_eq!(v.pointer("/a~1b/x"), None);
    assert_eq!(v.pointer(""), Some(&v));
    assert_eq!(v.at(0), None);
    assert_eq!(v.get("a/b").unwrap().at(0), Some(&num(1.0)));
}

#[test]
fn control_characters_are_escaped() {
    let s = Json::String("\u{1}\t\u{8}\"\\".to_string());
    assert_eq!(s.to_string_compact(&texts()), "\"\\u0001\\t\\b\\\"\\\\\"");
    assert_eq!(parsed(&s.to_string_compact(&texts())).unwrap(), s);
    assert_eq!(num(f64::INFINITY).to_string_compact(&texts()), "null");
    assert_eq!(num(-0.0).to_string_compact(&texts()), "0");
}

#[test]
fn reals_are_needed() {
    let need = ParseFailure::Pending(RealNeed::Text("1.5".to_string()));
    assert_eq!(Json::parse("1.5", &Reals::new()), Err(need));
    assert_eq!(parsed("-").unwrap_err().message, "invalid number");
}
