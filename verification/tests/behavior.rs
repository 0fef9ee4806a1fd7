use tiny_json::parse;
use tiny_json::JsonError;
use tiny_json::JsonValue;
use tiny_json::Parser;

#[test]
fn escapes_decode_to_their_characters() {
    let input = "\"\\\"\\\\\\/\\b\\f\\n\\r\\t\"";
    let expected = "\"\\/\u{0008}\u{000C}\n\r\t";
    assert_eq!(parse(input), Ok(JsonValue::String(expected.to_string())));
}

#[test]
fn unicode_escapes_are_unsupported() {
    assert!(parse("\"\\u0041\"").is_err());
    assert!(parse("\"\\x\"").is_err());
}

#[test]
fn number_grammar_accepts() {
    for (text, value) in [
        ("0", 0.0),
        ("-0", -0.0),
        ("10", 10.0),
        ("1e10", 1e10),
        ("3.14E-2", 3.14e-2),
        ("-2.5e+3", -2.5e3),
    ] {
        match parse(text) {
            Ok(JsonValue::Number(t)) => {
                assert_eq!(t, text);
                assert_eq!(t.parse::<f64>().unwrap(), value);
            }
            other => panic!("expected a number for {}, got {:?}", text, other),
        }
    }
}

#[test]
fn number_grammar_rejects() {
    assert!(parse("-").is_err());
    assert!(parse("1.").is_err());
    assert!(parse("2e").is_err());
    assert!(parse("2e+").is_err());
    assert!(parse("-.5").is_err());
}

#[test]
fn leading_zero_stops_the_number() {
    // A `0` may not lead further digits, so only the zero is consumed
    // and the rest is trailing input at top level.
    assert_eq!(parse("01"), Ok(JsonValue::Number("0".to_string())));
    // Inside an array the leftover digit is a hard error.
    assert!(parse("[01]").is_err());
}

#[test]
fn trailing_input_is_ignored() {
    assert_eq!(parse("null garbage"), Ok(JsonValue::Null));
    assert_eq!(parse("nullx"), Ok(JsonValue::Null));
}

#[test]
fn unicode_whitespace_is_skipped() {
    assert_eq!(parse("\u{00A0}\u{2028}\t true"), Ok(JsonValue::Boolean(true)));
}

#[test]
fn partial_literals_fail() {
    assert!(parse("tru").is_err());
    assert!(parse("fals").is_err());
    assert!(parse("nul").is_err());
}

#[test]
fn duplicate_keys_last_write_wins() {
    match parse("{\"a\": 1, \"a\": 2}") {
        Ok(JsonValue::Object(entries)) => {
            assert_eq!(entries.len(), 1);
            assert_eq!(entries[0].0, "a");
            assert_eq!(entries[0].1, JsonValue::Number("2".to_string()));
        }
        other => panic!("expected an object, got {:?}", other),
    }
}

#[test]
fn no_whitespace_allowed_before_colon() {
    assert!(parse("{\"a\" : 1}").is_err());
    assert_eq!(
        parse("{\"a\":    1}"),
        Ok(JsonValue::Object(vec![(
            "a".to_string(),
            JsonValue::Number("1".to_string())
        )]))
    );
}

#[test]
fn malformed_structures_fail() {
    assert!(parse("").is_err());
    assert!(parse("   ").is_err());
    assert!(parse("[1, 2").is_err());
    assert!(parse("[1,]").is_err());
    assert!(parse("[1 2]").is_err());
    assert!(parse("{\"a\" 1}").is_err());
    assert!(parse("{\"a\": 1 \"b\": 2}").is_err());
    assert!(parse("(").is_err());
}

#[test]
fn errors_compare_equal_whatever_their_messages() {
    let a: JsonError = parse("{").unwrap_err();
    let b: JsonError = parse("tru").unwrap_err();
    assert_eq!(a, b);
    assert_eq!(parse("["), Err(parse("\"x").unwrap_err()));
}

#[test]
fn error_messages_describe_the_failure() {
    assert_eq!(parse("").unwrap_err().message().as_str(), "Unexpected end of input");
    assert_eq!(
        parse("\"abc").unwrap_err().message().as_str(),
        "Unterminated string"
    );
    assert_eq!(
        parse("{\"k\": 1,}").unwrap_err().message().as_str(),
        "Expected '\"' at start of string"
    );
}

#[test]
fn rendering_produces_canonical_text() {
    assert_eq!(parse("null").unwrap().to_text(), "null");
    assert_eq!(parse("true").unwrap().to_text(), "true");
    assert_eq!(parse("[]").unwrap().to_text(), "[]");
    assert_eq!(parse("{}").unwrap().to_text(), "{}");
    assert_eq!(parse("1.50").unwrap().to_text(), "1.50");
    assert_eq!(parse("[1,2 , 3]").unwrap().to_text(), "[1, 2, 3]");
    assert_eq!(
        parse("{\"a\": [true, \"x\"]}").unwrap().to_text(),
        "{\"a\": [true, \"x\"]}"
    );
}

#[test]
fn reparsing_rendered_text_gives_an_equal_value() {
    for text in [
        "null",
        "false",
        "-12.5e3",
        "\"plain text\"",
        "[1, [2, []], {\"k\": null}]",
        "{\"name\": \"John\", \"age\": 30, \"tags\": [\"a\", \"b\"]}",
    ] {
        let v = parse(text).unwrap();
        let rendered = v.to_text();
        assert_eq!(parse(&rendered), Ok(v));
    }
}

#[test]
fn cursor_primitives_behave() {
    let mut p = Parser::new("  \t x");
    p.skip_whitespace();
    assert!(p.consume_literal("x"));

    let mut p2 = Parser::new("truthy");
    assert!(!p2.consume_literal("true"));

    let mut p3 = Parser::new("\"a\\tb\"");
    assert_eq!(p3.parse_string(), Ok("a\tb".to_string()));
}
