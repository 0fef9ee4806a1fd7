use tiny_json::parse;
use tiny_json::JsonValue;

#[test]
fn test_basic_values() {
    assert_eq!(parse("null"), Ok(JsonValue::Null));
    assert_eq!(parse("true"), Ok(JsonValue::Boolean(true)));
    assert_eq!(parse("false"), Ok(JsonValue::Boolean(false)));
    assert_eq!(parse("123"), Ok(JsonValue::Number("123".to_string())));
    assert_eq!(parse("-45.67"), Ok(JsonValue::Number("-45.67".to_string())));
    match parse("123") {
        Ok(JsonValue::Number(t)) => assert_eq!(t.parse::<f64>().unwrap(), 123.0),
        other => panic!("expected a number, got {:?}", other),
    }
    match parse("-45.67") {
        Ok(JsonValue::Number(t)) => assert_eq!(t.parse::<f64>().unwrap(), -45.67),
        other => panic!("expected a number, got {:?}", other),
    }
}

#[test]
fn test_strings() {
    assert_eq!(
        parse("\"hello\""),
        Ok(JsonValue::String("hello".to_string()))
    );
    assert_eq!(
        parse("\"hello\\nworld\""),
        Ok(JsonValue::String("hello\nworld".to_string()))
    );
}

#[test]
fn test_arrays() {
    assert_eq!(parse("[]"), Ok(JsonValue::Array(vec![])));

    let expected = JsonValue::Array(vec![
        JsonValue::Number("1".to_string()),
        JsonValue::Number("2".to_string()),
        JsonValue::Number("3".to_string()),
    ]);
    assert_eq!(parse("[1, 2, 3]"), Ok(expected));
    match parse("[1, 2, 3]") {
        Ok(JsonValue::Array(items)) => {
            let nums: Vec<f64> = items
                .iter()
                .map(|v| match v {
                    JsonValue::Number(t) => t.parse::<f64>().unwrap(),
                    other => panic!("expected a number, got {:?}", other),
                })
                .collect();
            assert_eq!(nums, vec![1.0, 2.0, 3.0]);
        }
        other => panic!("expected an array, got {:?}", other),
    }
}

#[test]
fn test_objects() {
    assert_eq!(parse("{}"), Ok(JsonValue::Object(vec![])));

    let entries = vec![
        ("name".to_string(), JsonValue::String("John".to_string())),
        ("age".to_string(), JsonValue::Number("30".to_string())),
    ];

    assert_eq!(
        parse("{\"name\": \"John\", \"age\": 30}"),
        Ok(JsonValue::Object(entries))
    );
    match parse("{\"name\": \"John\", \"age\": 30}") {
        Ok(JsonValue::Object(entries)) => {
            assert_eq!(entries.len(), 2);
            let age = entries.iter().find(|(k, _)| k == "age").unwrap();
            match &age.1 {
                JsonValue::Number(t) => assert_eq!(t.parse::<f64>().unwrap(), 30.0),
                other => panic!("expected a number, got {:?}", other),
            }
        }
        other => panic!("expected an object, got {:?}", other),
    }
}

#[test]
fn test_nested_structures() {
    let json = r#"{"data": {"users": [{"id": 1, "name": "Alice"}]}}"#;

    match parse(json) {
        Ok(JsonValue::Object(entries)) => {
            assert!(entries.iter().any(|(k, _)| k == "data"));
        }
        _ => panic!("Failed to parse"),
    }
}

#[test]
fn test_errors() {
    assert!(parse("{").is_err());
    assert!(parse("\"unclosed string").is_err());
    assert!(parse("{\"key\": 1,}").is_err());
}
