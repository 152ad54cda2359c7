use wscrpt::json::JsonValue;

#[test]
fn strict_json_round_trips_unicode_surrogates_and_lossless_numbers() {
    let source = r#"{"emoji":"\ud83d\udc69‍💻","escaped":"line\n\t","number":-12.50e+3,"array":[true,null]}"#;
    let parsed = JsonValue::parse(source).unwrap();
    assert_eq!(parsed.get("emoji").and_then(JsonValue::as_str), Some("👩‍💻"));
    assert!(matches!(
        parsed.get("number"),
        Some(JsonValue::Number(number)) if number.as_str() == "-12.50e+3"
    ));
    assert_eq!(JsonValue::parse(&parsed.to_json_string()).unwrap(), parsed);
}

#[test]
fn strict_json_rejects_duplicates_bad_numbers_surrogates_and_trailing_data() {
    for invalid in [
        r#"{"a":1,"a":2}"#,
        "01",
        "1.",
        r#""\ud800""#,
        r#""\udc00""#,
        "true false",
        "[1,]",
    ] {
        assert!(JsonValue::parse(invalid).is_err(), "accepted {invalid:?}");
    }
}

#[test]
fn json_failures_name_the_byte_offset_and_the_reason() {
    for (source, offset, message) in [
        ("", 0, "unexpected end of input"),
        ("nul", 0, "expected null"),
        ("tru", 0, "expected true"),
        ("fals", 0, "expected false"),
        ("?", 0, "expected a JSON value"),
        (" 1 2", 3, "trailing characters after JSON value"),
        ("01", 1, "leading zero in number"),
        ("-", 1, "invalid number"),
        ("1.", 2, "number fraction has no digits"),
        ("1e+", 3, "number exponent has no digits"),
        ("\"é", 3, "unterminated string"),
        ("\"\\", 2, "unterminated string escape"),
        ("\"\\x\"", 3, "invalid string escape"),
        ("\"\n\"", 1, "unescaped control character in string"),
        ("\"\\u12", 3, "short Unicode escape"),
        ("\"\\u12g4\"", 3, "invalid Unicode escape"),
        ("\"\\ud800\"", 7, "high surrogate is not followed by a low surrogate"),
        ("\"\\ud800\\u0041\"", 13, "invalid low surrogate"),
        ("\"\\udc00\"", 7, "unpaired low surrogate"),
        ("[1 2]", 3, "expected ',' or ']' in array"),
        ("{1:2}", 1, "object keys must be strings"),
        ("{\"a\" 1}", 5, "expected ':' after object key"),
        ("{\"a\":1 \"b\":2}", 7, "expected ',' or '}' in object"),
        ("{\"a\":1,\"a\":2}", 12, "duplicate object key \"a\""),
    ] {
        let error = JsonValue::parse(source).unwrap_err();
        assert_eq!((error.offset, error.message.as_str()), (offset, message), "{source}");
        assert_eq!(
            error.describe(),
            format!("invalid JSON at byte {offset}: {message}")
        );
    }
    let deep = format!("{}{}", "[".repeat(130), "]".repeat(130));
    assert_eq!(
        JsonValue::parse(&deep).unwrap_err().message,
        "JSON nesting limit exceeded"
    );
}

#[test]
fn canonical_text_sorts_members_and_escapes_controls() {
    let value = JsonValue::parse(" { \"b\" : \"\\u0001\\\"\\\\\" , \"a\" : [ ] } ").unwrap();
    assert_eq!(value.to_json_string(), r#"{"a":[],"b":"\u0001\"\\"}"#);
    assert_eq!(JsonValue::unsigned(u64::MAX).as_u64(), Some(u64::MAX));
    assert_eq!(JsonValue::signed(i64::MIN).as_i64(), Some(i64::MIN));
    assert_eq!(JsonValue::parse("18446744073709551616").unwrap().as_u64(), None);
    assert!(value.contains_key("a") && !value.contains_key("c"));
}
