use json2pb::parser::{root, JsonValue, ParseError, ParseErrorKind};
use json2pb::numlit::JsonNum;

fn str_val(s: &str) -> JsonValue {
    JsonValue::Str(String::from(s))
}

#[test]
fn parses_object_in_member_order() {
    let v = root("{\"b\": true, \"a\": false}").unwrap();
    let expect = JsonValue::Object(vec![
        (String::from("b"), JsonValue::Boolean(true)),
        (String::from("a"), JsonValue::Boolean(false)),
    ]);
    assert_eq!(v, expect);
}

#[test]
fn parser_keeps_duplicate_keys() {
    // The syntax tree records every member; schema inference is what lets
    // the first occurrence of a duplicated key win.
    let v = root("{\"a\": 1, \"a\": 2}").unwrap();
    match v {
        JsonValue::Object(ms) => {
            assert_eq!(ms.len(), 2);
            assert_eq!(ms[0].0, "a");
            assert_eq!(ms[1].0, "a");
        },
        other => panic!("expected an object, got {:?}", other),
    }
}

#[test]
fn parses_array_root() {
    let v = root(" [ \"x\" , \"y\" ] ").unwrap();
    assert_eq!(v, JsonValue::Array(vec![str_val("x"), str_val("y")]));
}

#[test]
fn keeps_escapes_verbatim() {
    // The JSON text holds the two characters backslash and `t`; the parsed
    // string keeps them as written.
    let v = root("{\"s\": \"a\\tb\"}").unwrap();
    assert_eq!(
        v,
        JsonValue::Object(vec![(String::from("s"), str_val("a\\tb"))])
    );
}

#[test]
fn accepts_unicode_escapes_verbatim() {
    let v = root("{\"s\": \"\\u0041\\u00aF\"}").unwrap();
    assert_eq!(
        v,
        JsonValue::Object(vec![(String::from("s"), str_val("\\u0041\\u00aF"))])
    );
}

#[test]
fn rejects_bad_unicode_escape() {
    let e = root("{\"s\": \"\\u00g1\"}").unwrap_err();
    assert_eq!(e.kind, ParseErrorKind::InvalidEscape);
}

#[test]
fn error_position_points_at_missing_value() {
    // The failure is reported right where the value after `:` should start.
    let e = root("{\"a\": }").unwrap_err();
    assert_eq!(e, ParseError { pos: 6, kind: ParseErrorKind::ExpectedValue });
}

#[test]
fn rejects_trailing_content() {
    let e = root("{} x").unwrap_err();
    assert_eq!(e, ParseError { pos: 3, kind: ParseErrorKind::TrailingContent });
}

#[test]
fn rejects_unterminated_string() {
    let e = root("{\"a").unwrap_err();
    assert_eq!(e.kind, ParseErrorKind::UnterminatedString);
}

#[test]
fn rejects_invalid_escape() {
    let e = root("{\"a\": \"\\q\"}").unwrap_err();
    assert_eq!(e, ParseError { pos: 8, kind: ParseErrorKind::InvalidEscape });
}

#[test]
fn rejects_missing_colon() {
    let e = root("{\"a\" 1}").unwrap_err();
    assert_eq!(e, ParseError { pos: 5, kind: ParseErrorKind::ExpectedColon });
}

#[test]
fn rejects_missing_comma() {
    let e = root("{\"a\":1 \"b\":2}").unwrap_err();
    assert_eq!(e, ParseError { pos: 7, kind: ParseErrorKind::ExpectedCommaOrBrace });
}

#[test]
fn rejects_trailing_comma() {
    let e = root("{\"a\":1,}").unwrap_err();
    assert_eq!(e.kind, ParseErrorKind::ExpectedString);
}

#[test]
fn rejects_scalar_root() {
    let e = root("42").unwrap_err();
    assert_eq!(e, ParseError { pos: 0, kind: ParseErrorKind::ExpectedRoot });
}

#[test]
fn rejects_empty_input() {
    let e = root("   ").unwrap_err();
    assert_eq!(e.kind, ParseErrorKind::ExpectedRoot);
}

#[test]
fn rejects_null_literal() {
    // JSON null has no mapping in this grammar: it is a parse error.
    let e = root("{\"a\": null}").unwrap_err();
    assert_eq!(e, ParseError { pos: 6, kind: ParseErrorKind::ExpectedValue });
}

#[test]
fn rejects_incomplete_fraction() {
    let e = root("{\"a\": 5.}").unwrap_err();
    assert_eq!(e, ParseError { pos: 8, kind: ParseErrorKind::ExpectedDigit });
}

#[test]
fn number_classification_is_by_value() {
    // 5.0 and 5 denote the same value, so both count as integers.
    let v = root("{\"a\": 5.0, \"b\": 5, \"c\": 0.5, \"d\": -7e2, \"e\": 12e-1}").unwrap();
    let expect = JsonValue::Object(vec![
        (String::from("a"), JsonValue::Num(JsonNum { integral: true, in_bound: true })),
        (String::from("b"), JsonValue::Num(JsonNum { integral: true, in_bound: true })),
        (String::from("c"), JsonValue::Num(JsonNum { integral: false, in_bound: false })),
        (String::from("d"), JsonValue::Num(JsonNum { integral: true, in_bound: true })),
        (String::from("e"), JsonValue::Num(JsonNum { integral: false, in_bound: false })),
    ]);
    assert_eq!(v, expect);
}

#[test]
fn number_safe_integer_boundary() {
    let v = root("{\"a\": 9007199254740991, \"b\": 9007199254740992, \"c\": -9007199254740991}")
        .unwrap();
    let expect = JsonValue::Object(vec![
        (String::from("a"), JsonValue::Num(JsonNum { integral: true, in_bound: true })),
        (String::from("b"), JsonValue::Num(JsonNum { integral: true, in_bound: false })),
        (String::from("c"), JsonValue::Num(JsonNum { integral: true, in_bound: true })),
    ]);
    assert_eq!(v, expect);
}

#[test]
fn number_huge_exponents() {
    // A zero mantissa is zero whatever the scale; a nonzero one with a huge
    // positive scale is out of bounds, with a huge negative scale fractional.
    let v = root(
        "{\"a\": 0e99999999999999999999999999, \"b\": 2e99999999999999999999999999, \"c\": 2e-99999999999999999999999999}",
    )
    .unwrap();
    let expect = JsonValue::Object(vec![
        (String::from("a"), JsonValue::Num(JsonNum { integral: true, in_bound: true })),
        (String::from("b"), JsonValue::Num(JsonNum { integral: true, in_bound: false })),
        (String::from("c"), JsonValue::Num(JsonNum { integral: false, in_bound: false })),
    ]);
    assert_eq!(v, expect);
}

#[test]
fn number_trailing_zeros_cancel_exponent() {
    // 1200e-2 is 12; 120e-3 is 0.12.
    let v = root("{\"a\": 1200e-2, \"b\": 120e-3}").unwrap();
    let expect = JsonValue::Object(vec![
        (String::from("a"), JsonValue::Num(JsonNum { integral: true, in_bound: true })),
        (String::from("b"), JsonValue::Num(JsonNum { integral: false, in_bound: false })),
    ]);
    assert_eq!(v, expect);
}

#[test]
fn depth_limit_reports_dedicated_error() {
    let deep = "[".repeat(501);
    let e = root(&deep).unwrap_err();
    assert_eq!(e, ParseError { pos: 500, kind: ParseErrorKind::TooDeep });

    let mut ok = "[".repeat(500);
    ok.push('1');
    ok.push_str(&"]".repeat(500));
    assert!(root(&ok).is_ok());
}

#[test]
fn describe_names_the_expectation() {
    let e = root("{\"a\": }").unwrap_err();
    assert_eq!(e.describe(), "expected a JSON value");
}

#[test]
fn rejects_non_key_in_object() {
    let e = root("{1}").unwrap_err();
    assert_eq!(e, ParseError { pos: 1, kind: ParseErrorKind::ExpectedMember });
}

#[test]
fn rejects_missing_comma_in_array() {
    let e = root("[1 2]").unwrap_err();
    assert_eq!(e, ParseError { pos: 3, kind: ParseErrorKind::ExpectedCommaOrBracket });
}

#[test]
fn rejects_raw_control_character_in_string() {
    let e = root("{\"a\": \"x\ty\"}").unwrap_err();
    assert_eq!(e, ParseError { pos: 8, kind: ParseErrorKind::ControlCharacter });
}
