use json2pb::parse_and_gen;
use json2pb::ConvertError;
use json2pb::parser::{root, ParseErrorKind};
use json2pb::pbgen::{visit_json_root, gen_pb_def, SchemaError};

#[test]
fn scalar_fields_numbered_in_key_order() {
    let out = parse_and_gen("{\"name\": \"deen\", \"ok\": true, \"score\": 98.5}").unwrap();
    assert_eq!(
        out,
        "message root_data {\n    string name = 1;\n    bool ok = 2;\n    double score = 3;\n}\n"
    );
}

#[test]
fn numeric_boundary_types() {
    let out = parse_and_gen(
        "{\"a\": 9007199254740991, \"b\": 1.5, \"c\": 9007199254740993}",
    )
    .unwrap();
    assert_eq!(
        out,
        "message root_data {\n    int64 a = 1;\n    double b = 2;\n    double c = 3;\n}\n"
    );
}

#[test]
fn escaped_string_field_is_a_string() {
    let out = parse_and_gen("{\"s\": \"a\\tb\", \"u\": \"\\u0041\"}").unwrap();
    assert_eq!(out, "message root_data {\n    string s = 1;\n    string u = 2;\n}\n");
}

#[test]
fn empty_object_at_root_is_an_error() {
    assert_eq!(
        parse_and_gen("{}"),
        Err(ConvertError::Schema(SchemaError::EmptyObject))
    );
}

#[test]
fn array_at_root_is_an_error() {
    assert_eq!(
        parse_and_gen("[1, 2]"),
        Err(ConvertError::Schema(SchemaError::RootNotObject))
    );
}

#[test]
fn nested_object_becomes_nested_message() {
    let out = parse_and_gen("{\"a\": {\"x\": 1}}").unwrap();
    assert_eq!(
        out,
        "message root_data {\n    A a = 1;\n\n    message A {\n        int64 x = 1;\n    }\n}\n"
    );
}

#[test]
fn list_of_scalars_uses_first_element_type() {
    let out = parse_and_gen("{\"tags\": [\"x\", \"y\"]}").unwrap();
    assert_eq!(out, "message root_data {\n    repeated string tags = 1;\n}\n");
}

#[test]
fn heterogeneous_list_is_typed_by_first_element() {
    // Only the first element's shape is inspected.
    let out = parse_and_gen("{\"xs\": [\"x\", 1, true]}").unwrap();
    assert_eq!(out, "message root_data {\n    repeated string xs = 1;\n}\n");
}

#[test]
fn list_of_objects_becomes_repeated_message() {
    let out = parse_and_gen(
        "{\"name\": \"deen\", \"score\": 98.5, \"list\": [{\"i_name\": \"deen\"}, {\"i_name\": \"caibirdme\", \"i_age\": 26}]}",
    )
    .unwrap();
    assert_eq!(
        out,
        "message root_data {\n    string name = 1;\n    double score = 2;\n    repeated List list = 3;\n\n    message List {\n        string i_name = 1;\n    }\n}\n"
    );
}

#[test]
fn deeply_nested_objects_indent_per_level() {
    let out = parse_and_gen("{\"a\": {\"b\": {\"c\": true}}}").unwrap();
    assert_eq!(
        out,
        "message root_data {\n    A a = 1;\n\n    message A {\n        B b = 1;\n\n        message B {\n            bool c = 1;\n        }\n    }\n}\n"
    );
}

#[test]
fn empty_array_is_an_error() {
    assert_eq!(
        parse_and_gen("{\"xs\": []}"),
        Err(ConvertError::Schema(SchemaError::EmptyArray))
    );
}

#[test]
fn empty_nested_object_is_an_error() {
    assert_eq!(
        parse_and_gen("{\"a\": {}}"),
        Err(ConvertError::Schema(SchemaError::EmptyObject))
    );
}

#[test]
fn nested_array_is_an_error() {
    assert_eq!(
        parse_and_gen("{\"xs\": [[1]]}"),
        Err(ConvertError::Schema(SchemaError::NestedArrayUnsupported))
    );
}

#[test]
fn parse_errors_carry_position() {
    match parse_and_gen("{\"a\": }") {
        Err(ConvertError::Parse(e)) => {
            assert_eq!(e.pos, 6);
            assert_eq!(e.kind, ParseErrorKind::ExpectedValue);
        },
        other => panic!("expected a parse error, got {:?}", other),
    }
}

#[test]
fn field_named_with_underscores_gets_pascal_type() {
    let out = parse_and_gen("{\"inner_item\": {\"x\": 1}}").unwrap();
    assert_eq!(
        out,
        "message root_data {\n    InnerItem inner_item = 1;\n\n    message InnerItem {\n        int64 x = 1;\n    }\n}\n"
    );
}

#[test]
fn staged_pipeline_matches_parse_and_gen() {
    let text = "{\"a\": 1, \"b\": [true]}";
    let v = root(text).unwrap();
    let m = visit_json_root(&v).unwrap();
    assert_eq!(gen_pb_def(&m), parse_and_gen(text).unwrap());
}

#[test]
fn duplicate_keys_first_occurrence_wins() {
    let out = parse_and_gen("{\"a\": 1, \"a\": true}").unwrap();
    assert_eq!(out, "message root_data {\n    int64 a = 1;\n}\n");
}

#[test]
fn duplicate_keys_keep_field_positions() {
    let out = parse_and_gen("{\"a\": 1, \"b\": \"x\", \"a\": true, \"c\": false}").unwrap();
    assert_eq!(
        out,
        "message root_data {\n    int64 a = 1;\n    string b = 2;\n    bool c = 3;\n}\n"
    );
}

#[test]
fn duplicate_key_value_is_not_inspected() {
    // The later occurrence loses entirely: even a value that could not be
    // schematized on its own is ignored.
    let out = parse_and_gen("{\"a\": 1, \"a\": {}}").unwrap();
    assert_eq!(out, "message root_data {\n    int64 a = 1;\n}\n");
}
