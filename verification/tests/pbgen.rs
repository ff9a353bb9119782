use json2pb::pbgen::{gen_pb_def, to_message_name, IdentBuffer, Message, ObjField, BaseValue, ScalarValue};

#[test]
fn test_to_message_name() {
    let test_cases = vec![
        ("foo", "Foo"),
        ("foo_bar_baz", "FooBarBaz"),
        ("", "DefaultMessageName"),
        ("FOO_BAR_BAZ", "FooBarBaz"),
        ("foo_4321", "Foo4321"),
        ("foO_123_bAR_4", "Foo123Bar4"),
        ("___foo___bar", "FooBar"),
    ];
    for (s, expect) in test_cases {
        assert_eq!(to_message_name(s), expect);
    }
}

#[test]
fn test_scalar_names() {
    assert_eq!(ScalarValue::Str.to_string(), "string");
    assert_eq!(ScalarValue::Bool.to_string(), "bool");
    assert_eq!(ScalarValue::Double.to_string(), "double");
    assert_eq!(ScalarValue::Int64.to_string(), "int64");
}

#[test]
fn test_ident_buffer_tracks_indentation() {
    let mut buf = IdentBuffer::new(0);
    buf.writeln("a {");
    buf.add_ident(4);
    buf.writeln_with_ident("x;");
    buf.add_ident(4);
    buf.write_with_ident("y");
    buf.write(";");
    buf.writeln("");
    buf.dec_ident(4);
    buf.dec_ident(4);
    buf.writeln_with_ident("}");
    assert_eq!(buf.to_string(), "a {\n    x;\n        y;\n}\n");
}

#[test]
fn test_ident_buffer_dec_stops_at_zero() {
    let mut buf = IdentBuffer::new(2);
    buf.dec_ident(5);
    buf.write_with_ident("x");
    assert_eq!(buf.to_string(), "x");
}

#[test]
fn test_gen_pb_def_numbers_fields_by_position() {
    let mut m = Message::new();
    m.push(ObjField {
        field_type: BaseValue::Scalar(ScalarValue::Str),
        field_name: String::from("name"),
    });
    m.push(ObjField {
        field_type: BaseValue::Scalar(ScalarValue::Bool),
        field_name: String::from("ok"),
    });
    m.push(ObjField {
        field_type: BaseValue::Scalar(ScalarValue::Double),
        field_name: String::from("score"),
    });
    assert_eq!(
        gen_pb_def(&m),
        "message root_data {\n    string name = 1;\n    bool ok = 2;\n    double score = 3;\n}\n"
    );
}
