use ptip_ffi::features::{ModulePath, PrimitiveType, Type, TypeParameter, TypePath, ValueParameter};
use ptip_ffi::languages::typescript::caller::{
    render_parameter_signature, render_parameter_value_expression, render_parameters, render_parameters_values,
    render_response_body, render_type_annotation, render_type_parameters,
};

fn parameter(name: &str, value_type: Type, required: bool, variadic: bool) -> ValueParameter {
    ValueParameter { name: name.to_string(), value_type, required, variadic, nullable: false }
}

#[test]
fn caller_annotations_use_bare_names() {
    let point = Type::Composite(TypePath::new(ModulePath::new(vec!["geo"]), "Point".to_string()));
    assert_eq!(render_type_annotation(&point), "Point");
    let pair = Type::Tuple(vec![Type::Primitive(PrimitiveType::Number), Type::Array(Box::new(Type::Dynamic))]);
    assert_eq!(render_type_annotation(&pair), "[number, any[]]");
}

#[test]
fn signatures_mark_optional_and_rest_parameters() {
    assert_eq!(render_parameter_signature(&parameter("x", Type::Primitive(PrimitiveType::Number), true, false)), "x: number");
    assert_eq!(render_parameter_signature(&parameter("label", Type::Primitive(PrimitiveType::String), false, false)), "label?: string");
    assert_eq!(render_parameter_signature(&parameter("rest", Type::Dynamic, false, true)), "...rest: any[]");
    let parameters = vec![
        parameter("x", Type::Primitive(PrimitiveType::Number), true, false),
        parameter("flag", Type::Primitive(PrimitiveType::Boolean), false, false),
    ];
    assert_eq!(render_parameters(&parameters), "x: number, flag?: boolean");
}

#[test]
fn sent_values_carry_their_kind() {
    assert_eq!(
        render_parameter_value_expression(&Type::Primitive(PrimitiveType::Number), "x"),
        "{\n                    kind: Number.isInteger(x) ? \"integer\" : \"float\",\n                    value: x,\n                }"
    );
    let point = Type::Composite(TypePath::new(ModulePath::empty(), "Point".to_string()));
    assert_eq!(
        render_parameter_value_expression(&point, "p"),
        "{\n                    kind: \"reference\",\n                    value: p.uuid,\n                }"
    );
    let parameters = vec![parameter("s", Type::Primitive(PrimitiveType::String), true, false), parameter("d", Type::Dynamic, true, false)];
    assert_eq!(
        render_parameters_values(&parameters),
        "{\n                    kind: \"string\",\n                    value: s,\n                }, {\n                    kind: \"string\",\n                    value: JSON.stringify(d),\n                }"
    );
}

#[test]
fn type_parameters_list_defaults() {
    assert_eq!(render_type_parameters(&[]), "");
    let parameters = vec![
        TypeParameter { name: "T".to_string(), default: None },
        TypeParameter { name: "K".to_string(), default: Some(Type::Primitive(PrimitiveType::String)) },
    ];
    assert_eq!(render_type_parameters(&parameters), "<T, K = string>");
}

#[test]
fn responses_are_checked_before_they_are_returned() {
    assert_eq!(
        render_response_body(&Type::Primitive(PrimitiveType::Boolean), "f", "sendMessage.value"),
        "            if (sendMessage.value.kind === \"boolean\") {\n                return sendMessage.value.value;\n            }\n            throw new Error(\"Unexpected message kind\");\n"
    );
    let point = Type::Composite(TypePath::new(ModulePath::empty(), "Point".to_string()));
    assert_eq!(
        render_response_body(&point, "Point", "m"),
        "            if (m.kind !== \"reference\") {\n                throw new Error(\"Unexpected message kind\");\n            }\n            return Point.__fromReference(m.value);\n"
    );
    assert_eq!(render_response_body(&Type::Dynamic, "f", "m"), "            return m.value as never;\n");
}
