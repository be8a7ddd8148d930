use ptip_ffi::features::{Module, ModulePath, PrimitiveType, Type, TypePath, ValueParameter};
use ptip_ffi::languages::typescript::callee::{
    library_import_path, module_import_path, render_dispatch_imports, module_namespace_name, render_call_arguments,
    render_parameter_value_expression, render_reference_return_body, render_request_body, render_return_body,
    render_type_annotation, render_update_body, sanitize_identifier,
};
use ptip_ffi::text::decimal_text;

#[test]
fn identifiers_are_sanitized() {
    assert_eq!(sanitize_identifier("geometry"), "geometry");
    assert_eq!(sanitize_identifier("my-module.v2"), "my_module_v2");
    assert_eq!(sanitize_identifier("2d"), "_2d");
    assert_eq!(sanitize_identifier(""), "_");
    assert_eq!(sanitize_identifier("née"), "n_e");
}

#[test]
fn namespaces_name_modules() {
    assert_eq!(module_namespace_name(&ModulePath::empty()), "library_root");
    assert_eq!(module_namespace_name(&ModulePath::new(vec!["geo-metry", "2d"])), "library_geo_metry__2d");
}

#[test]
fn library_imports_point_into_the_library() {
    assert_eq!(library_import_path(&ModulePath::empty()), "./library/index.ts");
    assert_eq!(library_import_path(&ModulePath::new(vec!["a", "b"])), "./library/a/b/index.ts");
}

#[test]
fn module_imports_are_relative() {
    let root = ModulePath::empty();
    let a = ModulePath::new(vec!["a"]);
    let ab = ModulePath::new(vec!["a", "b"]);
    let c = ModulePath::new(vec!["c"]);
    assert_eq!(module_import_path(&root, &root), "./index.ts");
    assert_eq!(module_import_path(&root, &a), "./a/index.ts");
    assert_eq!(module_import_path(&a, &ab), "./b/index.ts");
    assert_eq!(module_import_path(&ab, &c), "../../c/index.ts");
    assert_eq!(module_import_path(&a, &root), "../index.ts");
}

#[test]
fn annotations_follow_the_types() {
    let current = ModulePath::empty();
    assert_eq!(render_type_annotation(&Type::Primitive(PrimitiveType::Number), &current), "number");
    assert_eq!(render_type_annotation(&Type::Dynamic, &current), "any");
    let point = Type::Composite(TypePath::new(ModulePath::new(vec!["geo"]), "Point".to_string()));
    assert_eq!(render_type_annotation(&point, &current), "library_geo.Point");
    let list = Type::Array(Box::new(Type::Primitive(PrimitiveType::String)));
    assert_eq!(render_type_annotation(&list, &current), "string[]");
    let pair = Type::Tuple(vec![Type::Primitive(PrimitiveType::Boolean), list]);
    assert_eq!(render_type_annotation(&pair, &current), "[boolean, string[]]");
}

#[test]
fn decimal_numbers_are_written_out() {
    assert_eq!(decimal_text(0), "0");
    assert_eq!(decimal_text(7), "7");
    assert_eq!(decimal_text(40), "40");
    assert_eq!(decimal_text(1234567), "1234567");
}

#[test]
fn call_arguments_cast_positional_parameters() {
    let parameters = vec![
        ValueParameter {
            name: "x".to_string(),
            value_type: Type::Primitive(PrimitiveType::Number),
            required: true,
            variadic: false,
            nullable: false,
        },
        ValueParameter { name: "y".to_string(), value_type: Type::Dynamic, required: true, variadic: false, nullable: false },
    ];
    assert_eq!(
        render_call_arguments(&parameters, &ModulePath::empty()),
        "positionalParameters[0] as number, positionalParameters[1] as any"
    );
}

#[test]
fn parameter_values_are_cast_or_parsed() {
    let current = ModulePath::empty();
    assert_eq!(
        render_parameter_value_expression(&Type::Primitive(PrimitiveType::String), "value", &current),
        "value as string"
    );
    assert_eq!(render_parameter_value_expression(&Type::Dynamic, "value", &current), "JSON.parse(value as string) as any");
}

#[test]
fn bodies_return_and_update_values() {
    assert_eq!(
        render_return_body(&Type::Primitive(PrimitiveType::Boolean), "result", "returnSink"),
        "                return { kind: \"boolean\", value: result };"
    );
    assert_eq!(
        render_return_body(&Type::Dynamic, "result", "returnSink"),
        "                return { kind: \"string\", value: JSON.stringify(result) };"
    );
    let point = Type::Composite(TypePath::new(ModulePath::empty(), "Point".to_string()));
    assert_eq!(
        render_return_body(&point, "result", "returnSink"),
        render_reference_return_body("result", "returnSink")
    );
    assert_eq!(
        render_reference_return_body("result", "returnSink"),
        "                instanceRegistry.set(returnSink, result);\n                return { kind: \"reference\", value: returnSink };"
    );
    assert_eq!(
        render_request_body(&Type::Primitive(PrimitiveType::Number), "x"),
        "                return { kind: \"float\", value: typedParent.x };"
    );
    assert_eq!(
        render_request_body(&point, "origin"),
        "                const newReference = crypto.randomUUID();\n                instanceRegistry.set(newReference, typedParent.origin);\n                return { kind: \"reference\", value: newReference };"
    );
    assert_eq!(render_update_body("x", "value as number"), "                typedParent.x = value as number;\n                return;");
}

#[test]
fn sanitizing_twice_changes_nothing() {
    for input in ["my-module", "9lives", "", "ok_name", "ünï"] {
        let once = sanitize_identifier(input);
        assert_eq!(sanitize_identifier(&once), once);
    }
}

#[test]
fn dispatcher_imports_every_module() {
    let root = Module { path: ModulePath::empty(), functions: Vec::new(), types: Vec::new() };
    let nested = Module { path: ModulePath::new(vec!["geo", "2d"]), functions: Vec::new(), types: Vec::new() };
    assert_eq!(
        render_dispatch_imports(&[&root, &nested]),
        "import * as library_root from \"./library/index.ts\";\nimport * as library_geo__2d from \"./library/geo/2d/index.ts\";"
    );
    assert_eq!(render_dispatch_imports(&[]), "");
}
