use ptip_ffi::features::{PrimitiveType, Type};
use ptip_ffi::languages::cpp::parser::{parse, split_top_level_commas, split_top_level_semicolons};

#[test]
fn parses_named_function_definition() {
    let module = parse("int add(int x, int y) { return x + y; }").unwrap();
    assert_eq!(module.functions.len(), 1);
    assert_eq!(module.functions[0].name, "add");
}

#[test]
fn parses_struct_definition() {
    let module = parse("struct Point { int x; int y; };\n").unwrap();
    assert_eq!(module.types.len(), 1);
    assert_eq!(module.types[0].name, "Point");
}

#[test]
fn parses_class_with_method() {
    let module = parse("class Widget { public: Widget(int value); int get_value() const; };\n").unwrap();
    assert_eq!(module.types.len(), 1);
    assert_eq!(module.types[0].name, "Widget");
    assert_eq!(module.types[0].methods.len(), 1);
}

#[test]
fn parses_generic_function_template() {
    let module = parse("template <typename T> T identity(T value) { return value; }").unwrap();
    assert_eq!(module.functions.len(), 1);
    assert_eq!(module.functions[0].name, "identity");
    assert_eq!(module.functions[0].callable.type_parameters.len(), 1);
}

#[test]
fn parses_generic_struct_template() {
    let module = parse("template <typename T> struct Box { T value; };\n").unwrap();
    assert_eq!(module.types.len(), 1);
    assert_eq!(module.types[0].name, "Box");
    assert_eq!(module.types[0].type_parameters.len(), 1);
}

#[test]
fn function_parameters_and_return_type_are_read() {
    let module = parse("double scale(double factor, const char* label);").unwrap();
    assert_eq!(module.functions.len(), 1);
    let callable = &module.functions[0].callable;
    assert_eq!(callable.positional_parameters.len(), 2);
    assert_eq!(callable.positional_parameters[0].name, "factor");
    assert!(matches!(callable.positional_parameters[0].value_type, Type::Primitive(PrimitiveType::Number)));
    assert_eq!(callable.positional_parameters[1].name, "label");
    match &callable.positional_parameters[1].value_type {
        Type::Composite(path) => assert_eq!(path.name, "char"),
        _ => panic!("a pointer to char is read as the type char"),
    }
    assert!(matches!(callable.return_type, Type::Primitive(PrimitiveType::Number)));
}

#[test]
fn struct_properties_are_read() {
    let module = parse("struct Point { int x; bool visible; };").unwrap();
    assert_eq!(module.types[0].properties.len(), 2);
    assert_eq!(module.types[0].properties[0].0, "x");
    assert_eq!(module.types[0].properties[1].0, "visible");
    assert!(matches!(module.types[0].properties[1].1, Type::Primitive(PrimitiveType::Boolean)));
}

#[test]
fn empty_source_gives_empty_module() {
    let module = parse("").unwrap();
    assert_eq!(module.functions.len(), 0);
    assert_eq!(module.types.len(), 0);
    assert_eq!(module.path.segments.len(), 0);
}

#[test]
fn top_level_commas_ignore_nested_brackets() {
    let pieces = split_top_level_commas("std::map<int, int> m, int (*f)(int, int), char c");
    assert_eq!(pieces, vec!["std::map<int, int> m", "int (*f)(int, int)", "char c"]);
}

#[test]
fn top_level_semicolons_ignore_nested_braces() {
    let pieces = split_top_level_semicolons("int x; struct { int y; } z; int w");
    assert_eq!(pieces.len(), 3);
    assert_eq!(pieces[0], "int x");
    assert_eq!(pieces[1], "struct { int y; } z");
    assert_eq!(pieces[2], "int w");
}
