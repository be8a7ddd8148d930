use ptip_ffi::features::{AnonymousCallable, FunctionDefinition, Module, Type, TypeDefinition, ValueParameter};
use ptip_ffi::languages::python::parser::{add_method, parse, sanitize_source};
use ptip_ffi::parser::ParserError;

fn parse_or_panic(input: &str) -> Module {
    match parse(input) {
        Ok(module) => module,
        Err(error) => panic!("parse failed: {:?}", error),
    }
}

#[test]
fn parses_top_level_functions_and_classes_with_dynamic_types() {
    let module = parse_or_panic(
        r#"
def add(left: int, right: list[str]) -> int:
    return left + right

class Box[T](Generic[T]):
    pass
"#,
    );

    assert_eq!(module.functions.len(), 1);
    assert_eq!(module.types.len(), 1);
    assert!(matches!(module.functions[0].callable.positional_parameters[0].value_type, Type::Dynamic));
    assert!(matches!(module.functions[0].callable.positional_parameters[1].value_type, Type::Dynamic));
    assert!(matches!(module.functions[0].callable.return_type, Type::Dynamic));
    assert_eq!(module.types[0].name, "Box");
}

#[test]
fn parses_class_methods_and_constructor() {
    let module = parse_or_panic(
        r#"
class Point:
    def __init__(self, x: int, y: int) -> None:
        pass

    def distance_to_origin(self) -> float:
        pass
"#,
    );

    let point = &module.types[0];
    assert!(point.default_constructor.is_some());
    assert_eq!(point.methods.len(), 1);
    assert_eq!(point.methods[0].name, "distance_to_origin");
    assert!(point.methods[0].callable.positional_parameters.is_empty());
}

#[test]
fn sanitizing_keeps_headers_and_blank_lines_only() {
    let source = "import os\n\ndef f(a,\n      b): return a\n    x = 1\nclass C(Base):\n    y = 2\n";
    assert_eq!(sanitize_source(source), "\ndef f(a,\n      b): return a\nclass C(Base):\n");
}

#[test]
fn sanitizing_ignores_colons_inside_brackets() {
    let source = "def f(a: int, b: dict[str, int] = {}) -> int:\n    pass\n";
    assert_eq!(sanitize_source(source), "def f(a: int, b: dict[str, int] = {}) -> int:\n");
}

#[test]
fn sanitizing_drops_carriage_returns_before_newlines() {
    assert_eq!(sanitize_source("def g():\r\n    pass\r\n"), "def g():\n");
}

#[test]
fn parameters_with_defaults_are_optional_and_starred_are_variadic() {
    let module = parse_or_panic("def f(a, b=1, *args, c: int = 2):\n    pass\n");
    let parameters = &module.functions[0].callable.positional_parameters;
    assert_eq!(parameters.len(), 4);
    assert_eq!(parameters[0].name, "a");
    assert!(parameters[0].required);
    assert_eq!(parameters[1].name, "b");
    assert!(!parameters[1].required);
    assert_eq!(parameters[2].name, "args");
    assert!(parameters[2].variadic);
    assert_eq!(parameters[3].name, "c");
    assert!(!parameters[3].required);
}

#[test]
fn nested_definitions_are_not_top_level() {
    let module = parse_or_panic("def outer():\n    def inner():\n        pass\n    return inner\n");
    assert_eq!(module.functions.len(), 1);
    assert_eq!(module.functions[0].name, "outer");
}

#[test]
fn method_header_split_over_lines_is_an_error() {
    let result = parse("class A:\n    def m(self,\n          x):\n        pass\n");
    assert!(matches!(result, Err(ParserError::UnexpectedEof)));
}

fn parameter(name: &str) -> ValueParameter {
    ValueParameter { name: name.to_string(), value_type: Type::Dynamic, required: true, variadic: false, nullable: false }
}

fn function(name: &str, parameters: Vec<ValueParameter>) -> FunctionDefinition {
    FunctionDefinition {
        name: name.to_string(),
        callable: AnonymousCallable {
            positional_parameters: parameters,
            named_parameters: Vec::new(),
            return_type: Type::Dynamic,
            type_parameters: Vec::new(),
        },
    }
}

fn empty_type(name: &str) -> TypeDefinition {
    TypeDefinition {
        name: name.to_string(),
        properties: Vec::new(),
        default_constructor: None,
        named_constructors: Vec::new(),
        methods: Vec::new(),
        static_methods: Vec::new(),
        type_parameters: Vec::new(),
        implements: Vec::new(),
    }
}

#[test]
fn adding_methods_drops_self_and_sets_constructor() {
    let mut definition = empty_type("Point");
    add_method(&mut definition, function("__init__", vec![parameter("self"), parameter("x")]));
    add_method(&mut definition, function("norm", vec![parameter("self")]));
    add_method(&mut definition, function("helper", vec![parameter("other")]));
    let constructor = definition.default_constructor.as_ref().unwrap();
    assert_eq!(constructor.positional_parameters.len(), 1);
    assert_eq!(constructor.positional_parameters[0].name, "x");
    assert_eq!(definition.methods.len(), 2);
    assert_eq!(definition.methods[0].name, "norm");
    assert!(definition.methods[0].callable.positional_parameters.is_empty());
    assert!(!definition.methods[0].is_static);
    assert_eq!(definition.methods[1].name, "helper");
    assert_eq!(definition.methods[1].callable.positional_parameters[0].name, "other");
}

#[test]
fn source_without_definitions_gives_empty_module() {
    let module = parse_or_panic("x = 1\nprint(x)\n    def indented():\n");
    assert_eq!(module.functions.len(), 0);
    assert_eq!(module.types.len(), 0);
    assert_eq!(module.path.segments.len(), 0);
}

#[test]
fn empty_python_source_gives_empty_module() {
    let module = parse_or_panic("");
    assert_eq!(module.functions.len(), 0);
    assert_eq!(module.types.len(), 0);
}

