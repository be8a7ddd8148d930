use ptip_ffi::features::{ModulePath, PrimitiveType, Type, TypePath, ValueParameter};
use ptip_ffi::languages::python::caller::{
    render_call_arguments, render_named_arguments, render_parameters, render_python_type_name,
};

fn parameter(name: &str, value_type: Type, required: bool, variadic: bool) -> ValueParameter {
    ValueParameter { name: name.to_string(), value_type, required, variadic, nullable: false }
}

#[test]
fn primitive_and_dynamic_types_have_python_names() {
    assert_eq!(render_python_type_name(&Type::Primitive(PrimitiveType::Number)), "float");
    assert_eq!(render_python_type_name(&Type::Primitive(PrimitiveType::String)), "str");
    assert_eq!(render_python_type_name(&Type::Primitive(PrimitiveType::Boolean)), "bool");
    assert_eq!(render_python_type_name(&Type::Dynamic), "Any");
}

#[test]
fn composite_types_carry_module_and_arguments() {
    let mut path = TypePath::new(ModulePath::new(vec!["geometry", "shapes"]), "Box".to_string());
    path.type_arguments = vec![Type::Primitive(PrimitiveType::Number), Type::Dynamic];
    assert_eq!(render_python_type_name(&Type::Composite(path)), "geometry.shapes.Box[float, Any]");
    let plain = TypePath::new(ModulePath::empty(), "Point".to_string());
    assert_eq!(render_python_type_name(&Type::Composite(plain)), "Point");
}

#[test]
fn arrays_and_tuples_are_lists_and_tuples() {
    let array = Type::Array(Box::new(Type::Primitive(PrimitiveType::String)));
    assert_eq!(render_python_type_name(&array), "list[str]");
    let tuple = Type::Tuple(vec![Type::Primitive(PrimitiveType::Boolean), array]);
    assert_eq!(render_python_type_name(&tuple), "tuple[bool, list[str]]");
}

#[test]
fn parameters_render_with_annotations_and_defaults() {
    let parameters = vec![
        parameter("x", Type::Primitive(PrimitiveType::Number), true, false),
        parameter("label", Type::Dynamic, false, false),
        parameter("rest", Type::Dynamic, true, true),
    ];
    assert_eq!(render_parameters(&parameters), "x: float, label: Any = None, *rest: Any");
    assert_eq!(
        render_call_arguments(&parameters),
        "python_to_parameter(x), python_to_parameter(label), python_to_parameter(rest)"
    );
    assert_eq!(
        render_named_arguments(&parameters[..1]),
        "\"x\": python_to_parameter(x)"
    );
    assert_eq!(render_parameters(&[]), "");
}
