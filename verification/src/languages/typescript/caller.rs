//! How the TypeScript caller spells the feature model: type annotations,
//! parameter lists, the values it sends across the bridge and how it reads
//! the answers.
use vstd::prelude::*;

use crate::features::{
    lemma_type_models_index, type_model, type_models, type_path_model, PrimitiveType, Type, TypeModel,
    TypeParameter, ValueParameter,
};
use crate::text::{join_seqs, join_strings, owned, string_views};

verus! {

/// The annotation the caller gives a type: `number`, `string` and
/// `boolean` for the primitives, `any` for a dynamic type, `T[]` for an
/// array, `[..]` for a tuple, and a composite's bare name.
pub open spec fn type_annotation(t: TypeModel) -> Seq<char>
    decreases t,
{
    match t {
        TypeModel::Primitive(PrimitiveType::Number) => "number"@,
        TypeModel::Primitive(PrimitiveType::String) => "string"@,
        TypeModel::Primitive(PrimitiveType::Boolean) => "boolean"@,
        TypeModel::Composite(path) => path.name,
        TypeModel::Array(inner) => type_annotation(*inner) + "[]"@,
        TypeModel::Tuple(elements) => "["@ + join_seqs(type_annotations(elements), ", "@) + "]"@,
        TypeModel::Dynamic => "any"@,
    }
}

/// The annotations of `types`, in order.
pub open spec fn type_annotations(types: Seq<TypeModel>) -> Seq<Seq<char>>
    decreases types,
{
    if types.len() == 0 {
        Seq::empty()
    } else {
        type_annotations(types.drop_last()).push(type_annotation(types.last()))
    }
}

/// The annotations of a list of types, joined by `, `.
fn render_type_annotations(types: &Vec<Type>) -> (rendered: String)
    ensures
        rendered@ == join_seqs(type_annotations(type_models(types@)), ", "@),
    decreases types,
{
    let mut annotations: Vec<String> = Vec::new();
    let n = types.len();
    let mut i: usize = 0;
    proof {
        lemma_type_models_index(types@);
    }
    while i < n
        invariant
            n == types@.len(),
            0 <= i <= n,
            type_models(types@).len() == n,
            forall|j: int| 0 <= j < n ==> #[trigger] type_models(types@)[j] == type_model(types@[j]),
            string_views(annotations@) == type_annotations(type_models(types@).take(i as int)),
        decreases n - i,
    {
        let annotation = render_type_annotation(&types[i]);
        annotations.push(annotation);
        proof {
            let models = type_models(types@);
            assert(models.take(i + 1).drop_last() =~= models.take(i as int));
            assert(string_views(annotations@) =~= string_views(annotations@).drop_last().push(annotation@));
        }
        i = i + 1;
    }
    proof {
        assert(type_models(types@).take(n as int) =~= type_models(types@));
    }
    join_strings(&annotations, ", ")
}

/// The annotation the caller gives `t` (see [`type_annotation`]).
pub fn render_type_annotation(t: &Type) -> (annotation: String)
    ensures
        annotation@ == type_annotation(t@),
    decreases t,
{
    match t {
        Type::Primitive(PrimitiveType::Number) => String::from_str("number"),
        Type::Primitive(PrimitiveType::String) => String::from_str("string"),
        Type::Primitive(PrimitiveType::Boolean) => String::from_str("boolean"),
        Type::Composite(path) => {
            let ghost model = type_path_model(*path);
            proof {
                assert(t@ == TypeModel::Composite(model));
            }
            owned(path.name.as_str())
        },
        Type::Array(inner) => {
            let mut annotation = render_type_annotation(inner);
            annotation.append("[]");
            annotation
        },
        Type::Tuple(elements) => {
            let mut annotation = String::from_str("[");
            let inner = render_type_annotations(elements);
            annotation.append(inner.as_str());
            annotation.append("]");
            annotation
        },
        Type::Dynamic => String::from_str("any"),
    }
}

/// A parameter in a TypeScript signature: `...` before a variadic one
/// (whose annotation becomes an array), `?` after an optional one, then its
/// annotation.
pub open spec fn parameter_signature(parameter: ValueParameter) -> Seq<char> {
    let annotation = if parameter.variadic {
        type_annotation(parameter.value_type@) + "[]"@
    } else {
        type_annotation(parameter.value_type@)
    };
    let optional = if parameter.required || parameter.variadic {
        ""@
    } else {
        "?"@
    };
    let rest = if parameter.variadic {
        "..."@
    } else {
        ""@
    };
    rest + parameter.name@ + optional + ": "@ + annotation
}

/// A parameter in a TypeScript signature (see [`parameter_signature`]).
pub fn render_parameter_signature(parameter: &ValueParameter) -> (signature: String)
    ensures
        signature@ == parameter_signature(*parameter),
{
    let mut annotation = render_type_annotation(&parameter.value_type);
    if parameter.variadic {
        annotation.append("[]");
    }
    let mut signature = String::new();
    if parameter.variadic {
        signature.append("...");
    }
    signature.append(parameter.name.as_str());
    if !(parameter.required || parameter.variadic) {
        signature.append("?");
    }
    signature.append(": ");
    signature.append(annotation.as_str());
    proof {
        reveal_strlit("");
        assert(signature@ =~= parameter_signature(*parameter));
    }
    signature
}

/// The parameters of a TypeScript signature, joined by `, `.
pub fn render_parameters(parameters: &[ValueParameter]) -> (rendered: String)
    ensures
        rendered@ == join_seqs(parameters@.map_values(|p: ValueParameter| parameter_signature(p)), ", "@),
{
    let mut pieces: Vec<String> = Vec::new();
    let n = parameters.len();
    let mut i: usize = 0;
    while i < n
        invariant
            n == parameters@.len(),
            0 <= i <= n,
            string_views(pieces@) == parameters@.take(i as int).map_values(|p: ValueParameter| parameter_signature(p)),
        decreases n - i,
    {
        let piece = render_parameter_signature(&parameters[i]);
        let ghost before = string_views(pieces@);
        pieces.push(piece);
        proof {
            assert(string_views(pieces@) =~= before.push(piece@));
            assert(parameters@.take(i + 1) =~= parameters@.take(i as int).push(parameters@[i as int]));
        }
        i = i + 1;
    }
    proof {
        assert(parameters@.take(n as int) =~= parameters@);
    }
    join_strings(&pieces, ", ")
}

/// The indentation of the fields of a value sent across the bridge.
pub open spec fn field_indent() -> Seq<char> {
    "                    "@
}

/// A value sent across the bridge: an object with the given kind and value
/// expression.
pub open spec fn sent_value(kind: Seq<char>, value: Seq<char>) -> Seq<char> {
    "{\n"@ + field_indent() + "kind: "@ + kind + ",\n"@ + field_indent() + "value: "@ + value + ",\n"@
        + "                }"@
}

/// How the caller sends the value named `name` of type `t`: a number as an
/// integer or a float as it is, strings and booleans as they are, a
/// composite by its reference, anything else as a JSON string.
pub open spec fn parameter_value_expression(t: TypeModel, name: Seq<char>) -> Seq<char> {
    match t {
        TypeModel::Primitive(PrimitiveType::Number) => sent_value(
            "Number.isInteger("@ + name + ") ? \"integer\" : \"float\""@,
            name,
        ),
        TypeModel::Primitive(PrimitiveType::String) => sent_value("\"string\""@, name),
        TypeModel::Primitive(PrimitiveType::Boolean) => sent_value("\"boolean\""@, name),
        TypeModel::Composite(_) => sent_value("\"reference\""@, name + ".uuid"@),
        _ => sent_value("\"string\""@, "JSON.stringify("@ + name + ")"@),
    }
}

/// A value sent across the bridge with the kind and value expressions given.
fn render_sent_value(kind: &str, value: &str) -> (sent: String)
    ensures
        sent@ == sent_value(kind@, value@),
{
    let mut sent = String::from_str("{\n                    kind: ");
    sent.append(kind);
    sent.append(",\n                    value: ");
    sent.append(value);
    sent.append(",\n                }");
    proof {
        reveal_strlit("{\n                    kind: ");
        reveal_strlit(",\n                    value: ");
        reveal_strlit(",\n                }");
        reveal_strlit("{\n");
        reveal_strlit("                    ");
        reveal_strlit("kind: ");
        reveal_strlit(",\n");
        reveal_strlit("value: ");
        reveal_strlit("                }");
        assert(sent@ =~= sent_value(kind@, value@));
    }
    sent
}

/// How the caller sends the value named `name` of type `t` (see
/// [`parameter_value_expression`]).
pub fn render_parameter_value_expression(t: &Type, name: &str) -> (expression: String)
    ensures
        expression@ == parameter_value_expression(t@, name@),
{
    match t {
        Type::Primitive(PrimitiveType::Number) => {
            let mut kind = String::from_str("Number.isInteger(");
            kind.append(name);
            kind.append(") ? \"integer\" : \"float\"");
            render_sent_value(kind.as_str(), name)
        },
        Type::Primitive(PrimitiveType::String) => render_sent_value("\"string\"", name),
        Type::Primitive(PrimitiveType::Boolean) => render_sent_value("\"boolean\"", name),
        Type::Composite(_) => {
            let mut value = owned(name);
            value.append(".uuid");
            render_sent_value("\"reference\"", value.as_str())
        },
        _ => {
            let mut value = String::from_str("JSON.stringify(");
            value.append(name);
            value.append(")");
            render_sent_value("\"string\"", value.as_str())
        },
    }
}

/// The values sent for `parameters`, joined by `, `.
pub fn render_parameters_values(parameters: &[ValueParameter]) -> (rendered: String)
    ensures
        rendered@ == join_seqs(
            parameters@.map_values(|p: ValueParameter| parameter_value_expression(p.value_type@, p.name@)),
            ", "@,
        ),
{
    let mut pieces: Vec<String> = Vec::new();
    let n = parameters.len();
    let mut i: usize = 0;
    while i < n
        invariant
            n == parameters@.len(),
            0 <= i <= n,
            string_views(pieces@) == parameters@.take(i as int).map_values(
                |p: ValueParameter| parameter_value_expression(p.value_type@, p.name@),
            ),
        decreases n - i,
    {
        let piece = render_parameter_value_expression(&parameters[i].value_type, parameters[i].name.as_str());
        let ghost before = string_views(pieces@);
        pieces.push(piece);
        proof {
            assert(string_views(pieces@) =~= before.push(piece@));
            assert(parameters@.take(i + 1) =~= parameters@.take(i as int).push(parameters@[i as int]));
        }
        i = i + 1;
    }
    proof {
        assert(parameters@.take(n as int) =~= parameters@);
    }
    join_strings(&pieces, ", ")
}

/// A type parameter in a TypeScript signature: its name, and ` = ` and the
/// annotation of its default if it has one.
pub open spec fn type_parameter_text(parameter: TypeParameter) -> Seq<char> {
    match parameter.default {
        Some(d) => parameter.name@ + " = "@ + type_annotation(d@),
        None => parameter.name@,
    }
}

/// The type parameters of a TypeScript signature in angle brackets, or
/// nothing when there are none.
pub open spec fn type_parameters_text(parameters: Seq<TypeParameter>) -> Seq<char> {
    if parameters.len() == 0 {
        Seq::empty()
    } else {
        "<"@ + join_seqs(parameters.map_values(|p: TypeParameter| type_parameter_text(p)), ", "@) + ">"@
    }
}

/// The type parameters of a TypeScript signature (see
/// [`type_parameters_text`]).
pub fn render_type_parameters(parameters: &[TypeParameter]) -> (rendered: String)
    ensures
        rendered@ == type_parameters_text(parameters@),
{
    if parameters.len() == 0 {
        return String::new();
    }
    let mut pieces: Vec<String> = Vec::new();
    let n = parameters.len();
    let mut i: usize = 0;
    while i < n
        invariant
            n == parameters@.len(),
            0 <= i <= n,
            string_views(pieces@) == parameters@.take(i as int).map_values(|p: TypeParameter| type_parameter_text(p)),
        decreases n - i,
    {
        let mut piece = owned(parameters[i].name.as_str());
        match &parameters[i].default {
            Some(d) => {
                piece.append(" = ");
                let annotation = render_type_annotation(d);
                piece.append(annotation.as_str());
            },
            None => {},
        }
        let ghost before = string_views(pieces@);
        pieces.push(piece);
        proof {
            assert(piece@ =~= type_parameter_text(parameters@[i as int]));
            assert(string_views(pieces@) =~= before.push(piece@));
            assert(parameters@.take(i + 1) =~= parameters@.take(i as int).push(parameters@[i as int]));
        }
        i = i + 1;
    }
    proof {
        assert(parameters@.take(n as int) =~= parameters@);
    }
    let mut rendered = String::from_str("<");
    let joined = join_strings(&pieces, ", ");
    rendered.append(joined.as_str());
    rendered.append(">");
    rendered
}

/// The statements by which the caller reads the answer `value` of a call
/// returning `t`: numbers, strings and booleans after checking their kind,
/// a composite as an instance of `composite_name` made from the reference,
/// anything else as it is.
pub open spec fn response_body(t: TypeModel, composite_name: Seq<char>, value: Seq<char>) -> Seq<char> {
    let checked = |condition: Seq<char>|
        "            if ("@ + condition + ") {\n                return "@ + value + ".value;\n            }\n            throw new Error(\"Unexpected message kind\");\n"@;
    match t {
        TypeModel::Primitive(PrimitiveType::Number) => checked(
            value + ".kind === \"integer\" || "@ + value + ".kind === \"float\""@,
        ),
        TypeModel::Primitive(PrimitiveType::String) => checked(value + ".kind === \"string\""@),
        TypeModel::Primitive(PrimitiveType::Boolean) => checked(value + ".kind === \"boolean\""@),
        TypeModel::Composite(_) => "            if ("@ + value
            + ".kind !== \"reference\") {\n                throw new Error(\"Unexpected message kind\");\n            }\n            return "@
            + composite_name + ".__fromReference("@ + value + ".value);\n"@,
        _ => "            return "@ + value + ".value as never;\n"@,
    }
}

/// A caller takes a number answer sent as either an integer or a float, a
/// string answer sent as a string and a boolean answer sent as a boolean;
/// any other kind of message is an error.
pub proof fn law_primitive_answers_are_checked_by_kind(t: TypeModel, composite_name: Seq<char>, value: Seq<char>)
    ensures
        t == TypeModel::Primitive(PrimitiveType::Number) ==> response_body(t, composite_name, value)
            == "            if ("@ + value + ".kind === \"integer\" || "@ + value
            + ".kind === \"float\") {\n                return "@ + value
            + ".value;\n            }\n            throw new Error(\"Unexpected message kind\");\n"@,
        t == TypeModel::Primitive(PrimitiveType::String) ==> response_body(t, composite_name, value)
            == "            if ("@ + value + ".kind === \"string\") {\n                return "@ + value
            + ".value;\n            }\n            throw new Error(\"Unexpected message kind\");\n"@,
        t == TypeModel::Primitive(PrimitiveType::Boolean) ==> response_body(t, composite_name, value)
            == "            if ("@ + value + ".kind === \"boolean\") {\n                return "@ + value
            + ".value;\n            }\n            throw new Error(\"Unexpected message kind\");\n"@,
{
    reveal_strlit(".kind === \"integer\" || ");
    reveal_strlit(".kind === \"float\"");
    reveal_strlit(".kind === \"float\") {\n                return ");
    reveal_strlit(".kind === \"string\"");
    reveal_strlit(".kind === \"string\") {\n                return ");
    reveal_strlit(".kind === \"boolean\"");
    reveal_strlit(".kind === \"boolean\") {\n                return ");
    reveal_strlit(") {\n                return ");
    let tail = ".value;\n            }\n            throw new Error(\"Unexpected message kind\");\n"@;
    let open = "            if ("@;
    if t == TypeModel::Primitive(PrimitiveType::Number) {
        assert(response_body(t, composite_name, value) =~= open + value + ".kind === \"integer\" || "@ + value
            + ".kind === \"float\") {\n                return "@ + value + tail);
    } else if t == TypeModel::Primitive(PrimitiveType::String) {
        assert(response_body(t, composite_name, value) =~= open + value + ".kind === \"string\") {\n                return "@
            + value + tail);
    } else if t == TypeModel::Primitive(PrimitiveType::Boolean) {
        assert(response_body(t, composite_name, value) =~= open + value
            + ".kind === \"boolean\") {\n                return "@ + value + tail);
    }
}

/// The statements that return `value` once `condition` holds of it, else
/// throw.
fn render_checked_return(condition: &str, value: &str) -> (body: String)
    ensures
        body@ == "            if ("@ + condition@ + ") {\n                return "@ + value@
            + ".value;\n            }\n            throw new Error(\"Unexpected message kind\");\n"@,
{
    let mut body = String::from_str("            if (");
    body.append(condition);
    body.append(") {\n                return ");
    body.append(value);
    body.append(".value;\n            }\n            throw new Error(\"Unexpected message kind\");\n");
    body
}

/// The statements by which the caller reads the answer `value` of a call
/// returning `return_type` (see [`response_body`]).
pub fn render_response_body(return_type: &Type, composite_type_name: &str, send_message_value: &str) -> (body: String)
    ensures
        body@ == response_body(return_type@, composite_type_name@, send_message_value@),
{
    match return_type {
        Type::Primitive(PrimitiveType::Number) => {
            let mut condition = owned(send_message_value);
            condition.append(".kind === \"integer\" || ");
            condition.append(send_message_value);
            condition.append(".kind === \"float\"");
            render_checked_return(condition.as_str(), send_message_value)
        },
        Type::Primitive(PrimitiveType::String) => {
            let mut condition = owned(send_message_value);
            condition.append(".kind === \"string\"");
            render_checked_return(condition.as_str(), send_message_value)
        },
        Type::Primitive(PrimitiveType::Boolean) => {
            let mut condition = owned(send_message_value);
            condition.append(".kind === \"boolean\"");
            render_checked_return(condition.as_str(), send_message_value)
        },
        Type::Composite(_) => {
            let mut body = String::from_str("            if (");
            body.append(send_message_value);
            body.append(
                ".kind !== \"reference\") {\n                throw new Error(\"Unexpected message kind\");\n            }\n            return ",
            );
            body.append(composite_type_name);
            body.append(".__fromReference(");
            body.append(send_message_value);
            body.append(".value);\n");
            body
        },
        _ => {
            let mut body = String::from_str("            return ");
            body.append(send_message_value);
            body.append(".value as never;\n");
            body
        },
    }
}

} // verus!
