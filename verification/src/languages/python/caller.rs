//! How Python bindings spell the feature model: type annotations, parameter
//! lists and the arguments passed on to the bridge.
use vstd::prelude::*;

use crate::features::{
    lemma_type_models_index, type_model, type_models, type_path_model, PrimitiveType, Type, TypeModel, TypePathModel,
    ValueParameter,
};
use crate::text::{join_seqs, join_strings, owned, string_views};

verus! {

/// The Python annotation for a type: `float`, `str` and `bool` for the
/// primitives, `Any` for a dynamic type, `list[..]` and `tuple[..]` for
/// arrays and tuples, and a composite's dotted module path and name with
/// its type arguments in square brackets.
pub open spec fn python_type_name(t: TypeModel) -> Seq<char>
    decreases t,
{
    match t {
        TypeModel::Primitive(PrimitiveType::Number) => seq!['f', 'l', 'o', 'a', 't'],
        TypeModel::Primitive(PrimitiveType::String) => seq!['s', 't', 'r'],
        TypeModel::Primitive(PrimitiveType::Boolean) => seq!['b', 'o', 'o', 'l'],
        TypeModel::Dynamic => seq!['A', 'n', 'y'],
        TypeModel::Composite(path) => {
            let inner = if path.type_arguments.len() == 0 {
                path.name
            } else {
                path.name + seq!['['] + join_seqs(python_type_names(path.type_arguments), seq![',', ' '])
                    + seq![']']
            };
            if path.module.len() == 0 {
                inner
            } else {
                join_seqs(path.module, seq!['.']) + seq!['.'] + inner
            }
        },
        TypeModel::Array(inner) => seq!['l', 'i', 's', 't', '['] + python_type_name(*inner) + seq![']'],
        TypeModel::Tuple(elements) => seq!['t', 'u', 'p', 'l', 'e', '['] + join_seqs(
            python_type_names(elements),
            seq![',', ' '],
        ) + seq![']'],
    }
}

/// A composite type's annotation in a module other than the root is its
/// module's names joined by `.`, a `.`, and the annotation the same type
/// would have at the root, with or without type arguments; at the root it
/// is its name, followed by its type arguments in square brackets if it
/// has any.
pub proof fn law_composite_annotations_are_qualified(path: TypePathModel)
    ensures
        path.module.len() > 0 ==> python_type_name(TypeModel::Composite(path)) == join_seqs(path.module, seq!['.'])
            + seq!['.'] + python_type_name(TypeModel::Composite(TypePathModel { module: Seq::empty(), ..path })),
        path.module.len() == 0 && path.type_arguments.len() == 0 ==> python_type_name(TypeModel::Composite(path))
            == path.name,
        path.module.len() == 0 && path.type_arguments.len() > 0 ==> python_type_name(TypeModel::Composite(path))
            == path.name + seq!['['] + join_seqs(python_type_names(path.type_arguments), seq![',', ' ']) + seq![']'],
{
}

/// The Python annotations of `types`, in order.
pub open spec fn python_type_names(types: Seq<TypeModel>) -> Seq<Seq<char>>
    decreases types,
{
    if types.len() == 0 {
        Seq::empty()
    } else {
        python_type_names(types.drop_last()).push(python_type_name(types.last()))
    }
}

/// The annotations of a list of types, joined by `, `.
fn render_python_type_names(types: &Vec<Type>) -> (rendered: String)
    ensures
        rendered@ == join_seqs(python_type_names(type_models(types@)), seq![',', ' ']),
    decreases types,
{
    let mut names: Vec<String> = Vec::new();
    let n = types.len();
    let mut i: usize = 0;
    proof {
        lemma_type_models_index(types@);
    }
    while i < n
        invariant
            n == types@.len(),
            0 <= i <= n,
            type_models(types@).len() == n,
            forall|j: int| 0 <= j < n ==> #[trigger] type_models(types@)[j] == type_model(types@[j]),
            string_views(names@) == python_type_names(type_models(types@).take(i as int)),
        decreases n - i,
    {
        let name = render_python_type_name(&types[i]);
        names.push(name);
        proof {
            let models = type_models(types@);
            assert(models.take(i + 1).drop_last() =~= models.take(i as int));
            assert(string_views(names@) =~= string_views(names@).drop_last().push(name@));
        }
        i = i + 1;
    }
    proof {
        assert(type_models(types@).take(n as int) =~= type_models(types@));
        reveal_strlit(", ");
        assert(", "@ =~= seq![',', ' ']);
    }
    join_strings(&names, ", ")
}

/// The Python annotation for `t`.
pub fn render_python_type_name(t: &Type) -> (rendered: String)
    ensures
        rendered@ == python_type_name(t@),
    decreases t,
{
    proof {
        reveal_strlit("float");
        reveal_strlit("str");
        reveal_strlit("bool");
        reveal_strlit("Any");
        reveal_strlit("[");
        reveal_strlit("]");
        reveal_strlit(".");
        reveal_strlit("list[");
        reveal_strlit("tuple[");
        assert("float"@ =~= seq!['f', 'l', 'o', 'a', 't']);
        assert("str"@ =~= seq!['s', 't', 'r']);
        assert("bool"@ =~= seq!['b', 'o', 'o', 'l']);
        assert("Any"@ =~= seq!['A', 'n', 'y']);
        assert("["@ =~= seq!['[']);
        assert("]"@ =~= seq![']']);
        assert("."@ =~= seq!['.']);
        assert("list["@ =~= seq!['l', 'i', 's', 't', '[']);
        assert("tuple["@ =~= seq!['t', 'u', 'p', 'l', 'e', '[']);
    }
    let rendered = match t {
        Type::Primitive(PrimitiveType::Number) => String::from_str("float"),
        Type::Primitive(PrimitiveType::String) => String::from_str("str"),
        Type::Primitive(PrimitiveType::Boolean) => String::from_str("bool"),
        Type::Dynamic => String::from_str("Any"),
        Type::Composite(path) => {
            proof {
                lemma_type_models_index(path.type_arguments@);
                assert(path.module@.len() == path.module.segments@.len());
            }
            let mut inner = owned(path.name.as_str());
            if path.type_arguments.len() != 0 {
                inner.append("[");
                let arguments = render_python_type_names(&path.type_arguments);
                inner.append(arguments.as_str());
                inner.append("]");
            }
            let ghost model = type_path_model(*path);
            proof {
                assert(t@ == TypeModel::Composite(model));
                let expected_inner = if model.type_arguments.len() == 0 {
                    model.name
                } else {
                    model.name + seq!['['] + join_seqs(python_type_names(model.type_arguments), seq![',', ' ']) + seq![']']
                };
                assert(inner@ == expected_inner);
            }
            if path.module.segments.len() == 0 {
                inner
            } else {
                let mut rendered = path.module.format(".");
                rendered.append(".");
                rendered.append(inner.as_str());
                rendered
            }
        },
        Type::Array(inner) => {
            let mut rendered = String::from_str("list[");
            let element = render_python_type_name(inner);
            rendered.append(element.as_str());
            rendered.append("]");
            rendered
        },
        Type::Tuple(elements) => {
            let mut rendered = String::from_str("tuple[");
            let names = render_python_type_names(elements);
            rendered.append(names.as_str());
            rendered.append("]");
            rendered
        },
    };
    rendered
}

/// A parameter in a Python signature: its name and annotation, after `*`
/// when it is variadic and with a `None` default when it is optional.
pub open spec fn python_parameter(parameter: ValueParameter) -> Seq<char> {
    let annotated = parameter.name@ + ": "@ + python_type_name(parameter.value_type@);
    if parameter.variadic {
        "*"@ + annotated
    } else if parameter.required {
        annotated
    } else {
        annotated + " = None"@
    }
}

/// A parameter passed on to the bridge by position.
pub open spec fn call_argument(parameter: ValueParameter) -> Seq<char> {
    "python_to_parameter("@ + parameter.name@ + ")"@
}

/// A parameter passed on to the bridge by name.
pub open spec fn named_argument(parameter: ValueParameter) -> Seq<char> {
    "\""@ + parameter.name@ + "\": python_to_parameter("@ + parameter.name@ + ")"@
}

/// The parameters of a Python signature, joined by `, `.
pub fn render_parameters(parameters: &[ValueParameter]) -> (rendered: String)
    ensures
        rendered@ == join_seqs(parameters@.map_values(|p: ValueParameter| python_parameter(p)), ", "@),
{
    let mut pieces: Vec<String> = Vec::new();
    let n = parameters.len();
    let mut i: usize = 0;
    while i < n
        invariant
            n == parameters@.len(),
            0 <= i <= n,
            string_views(pieces@) == parameters@.take(i as int).map_values(|p: ValueParameter| python_parameter(p)),
        decreases n - i,
    {
        let parameter = &parameters[i];
        let annotation = render_python_type_name(&parameter.value_type);
        let mut piece = String::new();
        if parameter.variadic {
            piece.append("*");
        }
        piece.append(parameter.name.as_str());
        piece.append(": ");
        piece.append(annotation.as_str());
        if !parameter.variadic && !parameter.required {
            piece.append(" = None");
        }
        proof {
            assert(piece@ =~= python_parameter(parameters@[i as int]));
        }
        let ghost before = string_views(pieces@);
        pieces.push(piece);
        proof {
            assert(string_views(pieces@) =~= before.push(piece@));
            assert(parameters@.take(i + 1) =~= parameters@.take(i as int).push(parameters@[i as int]));
        }
        i = i + 1;
    }
    proof {
        assert(parameters@.take(n as int) =~= parameters@);
    }
    join_strings(&pieces, ", ")
}

/// The parameters passed on to the bridge by position, joined by `, `.
pub fn render_call_arguments(parameters: &[ValueParameter]) -> (rendered: String)
    ensures
        rendered@ == join_seqs(parameters@.map_values(|p: ValueParameter| call_argument(p)), ", "@),
{
    let mut pieces: Vec<String> = Vec::new();
    let n = parameters.len();
    let mut i: usize = 0;
    while i < n
        invariant
            n == parameters@.len(),
            0 <= i <= n,
            string_views(pieces@) == parameters@.take(i as int).map_values(|p: ValueParameter| call_argument(p)),
        decreases n - i,
    {
        let mut piece = String::from_str("python_to_parameter(");
        piece.append(parameters[i].name.as_str());
        piece.append(")");
        let ghost before = string_views(pieces@);
        pieces.push(piece);
        proof {
            assert(string_views(pieces@) =~= before.push(piece@));
            assert(parameters@.take(i + 1) =~= parameters@.take(i as int).push(parameters@[i as int]));
        }
        i = i + 1;
    }
    proof {
        assert(parameters@.take(n as int) =~= parameters@);
    }
    join_strings(&pieces, ", ")
}

/// The parameters passed on to the bridge by name, joined by `, `.
pub fn render_named_arguments(parameters: &[ValueParameter]) -> (rendered: String)
    ensures
        rendered@ == join_seqs(parameters@.map_values(|p: ValueParameter| named_argument(p)), ", "@),
{
    let mut pieces: Vec<String> = Vec::new();
    let n = parameters.len();
    let mut i: usize = 0;
    while i < n
        invariant
            n == parameters@.len(),
            0 <= i <= n,
            string_views(pieces@) == parameters@.take(i as int).map_values(|p: ValueParameter| named_argument(p)),
        decreases n - i,
    {
        let mut piece = String::from_str("\"");
        piece.append(parameters[i].name.as_str());
        piece.append("\": python_to_parameter(");
        piece.append(parameters[i].name.as_str());
        piece.append(")");
        let ghost before = string_views(pieces@);
        pieces.push(piece);
        proof {
            assert(string_views(pieces@) =~= before.push(piece@));
            assert(parameters@.take(i + 1) =~= parameters@.take(i as int).push(parameters@[i as int]));
        }
        i = i + 1;
    }
    proof {
        assert(parameters@.take(n as int) =~= parameters@);
    }
    join_strings(&pieces, ", ")
}

} // verus!
