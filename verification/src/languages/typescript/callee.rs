//! How the TypeScript callee refers to the library: namespaces for its
//! modules, import paths between them, and type annotations.
use vstd::prelude::*;

use crate::features::{
    lemma_type_models_index, type_model, type_models, type_path_model, ModulePath, PrimitiveType, Type,
    TypeModel,
};
use crate::features::{Module, ValueParameter};
use crate::text::{decimal, decimal_text, join_seqs, join_strings, owned, string_views};

verus! {

/// Whether `c` may stand in an identifier as it is: an ASCII letter or
/// digit, or `_`.
pub open spec fn identifier_char(c: char) -> bool {
    ('a' <= c <= 'z') || ('A' <= c <= 'Z') || ('0' <= c <= '9') || c == '_'
}

/// `input` with every character that may not stand in an identifier
/// replaced by `_`.
pub open spec fn identifier_chars(input: Seq<char>) -> Seq<char> {
    input.map_values(|c: char| if identifier_char(c) { c } else { '_' })
}

/// `input` made into an identifier: characters that may not stand in one
/// become `_`, an empty result is `_`, and one starting with a digit gets a
/// leading `_`.
pub open spec fn sanitized_identifier(input: Seq<char>) -> Seq<char> {
    let chars = identifier_chars(input);
    if chars.len() == 0 {
        seq!['_']
    } else if '0' <= chars[0] <= '9' {
        seq!['_'] + chars
    } else {
        chars
    }
}

/// `s` is an identifier: not empty, not starting with a digit, and made of
/// ASCII letters, digits and `_`.
pub open spec fn is_identifier(s: Seq<char>) -> bool {
    &&& s.len() > 0
    &&& !('0' <= s[0] <= '9')
    &&& forall|i: int| 0 <= i < s.len() ==> identifier_char(#[trigger] s[i])
}

/// Sanitizing always gives an identifier, and leaves an identifier as it
/// is (so sanitizing twice is sanitizing once).
pub proof fn lemma_sanitized_identifier(input: Seq<char>)
    ensures
        is_identifier(sanitized_identifier(input)),
        is_identifier(input) ==> sanitized_identifier(input) == input,
        sanitized_identifier(sanitized_identifier(input)) == sanitized_identifier(input),
{
    let chars = identifier_chars(input);
    assert(forall|i: int| 0 <= i < chars.len() ==> identifier_char(#[trigger] chars[i]));
    let result = sanitized_identifier(input);
    if chars.len() > 0 && '0' <= chars[0] <= '9' {
        assert forall|i: int| 0 <= i < result.len() implies identifier_char(#[trigger] result[i]) by {
            if i > 0 {
                assert(result[i] == chars[i - 1]);
            }
        }
    }
    assert(is_identifier(result));
    if is_identifier(input) {
        assert(chars =~= input);
    }
    assert(identifier_chars(result) =~= result);
}

/// Makes `input` an identifier (see [`sanitized_identifier`]).
pub fn sanitize_identifier(input: &str) -> (identifier: String)
    ensures
        identifier@ == sanitized_identifier(input@),
{
    proof {
        reveal_strlit("_");
        assert("_"@ =~= seq!['_']);
    }
    let n = input.unicode_len();
    let mut identifier = String::new();
    if n == 0 {
        identifier.append("_");
        return identifier;
    }
    let first = input.get_char(0);
    if '0' <= first && first <= '9' {
        identifier.append("_");
    }
    let ghost start = identifier@;
    let mut i: usize = 0;
    while i < n
        invariant
            n == input@.len(),
            0 <= i <= n,
            identifier@ == start + identifier_chars(input@.take(i as int)),
        decreases n - i,
    {
        let c = input.get_char(i);
        let ghost before = identifier@;
        proof {
            reveal_strlit("_");
        }
        if ('a' <= c && c <= 'z') || ('A' <= c && c <= 'Z') || ('0' <= c && c <= '9') || c == '_' {
            let piece = input.substring_char(i, i + 1);
            proof {
                assert(piece@ =~= seq![c]);
            }
            identifier.append(piece);
        } else {
            identifier.append("_");
        }
        proof {
            let kept = if identifier_char(c) {
                c
            } else {
                '_'
            };
            assert(identifier@ =~= before + seq![kept]);
            assert(input@.take(i + 1) =~= input@.take(i as int).push(c));
            assert(identifier_chars(input@.take(i + 1)) =~= identifier_chars(input@.take(i as int)).push(kept));
            assert(start + identifier_chars(input@.take(i + 1)) =~= (start + identifier_chars(input@.take(i as int)))
                + seq![kept]);
        }
        i = i + 1;
    }
    proof {
        assert(input@.take(n as int) =~= input@);
    }
    identifier
}

/// The identifiers of the segments of `path`.
pub open spec fn segment_identifiers(path: Seq<Seq<char>>) -> Seq<Seq<char>> {
    path.map_values(|segment: Seq<char>| sanitized_identifier(segment))
}

/// The namespace a module of the library is imported as: `library_root` for
/// the root, else `library_` and the identifiers of its segments joined by
/// `_`.
pub open spec fn namespace_name(path: Seq<Seq<char>>) -> Seq<char> {
    if path.len() == 0 {
        "library_root"@
    } else {
        "library_"@ + join_seqs(segment_identifiers(path), "_"@)
    }
}

/// The namespace the module at `module_at` is imported as (see
/// [`namespace_name`]).
pub fn module_namespace_name(module_at: &ModulePath) -> (name: String)
    ensures
        name@ == namespace_name(module_at@),
{
    if module_at.segments.len() == 0 {
        return String::from_str("library_root");
    }
    let mut identifiers: Vec<String> = Vec::new();
    let n = module_at.segments.len();
    let mut i: usize = 0;
    while i < n
        invariant
            n == module_at.segments@.len(),
            0 <= i <= n,
            string_views(identifiers@) == segment_identifiers(module_at@.take(i as int)),
        decreases n - i,
    {
        let identifier = sanitize_identifier(module_at.segments[i].as_str());
        let ghost before = string_views(identifiers@);
        identifiers.push(identifier);
        proof {
            assert(string_views(identifiers@) =~= before.push(identifier@));
            assert(module_at@.take(i + 1) =~= module_at@.take(i as int).push(module_at.segments@[i as int]@));
            assert(segment_identifiers(module_at@.take(i + 1)) =~= segment_identifiers(module_at@.take(i as int)).push(
                sanitized_identifier(module_at.segments@[i as int]@),
            ));
        }
        i = i + 1;
    }
    proof {
        assert(module_at@.take(n as int) =~= module_at@);
    }
    let mut name = String::from_str("library_");
    let joined = join_strings(&identifiers, "_");
    name.append(joined.as_str());
    name
}

/// Where the callee imports the module at `path` of the library from.
pub open spec fn library_import(path: Seq<Seq<char>>) -> Seq<char> {
    if path.len() == 0 {
        "./library/index.ts"@
    } else {
        "./library/"@ + join_seqs(path, "/"@) + "/index.ts"@
    }
}

/// Where the callee imports the module at `module_at` from (see
/// [`library_import`]).
pub fn library_import_path(module_at: &ModulePath) -> (path: String)
    ensures
        path@ == library_import(module_at@),
{
    if module_at.segments.len() == 0 {
        return String::from_str("./library/index.ts");
    }
    let mut path = String::from_str("./library/");
    let joined = module_at.format("/");
    path.append(joined.as_str());
    path.append("/index.ts");
    path
}

/// The segments an import leaves from: `library` and those of `path`.
pub open spec fn source_segments(path: Seq<Seq<char>>) -> Seq<Seq<char>> {
    seq!["library"@] + path
}

/// The segments an import goes to: `library`, those of `path`, and
/// `index.ts`.
pub open spec fn target_segments(path: Seq<Seq<char>>) -> Seq<Seq<char>> {
    seq!["library"@] + path + seq!["index.ts"@]
}

/// How many leading segments `from` and `to` share, counting on from `k`
/// (the file name that ends `to` is never shared).
pub open spec fn shared_prefix(from: Seq<Seq<char>>, to: Seq<Seq<char>>, k: int) -> int
    decreases from.len() - k,
{
    if 0 <= k && k < from.len() && k < to.len() - 1 && from[k] == to[k] {
        shared_prefix(from, to, k + 1)
    } else {
        k
    }
}

/// `../` written `n` times.
pub open spec fn parent_steps(n: nat) -> Seq<char>
    decreases n,
{
    if n == 0 {
        Seq::empty()
    } else {
        parent_steps((n - 1) as nat) + "../"@
    }
}

/// The relative path by which the module at `from` imports the module at
/// `to`: a `../` for each of its own segments past the shared ones (or
/// `./` when there are none), then the rest of the target's segments,
/// ending in `index.ts`, joined by `/`.
pub open spec fn import_path(from: Seq<Seq<char>>, to: Seq<Seq<char>>) -> Seq<char> {
    let f = source_segments(from);
    let t = target_segments(to);
    let k = shared_prefix(f, t, 0);
    let steps = parent_steps((f.len() - k) as nat);
    (if steps.len() == 0 {
        "./"@
    } else {
        steps
    }) + join_seqs(t.subrange(k, t.len() as int), "/"@)
}

/// The shared prefix lies between where counting starts and the end of the
/// shorter path.
proof fn lemma_shared_prefix(from: Seq<Seq<char>>, to: Seq<Seq<char>>, k: int)
    requires
        0 <= k <= from.len(),
        k < to.len(),
    ensures
        k <= shared_prefix(from, to, k) <= from.len(),
        shared_prefix(from, to, k) < to.len(),
    decreases from.len() - k,
{
    if k < from.len() && k < to.len() - 1 && from[k] == to[k] {
        lemma_shared_prefix(from, to, k + 1);
    }
}

/// `n` parent steps are three characters each.
proof fn lemma_parent_steps(n: nat)
    ensures
        parent_steps(n).len() == 3 * n,
    decreases n,
{
    reveal_strlit("../");
    if n > 0 {
        lemma_parent_steps((n - 1) as nat);
    }
}

/// The segments `first`, then those of `path`, then `last` when there is one.
fn segments_of(first: &str, path: &ModulePath, last: Option<&str>) -> (segments: Vec<String>)
    ensures
        string_views(segments@) == seq![first@] + path@ + match last {
            Some(l) => seq![l@],
            None => Seq::empty(),
        },
{
    let mut segments: Vec<String> = Vec::new();
    segments.push(owned(first));
    let n = path.segments.len();
    let mut i: usize = 0;
    while i < n
        invariant
            n == path.segments@.len(),
            0 <= i <= n,
            string_views(segments@) == seq![first@] + path@.take(i as int),
        decreases n - i,
    {
        let ghost before = string_views(segments@);
        segments.push(owned(path.segments[i].as_str()));
        proof {
            assert(string_views(segments@) =~= before.push(path.segments@[i as int]@));
            assert(path@.take(i + 1) =~= path@.take(i as int).push(path.segments@[i as int]@));
        }
        i = i + 1;
    }
    proof {
        assert(path@.take(n as int) =~= path@);
    }
    if let Some(l) = last {
        let ghost before = string_views(segments@);
        segments.push(owned(l));
        proof {
            assert(string_views(segments@) =~= before.push(l@));
        }
    } else {
        proof {
            assert(string_views(segments@) =~= string_views(segments@) + Seq::<Seq<char>>::empty());
        }
    }
    segments
}

/// The relative path by which the module at `from_module` imports the
/// module at `target_module` (see [`import_path`]).
pub fn module_import_path(from_module: &ModulePath, target_module: &ModulePath) -> (path: String)
    ensures
        path@ == import_path(from_module@, target_module@),
{
    proof {
        reveal_strlit("library");
        reveal_strlit("index.ts");
    }
    let from = segments_of("library", from_module, None);
    let mut target = segments_of("library", target_module, Some("index.ts"));
    let ghost f = string_views(from@);
    let ghost t = string_views(target@);
    proof {
        assert(f =~= source_segments(from_module@));
        assert(t =~= target_segments(target_module@));
        lemma_shared_prefix(f, t, 0);
    }
    let mut common_prefix: usize = 0;
    while common_prefix < from.len() && common_prefix < target.len() - 1 && str_equal_strings(
        &from[common_prefix],
        &target[common_prefix],
    )
        invariant
            f == string_views(from@),
            t == string_views(target@),
            t.len() >= 2,
            0 <= common_prefix <= f.len(),
            shared_prefix(f, t, 0) == shared_prefix(f, t, common_prefix as int),
        decreases f.len() - common_prefix,
    {
        common_prefix = common_prefix + 1;
    }
    proof {
        lemma_shared_prefix(f, t, common_prefix as int);
    }
    let mut path = String::new();
    let ups = from.len() - common_prefix;
    let mut step: usize = 0;
    while step < ups
        invariant
            0 <= step <= ups,
            path@ == parent_steps(step as nat),
        decreases ups - step,
    {
        path.append("../");
        step = step + 1;
    }
    proof {
        lemma_parent_steps(ups as nat);
    }
    if path.as_str().unicode_len() == 0 {
        path.append("./");
    }
    let rest = target.split_off(common_prefix);
    proof {
        assert(string_views(rest@) =~= t.subrange(common_prefix as int, t.len() as int));
    }
    let remainder = join_strings(&rest, "/");
    path.append(remainder.as_str());
    path
}

/// Whether two strings hold the same text.
fn str_equal_strings(a: &String, b: &String) -> (equal: bool)
    ensures
        equal == (a@ == b@),
{
    crate::text::str_equal(a.as_str(), b.as_str())
}

/// The TypeScript annotation the callee gives a type: `number`, `string`
/// and `boolean` for the primitives, `any` for a dynamic type, `T[]` for an
/// array, `[..]` for a tuple, and a composite's name in the namespace of
/// its module.
pub open spec fn type_annotation(t: TypeModel) -> Seq<char>
    decreases t,
{
    match t {
        TypeModel::Primitive(PrimitiveType::Number) => "number"@,
        TypeModel::Primitive(PrimitiveType::String) => "string"@,
        TypeModel::Primitive(PrimitiveType::Boolean) => "boolean"@,
        TypeModel::Composite(path) => namespace_name(path.module) + "."@ + path.name,
        TypeModel::Array(inner) => type_annotation(*inner) + "[]"@,
        TypeModel::Tuple(elements) => "["@ + join_seqs(type_annotations(elements), ", "@) + "]"@,
        TypeModel::Dynamic => "any"@,
    }
}

/// The annotations of `types`, in order.
pub open spec fn type_annotations(types: Seq<TypeModel>) -> Seq<Seq<char>>
    decreases types,
{
    if types.len() == 0 {
        Seq::empty()
    } else {
        type_annotations(types.drop_last()).push(type_annotation(types.last()))
    }
}

/// The annotations of a list of types, joined by `, `.
fn render_type_annotations(types: &Vec<Type>, current_module: &ModulePath) -> (rendered: String)
    ensures
        rendered@ == join_seqs(type_annotations(type_models(types@)), ", "@),
    decreases types,
{
    let mut annotations: Vec<String> = Vec::new();
    let n = types.len();
    let mut i: usize = 0;
    proof {
        lemma_type_models_index(types@);
    }
    while i < n
        invariant
            n == types@.len(),
            0 <= i <= n,
            type_models(types@).len() == n,
            forall|j: int| 0 <= j < n ==> #[trigger] type_models(types@)[j] == type_model(types@[j]),
            string_views(annotations@) == type_annotations(type_models(types@).take(i as int)),
        decreases n - i,
    {
        let annotation = render_type_annotation(&types[i], current_module);
        annotations.push(annotation);
        proof {
            let models = type_models(types@);
            assert(models.take(i + 1).drop_last() =~= models.take(i as int));
            assert(string_views(annotations@) =~= string_views(annotations@).drop_last().push(annotation@));
        }
        i = i + 1;
    }
    proof {
        assert(type_models(types@).take(n as int) =~= type_models(types@));
    }
    join_strings(&annotations, ", ")
}

/// The annotation the callee gives `t` (see [`type_annotation`]); the
/// module the annotation is written in does not change it.
pub fn render_type_annotation(t: &Type, current_module: &ModulePath) -> (annotation: String)
    ensures
        annotation@ == type_annotation(t@),
    decreases t,
{
    match t {
        Type::Primitive(PrimitiveType::Number) => String::from_str("number"),
        Type::Primitive(PrimitiveType::String) => String::from_str("string"),
        Type::Primitive(PrimitiveType::Boolean) => String::from_str("boolean"),
        Type::Composite(path) => {
            let ghost model = type_path_model(*path);
            proof {
                assert(t@ == TypeModel::Composite(model));
            }
            let mut annotation = module_namespace_name(&path.module);
            annotation.append(".");
            annotation.append(path.name.as_str());
            annotation
        },
        Type::Array(inner) => {
            let mut annotation = render_type_annotation(inner, current_module);
            annotation.append("[]");
            annotation
        },
        Type::Tuple(elements) => {
            let mut annotation = String::from_str("[");
            let inner = render_type_annotations(elements, current_module);
            annotation.append(inner.as_str());
            annotation.append("]");
            annotation
        },
        Type::Dynamic => String::from_str("any"),
    }
}

/// The indentation of the statements of a dispatch case.
pub open spec fn case_indent() -> Seq<char> {
    "                "@
}

/// The `index`-th positional parameter of a call, cast to the annotation of
/// its type.
pub open spec fn call_argument(index: nat, parameter: ValueParameter) -> Seq<char> {
    "positionalParameters["@ + decimal(index) + "] as "@ + type_annotation(parameter.value_type@)
}

/// The arguments `parameters` are called with, in order.
pub open spec fn call_arguments(parameters: Seq<ValueParameter>) -> Seq<Seq<char>> {
    Seq::new(parameters.len(), |i: int| call_argument(i as nat, parameters[i]))
}

/// The arguments a call passes on, each the positional parameter at its
/// index cast to its annotation, joined by `, `.
pub fn render_call_arguments(parameters: &[ValueParameter], current_module: &ModulePath) -> (rendered: String)
    ensures
        rendered@ == join_seqs(call_arguments(parameters@), ", "@),
{
    let mut pieces: Vec<String> = Vec::new();
    let n = parameters.len();
    let mut i: usize = 0;
    while i < n
        invariant
            n == parameters@.len(),
            0 <= i <= n,
            string_views(pieces@) == call_arguments(parameters@).take(i as int),
        decreases n - i,
    {
        let mut piece = String::from_str("positionalParameters[");
        let index = decimal_text(i);
        piece.append(index.as_str());
        piece.append("] as ");
        let annotation = render_type_annotation(&parameters[i].value_type, current_module);
        piece.append(annotation.as_str());
        let ghost before = string_views(pieces@);
        pieces.push(piece);
        proof {
            assert(piece@ =~= call_argument(i as nat, parameters@[i as int]));
            assert(string_views(pieces@) =~= before.push(piece@));
            assert(call_arguments(parameters@).take(i + 1) =~= call_arguments(parameters@).take(i as int).push(
                piece@,
            ));
        }
        i = i + 1;
    }
    proof {
        assert(call_arguments(parameters@).take(n as int) =~= call_arguments(parameters@));
    }
    join_strings(&pieces, ", ")
}

/// How the callee reads a value named `name` of type `t`: cast to its
/// annotation, after parsing it as JSON for arrays, tuples and dynamic
/// values.
pub open spec fn parameter_value_expression(t: TypeModel, name: Seq<char>) -> Seq<char> {
    match t {
        TypeModel::Array(_) | TypeModel::Tuple(_) | TypeModel::Dynamic => "JSON.parse("@ + name + " as string) as "@
            + type_annotation(t),
        _ => name + " as "@ + type_annotation(t),
    }
}

/// How the callee reads a value named `name` of type `t` (see
/// [`parameter_value_expression`]).
pub fn render_parameter_value_expression(t: &Type, name: &str, current_module: &ModulePath) -> (expression: String)
    ensures
        expression@ == parameter_value_expression(t@, name@),
{
    let annotation = render_type_annotation(t, current_module);
    match t {
        Type::Array(_) | Type::Tuple(_) | Type::Dynamic => {
            let mut expression = String::from_str("JSON.parse(");
            expression.append(name);
            expression.append(" as string) as ");
            expression.append(annotation.as_str());
            expression
        },
        _ => {
            let mut expression = owned(name);
            expression.append(" as ");
            expression.append(annotation.as_str());
            expression
        },
    }
}

/// The statement that returns `value` as a value of the given kind.
pub open spec fn return_value(kind: Seq<char>, value: Seq<char>) -> Seq<char> {
    case_indent() + "return { kind: \""@ + kind + "\", value: "@ + value + " };"@
}

/// The statements that keep `result` under the reference `return_sink` and
/// return that reference.
pub open spec fn reference_return_body(result: Seq<char>, return_sink: Seq<char>) -> Seq<char> {
    case_indent() + "instanceRegistry.set("@ + return_sink + ", "@ + result + ");\n"@ + case_indent()
        + "return { kind: \"reference\", value: "@ + return_sink + " };"@
}

/// The statements that keep `result` under the reference `return_sink` and
/// return that reference.
pub fn render_reference_return_body(result_name: &str, return_sink: &str) -> (body: String)
    ensures
        body@ == reference_return_body(result_name@, return_sink@),
{
    let mut body = String::from_str("                instanceRegistry.set(");
    body.append(return_sink);
    body.append(", ");
    body.append(result_name);
    body.append(");\n                return { kind: \"reference\", value: ");
    body.append(return_sink);
    body.append(" };");
    proof {
        reveal_strlit("                instanceRegistry.set(");
        reveal_strlit("                ");
        reveal_strlit("instanceRegistry.set(");
        reveal_strlit(");\n                return { kind: \"reference\", value: ");
        reveal_strlit(");\n");
        reveal_strlit("return { kind: \"reference\", value: ");
        assert(body@ =~= reference_return_body(result_name@, return_sink@));
    }
    body
}

/// The statements that return `result`, a value of type `t`: primitives as
/// themselves, composites by reference under `return_sink`, and anything
/// else as a JSON string.
pub open spec fn return_body(t: TypeModel, result: Seq<char>, return_sink: Seq<char>) -> Seq<char> {
    match t {
        TypeModel::Primitive(PrimitiveType::Number) => return_value("float"@, result),
        TypeModel::Primitive(PrimitiveType::String) => return_value("string"@, result),
        TypeModel::Primitive(PrimitiveType::Boolean) => return_value("boolean"@, result),
        TypeModel::Composite(_) => reference_return_body(result, return_sink),
        _ => return_value("string"@, "JSON.stringify("@ + result + ")"@),
    }
}

/// A callee returns a number, string or boolean result as the value itself,
/// tagged `float`, `string` or `boolean`; only an array, a tuple or a
/// dynamic value is sent as its JSON text, tagged `string`.
pub proof fn law_primitive_results_are_returned_as_they_are(
    t: TypeModel,
    result: Seq<char>,
    return_sink: Seq<char>,
)
    ensures
        t == TypeModel::Primitive(PrimitiveType::Number) ==> return_body(t, result, return_sink)
            == "                return { kind: \"float\", value: "@ + result + " };"@,
        t == TypeModel::Primitive(PrimitiveType::String) ==> return_body(t, result, return_sink)
            == "                return { kind: \"string\", value: "@ + result + " };"@,
        t == TypeModel::Primitive(PrimitiveType::Boolean) ==> return_body(t, result, return_sink)
            == "                return { kind: \"boolean\", value: "@ + result + " };"@,
        (t is Array || t is Tuple || t is Dynamic) ==> return_body(t, result, return_sink)
            == "                return { kind: \"string\", value: JSON.stringify("@ + result + ") };"@,
{
    reveal_strlit("                ");
    reveal_strlit("return { kind: \"");
    reveal_strlit("\", value: ");
    reveal_strlit(" };");
    reveal_strlit("float");
    reveal_strlit("string");
    reveal_strlit("boolean");
    reveal_strlit("JSON.stringify(");
    reveal_strlit(")");
    reveal_strlit("                return { kind: \"float\", value: ");
    reveal_strlit("                return { kind: \"string\", value: ");
    reveal_strlit("                return { kind: \"boolean\", value: ");
    reveal_strlit("                return { kind: \"string\", value: JSON.stringify(");
    reveal_strlit(") };");
    reveal_strlit("                return { kind: \"");
    assert(case_indent() + "return { kind: \""@ =~= "                return { kind: \""@);
    if t == TypeModel::Primitive(PrimitiveType::Number) {
        assert(return_body(t, result, return_sink) =~= "                return { kind: \"float\", value: "@ + result
            + " };"@);
    } else if t == TypeModel::Primitive(PrimitiveType::String) {
        assert(return_body(t, result, return_sink) =~= "                return { kind: \"string\", value: "@ + result
            + " };"@);
    } else if t == TypeModel::Primitive(PrimitiveType::Boolean) {
        assert(return_body(t, result, return_sink) =~= "                return { kind: \"boolean\", value: "@ + result
            + " };"@);
    } else if t is Array || t is Tuple || t is Dynamic {
        assert(return_body(t, result, return_sink) =~= "                return { kind: \"string\", value: JSON.stringify("@
            + result + ") };"@);
    }
}

/// The statement that returns `value` as a value of the kind `kind`.
fn render_return_value(kind: &str, value: &str) -> (statement: String)
    ensures
        statement@ == return_value(kind@, value@),
{
    let mut statement = String::from_str("                return { kind: \"");
    statement.append(kind);
    statement.append("\", value: ");
    statement.append(value);
    statement.append(" };");
    proof {
        reveal_strlit("                return { kind: \"");
        reveal_strlit("                ");
        reveal_strlit("return { kind: \"");
        assert(statement@ =~= return_value(kind@, value@));
    }
    statement
}

/// The statements that return `result_name`, a value of type `return_type`
/// (see [`return_body`]).
pub fn render_return_body(return_type: &Type, result_name: &str, return_sink: &str) -> (body: String)
    ensures
        body@ == return_body(return_type@, result_name@, return_sink@),
{
    match return_type {
        Type::Primitive(PrimitiveType::Number) => render_return_value("float", result_name),
        Type::Primitive(PrimitiveType::String) => render_return_value("string", result_name),
        Type::Primitive(PrimitiveType::Boolean) => render_return_value("boolean", result_name),
        Type::Composite(_) => render_reference_return_body(result_name, return_sink),
        _ => {
            let mut value = String::from_str("JSON.stringify(");
            value.append(result_name);
            value.append(")");
            render_return_value("string", value.as_str())
        },
    }
}

/// The statements that answer a request for the property `accessor` of
/// `typedParent`, of type `t`: primitives as themselves, a composite as a
/// new reference, anything else as a JSON string.
pub open spec fn request_body(t: TypeModel, accessor: Seq<char>) -> Seq<char> {
    let value = "typedParent."@ + accessor;
    match t {
        TypeModel::Primitive(PrimitiveType::Number) => return_value("float"@, value),
        TypeModel::Primitive(PrimitiveType::String) => return_value("string"@, value),
        TypeModel::Primitive(PrimitiveType::Boolean) => return_value("boolean"@, value),
        TypeModel::Composite(_) => case_indent() + "const newReference = crypto.randomUUID();\n"@ + case_indent()
            + "instanceRegistry.set(newReference, "@ + value + ");\n"@ + case_indent()
            + "return { kind: \"reference\", value: newReference };"@,
        _ => return_value("string"@, "JSON.stringify("@ + value + ")"@),
    }
}

/// The statements that answer a request for the property `accessor` (see
/// [`request_body`]).
pub fn render_request_body(property_type: &Type, accessor: &str) -> (body: String)
    ensures
        body@ == request_body(property_type@, accessor@),
{
    let mut value = String::from_str("typedParent.");
    value.append(accessor);
    match property_type {
        Type::Primitive(PrimitiveType::Number) => render_return_value("float", value.as_str()),
        Type::Primitive(PrimitiveType::String) => render_return_value("string", value.as_str()),
        Type::Primitive(PrimitiveType::Boolean) => render_return_value("boolean", value.as_str()),
        Type::Composite(_) => {
            let mut body = String::from_str(
                "                const newReference = crypto.randomUUID();\n                instanceRegistry.set(newReference, ",
            );
            body.append(value.as_str());
            body.append(");\n                return { kind: \"reference\", value: newReference };");
            proof {
                reveal_strlit(
                    "                const newReference = crypto.randomUUID();\n                instanceRegistry.set(newReference, ",
                );
                reveal_strlit("                ");
                reveal_strlit("const newReference = crypto.randomUUID();\n");
                reveal_strlit("instanceRegistry.set(newReference, ");
                reveal_strlit(");\n                return { kind: \"reference\", value: newReference };");
                reveal_strlit(");\n");
                reveal_strlit("return { kind: \"reference\", value: newReference };");
                assert(body@ =~= request_body(property_type@, accessor@));
            }
            body
        },
        _ => {
            let mut json = String::from_str("JSON.stringify(");
            json.append(value.as_str());
            json.append(")");
            render_return_value("string", json.as_str())
        },
    }
}

/// The statements that set the property `accessor` of `typedParent` to
/// `value_expression` and return.
pub open spec fn update_body(accessor: Seq<char>, value_expression: Seq<char>) -> Seq<char> {
    case_indent() + "typedParent."@ + accessor + " = "@ + value_expression + ";\n"@ + case_indent() + "return;"@
}

/// The statements that set the property `accessor` (see [`update_body`]).
pub fn render_update_body(accessor: &str, value_expression: &str) -> (body: String)
    ensures
        body@ == update_body(accessor@, value_expression@),
{
    let mut body = String::from_str("                typedParent.");
    body.append(accessor);
    body.append(" = ");
    body.append(value_expression);
    body.append(";\n                return;");
    proof {
        reveal_strlit("                typedParent.");
        reveal_strlit("                ");
        reveal_strlit("typedParent.");
        reveal_strlit(";\n                return;");
        reveal_strlit(";\n");
        reveal_strlit("return;");
        assert(body@ =~= update_body(accessor@, value_expression@));
    }
    body
}

/// The statement that imports the module at `path` under its namespace.
pub open spec fn dispatch_import(path: Seq<Seq<char>>) -> Seq<char> {
    "import * as "@ + namespace_name(path) + " from \""@ + library_import(path) + "\";"@
}

/// The imports of the dispatcher, one line per module.
pub fn render_dispatch_imports(modules: &[&Module]) -> (imports: String)
    ensures
        imports@ == join_seqs(modules@.map_values(|m: &Module| dispatch_import(m.path@)), "\n"@),
{
    let mut lines: Vec<String> = Vec::new();
    let n = modules.len();
    let mut i: usize = 0;
    while i < n
        invariant
            n == modules@.len(),
            0 <= i <= n,
            string_views(lines@) == modules@.take(i as int).map_values(|m: &Module| dispatch_import(m.path@)),
        decreases n - i,
    {
        let mut line = String::from_str("import * as ");
        let namespace = module_namespace_name(&modules[i].path);
        line.append(namespace.as_str());
        line.append(" from \"");
        let path = library_import_path(&modules[i].path);
        line.append(path.as_str());
        line.append("\";");
        let ghost before = string_views(lines@);
        lines.push(line);
        proof {
            assert(line@ =~= dispatch_import(modules@[i as int].path@));
            assert(string_views(lines@) =~= before.push(line@));
            assert(modules@.take(i + 1) =~= modules@.take(i as int).push(modules@[i as int]));
        }
        i = i + 1;
    }
    proof {
        assert(modules@.take(n as int) =~= modules@);
    }
    join_strings(&lines, "\n")
}

} // verus!
