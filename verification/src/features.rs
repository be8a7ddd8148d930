//! The language-independent model of what a library exports: modules,
//! functions, types and their signatures. Parsers fill it, code generators
//! read it.
use vstd::prelude::*;
use vstd::string::*;

use crate::text::{join_seqs, join_strings, owned, string_views};

verus! {

/// A path through a module hierarchy, outermost segment first.
pub struct ModulePath {
    pub segments: Vec<String>,
}

impl View for ModulePath {
    type V = Seq<Seq<char>>;

    open spec fn view(&self) -> Seq<Seq<char>> {
        string_views(self.segments@)
    }
}

impl ModulePath {
    /// A path made of the given segments, in order.
    pub fn new(segments: Vec<&str>) -> (path: Self)
        ensures
            path@.len() == segments@.len(),
            forall|i: int| 0 <= i < segments@.len() ==> #[trigger] path@[i] == segments@[i]@,
    {
        let mut owned_segments: Vec<String> = Vec::new();
        let n = segments.len();
        let mut i: usize = 0;
        while i < n
            invariant
                n == segments@.len(),
                0 <= i <= n,
                owned_segments@.len() == i,
                forall|j: int| 0 <= j < i ==> #[trigger] owned_segments@[j]@ == segments@[j]@,
            decreases n - i,
        {
            owned_segments.push(owned(segments[i]));
            i = i + 1;
        }
        ModulePath { segments: owned_segments }
    }

    /// The path with no segments (the root module).
    pub fn empty() -> (path: Self)
        ensures
            path@ == Seq::<Seq<char>>::empty(),
    {
        ModulePath { segments: Vec::new() }
    }

    /// The last segment, if there is one.
    pub fn leaf(&self) -> (leaf: Option<&String>)
        ensures
            match leaf {
                Some(s) => self@.len() > 0 && s@ == self@.last(),
                None => self@.len() == 0,
            },
    {
        if self.segments.len() == 0 {
            None
        } else {
            Some(&self.segments[self.segments.len() - 1])
        }
    }

    /// The segments joined by `separator`.
    pub fn format(&self, separator: &str) -> (formatted: String)
        ensures
            formatted@ == join_seqs(self@, separator@),
    {
        join_strings(&self.segments, separator)
    }
}

/// A module: where it sits, and the functions and types it exports.
pub struct Module {
    pub path: ModulePath,
    pub functions: Vec<FunctionDefinition>,
    pub types: Vec<TypeDefinition>,
}

/// A reference to a named type, with the module it lives in and the type
/// arguments it is applied to.
pub struct TypePath {
    pub module: ModulePath,
    pub name: String,
    pub type_arguments: Vec<Type>,
}

impl TypePath {
    /// A path to `name` in `module`, applied to no type arguments.
    pub fn new(module: ModulePath, name: String) -> (path: Self)
        ensures
            path.module == module,
            path.name == name,
            path.type_arguments@.len() == 0,
    {
        TypePath { module, name, type_arguments: Vec::new() }
    }

    /// The module path joined by `module_separator`, then
    /// `type_separator`, then the name.
    pub fn format(&self, module_separator: &str, type_separator: &str) -> (formatted: String)
        ensures
            formatted@ == join_seqs(self.module@, module_separator@) + type_separator@
                + self.name@,
    {
        let mut formatted = self.module.format(module_separator);
        formatted.append(type_separator);
        formatted.append(self.name.as_str());
        formatted
    }
}

/// The type of a value as far as the bridge needs to know it.
pub enum Type {
    Primitive(PrimitiveType),
    Composite(TypePath),
    Array(Box<Type>),
    Tuple(Vec<Type>),
    Dynamic,
}

/// The primitive types every language has a form of.
#[derive(Clone, Copy, PartialEq, Eq, Structural)]
pub enum PrimitiveType {
    Number,
    String,
    Boolean,
}

/// A generic parameter, with its default type if it has one.
#[derive(Clone)]
pub struct TypeParameter {
    pub name: String,
    pub default: Option<Type>,
}

/// A signature without a name: parameters, return type and generics.
#[derive(Clone)]
pub struct AnonymousCallable {
    pub positional_parameters: Vec<ValueParameter>,
    pub named_parameters: Vec<ValueParameter>,
    pub return_type: Type,
    pub type_parameters: Vec<TypeParameter>,
}

/// A method of a type: its name, whether it is static, and its signature.
#[derive(Clone)]
pub struct Method {
    pub name: String,
    pub is_static: bool,
    pub callable: AnonymousCallable,
}

/// A type a library exports, with its members.
#[derive(Clone)]
pub struct TypeDefinition {
    pub name: String,
    pub properties: Vec<(String, Type)>,
    pub default_constructor: Option<AnonymousCallable>,
    pub named_constructors: Vec<FunctionDefinition>,
    pub methods: Vec<Method>,
    pub static_methods: Vec<Method>,
    pub type_parameters: Vec<TypeParameter>,
    pub implements: Vec<TypePath>,
}

/// A parameter of a signature: its name and type, and whether it is
/// required, variadic or may be null.
#[derive(Clone)]
pub struct ValueParameter {
    pub name: String,
    pub value_type: Type,
    pub required: bool,
    pub variadic: bool,
    pub nullable: bool,
}

/// A function a library exports: its name and signature.
#[derive(Clone)]
pub struct FunctionDefinition {
    pub name: String,
    pub callable: AnonymousCallable,
}

/// The mathematical value of a [`Type`]: the same shape, with sequences in
/// place of vectors and character sequences in place of strings.
pub enum TypeModel {
    Primitive(PrimitiveType),
    Composite(TypePathModel),
    Array(Box<TypeModel>),
    Tuple(Seq<TypeModel>),
    Dynamic,
}

/// The mathematical value of a [`TypePath`].
pub struct TypePathModel {
    pub module: Seq<Seq<char>>,
    pub name: Seq<char>,
    pub type_arguments: Seq<TypeModel>,
}

/// The value of a type.
pub open spec fn type_model(t: Type) -> TypeModel
    decreases t,
{
    match t {
        Type::Primitive(p) => TypeModel::Primitive(p),
        Type::Composite(path) => TypeModel::Composite(type_path_model(path)),
        Type::Array(inner) => TypeModel::Array(Box::new(type_model(*inner))),
        Type::Tuple(elements) => TypeModel::Tuple(type_models(elements@)),
        Type::Dynamic => TypeModel::Dynamic,
    }
}

/// The value of a type path.
pub open spec fn type_path_model(path: TypePath) -> TypePathModel
    decreases path,
{
    TypePathModel {
        module: path.module@,
        name: path.name@,
        type_arguments: type_models(path.type_arguments@),
    }
}

/// The values of a sequence of types.
pub open spec fn type_models(types: Seq<Type>) -> Seq<TypeModel>
    decreases types,
{
    if types.len() == 0 {
        Seq::empty()
    } else {
        type_models(types.drop_last()).push(type_model(types.last()))
    }
}

impl View for Type {
    type V = TypeModel;

    open spec fn view(&self) -> TypeModel {
        type_model(*self)
    }
}

impl View for TypePath {
    type V = TypePathModel;

    open spec fn view(&self) -> TypePathModel {
        type_path_model(*self)
    }
}

/// The models of a sequence of types have one entry per type.
pub proof fn lemma_type_models_index(types: Seq<Type>)
    ensures
        type_models(types).len() == types.len(),
        forall|i: int| 0 <= i < types.len() ==> #[trigger] type_models(types)[i] == type_model(types[i]),
    decreases types.len(),
{
    if types.len() > 0 {
        lemma_type_models_index(types.drop_last());
    }
}

/// A copy of `t` with the same value.
pub fn copy_type(t: &Type) -> (c: Type)
    ensures
        c@ == t@,
    decreases t,
{
    match t {
        Type::Primitive(PrimitiveType::Number) => Type::Primitive(PrimitiveType::Number),
        Type::Primitive(PrimitiveType::String) => Type::Primitive(PrimitiveType::String),
        Type::Primitive(PrimitiveType::Boolean) => Type::Primitive(PrimitiveType::Boolean),
        Type::Composite(path) => Type::Composite(copy_type_path(path)),
        Type::Array(inner) => Type::Array(Box::new(copy_type(inner))),
        Type::Tuple(elements) => Type::Tuple(copy_types(elements)),
        Type::Dynamic => Type::Dynamic,
    }
}

/// A copy of `path` with the same value.
pub fn copy_type_path(path: &TypePath) -> (c: TypePath)
    ensures
        c@ == path@,
    decreases path,
{
    TypePath {
        module: path.module.clone(),
        name: path.name.clone(),
        type_arguments: copy_types(&path.type_arguments),
    }
}

/// A copy of `types` with the same values, in order.
pub fn copy_types(types: &Vec<Type>) -> (c: Vec<Type>)
    ensures
        type_models(c@) == type_models(types@),
    decreases types,
{
    let mut c: Vec<Type> = Vec::new();
    let n = types.len();
    let mut i: usize = 0;
    while i < n
        invariant
            n == types@.len(),
            0 <= i <= n,
            type_models(c@) == type_models(types@.take(i as int)),
        decreases n - i,
    {
        let element = copy_type(&types[i]);
        let ghost before = c@;
        c.push(element);
        proof {
            assert(c@.drop_last() =~= before);
            assert(types@.take(i + 1).drop_last() =~= types@.take(i as int));
        }
        i = i + 1;
    }
    proof {
        assert(types@.take(n as int) =~= types@);
    }
    c
}

/// A copy of `strings` with the same characters, in order.
pub fn copy_strings(strings: &Vec<String>) -> (c: Vec<String>)
    ensures
        string_views(c@) == string_views(strings@),
{
    let mut c: Vec<String> = Vec::new();
    let n = strings.len();
    let mut i: usize = 0;
    while i < n
        invariant
            n == strings@.len(),
            0 <= i <= n,
            c@.len() == i,
            forall|j: int| 0 <= j < i ==> #[trigger] c@[j]@ == strings@[j]@,
        decreases n - i,
    {
        c.push(strings[i].clone());
        i = i + 1;
    }
    proof {
        assert(string_views(c@) =~= string_views(strings@));
    }
    c
}

impl Clone for ModulePath {
    fn clone(&self) -> (c: Self)
        ensures
            c@ == self@,
    {
        ModulePath { segments: copy_strings(&self.segments) }
    }
}

impl Clone for Module {
    fn clone(&self) -> (c: Self)
        ensures
            c.path@ == self.path@,
            c.functions@.len() == self.functions@.len(),
            c.types@.len() == self.types@.len(),
    {
        Module { path: self.path.clone(), functions: self.functions.clone(), types: self.types.clone() }
    }
}

impl Clone for Type {
    fn clone(&self) -> (c: Self)
        ensures
            c@ == self@,
    {
        copy_type(self)
    }
}

impl Clone for TypePath {
    fn clone(&self) -> (c: Self)
        ensures
            c@ == self@,
    {
        copy_type_path(self)
    }
}

} // verus!
