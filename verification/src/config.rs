//! What the library knows of each language it reads, and how languages
//! are looked up by name.
use vstd::prelude::*;

use crate::error::PTIPFFIError;
use crate::features::Module;
use crate::languages::cpp;
use crate::languages::cpp::parser::{declared_module, statement_patterns as cpp_statement_patterns};
use crate::languages::python;
use crate::languages::python::parser::{python_module, sanitized, statement_patterns};
use crate::pattern::regex_compiles;
use crate::parser::ParserError;
use crate::text::{eq_ignore_ascii_case, equal_ignoring_ascii_case, owned, str_equal, trim, trimmed};

verus! {

/// The reader a language's sources go through.
#[derive(Clone, Copy, PartialEq, Eq, Structural)]
pub enum Reader {
    Python,
    Cpp,
}

/// A language the library can read libraries from: its name and its reader.
#[derive(Clone, Copy)]
pub struct LanguageConfig {
    pub name: &'static str,
    pub reader: Reader,
}

impl LanguageConfig {
    /// Reads a source of this language into a module, with the language's
    /// reader.
    pub fn parse(&self, input: &str) -> (parsed: Result<Module, ParserError>)
        ensures
            parsed matches Ok(module) ==> module.path@.len() == 0,
            self.reader is Python ==> (parsed matches Ok(module) ==> python_module(module)),
            self.reader is Python && sanitized(input@).len() == 0 && (forall|i: int|
                0 <= i < statement_patterns().len() ==> regex_compiles(#[trigger] statement_patterns()[i]))
                ==> (parsed matches Ok(module) && module.functions@.len() == 0 && module.types@.len() == 0),
            self.reader is Cpp ==> (parsed matches Ok(module) ==> declared_module(module)),
            self.reader is Cpp && input@.len() == 0 && (forall|i: int|
                0 <= i < cpp_statement_patterns().len() ==> regex_compiles(#[trigger] cpp_statement_patterns()[i]))
                ==> (parsed matches Ok(module) && module.functions@.len() == 0 && module.types@.len() == 0),
    {
        match self.reader {
            Reader::Python => python::parser::parse(input),
            Reader::Cpp => cpp::parser::parse(input),
        }
    }
}

/// The index of the first language of `registry` that `matches` accepts.
pub open spec fn first_language(registry: Seq<LanguageConfig>, accepted: spec_fn(Seq<char>) -> bool) -> Option<int>
    decreases registry.len(),
{
    if registry.len() == 0 {
        None
    } else {
        match first_language(registry.drop_last(), accepted) {
            Some(i) => Some(i),
            None => if accepted(registry.last().name@) {
                Some(registry.len() - 1)
            } else {
                None
            },
        }
    }
}

/// The first language of a prefix of the registry that a test accepts is
/// the first one of the whole registry.
pub proof fn lemma_first_language_prefix(registry: Seq<LanguageConfig>, accepted: spec_fn(Seq<char>) -> bool, k: int)
    requires
        0 <= k <= registry.len(),
        first_language(registry.take(k), accepted) is Some,
    ensures
        first_language(registry, accepted) == first_language(registry.take(k), accepted),
    decreases registry.len() - k,
{
    if k < registry.len() {
        assert(registry.take(k + 1).drop_last() =~= registry.take(k));
        lemma_first_language_prefix(registry, accepted, k + 1);
    } else {
        assert(registry.take(k) =~= registry);
    }
}

/// The test that a name is `name`.
pub open spec fn named(name: Seq<char>) -> spec_fn(Seq<char>) -> bool {
    |n: Seq<char>| n == name
}

/// The test that a name is `name` when ASCII letters are compared without
/// regard to case.
pub open spec fn named_in_any_case(name: Seq<char>) -> spec_fn(Seq<char>) -> bool {
    |n: Seq<char>| equal_ignoring_ascii_case(n, name)
}

/// The index of the first language of `registry` named exactly `name`.
pub open spec fn language_index(registry: Seq<LanguageConfig>, name: Seq<char>) -> Option<int> {
    first_language(registry, named(name))
}

/// Finds the language named `name` in `registry`: the first one of that
/// name, or `LanguageNotFound` with the name.
pub fn find_language<'r>(registry: &'r [LanguageConfig], name: &str) -> (found: Result<&'r LanguageConfig, PTIPFFIError>)
    ensures
        match language_index(registry@, name@) {
            Some(i) => found matches Ok(config) && *config == registry@[i],
            None => found matches Err(PTIPFFIError::LanguageNotFound(n)) && n@ == name@,
        },
{
    let ghost accepted = named(name@);
    let n = registry.len();
    let mut i: usize = 0;
    while i < n
        invariant
            n == registry@.len(),
            0 <= i <= n,
            accepted == named(name@),
            first_language(registry@.take(i as int), accepted) is None,
        decreases n - i,
    {
        proof {
            assert(registry@.take(i + 1).drop_last() =~= registry@.take(i as int));
        }
        if str_equal(registry[i].name, name) {
            proof {
                lemma_first_language_prefix(registry@, accepted, i + 1);
            }
            return Ok(&registry[i]);
        }
        i = i + 1;
    }
    proof {
        assert(registry@.take(n as int) =~= registry@);
    }
    Err(PTIPFFIError::LanguageNotFound(owned(name)))
}

/// The name a language is known by in `registry`: the name of the first
/// language whose name equals `language` without regard to ASCII case, or
/// `language` itself when there is none.
pub open spec fn canonical_name(registry: Seq<LanguageConfig>, language: Seq<char>) -> Seq<char> {
    match first_language(registry, named_in_any_case(language)) {
        Some(i) => registry[i].name@,
        None => language,
    }
}

/// The name `language` is known by in `registry`, so that a language can be
/// named in any ASCII case.
pub fn canonical_language_name(registry: &[LanguageConfig], language: &str) -> (name: String)
    ensures
        name@ == canonical_name(registry@, language@),
{
    let ghost accepted = named_in_any_case(language@);
    let n = registry.len();
    let mut i: usize = 0;
    while i < n
        invariant
            n == registry@.len(),
            0 <= i <= n,
            accepted == named_in_any_case(language@),
            first_language(registry@.take(i as int), accepted) is None,
        decreases n - i,
    {
        proof {
            assert(registry@.take(i + 1).drop_last() =~= registry@.take(i as int));
        }
        if eq_ignore_ascii_case(registry[i].name, language) {
            proof {
                lemma_first_language_prefix(registry@, accepted, i + 1);
            }
            return owned(registry[i].name);
        }
        i = i + 1;
    }
    proof {
        assert(registry@.take(n as int) =~= registry@);
    }
    owned(language)
}

/// A test that some language of `registry` passes finds a first language.
pub proof fn lemma_first_language_found(
    registry: Seq<LanguageConfig>,
    accepted: spec_fn(Seq<char>) -> bool,
    j: int,
)
    requires
        0 <= j < registry.len(),
        accepted(registry[j].name@),
    ensures
        first_language(registry, accepted) matches Some(i) && 0 <= i <= j && accepted(registry[i].name@),
    decreases registry.len(),
{
    if j < registry.len() - 1 {
        lemma_first_language_found(registry.drop_last(), accepted, j);
    } else if let Some(i) = first_language(registry.drop_last(), accepted) {
        lemma_first_language_bounds(registry.drop_last(), accepted);
    }
}

/// The first language a test accepts is one of the registry's, and passes
/// the test.
pub proof fn lemma_first_language_bounds(registry: Seq<LanguageConfig>, accepted: spec_fn(Seq<char>) -> bool)
    ensures
        first_language(registry, accepted) matches Some(i) ==> 0 <= i < registry.len() && accepted(
            registry[i].name@,
        ),
    decreases registry.len(),
{
    if registry.len() > 0 {
        lemma_first_language_bounds(registry.drop_last(), accepted);
    }
}

/// A language named in any ASCII case has a canonical name under which it
/// is found in the registry.
pub proof fn lemma_canonical_name_found(registry: Seq<LanguageConfig>, language: Seq<char>, j: int)
    requires
        0 <= j < registry.len(),
        equal_ignoring_ascii_case(registry[j].name@, language),
    ensures
        language_index(registry, canonical_name(registry, language)) is Some,
{
    lemma_first_language_found(registry, named_in_any_case(language), j);
    let i = first_language(registry, named_in_any_case(language))->Some_0;
    let canonical = registry[i].name@;
    lemma_first_language_found(registry, named(canonical), i);
}

/// The file a library of `language` starts from when none is named: for
/// TypeScript, Python and C++ (named in any ASCII case, around white
/// space), `index.ts`, `index.py` and `index.hpp`.
pub open spec fn default_entry_point(language: Seq<char>) -> Option<Seq<char>> {
    let name = trimmed(language);
    if equal_ignoring_ascii_case(name, seq!['t', 'y', 'p', 'e', 's', 'c', 'r', 'i', 'p', 't']) {
        Some(seq!['i', 'n', 'd', 'e', 'x', '.', 't', 's'])
    } else if equal_ignoring_ascii_case(name, seq!['p', 'y', 't', 'h', 'o', 'n']) {
        Some(seq!['i', 'n', 'd', 'e', 'x', '.', 'p', 'y'])
    } else if equal_ignoring_ascii_case(name, seq!['c', 'p', 'p']) {
        Some(seq!['i', 'n', 'd', 'e', 'x', '.', 'h', 'p', 'p'])
    } else {
        None
    }
}

/// The file a library of `language` starts from when none is named.
pub fn default_library_entry_point(language: &str) -> (entry: Option<&'static str>)
    ensures
        match default_entry_point(language@) {
            Some(e) => entry matches Some(f) && f@ == e,
            None => entry is None,
        },
{
    let name = trim(language);
    proof {
        reveal_strlit("typescript");
        reveal_strlit("python");
        reveal_strlit("cpp");
        reveal_strlit("index.ts");
        reveal_strlit("index.py");
        reveal_strlit("index.hpp");
        assert("typescript"@ =~= seq!['t', 'y', 'p', 'e', 's', 'c', 'r', 'i', 'p', 't']);
        assert("python"@ =~= seq!['p', 'y', 't', 'h', 'o', 'n']);
        assert("cpp"@ =~= seq!['c', 'p', 'p']);
        assert("index.ts"@ =~= seq!['i', 'n', 'd', 'e', 'x', '.', 't', 's']);
        assert("index.py"@ =~= seq!['i', 'n', 'd', 'e', 'x', '.', 'p', 'y']);
        assert("index.hpp"@ =~= seq!['i', 'n', 'd', 'e', 'x', '.', 'h', 'p', 'p']);
    }
    if eq_ignore_ascii_case(name, "typescript") {
        Some("index.ts")
    } else if eq_ignore_ascii_case(name, "python") {
        Some("index.py")
    } else if eq_ignore_ascii_case(name, "cpp") {
        Some("index.hpp")
    } else {
        None
    }
}

} // verus!
