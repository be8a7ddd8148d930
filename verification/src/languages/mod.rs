//! The languages a library can be read from, and what their readers share.
pub mod cpp;
pub mod python;
pub mod typescript;

use vstd::prelude::*;

use crate::config::LanguageConfig;
use crate::features::{FunctionDefinition, Module, TypeDefinition};
use crate::parser::lexer::{LexerRule, StateModification};

verus! {

/// A function or a type read from the source.
pub enum ParsedFeature {
    Function(FunctionDefinition),
    Type(TypeDefinition),
}

/// `result` is `accumulator` with `feature` added after its functions or
/// types.
pub open spec fn feature_added(accumulator: Module, feature: ParsedFeature, result: Module) -> bool {
    &&& result.path == accumulator.path
    &&& match feature {
        ParsedFeature::Function(f) => result.functions@ == accumulator.functions@.push(f) && result.types@
            == accumulator.types@,
        ParsedFeature::Type(t) => result.types@ == accumulator.types@.push(t) && result.functions@
            == accumulator.functions@,
    }
}

/// `r` is the rule that makes tokens of kind `kind` from text matching
/// `pattern`, keeps them or not as `keep` says, and leaves the ruleset
/// stack as it is.
pub open spec fn plain_rule(r: LexerRule, pattern: &'static str, kind: &'static str, keep: bool) -> bool {
    r.pattern == pattern && r.kind == kind && r.keep == keep && r.modification is Unchanged
}

/// A rule of the lexer.
pub fn rule(pattern: &'static str, kind: &'static str, keep: bool) -> (r: LexerRule)
    ensures
        plain_rule(r, pattern, kind, keep),
{
    LexerRule { pattern, kind, keep, modification: StateModification::Unchanged }
}

/// The languages libraries can be read from: Python and C++.
pub fn register_languages() -> (registry: Vec<LanguageConfig>)
    ensures
        registry@.len() == 2,
        registry@[0].name@ == seq!['P', 'y', 't', 'h', 'o', 'n'],
        registry@[0].reader == crate::config::Reader::Python,
        registry@[1].name@ == seq!['C', 'p', 'p'],
        registry@[1].reader == crate::config::Reader::Cpp,
{
    let mut registry: Vec<LanguageConfig> = Vec::new();
    registry.push(python::register());
    registry.push(cpp::register());
    registry
}

} // verus!
