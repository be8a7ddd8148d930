//! Reads the interface of a library written in one language into a model
//! of its functions and types, from which bindings for another language
//! are generated.
pub mod codegen;
pub mod config;
pub mod error;
pub mod features;
pub mod languages;
pub mod parser;
pub mod pattern;
pub mod text;
pub mod util;

use vstd::prelude::*;

use config::LanguageConfig;

verus! {

/// The registry of the languages libraries can be read from: Python,
/// then C++.
pub fn initialize() -> (registry: Vec<LanguageConfig>)
    ensures
        registry@.len() == 2,
        registry@[0].name@ == seq!['P', 'y', 't', 'h', 'o', 'n'],
        registry@[0].reader == config::Reader::Python,
        registry@[1].name@ == seq!['C', 'p', 'p'],
        registry@[1].reader == config::Reader::Cpp,
{
    languages::register_languages()
}

} // verus!
