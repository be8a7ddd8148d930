//! C++: headers are read into the feature model.
pub mod parser;

use vstd::prelude::*;

use crate::config::{LanguageConfig, Reader};

verus! {

/// C++, under the name `Cpp`.
pub fn register() -> (config: LanguageConfig)
    ensures
        config.name@ == seq!['C', 'p', 'p'],
        config.reader == Reader::Cpp,
{
    proof {
        reveal_strlit("Cpp");
        assert("Cpp"@ =~= seq!['C', 'p', 'p']);
    }
    LanguageConfig { name: "Cpp", reader: Reader::Cpp }
}

} // verus!
