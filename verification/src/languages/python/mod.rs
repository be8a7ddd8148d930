//! Python: modules are read into the feature model.
pub mod caller;
pub mod parser;

use vstd::prelude::*;

use crate::config::{LanguageConfig, Reader};

verus! {

/// Python, under the name `Python`.
pub fn register() -> (config: LanguageConfig)
    ensures
        config.name@ == seq!['P', 'y', 't', 'h', 'o', 'n'],
        config.reader == Reader::Python,
{
    proof {
        reveal_strlit("Python");
        assert("Python"@ =~= seq!['P', 'y', 't', 'h', 'o', 'n']);
    }
    LanguageConfig { name: "Python", reader: Reader::Python }
}

} // verus!
