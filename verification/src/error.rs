//! The errors of the library as a whole.
use vstd::prelude::*;

use crate::parser::lexer::LexerError;
use crate::parser::ParserError;

verus! {

/// Why generating bindings failed.
#[derive(Debug)]
pub enum PTIPFFIError {
    LexerError(LexerError),
    ParserError(ParserError),
    LanguageNotFound(String),
    /// Writing the output failed; the text says why.
    OutputPersistenceError(String),
}

impl From<LexerError> for PTIPFFIError {
    fn from(e: LexerError) -> (converted: Self) {
        PTIPFFIError::LexerError(e)
    }
}

impl vstd::std_specs::convert::FromSpecImpl<LexerError> for PTIPFFIError {
    open spec fn obeys_from_spec() -> bool {
        true
    }

    open spec fn from_spec(v: LexerError) -> Self {
        PTIPFFIError::LexerError(v)
    }
}

impl From<ParserError> for PTIPFFIError {
    fn from(e: ParserError) -> (converted: Self) {
        PTIPFFIError::ParserError(e)
    }
}

impl vstd::std_specs::convert::FromSpecImpl<ParserError> for PTIPFFIError {
    open spec fn obeys_from_spec() -> bool {
        true
    }

    open spec fn from_spec(v: ParserError) -> Self {
        PTIPFFIError::ParserError(v)
    }
}

} // verus!
