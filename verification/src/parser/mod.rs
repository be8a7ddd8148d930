//! Parsing: a lexer, parsers that read single tokens, and combinators that
//! build parsers out of parsers.
pub mod atoms;
pub mod combinators;
pub mod lexer;

use vstd::prelude::*;

use crate::text::owned;
use lexer::{Lexer, LexerError, LexerErrorKind, LexerState, LexerStateModel};

verus! {

/// Why a parser could not read what it expected.
#[derive(Debug)]
pub enum ParserError {
    UnexpectedToken { expected: String, found: String },
    UnexpectedEof,
    InternalError(String),
    Custom(String),
}

/// `error` is what a lexer error of kind `kind` becomes in a parser: a
/// missing token is an unexpected end, a failing lexer configuration an
/// internal error, and input no rule matches a custom error.
pub open spec fn converted_error_kind(kind: LexerErrorKind, error: ParserError) -> bool {
    match kind {
        LexerErrorKind::NoMatch => error is Custom,
        LexerErrorKind::Eof => error is UnexpectedEof,
        LexerErrorKind::Custom => error is Custom,
        _ => error is InternalError,
    }
}

/// `converted` is the parser error that the lexer error `error` becomes:
/// its message kept, a missing token an unexpected end, a failing lexer
/// configuration an internal error, input no rule matches a custom error.
pub open spec fn lexer_error_converted(error: LexerError, converted: ParserError) -> bool {
    match error {
        LexerError::InvalidSnapshot { message } => converted == ParserError::InternalError(message),
        LexerError::InvalidState { message } => converted == ParserError::InternalError(message),
        LexerError::InvalidRule { message } => converted == ParserError::InternalError(message),
        LexerError::InvalidDefaultState { message, .. } => converted == ParserError::InternalError(message),
        LexerError::Custom { message } => converted == ParserError::Custom(message),
        LexerError::NoMatch => converted matches ParserError::Custom(m) && m@
            == "Input could not be tokenized by any of the lexer rules."@,
        LexerError::Eof => converted is UnexpectedEof,
    }
}

impl ParserError {
    /// The parser error that a lexer error becomes, keeping its message.
    pub fn from_lexer_error(error: LexerError) -> (converted: Self)
        ensures
            converted_error_kind(lexer::error_kind(error), converted),
            lexer_error_converted(error, converted),
    {
        match error {
            LexerError::NoMatch => ParserError::Custom(
                owned("Input could not be tokenized by any of the lexer rules."),
            ),
            LexerError::Eof => ParserError::UnexpectedEof,
            LexerError::InvalidSnapshot { message } => ParserError::InternalError(message),
            LexerError::InvalidState { message } => ParserError::InternalError(message),
            LexerError::InvalidRule { message } => ParserError::InternalError(message),
            LexerError::InvalidDefaultState { message, .. } => ParserError::InternalError(message),
            LexerError::Custom { message } => ParserError::Custom(message),
        }
    }
}

/// `after` is the lexer `before` having read on: still ready, with no more
/// tokens left than before, and every position `before` could be put back
/// to still one `after` can be put back to, with no more tokens from there.
pub open spec fn read_on<'input, L: Lexer<'input>>(before: L, after: L) -> bool {
    &&& after.ready()
    &&& after.remaining() <= before.remaining()
    &&& forall|s: LexerStateModel|
        before.restorable(s) ==> #[trigger] after.restorable(s) && after.remaining_at(s)
            <= before.remaining_at(s)
}

/// A successful read that moved the lexer's cursor took at least one
/// token.
pub open spec fn parse_progress<'input, L: Lexer<'input>, R>(
    before: L,
    after: L,
    result: Result<R, ParserError>,
) -> bool {
    result is Ok && after.position().input_cursor != before.position().input_cursor ==> after.remaining()
        < before.remaining()
}

/// Reading on is a preorder.
pub proof fn lemma_read_on_preorder<'input, L: Lexer<'input>>(a: L, b: L, c: L)
    ensures
        a.ready() ==> read_on(a, a),
        read_on(a, b) && read_on(b, c) ==> read_on(a, c),
{
    if read_on(a, b) && read_on(b, c) {
        assert forall|s: LexerStateModel| a.restorable(s) implies #[trigger] c.restorable(s)
            && c.remaining_at(s) <= a.remaining_at(s) by {
            assert(b.restorable(s));
        }
    }
}

/// Putting the lexer back to a position it could be restored to when it
/// stood at `start` leaves it having read on from `start`, if that position
/// promised no more tokens than `start` had left.
pub proof fn lemma_restored<'input, L: Lexer<'input>>(start: L, current: L, restored: L, s: LexerStateModel)
    requires
        start.ready(),
        start.restorable(s),
        start.remaining_at(s) <= start.remaining(),
        read_on(start, current),
        restored.ready(),
        restored.remaining() == current.remaining_at(s),
        forall|t: LexerStateModel|
            current.restorable(t) ==> #[trigger] restored.restorable(t) && restored.remaining_at(t)
                <= current.remaining_at(t),
    ensures
        read_on(start, restored),
{
    assert(current.restorable(s));
    assert forall|t: LexerStateModel| start.restorable(t) implies #[trigger] restored.restorable(t)
        && restored.remaining_at(t) <= start.remaining_at(t) by {
        assert(current.restorable(t));
    }
}

/// Puts the lexer back to `snapshot`, taken when it stood at `start`: it
/// then stands at `snapshot` with the tokens left from there, and has still
/// only read on from `start`.
pub(crate) fn restore_to<'input, L: Lexer<'input>>(lexer: &mut L, snapshot: &LexerState, Ghost(start): Ghost<L>)
    requires
        start.ready(),
        read_on(start, *old(lexer)),
        start.restorable(snapshot@),
        start.remaining_at(snapshot@) <= start.remaining(),
    ensures
        final(lexer).position() == snapshot@,
        final(lexer).remaining() == old(lexer).remaining_at(snapshot@),
        read_on(start, *final(lexer)),
{
    let ghost current = *lexer;
    assert(current.restorable(snapshot@));
    let _ = lexer.restore(snapshot);
    proof {
        lemma_restored(start, current, *lexer, snapshot@);
    }
}

/// Something that reads a value of type `R` from a lexer of type `L`.
pub trait Parser<'input, L: Lexer<'input>, R> {
    /// Reading from the lexer `before` may leave it as `after` and give
    /// `result`.
    /// (Nothing is known of a parser that does not model itself.)
    open spec fn parses(&self, before: L, after: L, result: Result<R, ParserError>) -> bool {
        false
    }

    /// Reads a value, or says why it cannot.
    fn parse(&self, lexer: &mut L) -> (result: Result<R, ParserError>)
        requires
            old(lexer).ready(),
        ensures
            read_on(*old(lexer), *final(lexer)),
            parse_progress(*old(lexer), *final(lexer), result),
            self.parses(*old(lexer), *final(lexer), result),
    ;
}

} // verus!
