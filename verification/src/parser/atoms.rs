//! Parsers that read tokens.
use vstd::prelude::*;

use crate::parser::lexer::{Lexer, LexerError, LexerErrorKind, LexerStateModel};
use crate::parser::{
    converted_error_kind, lemma_read_on_preorder, lemma_restored, lexer_error_converted, read_on, Parser, ParserError,
};
use crate::text::{is_prefix, owned, str_equal};

verus! {

/// A parser that reads one token of the given kind and gives its text.
pub struct TokenKind<'a> {
    pub expected_kind: &'a str,
}

/// A parser that matches a token based on its kind.
pub fn token_kind<'a>(expected_kind: &'a str) -> (parser: TokenKind<'a>)
    ensures
        parser.expected_kind == expected_kind,
{
    TokenKind { expected_kind }
}

/// What reading a token of kind `expected` does: the next token's text when
/// it has that kind; else an `UnexpectedToken` naming both kinds, with the
/// lexer put back; a lexer error is passed on as the matching parser error.
pub open spec fn token_kind_parses<'input, L: Lexer<'input>>(
    expected: Seq<char>,
    before: L,
    after: L,
    result: Result<String, ParserError>,
) -> bool {
    &&& result is Ok ==> after.remaining() < before.remaining()
    &&& result matches Ok(text) ==> before.took(&after, (expected, text@))
    &&& before.upcoming() is Err ==> (result matches Err(error) ==> exists|lexer_error: LexerError|
        before.failed(&after, lexer_error) && #[trigger] lexer_error_converted(lexer_error, error))
    &&& match before.upcoming() {
        Ok(next) => if next.0 == expected {
            result matches Ok(text) && text@ == next.1
        } else {
            &&& result matches Err(ParserError::UnexpectedToken { expected: e, found })
            &&& e@ == expected
            &&& found@ == next.0
            &&& after.position() == before.position()
        },
        Err(kind) => result matches Err(error) && converted_error_kind(kind, error),
    }
}

impl<'a, 'input, L: Lexer<'input>> Parser<'input, L, String> for TokenKind<'a> {
    open spec fn parses(&self, before: L, after: L, result: Result<String, ParserError>) -> bool {
        token_kind_parses(self.expected_kind@, before, after, result)
    }

    #[verifier::spinoff_prover]
    #[verifier::rlimit(40)]
    fn parse(&self, lexer: &mut L) -> (result: Result<String, ParserError>) {
        let ghost start = *lexer;
        let snapshot = lexer.snapshot();
        let token = match lexer.next() {
            Ok(token) => token,
            Err(e) => {
                return Err(ParserError::from_lexer_error(e));
            },
        };
        proof {
            assert forall|s: LexerStateModel| start.restorable(s) implies #[trigger] lexer.restorable(s)
                && lexer.remaining_at(s) <= start.remaining_at(s) by {}
            assert(read_on(start, *lexer));
        }
        if str_equal(token.kind, self.expected_kind) {
            Ok(owned(token.text))
        } else {
            let ghost current = *lexer;
            let _ = lexer.restore(&snapshot);
            proof {
                lemma_restored(start, current, *lexer, snapshot@);
            }
            Err(
                ParserError::UnexpectedToken {
                    expected: owned(self.expected_kind),
                    found: owned(token.kind),
                },
            )
        }
    }
}

/// The texts of `texts` laid end to end.
pub open spec fn joined(texts: Seq<Seq<char>>) -> Seq<char>
    decreases texts.len(),
{
    if texts.len() == 0 {
        Seq::empty()
    } else {
        joined(texts.drop_last()) + texts.last()
    }
}

/// `after` is `before` having given, one call of `next` after another,
/// tokens with the texts `texts` (and kinds of any sort).
pub open spec fn read_texts<'input, L: Lexer<'input>>(before: L, after: L, texts: Seq<Seq<char>>) -> bool
    decreases texts.len(),
{
    if texts.len() == 0 {
        after == before
    } else {
        exists|middle: L, kind: Seq<char>|
            read_texts(before, middle, texts.drop_last()) && #[trigger] middle.took(&after, (kind, texts.last()))
    }
}

/// A parser that reads tokens until their texts, laid end to end, spell
/// the expected text. The expected text has to align with token boundaries.
pub struct Exact<'a> {
    pub expected_text: &'a str,
}

/// A parser that matches a specific sequence of text from the input.
pub fn exact<'a>(expected_text: &'a str) -> (parser: Exact<'a>)
    ensures
        parser.expected_text == expected_text,
{
    Exact { expected_text }
}

/// How reading `expected` failed, when it did: the tokens read before the
/// failure, one call of `next` after another, spell a prefix of the
/// expected text; an `UnexpectedToken` names those texts laid end to end,
/// the last of which left the expected text; the end of the input came
/// after them; or the lexer failed after them with an error that is passed
/// on, converted.
#[verifier::opaque]
pub open spec fn exact_failures<'input, L: Lexer<'input>>(
    expected: Seq<char>,
    before: L,
    after: L,
    result: Result<String, ParserError>,
) -> bool {
    &&& expected.len() > 0 ==> (result matches Err(ParserError::UnexpectedToken { found, .. }) ==> exists|
        middle: L,
        texts: Seq<Seq<char>>,
    |
        #[trigger] read_texts(before, middle, texts) && texts.len() > 0 && joined(texts) == found@ && joined(
            texts.drop_last(),
        ).is_prefix_of(expected) && !found@.is_prefix_of(expected))
    &&& result is Err && result->Err_0 is UnexpectedEof ==> exists|middle: L, end: L, texts: Seq<Seq<char>>|
        #![trigger read_texts(before, middle, texts), middle.failed(&end, LexerError::Eof)]
        read_texts(before, middle, texts) && joined(texts).is_prefix_of(expected) && middle.failed(
            &end,
            LexerError::Eof,
        )
    &&& result is Err && !(result->Err_0 is UnexpectedToken) && !(result->Err_0 is UnexpectedEof) ==> exists|
        middle: L,
        texts: Seq<Seq<char>>,
        lexer_error: LexerError,
    |
        #![trigger read_texts(before, middle, texts), middle.failed(&after, lexer_error)]
        read_texts(before, middle, texts) && joined(texts).is_prefix_of(expected) && middle.failed(
            &after,
            lexer_error,
        ) && lexer_error_converted(lexer_error, result->Err_0)
}

/// What reading `expected` does. The result is `expected` itself or an
/// error; an `UnexpectedToken` (with the text read, which is not `expected`
/// unless that is empty) and an unexpected end put the lexer back. When the
/// first token spells all of `expected`, it is read; when its text does
/// not begin `expected`, that text is reported; a first lexer error is
/// passed on. An empty `expected` is never matched.
pub open spec fn exact_parses<'input, L: Lexer<'input>>(
    expected: Seq<char>,
    before: L,
    after: L,
    result: Result<String, ParserError>,
) -> bool {
    &&& result matches Ok(text) ==> text@ == expected && expected.len() > 0 && after.remaining()
        < before.remaining()
    &&& result is Ok ==> exists|texts: Seq<Seq<char>>|
        texts.len() > 0 && joined(texts) == expected && #[trigger] read_texts(before, after, texts)
    &&& result matches Err(ParserError::UnexpectedToken { expected: e, found }) ==> {
        &&& e@ == expected
        &&& found@ != expected || expected.len() == 0
        &&& after.position() == before.position()
    }
    &&& result is Err && result->Err_0 is UnexpectedEof ==> after.position() == before.position()
    &&& exact_failures(expected, before, after, result)
    &&& expected.len() == 0 ==> (result matches Err(ParserError::UnexpectedToken { found, .. })
        && found@.len() == 0)
    &&& expected.len() > 0 ==> match before.upcoming() {
        Ok(next) => {
            &&& next.1 == expected ==> result is Ok
            &&& !next.1.is_prefix_of(expected) ==> (result matches Err(
                ParserError::UnexpectedToken { found, .. },
            ) && found@ == next.1)
        },
        Err(kind) => result matches Err(error) && converted_error_kind(kind, error),
    }
}

impl<'a, 'input, L: Lexer<'input>> Parser<'input, L, String> for Exact<'a> {
    open spec fn parses(&self, before: L, after: L, result: Result<String, ParserError>) -> bool {
        exact_parses(self.expected_text@, before, after, result)
    }

    #[verifier::spinoff_prover]
    #[verifier::rlimit(40)]
    fn parse(&self, lexer: &mut L) -> (result: Result<String, ParserError>) {
        let expected_text = self.expected_text;
        let snapshot = lexer.snapshot();
        let ghost start = *lexer;
        proof {
            lemma_read_on_preorder(start, start, start);
        }
        let n = expected_text.unicode_len();
        let mut matched = String::new();
        let ghost mut first: bool = true;
        let ghost mut texts: Seq<Seq<char>> = Seq::empty();
        loop
            invariant
                read_texts(start, *lexer, texts),
                joined(texts) == matched@,
                first ==> texts.len() == 0,
                !first ==> texts.len() > 0,
                start == *old(lexer),
                start.ready(),
                snapshot@ == start.position(),
                start.remaining_at(snapshot@) == start.remaining(),
                start.restorable(snapshot@),
                read_on(start, *lexer),
                n == expected_text@.len(),
                expected_text == self.expected_text,
                matched@.is_prefix_of(expected_text@),
                first ==> *lexer == start && matched@.len() == 0,
                !first ==> lexer.remaining() < start.remaining(),
                !first ==> matched@ != expected_text@ && (start.upcoming() matches Ok(
                    t,
                ) && t.1.is_prefix_of(expected_text@) && t.1 != expected_text@),
            decreases lexer.remaining(),
        {
            if matched.as_str().unicode_len() >= n {
                proof {
                    reveal(exact_failures);
                    if !first {
                        assert(matched@ =~= expected_text@);
                    }
                }
                let ghost current = *lexer;
                let _ = lexer.restore(&snapshot);
                proof {
                    assert forall|t: LexerStateModel| current.restorable(t) implies #[trigger] lexer.restorable(t)
                        && lexer.remaining_at(t) <= current.remaining_at(t) by {}
                    lemma_restored(start, current, *lexer, snapshot@);
                }
                return Err(
                    ParserError::UnexpectedToken { expected: owned(expected_text), found: matched },
                );
            }
            let ghost before_next = *lexer;
            let token = match lexer.next() {
                Ok(token) => token,
                Err(LexerError::Eof) => {
                    let ghost current = *lexer;
                    proof {
                        lemma_read_on_preorder(start, before_next, current);
                    }
                    let _ = lexer.restore(&snapshot);
                    proof {
                        assert forall|t: LexerStateModel| current.restorable(t) implies #[trigger] lexer.restorable(t)
                            && lexer.remaining_at(t) <= current.remaining_at(t) by {}
                        lemma_restored(start, current, *lexer, snapshot@);
                        reveal(exact_failures);
                        assert(before_next.failed(&current, LexerError::Eof));
                        assert(read_texts(start, before_next, texts));
                    }
                    return Err(ParserError::UnexpectedEof);
                },
                Err(e) => {
                    proof {
                        lemma_read_on_preorder(start, before_next, *lexer);
                    }
                    let converted = ParserError::from_lexer_error(e);
                    proof {
                        reveal(exact_failures);
                        assert(before_next.failed(&*lexer, e));
                        assert(read_texts(start, before_next, texts));
                    }
                    return Err(converted);
                },
            };
            proof {
                lemma_read_on_preorder(start, before_next, *lexer);
                let grown = texts.push(token.text@);
                assert(grown.drop_last() =~= texts);
                assert(before_next.took(&*lexer, (token.kind@, grown.last())));
                assert(read_texts(start, *lexer, grown));
                assert(joined(grown) == joined(texts) + token.text@);
            }
            let mut candidate = matched.clone();
            candidate.append(token.text);
            proof {
                texts = texts.push(token.text@);
            }
            if is_prefix(candidate.as_str(), expected_text) {
                matched = candidate;
                if str_equal(matched.as_str(), expected_text) {
                    proof {
                        reveal(exact_failures);
                    }
                    return Ok(matched);
                }
                proof {
                    if first {
                        assert(matched@ =~= token.text@);
                    }
                }
            } else {
                proof {
                    if !first {
                        assert(candidate@.subrange(0, matched@.len() as int) =~= matched@);
                    } else {
                        assert(candidate@ =~= token.text@);
                    }
                }
                let ghost current = *lexer;
                let _ = lexer.restore(&snapshot);
                proof {
                    assert forall|t: LexerStateModel| current.restorable(t) implies #[trigger] lexer.restorable(t)
                        && lexer.remaining_at(t) <= current.remaining_at(t) by {}
                    lemma_restored(start, current, *lexer, snapshot@);
                    reveal(exact_failures);
                    assert(read_texts(start, current, texts));
                    assert(joined(texts) == candidate@);
                }
                return Err(
                    ParserError::UnexpectedToken { expected: owned(expected_text), found: candidate },
                );
            }
            proof {
                first = false;
            }
        }
    }
}

} // verus!
