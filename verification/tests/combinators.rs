use ptip_ffi::parser::atoms::{exact, token_kind};
use ptip_ffi::parser::combinators::{optional, parse_at_anchors, AnchorLocation, AnchorRule, Reducer};
use ptip_ffi::parser::lexer::{Lexer, LexerError, LexerState, Token, TokenPosition};
use ptip_ffi::parser::{Parser, ParserError};

struct TestLexer<'a> {
    tokens: Vec<Token<'a>>,
    index: usize,
    cursor: usize,
}

impl<'a> TestLexer<'a> {
    fn new(tokens: Vec<Token<'a>>) -> Self {
        Self { tokens, index: 0, cursor: 0 }
    }
}

impl<'a> Lexer<'a> for TestLexer<'a> {
    fn next(&mut self) -> Result<Token<'a>, LexerError> {
        if self.index >= self.tokens.len() {
            return Err(LexerError::Eof);
        }
        let token = self.tokens[self.index];
        self.index += 1;
        self.cursor += 1;
        Ok(token)
    }

    fn snapshot(&self) -> LexerState {
        LexerState::new(self.index, self.cursor, 0, 0, Vec::new())
    }

    fn restore(&mut self, state: &LexerState) -> Option<LexerError> {
        self.index = state.token_buffer_index;
        self.cursor = state.input_cursor;
        None
    }

    fn peek(&mut self) -> Result<Token<'a>, LexerError> {
        let snapshot = self.snapshot();
        let next = self.next();
        if let Some(e) = self.restore(&snapshot) {
            return Err(e);
        }
        next
    }
}

fn tok(kind: &'static str, text: &'static str) -> Token<'static> {
    Token {
        kind,
        text,
        position: TokenPosition { row_begin: 0, row_end: 0, column_begin: 0, column_end: 0 },
    }
}

type L = TestLexer<'static>;

/// Reads an anchor token (of `anchor_kind`, and with `anchor_text` if
/// given), then a token of `value_kind`, and gives `prefix` and its text.
struct AnchorThenValue {
    anchor_kind: &'static str,
    anchor_text: Option<&'static str>,
    value_kind: &'static str,
    prefix: &'static str,
}

impl Parser<'static, L, String> for AnchorThenValue {
    fn parse(&self, lexer: &mut L) -> Result<String, ParserError> {
        let anchor = lexer.next().map_err(ParserError::from_lexer_error)?;
        let text_ok = match self.anchor_text {
            Some(text) => anchor.text == text,
            None => true,
        };
        if anchor.kind != self.anchor_kind || !text_ok {
            return Err(ParserError::UnexpectedToken {
                expected: self.anchor_kind.to_string(),
                found: format!("{}:{}", anchor.kind, anchor.text),
            });
        }
        let value = lexer.next().map_err(ParserError::from_lexer_error)?;
        if value.kind != self.value_kind {
            return Err(ParserError::UnexpectedToken {
                expected: self.value_kind.to_string(),
                found: value.kind.to_string(),
            });
        }
        Ok(format!("{}{}", self.prefix, value.text))
    }
}

struct PushFeature;

impl<T> Reducer<Vec<T>, T> for PushFeature {
    fn reduce(&self, mut accumulator: Vec<T>, feature: T) -> Vec<T> {
        accumulator.push(feature);
        accumulator
    }
}

fn rule_of<A: 'static, R: 'static>(
    parsers: Vec<Box<dyn Parser<'static, L, R>>>,
    reducer: impl Reducer<A, R> + 'static,
) -> AnchorRule<'static, 'static, L, A, R> {
    AnchorRule { parsers, reducer: Box::new(reducer) }
}

fn anchor_then_value(
    anchor_kind: &'static str,
    anchor_text: Option<&'static str>,
    value_kind: &'static str,
    prefix: &'static str,
) -> Box<dyn Parser<'static, L, String>> {
    Box::new(AnchorThenValue { anchor_kind, anchor_text, value_kind, prefix })
}

#[test]
fn optional_wraps_success_in_some() {
    let mut lexer = TestLexer::new(vec![tok("K", "hello")]);
    let parser = optional(token_kind("K"));
    let result = parser.parse(&mut lexer).unwrap();

    assert_eq!(result, Some("hello".to_string()));
    assert_eq!(lexer.snapshot().token_buffer_index, 1);
}

#[test]
fn optional_turns_unexpected_token_into_none_and_does_not_consume() {
    let mut lexer = TestLexer::new(vec![tok("K", "hello")]);
    let parser = optional(token_kind("Other"));
    let result = parser.parse(&mut lexer).unwrap();

    assert_eq!(result, None);
    assert_eq!(lexer.snapshot().token_buffer_index, 0);
}

struct Boom;

impl Parser<'static, L, ()> for Boom {
    fn parse(&self, _lexer: &mut L) -> Result<(), ParserError> {
        Err(ParserError::Custom("boom".into()))
    }
}

#[test]
fn optional_propagates_non_unexpected_errors() {
    let mut lexer = TestLexer::new(vec![]);
    let opt = optional(Boom);

    let err = opt.parse(&mut lexer).unwrap_err();
    match err {
        ParserError::Custom(msg) => assert_eq!(msg, "boom"),
        other => panic!("expected Custom error, got: {:?}", other),
    }
}

#[test]
fn parse_at_anchors_collects_features_and_advances_stream() {
    let anchors = vec![(
        AnchorLocation::Exact { token_kind: "A", text: "@" },
        rule_of(vec![anchor_then_value("A", Some("@"), "V", "")], PushFeature),
    )];
    let mut lexer = TestLexer::new(vec![
        tok("N", "x"),
        tok("A", "@"),
        tok("V", "one"),
        tok("N", "y"),
        tok("A", "@"),
        tok("V", "two"),
    ]);

    let parser = parse_at_anchors(Vec::new(), anchors);
    let result = parser.parse(&mut lexer).unwrap();

    assert_eq!(result, vec!["one".to_string(), "two".to_string()]);
    assert_eq!(lexer.snapshot().token_buffer_index, 6);
}

#[test]
fn parse_at_anchors_supports_kind_only_anchors() {
    let anchors = vec![(
        AnchorLocation::Kind("A"),
        rule_of(vec![anchor_then_value("A", None, "V", "")], PushFeature),
    )];
    let mut lexer = TestLexer::new(vec![
        tok("N", "x"),
        tok("A", "@"),
        tok("V", "one"),
        tok("N", "y"),
        tok("A", "#"),
        tok("V", "two"),
    ]);

    let parser = parse_at_anchors(Vec::new(), anchors);
    let result = parser.parse(&mut lexer).unwrap();

    assert_eq!(result, vec!["one".to_string(), "two".to_string()]);
    assert_eq!(lexer.snapshot().token_buffer_index, 6);
}

#[test]
fn parse_at_anchors_prefers_exact_anchor_over_kind_anchor() {
    let anchors = vec![
        (
            AnchorLocation::Kind("A"),
            rule_of(vec![anchor_then_value("A", None, "V", "kind:")], PushFeature),
        ),
        (
            AnchorLocation::Exact { token_kind: "A", text: "@" },
            rule_of(vec![anchor_then_value("A", Some("@"), "V", "exact:")], PushFeature),
        ),
    ];
    let mut lexer = TestLexer::new(vec![tok("A", "@"), tok("V", "one"), tok("A", "#"), tok("V", "two")]);

    let parser = parse_at_anchors(Vec::new(), anchors);
    let result = parser.parse(&mut lexer).unwrap();

    assert_eq!(result, vec!["exact:one".to_string(), "kind:two".to_string()]);
    assert_eq!(lexer.snapshot().token_buffer_index, 4);
}

struct ConsumeThenFail;

impl Parser<'static, L, &'static str> for ConsumeThenFail {
    fn parse(&self, lexer: &mut L) -> Result<&'static str, ParserError> {
        let _ = lexer.next().map_err(ParserError::from_lexer_error)?;
        Err(ParserError::UnexpectedToken { expected: "something else".into(), found: "anchor".into() })
    }
}

struct Hit;

impl Parser<'static, L, &'static str> for Hit {
    fn parse(&self, lexer: &mut L) -> Result<&'static str, ParserError> {
        let t = lexer.next().map_err(ParserError::from_lexer_error)?;
        if t.kind == "A" && t.text == "@" {
            Ok("hit")
        } else {
            Err(ParserError::UnexpectedToken { expected: "A:@".into(), found: format!("{}:{}", t.kind, t.text) })
        }
    }
}

#[test]
fn parse_at_anchors_tries_parsers_in_order_and_restores_between_attempts() {
    let parsers: Vec<Box<dyn Parser<'static, L, &'static str>>> = vec![Box::new(ConsumeThenFail), Box::new(Hit)];
    let anchors = vec![(AnchorLocation::Exact { token_kind: "A", text: "@" }, rule_of(parsers, PushFeature))];

    let mut lexer = TestLexer::new(vec![tok("A", "@"), tok("N", "tail")]);
    let parser = parse_at_anchors(Vec::new(), anchors);
    let result = parser.parse(&mut lexer).unwrap();

    assert_eq!(result, vec!["hit"]);
    assert_eq!(lexer.snapshot().token_buffer_index, 2);
}

struct AnchorThenPeekedValue;

impl Parser<'static, L, String> for AnchorThenPeekedValue {
    fn parse(&self, lexer: &mut L) -> Result<String, ParserError> {
        let t1 = lexer.next().map_err(ParserError::from_lexer_error)?;
        if t1.kind != "A" {
            return Err(ParserError::UnexpectedToken { expected: "A".into(), found: t1.kind.into() });
        }
        if let Ok(t2) = lexer.peek() {
            if t2.kind == "V" {
                let t2 = lexer.next().map_err(ParserError::from_lexer_error)?;
                return Ok(t2.text.to_string());
            }
        }
        Err(ParserError::UnexpectedToken { expected: "V".into(), found: "not V".into() })
    }
}

#[test]
fn parse_at_anchors_advances_by_one_when_anchor_parser_does_not_match() {
    let parsers: Vec<Box<dyn Parser<'static, L, String>>> = vec![Box::new(AnchorThenPeekedValue)];
    let anchors = vec![(AnchorLocation::Exact { token_kind: "A", text: "@" }, rule_of(parsers, PushFeature))];

    let mut lexer = TestLexer::new(vec![tok("A", "@"), tok("N", "noise"), tok("A", "@"), tok("V", "ok")]);

    let parser = parse_at_anchors(Vec::new(), anchors);
    let result = parser.parse(&mut lexer).unwrap();

    assert_eq!(result, vec!["ok".to_string()]);
}

struct NoConsume;

impl Parser<'static, L, ()> for NoConsume {
    fn parse(&self, _lexer: &mut L) -> Result<(), ParserError> {
        Ok(())
    }
}

struct KeepAccumulator;

impl Reducer<(), ()> for KeepAccumulator {
    fn reduce(&self, accumulator: (), _feature: ()) {
        accumulator
    }
}

#[test]
fn parse_at_anchors_errors_if_successful_parser_consumes_no_tokens() {
    let parsers: Vec<Box<dyn Parser<'static, L, ()>>> = vec![Box::new(NoConsume)];
    let anchors = vec![(AnchorLocation::Exact { token_kind: "A", text: "@" }, rule_of(parsers, KeepAccumulator))];

    let mut lexer = TestLexer::new(vec![tok("A", "@"), tok("N", "tail")]);
    let parser = parse_at_anchors((), anchors);
    let err = parser.parse(&mut lexer).unwrap_err();

    match err {
        ParserError::Custom(msg) => assert!(msg.contains("did not consume any tokens")),
        other => panic!("expected Custom error, got: {:?}", other),
    }
}

#[test]
fn parse_at_anchors_supports_consecutive_anchors() {
    let anchors = vec![(
        AnchorLocation::Consecutive(vec![
            AnchorLocation::Exact { token_kind: "A", text: "@" },
            AnchorLocation::Kind("V"),
        ]),
        rule_of(vec![anchor_then_value("A", Some("@"), "V", "")], PushFeature),
    )];
    let mut lexer = TestLexer::new(vec![
        tok("N", "x"),
        tok("A", "@"),
        tok("V", "one"),
        tok("N", "y"),
        tok("A", "@"),
        tok("V", "two"),
    ]);

    let parser = parse_at_anchors(Vec::new(), anchors);
    let result = parser.parse(&mut lexer).unwrap();

    assert_eq!(result, vec!["one".to_string(), "two".to_string()]);
    assert_eq!(lexer.snapshot().token_buffer_index, 6);
}

#[test]
fn parse_at_anchors_drops_consecutive_anchor_when_competing_anchor_matches() {
    let anchors = vec![
        (
            AnchorLocation::Consecutive(vec![
                AnchorLocation::Exact { token_kind: "A", text: "@" },
                AnchorLocation::Kind("B"),
            ]),
            rule_of(vec![anchor_then_value("A", Some("@"), "B", "consecutive:")], PushFeature),
        ),
        (AnchorLocation::Kind("V"), rule_of(vec![Box::new(SingleValue) as Box<dyn Parser<'static, L, String>>], PushFeature)),
    ];
    let mut lexer = TestLexer::new(vec![tok("A", "@"), tok("V", "one"), tok("A", "@"), tok("B", "ok")]);

    let parser = parse_at_anchors(Vec::new(), anchors);
    let result = parser.parse(&mut lexer).unwrap();

    assert_eq!(result, vec!["single:one".to_string(), "consecutive:ok".to_string()]);
    assert_eq!(lexer.snapshot().token_buffer_index, 4);
}

struct SingleValue;

impl Parser<'static, L, String> for SingleValue {
    fn parse(&self, lexer: &mut L) -> Result<String, ParserError> {
        let value = lexer.next().map_err(ParserError::from_lexer_error)?;
        if value.kind != "V" {
            return Err(ParserError::UnexpectedToken { expected: "V".into(), found: value.kind.into() });
        }
        Ok(format!("single:{}", value.text))
    }
}

#[test]
fn exact_reads_tokens_that_spell_the_text() {
    let mut lexer = TestLexer::new(vec![tok("P", "-"), tok("P", ">"), tok("N", "x")]);
    let result = exact("->").parse(&mut lexer).unwrap();
    assert_eq!(result, "->");
    assert_eq!(lexer.snapshot().token_buffer_index, 2);
}

#[test]
fn exact_reports_the_text_read_and_puts_the_lexer_back() {
    let mut lexer = TestLexer::new(vec![tok("P", "-"), tok("N", "x")]);
    match exact("->").parse(&mut lexer) {
        Err(ParserError::UnexpectedToken { expected, found }) => {
            assert_eq!(expected, "->");
            assert_eq!(found, "-x");
        }
        other => panic!("expected UnexpectedToken, got {:?}", other),
    }
    assert_eq!(lexer.snapshot().token_buffer_index, 0);
}

#[test]
fn exact_at_end_is_an_unexpected_eof() {
    let mut lexer = TestLexer::new(vec![tok("P", "-")]);
    match exact("->").parse(&mut lexer) {
        Err(ParserError::UnexpectedEof) => {}
        other => panic!("expected UnexpectedEof, got {:?}", other),
    }
    assert_eq!(lexer.snapshot().token_buffer_index, 0);
}

#[test]
fn token_kind_reports_both_kinds() {
    let mut lexer = TestLexer::new(vec![tok("N", "x")]);
    match token_kind("K").parse(&mut lexer) {
        Err(ParserError::UnexpectedToken { expected, found }) => {
            assert_eq!(expected, "K");
            assert_eq!(found, "N");
        }
        other => panic!("expected UnexpectedToken, got {:?}", other),
    }
    assert_eq!(lexer.snapshot().token_buffer_index, 0);
}

#[test]
fn parse_at_anchors_without_anchors_gives_back_the_initial_value() {
    let anchors: Vec<(AnchorLocation<'static>, AnchorRule<'static, 'static, L, Vec<String>, String>)> = Vec::new();
    let mut lexer = TestLexer::new(vec![tok("N", "x"), tok("A", "@"), tok("V", "one")]);
    let parser = parse_at_anchors(vec!["start".to_string()], anchors);
    let result = parser.parse(&mut lexer).unwrap();
    assert_eq!(result, vec!["start".to_string()]);
    assert_eq!(lexer.snapshot().token_buffer_index, 3);
}
