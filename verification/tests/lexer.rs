use ptip_ffi::parser::lexer::{
    lexer_error_from_failure, LazyStatefulLexer, Lexer, LexerError, LexerRule, StateModification,
};
use ptip_ffi::pattern::RegexFailure;

fn lexer_with_root_rules<'a>(input: &'a str, root_rules: Vec<LexerRule>) -> LazyStatefulLexer<'a> {
    LazyStatefulLexer::new(input, vec![("root", root_rules)], "root").expect("lexer should build")
}

fn rule(pattern: &'static str, kind: &'static str, keep: bool, modification: StateModification) -> LexerRule {
    LexerRule { pattern, kind, keep, modification }
}

#[test]
fn parser_driven_push_state_changes_tokenization_and_is_reversible_via_restore() {
    let root_rules = vec![rule(r"[a-z]+", "root_ident", true, StateModification::Unchanged)];
    let inner_rules = vec![rule(r"[a-z]+", "inner_ident", true, StateModification::Unchanged)];
    let mut lexer = LazyStatefulLexer::new("abc", vec![("root", root_rules), ("inner", inner_rules)], "root")
        .expect("lexer should build");

    let snapshot = lexer.snapshot();

    lexer.push_state("inner").expect("push_state should succeed");
    let inner = lexer.next().expect("token in inner state");
    assert_eq!(inner.kind, "inner_ident");

    assert!(lexer.restore(&snapshot).is_none());
    let root = lexer.next().expect("token in root state");
    assert_eq!(root.kind, "root_ident");
}

#[test]
fn parser_driven_pop_state_errors_on_single_state() {
    let rules = vec![rule(r"[a-z]+", "ident", true, StateModification::Unchanged)];
    let mut lexer = lexer_with_root_rules("abc", rules);
    match lexer.pop_state() {
        Err(LexerError::InvalidState { .. }) => {}
        other => panic!("expected InvalidState, got {:?}", other),
    }
}

#[test]
fn lexes_identifiers_and_skips_whitespace() {
    let rules = vec![
        rule(r"[a-zA-Z_][a-zA-Z0-9_]*", "ident", true, StateModification::Unchanged),
        rule(r"\s+", "whitespace", false, StateModification::Unchanged),
    ];
    let mut lexer = lexer_with_root_rules("foo bar", rules);

    let first = lexer.next().expect("first token");
    assert_eq!(first.kind, "ident");
    assert_eq!(first.text, "foo");

    let second = lexer.next().expect("second token");
    assert_eq!(second.kind, "ident");
    assert_eq!(second.text, "bar");

    match lexer.next() {
        Err(LexerError::Eof) => {}
        other => panic!("expected Eof, got {:?}", other),
    }
}

#[test]
fn chooses_longest_match() {
    let rules = vec![
        rule(r"foobar", "foobar", true, StateModification::Unchanged),
        rule(r"foo", "foo", true, StateModification::Unchanged),
    ];
    let mut lexer = lexer_with_root_rules("foobar", rules);
    let token = lexer.next().expect("token");
    assert_eq!(token.kind, "foobar");
    assert_eq!(token.text, "foobar");
}

#[test]
fn prefers_first_rule_on_tie() {
    let rules = vec![
        rule(r"a.", "first", true, StateModification::Unchanged),
        rule(r"ab", "second", true, StateModification::Unchanged),
    ];
    let mut lexer = lexer_with_root_rules("ab", rules);
    let token = lexer.next().expect("token");
    assert_eq!(token.kind, "first");
    assert_eq!(token.text, "ab");
}

#[test]
fn snapshot_and_restore_rewinds_token_stream() {
    let rules = vec![
        rule(r"[a-z]+", "ident", true, StateModification::Unchanged),
        rule(r"\s+", "whitespace", false, StateModification::Unchanged),
    ];
    let mut lexer = lexer_with_root_rules("one two", rules);

    let first = lexer.next().expect("first token");
    assert_eq!(first.text, "one");

    let snapshot = lexer.snapshot();

    let second = lexer.next().expect("second token");
    assert_eq!(second.text, "two");

    assert!(lexer.restore(&snapshot).is_none());
    let second_again = lexer.next().expect("second token after restore");
    assert_eq!(second_again.kind, second.kind);
    assert_eq!(second_again.text, second.text);
    assert_eq!(second_again.position.row_begin, second.position.row_begin);
    assert_eq!(second_again.position.column_begin, second.position.column_begin);
}

#[test]
fn reports_no_match_error() {
    let rules = vec![rule(r"[0-9]+", "number", true, StateModification::Unchanged)];
    let mut lexer = lexer_with_root_rules("abc", rules);
    match lexer.next() {
        Err(LexerError::NoMatch) => {}
        other => panic!("expected NoMatch, got {:?}", other),
    }
}

#[test]
fn computes_positions_across_newlines() {
    let rules = vec![
        rule(r"\s+", "whitespace", false, StateModification::Unchanged),
        rule(r"[a-z]+", "ident", true, StateModification::Unchanged),
    ];
    let mut lexer = lexer_with_root_rules("\nabc", rules);

    let token = lexer.next().expect("identifier after newline");
    assert_eq!(token.kind, "ident");
    assert_eq!(token.text, "abc");
    assert_eq!(token.position.row_begin, 1);
    assert_eq!(token.position.column_begin, 0);
    assert_eq!(token.position.row_end, 1);
    assert_eq!(token.position.column_end, 3);
}

#[test]
fn push_and_pop_state_changes_ruleset() {
    let root_rules = vec![
        rule(r"\[", "lbracket", true, StateModification::Push("inner")),
        rule(r"[0-9]+", "root_number", true, StateModification::Unchanged),
        rule(r"\s+", "whitespace", false, StateModification::Unchanged),
    ];
    let inner_rules = vec![rule(r"[0-9]+", "inner_number", true, StateModification::Pop)];
    let mut lexer =
        LazyStatefulLexer::new("[123 456", vec![("root", root_rules), ("inner", inner_rules)], "root")
            .expect("lexer should build");

    let bracket = lexer.next().expect("bracket token");
    assert_eq!(bracket.kind, "lbracket");
    assert_eq!(bracket.text, "[");

    let first = lexer.next().expect("inner number after bracket");
    assert_eq!(first.kind, "inner_number");
    assert_eq!(first.text, "123");

    let second = lexer.next().expect("root number");
    assert_eq!(second.kind, "root_number");
    assert_eq!(second.text, "456");
}

#[test]
fn pop_from_single_state_produces_error() {
    let rules = vec![rule(r"[0-9]+", "number", true, StateModification::Pop)];
    let mut lexer = lexer_with_root_rules("123", rules);
    match lexer.next() {
        Err(LexerError::InvalidState { .. }) => {}
        other => panic!("expected InvalidState, got {:?}", other),
    }
}

#[test]
fn invalid_snapshot_is_reported() {
    let rules = vec![rule(r"[a-z]+", "ident", true, StateModification::Unchanged)];
    let mut lexer = lexer_with_root_rules("one", rules);

    let mut snapshot = lexer.snapshot();
    snapshot.token_buffer_index = 10;

    match lexer.restore(&snapshot) {
        Some(LexerError::InvalidSnapshot { .. }) => {}
        other => panic!("expected InvalidSnapshot, got {:?}", other),
    }
}

#[test]
fn invalid_default_state_is_reported() {
    let rulesets = vec![("root", vec![rule(r"[a-z]+", "ident", true, StateModification::Unchanged)])];
    match LazyStatefulLexer::new("one", rulesets, "missing") {
        Err(LexerError::InvalidDefaultState { supplied_state, .. }) => {
            assert_eq!(supplied_state, "missing");
        }
        Ok(_) => panic!("expected InvalidDefaultState, got Ok"),
        Err(other) => panic!("expected InvalidDefaultState, got {:?}", other),
    }
}

#[test]
fn push_to_unknown_ruleset_is_rejected() {
    let rulesets = vec![("root", vec![rule(r"\[", "lbracket", true, StateModification::Push("inner"))])];
    match LazyStatefulLexer::new("[", rulesets, "root") {
        Err(LexerError::InvalidRule { message }) => {
            assert!(message.contains("tries to push"));
        }
        Ok(_) => panic!("expected InvalidRule, got Ok"),
        Err(other) => panic!("expected InvalidRule, got {:?}", other),
    }
}

#[test]
fn keep_false_rules_cannot_modify_state() {
    let rulesets = vec![
        ("root", vec![rule(r"\[", "lbracket", false, StateModification::Push("inner"))]),
        ("inner", vec![rule(r"[0-9]+", "inner_number", true, StateModification::Unchanged)]),
    ];
    match LazyStatefulLexer::new("[", rulesets, "root") {
        Err(LexerError::InvalidRule { message }) => {
            assert!(message.contains("keep: false"));
        }
        Ok(_) => panic!("expected InvalidRule, got Ok"),
        Err(other) => panic!("expected InvalidRule, got {:?}", other),
    }
}

#[test]
fn invalid_pattern_is_reported_as_invalid_rule() {
    let rulesets = vec![("root", vec![rule(r"(", "broken", true, StateModification::Unchanged)])];
    match LazyStatefulLexer::new("(", rulesets, "root") {
        Err(LexerError::InvalidRule { message }) => {
            assert!(message.contains("syntax error"));
        }
        Ok(_) => panic!("expected InvalidRule, got Ok"),
        Err(other) => panic!("expected InvalidRule, got {:?}", other),
    }
}

#[test]
fn peek_leaves_the_token_to_come() {
    let rules = vec![
        rule(r"[a-z]+", "ident", true, StateModification::Unchanged),
        rule(r"\s+", "whitespace", false, StateModification::Unchanged),
    ];
    let mut lexer = lexer_with_root_rules("one two", rules);
    let peeked = lexer.peek().expect("peeked token");
    assert_eq!(peeked.text, "one");
    let read = lexer.next().expect("read token");
    assert_eq!(read.text, "one");
    assert_eq!(lexer.snapshot().token_buffer_index, 1);
}

#[test]
fn restoring_after_a_push_replays_buffered_tokens_of_the_branch() {
    let root_rules = vec![
        rule(r"[a-z]+", "root_ident", true, StateModification::Unchanged),
        rule(r"\s+", "whitespace", false, StateModification::Unchanged),
    ];
    let inner_rules = vec![
        rule(r"[a-z]+", "inner_ident", true, StateModification::Unchanged),
        rule(r"\s+", "whitespace", false, StateModification::Unchanged),
    ];
    let mut lexer =
        LazyStatefulLexer::new("ab cd", vec![("root", root_rules), ("inner", inner_rules)], "root")
            .expect("lexer should build");
    lexer.push_state("inner").expect("push");
    let snapshot = lexer.snapshot();
    let first = lexer.next().expect("first");
    assert_eq!(first.kind, "inner_ident");
    assert!(lexer.restore(&snapshot).is_none());
    let again = lexer.next().expect("again");
    assert_eq!(again.kind, "inner_ident");
    assert_eq!(again.text, "ab");
    assert_eq!(again.position.column_end, 2);
    lexer.pop_state().expect("pop");
    let second = lexer.next().expect("second");
    assert_eq!(second.kind, "root_ident");
    assert_eq!(second.text, "cd");
    assert_eq!(second.position.column_begin, 3);
}

#[test]
fn regex_failures_become_lexer_errors() {
    match lexer_error_from_failure(RegexFailure::Syntax("unclosed group".to_string())) {
        LexerError::InvalidRule { message } => {
            assert_eq!(message, "A syntax error was encountered in a rule pattern: 'unclosed group'.")
        },
        other => panic!("unexpected error {:?}", other),
    }
    match lexer_error_from_failure(RegexFailure::TooBig("1000".to_string())) {
        LexerError::InvalidRule { message } => {
            assert_eq!(message, "A rule pattern is too large to be compiled by the regex engine (size: 1000).")
        },
        other => panic!("unexpected error {:?}", other),
    }
    match lexer_error_from_failure(RegexFailure::Other("odd".to_string())) {
        LexerError::Custom { message } => {
            assert_eq!(message, "An unknown error occurred while compiling the regex: 'odd'")
        },
        other => panic!("unexpected error {:?}", other),
    }
}

#[test]
fn restored_lexer_replays_the_same_token_and_position() {
    let rules = vec![
        rule(r"[a-z]+", "ident", true, StateModification::Unchanged),
        rule(r"\s+", "whitespace", false, StateModification::Unchanged),
    ];
    let mut lexer = lexer_with_root_rules("one two", rules);
    lexer.next().expect("first token");
    let snapshot = lexer.snapshot();
    let first = lexer.next().expect("second token");
    let after_first = lexer.snapshot();
    assert!(lexer.restore(&snapshot).is_none());
    let again = lexer.next().expect("replayed token");
    let after_again = lexer.snapshot();
    assert_eq!(first.kind, again.kind);
    assert_eq!(first.text, "two");
    assert_eq!(again.text, "two");
    assert_eq!(first.position.row_begin, again.position.row_begin);
    assert_eq!(first.position.column_begin, again.position.column_begin);
    assert_eq!(first.position.column_end, again.position.column_end);
    assert_eq!(after_first.input_cursor, after_again.input_cursor);
    assert_eq!(after_first.input_row, after_again.input_row);
    assert_eq!(after_first.input_column, after_again.input_column);
    assert_eq!(after_first.state, after_again.state);
}

#[test]
fn lexer_rejects_push_to_unknown_ruleset_as_invalid_rule() {
    let rules = vec![rule(r"[a-z]+", "ident", true, StateModification::Push("missing"))];
    match LazyStatefulLexer::new("abc", vec![("root", rules)], "root") {
        Err(LexerError::InvalidRule { .. }) => {}
        _ => panic!("expected InvalidRule"),
    }
}

#[test]
fn lexer_rejects_skipped_token_that_changes_state_as_invalid_rule() {
    let rules = vec![rule(r"\s+", "whitespace", false, StateModification::Pop)];
    match LazyStatefulLexer::new("abc", vec![("root", rules)], "root") {
        Err(LexerError::InvalidRule { .. }) => {}
        _ => panic!("expected InvalidRule"),
    }
}

#[test]
fn snapshot_cursor_counts_bytes_of_the_input() {
    let rules = vec![
        rule(r"[^\s]+", "word", true, StateModification::Unchanged),
        rule(r"\s+", "whitespace", false, StateModification::Unchanged),
    ];
    let mut lexer = lexer_with_root_rules("héllo wörld", rules);
    let first = lexer.next().expect("first word");
    assert_eq!(first.text, "héllo");
    assert_eq!(lexer.snapshot().input_cursor, 6);
    let second = lexer.next().expect("second word");
    assert_eq!(second.text, "wörld");
    assert_eq!(lexer.snapshot().input_cursor, "héllo wörld".len());
    assert_eq!(second.position.column_begin, 6);
}
