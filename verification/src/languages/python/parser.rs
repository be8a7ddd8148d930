//! Reading Python modules. The source is first cut down to the headers of
//! top-level `def` and `class` statements; those are read with the lexer,
//! and the methods of each class are read from the source lines as they were given.
use vstd::prelude::*;

use crate::features::{
    AnonymousCallable, FunctionDefinition, Method, Module, ModulePath, Type, TypeDefinition, ValueParameter,
};
use crate::languages::{feature_added, plain_rule, rule, ParsedFeature};
use crate::parser::atoms::{exact, token_kind};
use crate::parser::combinators::{
    copies_kept, parse_at_anchors_keeping, rule_folds, rules_keep, AnchorLocation, AnchorRule, Reducer,
};
use crate::parser::combinators::optional;
use crate::parser::lexer::{
    lemma_at_end, name_index, rule_accepted, ruleset_names, LazyStatefulLexer, Lexer, LexerError, LexerErrorKind,
    LexerRule,
};
use crate::pattern::regex_compiles;
use crate::parser::{converted_error_kind, lemma_read_on_preorder, read_on, restore_to, Parser, ParserError};
use crate::text::{
    is_prefix, lemma_first_non_white, lemma_lines_length, lines, lines_of, owned, str_equal,
    total_length, trim, trim_start, trimmed, trimmed_start,
};

verus! {

/// Where reading a header line from index `i` on, with parentheses and
/// square brackets open to the depths `paren` and `bracket`, leaves off:
/// whether a `:` outside any bracket ended the header, and the depths then.
pub open spec fn header_scan(chars: Seq<char>, i: int, paren: int, bracket: int) -> (bool, int, int)
    decreases chars.len() - i,
{
    if i < 0 || i >= chars.len() {
        (false, paren, bracket)
    } else {
        let c = chars[i];
        if c == '(' {
            header_scan(chars, i + 1, paren + 1, bracket)
        } else if c == ')' {
            header_scan(chars, i + 1, paren - 1, bracket)
        } else if c == '[' {
            header_scan(chars, i + 1, paren, bracket + 1)
        } else if c == ']' {
            header_scan(chars, i + 1, paren, bracket - 1)
        } else if c == ':' && paren == 0 && bracket == 0 {
            (true, paren, bracket)
        } else {
            header_scan(chars, i + 1, paren, bracket)
        }
    }
}

/// The word `def` and a space.
pub open spec fn def_keyword() -> Seq<char> {
    seq!['d', 'e', 'f', ' ']
}

/// The word `class` and a space.
pub open spec fn class_keyword() -> Seq<char> {
    seq!['c', 'l', 'a', 's', 's', ' ']
}

/// A line that begins a top-level definition: unindented, and starting with
/// `def ` or `class `.
pub open spec fn starts_definition(line: Seq<char>) -> bool {
    &&& trimmed_start(line) == line
    &&& (def_keyword().is_prefix_of(line) || class_keyword().is_prefix_of(line))
}

/// What is kept of `lines` from line `k` on, while `collecting` says
/// whether a header is being read and `paren` and `bracket` are its open
/// depths: every blank line (as an empty line), and each line of the
/// header of a top-level `def` or `class`, up to the line whose `:` outside
/// brackets ends it. Everything else is dropped.
pub open spec fn sanitized_from(
    lines: Seq<Seq<char>>,
    k: int,
    collecting: bool,
    paren: int,
    bracket: int,
) -> Seq<char>
    decreases lines.len() - k,
{
    if k < 0 || k >= lines.len() {
        Seq::empty()
    } else {
        let line = lines[k];
        let t = trimmed_start(line);
        if t.len() == 0 {
            seq!['\n'] + sanitized_from(lines, k + 1, collecting, paren, bracket)
        } else if !collecting && !starts_definition(line) {
            sanitized_from(lines, k + 1, false, paren, bracket)
        } else {
            let scan = if collecting {
                header_scan(t, 0, paren, bracket)
            } else {
                header_scan(t, 0, 0, 0)
            };
            line + seq!['\n'] + sanitized_from(lines, k + 1, !scan.0, scan.1, scan.2)
        }
    }
}

/// The source cut down to the headers of its top-level definitions, with
/// its blank lines kept so that what is left stays apart.
pub open spec fn sanitized(input: Seq<char>) -> Seq<char> {
    sanitized_from(lines_of(input), 0, false, 0, 0)
}

/// Reads the characters of a header line, with parentheses and square
/// brackets open to the depths given, up to a `:` outside any bracket.
fn scan_header(t: &str, open_paren: i128, open_bracket: i128, Ghost(bound): Ghost<int>) -> (scan: (bool, i128, i128))
    requires
        -bound <= open_paren <= bound,
        -bound <= open_bracket <= bound,
        bound + t@.len() <= usize::MAX,
    ensures
        (scan.0, scan.1 as int, scan.2 as int) == header_scan(t@, 0, open_paren as int, open_bracket as int),
        -(bound + t@.len()) <= scan.1 <= bound + t@.len(),
        -(bound + t@.len()) <= scan.2 <= bound + t@.len(),
{
    let n = t.unicode_len();
    let mut paren = open_paren;
    let mut bracket = open_bracket;
    let mut i: usize = 0;
    while i < n
        invariant
            n == t@.len(),
            0 <= i <= n,
            -(bound + i) <= paren <= bound + i,
            -(bound + i) <= bracket <= bound + i,
            bound + n <= usize::MAX,
            header_scan(t@, 0, open_paren as int, open_bracket as int) == header_scan(
                t@,
                i as int,
                paren as int,
                bracket as int,
            ),
        decreases n - i,
    {
        let c = t.get_char(i);
        if c == '(' {
            paren = paren + 1;
        } else if c == ')' {
            paren = paren - 1;
        } else if c == '[' {
            bracket = bracket + 1;
        } else if c == ']' {
            bracket = bracket - 1;
        } else if c == ':' && paren == 0 && bracket == 0 {
            return (true, paren, bracket);
        }
        i = i + 1;
    }
    (false, paren, bracket)
}

/// Keeps, of a Python source, its blank lines and the headers of its
/// top-level `def` and `class` statements (each header up to the line
/// whose `:` outside brackets ends it); every kept line ends in a newline.
pub fn sanitize_source(input: &str) -> (sanitized_input: String)
    ensures
        sanitized_input@ == sanitized(input@),
{
    let length = input.unicode_len();
    let all = lines(input);
    let ghost views = all@.map_values(|l: &str| l@);
    proof {
        lemma_lines_length(input@, 0, 0);
    }
    let mut sanitized_input = String::new();
    let mut collecting = false;
    let mut paren: i128 = 0;
    let mut bracket: i128 = 0;
    let n = all.len();
    let mut k: usize = 0;
    proof {
        assert(views.skip(0) =~= views);
    }
    while k < n
        invariant
            n == all.len(),
            0 <= k <= n,
            views == all@.map_values(|l: &str| l@),
            views == lines_of(input@),
            total_length(views) <= input@.len() <= usize::MAX,
            -(total_length(views) - total_length(views.skip(k as int))) <= paren <= total_length(views)
                - total_length(views.skip(k as int)),
            -(total_length(views) - total_length(views.skip(k as int))) <= bracket <= total_length(
                views,
            ) - total_length(views.skip(k as int)),
            sanitized_input@ + sanitized_from(views, k as int, collecting, paren as int, bracket as int)
                == sanitized(input@),
        decreases n - k,
    {
        let line = all[k];
        let ghost bound = total_length(views) - total_length(views.skip(k as int));
        proof {
            assert(views[k as int] == line@);
            assert(views.skip(k as int).drop_first() =~= views.skip(k + 1));
            assert(views.skip(k as int)[0] == line@);
            assert(total_length(views.skip(k as int)) == line@.len() + total_length(views.skip(k + 1)));
            lemma_first_non_white(line@, 0);
        }
        let t = trim_start(line);
        assert(t@.len() <= line@.len());
        let ghost rest = sanitized_from(views, k + 1, collecting, paren as int, bracket as int);
        if t.unicode_len() == 0 {
            proof {
                reveal_strlit("\n");
            }
            sanitized_input.append("\n");
        } else {
            proof {
                reveal_strlit("def ");
                reveal_strlit("class ");
            }
            let starts = t.unicode_len() == line.unicode_len() && (is_prefix("def ", line) || is_prefix(
                "class ",
                line,
            ));
            proof {
                if t@.len() == line@.len() {
                    assert(t@ =~= line@);
                }
            }
            if collecting || starts {
                if !collecting {
                    paren = 0;
                    bracket = 0;
                }
                let scan = scan_header(t, paren, bracket, Ghost(bound));
                collecting = !scan.0;
                paren = scan.1;
                bracket = scan.2;
                proof {
                    reveal_strlit("\n");
                }
                sanitized_input.append(line);
                sanitized_input.append("\n");
            }
        }
        k = k + 1;
    }
    proof {
        assert(sanitized_input@ + Seq::<char>::empty() =~= sanitized_input@);
    }
    sanitized_input
}

/// Reads the token `text` when it comes next, and says whether it did;
/// another token is left unread, and a lexer error is passed on.
fn accept<'input>(lexer: &mut LazyStatefulLexer<'input>, text: &str) -> (accepted: Result<bool, ParserError>)
    requires
        old(lexer).ready(),
    ensures
        read_on(*old(lexer), *final(lexer)),
        accepted matches Ok(true) ==> final(lexer).remaining() < old(lexer).remaining(),
        accepted matches Ok(false) ==> final(lexer).position() == old(lexer).position(),
        text@.len() == 0 ==> accepted == Ok::<bool, ParserError>(false),
        text@.len() > 0 ==> match old(lexer).upcoming() {
            Ok(next) => {
                &&& next.1 == text@ ==> accepted == Ok::<bool, ParserError>(true)
                &&& !next.1.is_prefix_of(text@) ==> accepted == Ok::<bool, ParserError>(false)
            },
            Err(kind) => accepted matches Err(error) && converted_error_kind(kind, error),
        },
{
    match optional(exact(text)).parse(lexer) {
        Ok(Some(_)) => Ok(true),
        Ok(None) => Ok(false),
        Err(e) => Err(e),
    }
}

/// One of `texts` is `text`.
pub open spec fn one_of(texts: Seq<&str>, text: Seq<char>) -> bool {
    exists|i: int| 0 <= i < texts.len() && #[trigger] texts[i]@ == text
}

/// Whether one of `texts` is `text`.
fn contains_text(texts: &[&str], text: &str) -> (found: bool)
    ensures
        found == one_of(texts@, text@),
{
    let n = texts.len();
    let mut i: usize = 0;
    while i < n
        invariant
            n == texts@.len(),
            0 <= i <= n,
            forall|j: int| 0 <= j < i ==> #[trigger] texts@[j]@ != text@,
        decreases n - i,
    {
        if str_equal(texts[i], text) {
            return true;
        }
        i = i + 1;
    }
    false
}

/// The depth `depth` moved by one, or an error when it cannot be held.
fn moved_depth(depth: i64, up: bool) -> (moved: Result<i64, ParserError>)
    ensures
        moved matches Ok(d) ==> d == if up {
            depth + 1
        } else {
            depth - 1
        },
        moved is Err ==> (up && depth == i64::MAX) || (!up && depth == i64::MIN),
{
    if up {
        if depth == i64::MAX {
            return Err(ParserError::Custom(owned("Brackets are nested too deeply.")));
        }
        Ok(depth + 1)
    } else {
        if depth == i64::MIN {
            return Err(ParserError::Custom(owned("Brackets are closed too often.")));
        }
        Ok(depth - 1)
    }
}

/// Reads tokens up to, and not including, the first one outside any
/// parentheses, square brackets and braces whose text is one of `stop_texts`,
/// or to the end of the input. So a stop text that comes first is left
/// unread, any other token is read, and a lexer error other than the end of
/// the input is passed on.
fn consume_until<'input>(lexer: &mut LazyStatefulLexer<'input>, stop_texts: &[&str]) -> (consumed: Result<(), ParserError>)
    requires
        old(lexer).ready(),
    ensures
        read_on(*old(lexer), *final(lexer)),
        match old(lexer).upcoming() {
            Ok(next) => if one_of(stop_texts@, next.1) {
                consumed is Ok && final(lexer).position() == old(lexer).position()
            } else {
                final(lexer).remaining() < old(lexer).remaining()
            },
            Err(LexerErrorKind::Eof) => consumed is Ok,
            Err(kind) => consumed matches Err(e) && converted_error_kind(kind, e),
        },
{
    let ghost start = *lexer;
    proof {
        lemma_read_on_preorder(start, start, start);
    }
    let mut paren: i64 = 0;
    let mut bracket: i64 = 0;
    let mut brace: i64 = 0;
    let ghost mut first = true;
    loop
        invariant
            start.ready(),
            start == *old(lexer),
            read_on(start, *lexer),
            first ==> *lexer == start && paren == 0 && bracket == 0 && brace == 0,
            !first ==> lexer.remaining() < start.remaining(),
            !first ==> (start.upcoming() matches Ok(next) && !one_of(stop_texts@, next.1)),
        decreases lexer.remaining(),
    {
        let ghost here = *lexer;
        let snapshot = lexer.snapshot();
        let token = match lexer.next() {
            Ok(token) => token,
            Err(LexerError::Eof) => {
                proof {
                    lemma_read_on_preorder(start, here, *lexer);
                }
                return Ok(());
            },
            Err(e) => {
                proof {
                    lemma_read_on_preorder(start, here, *lexer);
                }
                return Err(ParserError::from_lexer_error(e));
            },
        };
        proof {
            lemma_read_on_preorder(start, here, *lexer);
        }
        if paren == 0 && bracket == 0 && brace == 0 && contains_text(stop_texts, token.text) {
            restore_to(lexer, &snapshot, Ghost(here));
            proof {
                lemma_read_on_preorder(start, here, *lexer);
            }
            return Ok(());
        }
        proof {
            first = false;
        }
        let text = token.text;
        if str_equal(text, "(") {
            paren = match moved_depth(paren, true) { Ok(d) => d, Err(e) => { return Err(e); } };
        } else if str_equal(text, ")") {
            paren = match moved_depth(paren, false) { Ok(d) => d, Err(e) => { return Err(e); } };
        } else if str_equal(text, "[") {
            bracket = match moved_depth(bracket, true) { Ok(d) => d, Err(e) => { return Err(e); } };
        } else if str_equal(text, "]") {
            bracket = match moved_depth(bracket, false) { Ok(d) => d, Err(e) => { return Err(e); } };
        } else if str_equal(text, "{") {
            brace = match moved_depth(brace, true) { Ok(d) => d, Err(e) => { return Err(e); } };
        } else if str_equal(text, "}") {
            brace = match moved_depth(brace, false) { Ok(d) => d, Err(e) => { return Err(e); } };
        }
    }
}

/// Reads a type hint (a `:` and what follows, up to a `,`, `=` or `)`
/// outside brackets), if one comes next; any other token is left unread,
/// and a lexer error is passed on.
fn parse_type_hints<'input>(lexer: &mut LazyStatefulLexer<'input>) -> (parsed: Result<(), ParserError>)
    requires
        old(lexer).ready(),
    ensures
        read_on(*old(lexer), *final(lexer)),
        match old(lexer).upcoming() {
            Ok(next) => {
                &&& next.1 == ":"@ ==> final(lexer).remaining() < old(lexer).remaining()
                &&& !next.1.is_prefix_of(":"@) ==> parsed is Ok && final(lexer).position()
                    == old(lexer).position()
            },
            Err(kind) => parsed matches Err(e) && converted_error_kind(kind, e),
        },
{
    let ghost start = *lexer;
    proof {
        reveal_strlit(":");
    }
    let colon = accept(lexer, ":");
    match colon {
        Ok(true) => {
            let ghost middle = *lexer;
            let stops = [",", "=", ")"];
            let consumed = consume_until(lexer, &stops);
            proof {
                lemma_read_on_preorder(start, middle, *lexer);
            }
            consumed
        },
        Ok(false) => Ok(()),
        Err(e) => Err(e),
    }
}

/// Every parameter of `parameters` has no known type and cannot be null.
pub open spec fn dynamic_parameters(parameters: Seq<ValueParameter>) -> bool {
    forall|i: int| 0 <= i < parameters.len() ==> (#[trigger] parameters[i]).value_type is Dynamic
        && !parameters[i].nullable
}

/// A callable as Python headers give it: parameters of no known type, no
/// named parameters, no known return type and no type parameters.
pub open spec fn dynamic_callable(callable: AnonymousCallable) -> bool {
    &&& dynamic_parameters(callable.positional_parameters@)
    &&& callable.named_parameters@.len() == 0
    &&& callable.return_type is Dynamic
    &&& callable.type_parameters@.len() == 0
}

/// Looking at the token coming at `at`, a parameter was read as required
/// (no `=` came) or as having a default (the token began an `=`).
pub open spec fn default_seen(at: LazyStatefulLexer, required: bool) -> bool {
    at.upcoming() matches Ok(token) && if required {
        token.1 != "="@
    } else {
        token.1.is_prefix_of("="@)
    }
}

/// Reads a parameter list in parentheses. Each name becomes a parameter of
/// no known type; one with a default is not required, one after `*` or `**`
/// is variadic; a bare `/` or `*` is skipped.
fn parse_function_parameters<'input>(lexer: &mut LazyStatefulLexer<'input>) -> (parsed: Result<
    Vec<ValueParameter>,
    ParserError,
>)
    requires
        old(lexer).ready(),
    ensures
        read_on(*old(lexer), *final(lexer)),
        parsed is Ok ==> final(lexer).remaining() < old(lexer).remaining(),
        parsed matches Ok(parameters) ==> dynamic_parameters(parameters@),
        parsed matches Ok(parameters) ==> forall|i: int| #![trigger parameters@[i]]
            0 <= i < parameters@.len() ==> exists|at: LazyStatefulLexer|
                read_on(*old(lexer), at) && #[trigger] default_seen(at, parameters@[i].required),
{
    let ghost start = *lexer;
    let mut parameters: Vec<ValueParameter> = Vec::new();
    match exact("(").parse(lexer) {
        Ok(_) => {},
        Err(e) => {
            return Err(e);
        },
    }
    loop
        invariant
            start.ready(),
            start == *old(lexer),
            read_on(start, *lexer),
            lexer.remaining() < start.remaining(),
            dynamic_parameters(parameters@),
            forall|i: int| #![trigger parameters@[i]]
                0 <= i < parameters@.len() ==> exists|at: LazyStatefulLexer|
                    read_on(start, at) && #[trigger] default_seen(at, parameters@[i].required),
        decreases lexer.remaining(),
    {
        let ghost top = *lexer;
        let closed = accept(lexer, ")");
        proof {
            lemma_read_on_preorder(start, top, *lexer);
        }
        match closed {
            Ok(true) => {
                break;
            },
            Ok(false) => {},
            Err(e) => {
                return Err(e);
            },
        }
        let ghost at_slash = *lexer;
        let slash = accept(lexer, "/");
        proof {
            lemma_read_on_preorder(start, at_slash, *lexer);
        }
        match slash {
            Ok(true) => {
                let ghost at_comma = *lexer;
                let comma = accept(lexer, ",");
                proof {
                    lemma_read_on_preorder(start, at_comma, *lexer);
                }
                if let Err(e) = comma {
                    return Err(e);
                }
                continue;
            },
            Ok(false) => {},
            Err(e) => {
                return Err(e);
            },
        }
        let mut variadic = false;
        let ghost at_star = *lexer;
        let star = accept(lexer, "*");
        proof {
            lemma_read_on_preorder(start, at_star, *lexer);
        }
        match star {
            Ok(true) => {
                variadic = true;
                let ghost at_second = *lexer;
                let second = accept(lexer, "*");
                proof {
                    lemma_read_on_preorder(start, at_second, *lexer);
                }
                if let Err(e) = second {
                    return Err(e);
                }
                let ghost at_peek = *lexer;
                let next_is_identifier = match lexer.peek() {
                    Ok(token) => str_equal(token.kind, "identifier"),
                    Err(_) => false,
                };
                proof {
                    lemma_read_on_preorder(start, at_peek, *lexer);
                }
                if !next_is_identifier {
                    let ghost at_comma = *lexer;
                    let comma = accept(lexer, ",");
                    proof {
                        lemma_read_on_preorder(start, at_comma, *lexer);
                    }
                    if let Err(e) = comma {
                        return Err(e);
                    }
                    continue;
                }
            },
            Ok(false) => {},
            Err(e) => {
                return Err(e);
            },
        }
        let ghost at_name = *lexer;
        let name = match token_kind("identifier").parse(lexer) {
            Ok(name) => name,
            Err(e) => {
                proof {
                    lemma_read_on_preorder(start, at_name, *lexer);
                }
                return Err(e);
            },
        };
        proof {
            lemma_read_on_preorder(start, at_name, *lexer);
        }
        let ghost at_hint = *lexer;
        let hint = parse_type_hints(lexer);
        proof {
            lemma_read_on_preorder(start, at_hint, *lexer);
        }
        if let Err(e) = hint {
            return Err(e);
        }
        let ghost at_default = *lexer;
        proof {
            reveal_strlit("=");
        }
        let has_default = accept(lexer, "=");
        proof {
            lemma_read_on_preorder(start, at_default, *lexer);
        }
        let required = match has_default {
            Ok(d) => !d,
            Err(e) => {
                return Err(e);
            },
        };
        assert(read_on(start, at_default) && default_seen(at_default, required));
        if !required {
            let ghost at_value = *lexer;
            let stops = [",", ")"];
            let consumed = consume_until(lexer, &stops);
            proof {
                lemma_read_on_preorder(start, at_value, *lexer);
            }
            if let Err(e) = consumed {
                return Err(e);
            }
        }
        let ghost before = parameters@;
        parameters.push(ValueParameter { name, value_type: Type::Dynamic, required, variadic, nullable: false });
        assert forall|i: int| #![trigger parameters@[i]] 0 <= i < parameters@.len() implies exists|at: LazyStatefulLexer|
            read_on(start, at) && #[trigger] default_seen(at, parameters@[i].required) by {
            if i < before.len() {
                assert(parameters@[i] == before[i]);
            } else {
                assert(default_seen(at_default, parameters@[i].required));
            }
        }
        let ghost at_comma = *lexer;
        let comma = accept(lexer, ",");
        proof {
            lemma_read_on_preorder(start, at_comma, *lexer);
        }
        match comma {
            Ok(true) => {
                continue;
            },
            Ok(false) => {},
            Err(e) => {
                return Err(e);
            },
        }
        let ghost at_close = *lexer;
        let close = exact(")").parse(lexer);
        proof {
            lemma_read_on_preorder(start, at_close, *lexer);
        }
        match close {
            Ok(_) => {
                break;
            },
            Err(e) => {
                return Err(e);
            },
        }
    }
    Ok(parameters)
}

/// Reads type parameters in square brackets, if they come next; any other
/// token is left unread, and a lexer error is passed on.
fn consume_optional_type_parameters<'input>(lexer: &mut LazyStatefulLexer<'input>) -> (consumed: Result<
    (),
    ParserError,
>)
    requires
        old(lexer).ready(),
    ensures
        read_on(*old(lexer), *final(lexer)),
        match old(lexer).upcoming() {
            Ok(next) => {
                &&& next.1 == "["@ ==> final(lexer).remaining() < old(lexer).remaining()
                &&& !next.1.is_prefix_of("["@) ==> consumed is Ok && final(lexer).position()
                    == old(lexer).position()
            },
            Err(kind) => consumed matches Err(e) && converted_error_kind(kind, e),
        },
{
    let ghost start = *lexer;
    proof {
        reveal_strlit("[");
    }
    let opened = accept(lexer, "[");
    match opened {
        Ok(true) => {},
        Ok(false) => {
            return Ok(());
        },
        Err(e) => {
            return Err(e);
        },
    }
    let ghost middle = *lexer;
    let stops = ["]"];
    let consumed = consume_until(lexer, &stops);
    proof {
        lemma_read_on_preorder(start, middle, *lexer);
    }
    if let Err(e) = consumed {
        return Err(e);
    }
    let ghost at_close = *lexer;
    let close = exact("]").parse(lexer);
    proof {
        lemma_read_on_preorder(start, at_close, *lexer);
    }
    match close {
        Ok(_) => Ok(()),
        Err(e) => Err(e),
    }
}

/// Reads a function header: `def`, a name, optional type parameters, the
/// parameters, an optional return annotation after `->`, and the `:`.
fn parse_function_definition<'input>(lexer: &mut LazyStatefulLexer<'input>) -> (parsed: Result<
    FunctionDefinition,
    ParserError,
>)
    requires
        old(lexer).ready(),
    ensures
        read_on(*old(lexer), *final(lexer)),
        parsed is Ok ==> final(lexer).remaining() < old(lexer).remaining(),
        parsed matches Ok(function) ==> dynamic_callable(function.callable),
{
    let ghost start = *lexer;
    match exact("def").parse(lexer) {
        Ok(_) => {},
        Err(e) => {
            return Err(e);
        },
    }
    let ghost at_name = *lexer;
    let name = token_kind("identifier").parse(lexer);
    proof {
        lemma_read_on_preorder(start, at_name, *lexer);
    }
    let name = match name {
        Ok(name) => name,
        Err(e) => {
            return Err(e);
        },
    };
    let ghost at_generics = *lexer;
    let generics = consume_optional_type_parameters(lexer);
    proof {
        lemma_read_on_preorder(start, at_generics, *lexer);
    }
    if let Err(e) = generics {
        return Err(e);
    }
    let ghost at_parameters = *lexer;
    let positional_parameters = parse_function_parameters(lexer);
    proof {
        lemma_read_on_preorder(start, at_parameters, *lexer);
    }
    let positional_parameters = match positional_parameters {
        Ok(parameters) => parameters,
        Err(e) => {
            return Err(e);
        },
    };
    let ghost at_arrow = *lexer;
    let arrow = accept(lexer, "->");
    proof {
        lemma_read_on_preorder(start, at_arrow, *lexer);
    }
    match arrow {
        Ok(true) => {
            let ghost at_annotation = *lexer;
            let stops = [":"];
            let consumed = consume_until(lexer, &stops);
            proof {
                lemma_read_on_preorder(start, at_annotation, *lexer);
            }
            if let Err(e) = consumed {
                return Err(e);
            }
        },
        Ok(false) => {},
        Err(e) => {
            return Err(e);
        },
    }
    let ghost at_colon = *lexer;
    let colon = exact(":").parse(lexer);
    proof {
        lemma_read_on_preorder(start, at_colon, *lexer);
    }
    if let Err(e) = colon {
        return Err(e);
    }
    Ok(
        FunctionDefinition {
            name,
            callable: AnonymousCallable {
                positional_parameters,
                named_parameters: Vec::new(),
                return_type: Type::Dynamic,
                type_parameters: Vec::new(),
            },
        },
    )
}

/// A type as a Python class header gives it: a name and nothing else.
pub open spec fn bare_type(definition: TypeDefinition) -> bool {
    &&& definition.properties@.len() == 0
    &&& definition.default_constructor is None
    &&& definition.named_constructors@.len() == 0
    &&& definition.methods@.len() == 0
    &&& definition.static_methods@.len() == 0
    &&& definition.type_parameters@.len() == 0
    &&& definition.implements@.len() == 0
}

/// Reads a class header: `class`, a name, optional type parameters, and
/// whatever comes before the `:` that ends it (such as base classes).
fn parse_class_definition<'input>(lexer: &mut LazyStatefulLexer<'input>) -> (parsed: Result<
    TypeDefinition,
    ParserError,
>)
    requires
        old(lexer).ready(),
    ensures
        read_on(*old(lexer), *final(lexer)),
        parsed is Ok ==> final(lexer).remaining() < old(lexer).remaining(),
        parsed matches Ok(definition) ==> bare_type(definition),
{
    let ghost start = *lexer;
    match exact("class").parse(lexer) {
        Ok(_) => {},
        Err(e) => {
            return Err(e);
        },
    }
    let ghost at_name = *lexer;
    let name = token_kind("identifier").parse(lexer);
    proof {
        lemma_read_on_preorder(start, at_name, *lexer);
    }
    let name = match name {
        Ok(name) => name,
        Err(e) => {
            return Err(e);
        },
    };
    let ghost at_generics = *lexer;
    let generics = consume_optional_type_parameters(lexer);
    proof {
        lemma_read_on_preorder(start, at_generics, *lexer);
    }
    if let Err(e) = generics {
        return Err(e);
    }
    let ghost at_bases = *lexer;
    let stops = [":"];
    let consumed = consume_until(lexer, &stops);
    proof {
        lemma_read_on_preorder(start, at_bases, *lexer);
    }
    if let Err(e) = consumed {
        return Err(e);
    }
    let ghost at_colon = *lexer;
    let colon = exact(":").parse(lexer);
    proof {
        lemma_read_on_preorder(start, at_colon, *lexer);
    }
    if let Err(e) = colon {
        return Err(e);
    }
    Ok(
        TypeDefinition {
            name,
            properties: Vec::new(),
            default_constructor: None,
            named_constructors: Vec::new(),
            methods: Vec::new(),
            static_methods: Vec::new(),
            type_parameters: Vec::new(),
            implements: Vec::new(),
        },
    )
}

/// The patterns of the lexer rules for Python statements, in order.
pub open spec fn statement_patterns() -> Seq<Seq<char>> {
    seq![
        r"[ \t\r\n]+"@,
        r"#[^\n]*"@,
        r"\b(def|class|pass|return|async|lambda|from|import|as|with|if|elif|else|try|except|finally|for|while|match|case)\b"@,
        r"[A-Za-z_][A-Za-z0-9_]*"@,
        r"->|\*\*|\.\.\.|\(|\)|\[|\]|\{|\}|,|:|\.|=|\*|\|"@,
        r#"'([^'\\]|\\.)*'|\"([^\"\\]|\\.)*\""#@,
        r"[0-9]+(\.[0-9]+)?"@,
        r#"[^\s\w#'"\(\)\[\]\{\},:\.=\*\|]+"#@,
    ]
}

/// The lexer rules for Python statements: whitespace and comments are
/// skipped, keywords come before identifiers, and any other run of
/// characters no rule names is skipped.
fn statements() -> (rules: Vec<LexerRule>)
    ensures
        rules@.len() == 8,
        plain_rule(rules@[0], r"[ \t\r\n]+", "whitespace", false),
        plain_rule(rules@[1], r"#[^\n]*", "comment", false),
        plain_rule(
            rules@[2],
            r"\b(def|class|pass|return|async|lambda|from|import|as|with|if|elif|else|try|except|finally|for|while|match|case)\b",
            "keyword",
            true,
        ),
        plain_rule(rules@[3], r"[A-Za-z_][A-Za-z0-9_]*", "identifier", true),
        plain_rule(rules@[4], r"->|\*\*|\.\.\.|\(|\)|\[|\]|\{|\}|,|:|\.|=|\*|\|", "punctuation", true),
        plain_rule(rules@[5], r#"'([^'\\]|\\.)*'|\"([^\"\\]|\\.)*\""#, "string_literal", true),
        plain_rule(rules@[6], r"[0-9]+(\.[0-9]+)?", "numeric_literal", true),
        plain_rule(rules@[7], r#"[^\s\w#'"\(\)\[\]\{\},:\.=\*\|]+"#, "irrelevant", false),
{
    vec![
        rule(r"[ \t\r\n]+", "whitespace", false),
        rule(r"#[^\n]*", "comment", false),
        rule(
            r"\b(def|class|pass|return|async|lambda|from|import|as|with|if|elif|else|try|except|finally|for|while|match|case)\b",
            "keyword",
            true,
        ),
        rule(r"[A-Za-z_][A-Za-z0-9_]*", "identifier", true),
        rule(r"->|\*\*|\.\.\.|\(|\)|\[|\]|\{|\}|,|:|\.|=|\*|\|", "punctuation", true),
        rule(r#"'([^'\\]|\\.)*'|\"([^\"\\]|\\.)*\""#, "string_literal", true),
        rule(r"[0-9]+(\.[0-9]+)?", "numeric_literal", true),
        rule(r#"[^\s\w#'"\(\)\[\]\{\},:\.=\*\|]+"#, "irrelevant", false),
    ]
}

/// Reads a method header on its own, such as a line of a class body.
fn parse_method_header(header: &str) -> (parsed: Result<FunctionDefinition, ParserError>)
    ensures
        parsed matches Ok(function) ==> dynamic_callable(function.callable),
{
    let mut lexer = match LazyStatefulLexer::new(header, vec![("statements", statements())], "statements") {
        Ok(lexer) => lexer,
        Err(e) => {
            return Err(ParserError::from_lexer_error(e));
        },
    };
    parse_function_definition(&mut lexer)
}

/// The name `self`.
pub open spec fn self_name() -> Seq<char> {
    seq!['s', 'e', 'l', 'f']
}

/// The name `__init__`.
pub open spec fn constructor_name() -> Seq<char> {
    seq!['_', '_', 'i', 'n', 'i', 't', '_', '_']
}

/// `parameters` without a first parameter named `self`.
pub open spec fn without_self(parameters: Seq<ValueParameter>) -> Seq<ValueParameter> {
    if parameters.len() > 0 && parameters[0].name@ == self_name() {
        parameters.drop_first()
    } else {
        parameters
    }
}

/// `callable` is `function`'s signature with a first `self` parameter
/// dropped.
pub open spec fn unbound_signature(callable: AnonymousCallable, function: FunctionDefinition) -> bool {
    &&& callable.positional_parameters@ == without_self(function.callable.positional_parameters@)
    &&& callable.named_parameters == function.callable.named_parameters
    &&& callable.return_type == function.callable.return_type
    &&& callable.type_parameters == function.callable.type_parameters
}

/// Everything of `old` but its constructor and methods is in `new`, and
/// `new` has the methods of `old` first.
pub open spec fn keeps_shape(old: TypeDefinition, new: TypeDefinition) -> bool {
    &&& new.name == old.name
    &&& new.properties == old.properties
    &&& new.named_constructors == old.named_constructors
    &&& new.static_methods == old.static_methods
    &&& new.type_parameters == old.type_parameters
    &&& new.implements == old.implements
    &&& old.methods@.is_prefix_of(new.methods@)
}

/// Keeping the shape is a preorder.
pub proof fn lemma_keeps_shape(a: TypeDefinition, b: TypeDefinition, c: TypeDefinition)
    ensures
        keeps_shape(a, a),
        keeps_shape(a, b) && keeps_shape(b, c) ==> keeps_shape(a, c),
{
    assert(a.methods@.is_prefix_of(a.methods@)) by {
        assert(a.methods@.subrange(0, a.methods@.len() as int) =~= a.methods@);
    }
    if keeps_shape(a, b) && keeps_shape(b, c) {
        assert(a.methods@ =~= c.methods@.subrange(0, a.methods@.len() as int)) by {
            assert forall|i: int| 0 <= i < a.methods@.len() implies a.methods@[i] == c.methods@[i] by {
                assert(a.methods@[i] == b.methods@.subrange(0, a.methods@.len() as int)[i]);
                assert(b.methods@[i] == c.methods@.subrange(0, b.methods@.len() as int)[i]);
            }
        }
    }
}

/// A type as Python sources give it: nothing but a name, methods and a
/// constructor, all instance methods, with signatures of no known types.
pub open spec fn python_type(definition: TypeDefinition) -> bool {
    &&& definition.properties@.len() == 0
    &&& definition.named_constructors@.len() == 0
    &&& definition.static_methods@.len() == 0
    &&& definition.type_parameters@.len() == 0
    &&& definition.implements@.len() == 0
    &&& definition.default_constructor matches Some(c) ==> dynamic_callable(c)
    &&& forall|i: int| 0 <= i < definition.methods@.len() ==> !(#[trigger] definition.methods@[i]).is_static
        && dynamic_callable(definition.methods@[i].callable)
}

/// A module as Python sources give it: functions with signatures of no
/// known types, and Python types.
pub open spec fn python_module(module: Module) -> bool {
    &&& forall|i: int| 0 <= i < module.functions@.len() ==> dynamic_callable(#[trigger] module.functions@[i].callable)
    &&& forall|i: int| 0 <= i < module.types@.len() ==> python_type(#[trigger] module.types@[i])
}

/// A module as the header readers give it: functions with signatures of no
/// known types, and types with nothing but a name.
pub open spec fn headers_module(module: Module) -> bool {
    &&& forall|i: int| 0 <= i < module.functions@.len() ==> dynamic_callable(#[trigger] module.functions@[i].callable)
    &&& forall|i: int| 0 <= i < module.types@.len() ==> bare_type(#[trigger] module.types@[i])
}

/// Dropping `self` from a signature of no known types leaves one.
pub proof fn lemma_unbound_dynamic(callable: AnonymousCallable, function: FunctionDefinition)
    requires
        dynamic_callable(function.callable),
        unbound_signature(callable, function),
    ensures
        dynamic_callable(callable),
{
    let parameters = function.callable.positional_parameters@;
    if parameters.len() > 0 && parameters[0].name@ == self_name() {
        assert forall|i: int| 0 <= i < parameters.drop_first().len() implies (#[trigger] parameters.drop_first()[i]).value_type is Dynamic
            && !parameters.drop_first()[i].nullable by {
            assert(parameters.drop_first()[i] == parameters[i + 1]);
        }
    }
}

/// Adds a method read from a class body to `definition`: without a first
/// `self` parameter, as its constructor when it is `__init__` (replacing an
/// earlier one) and as an instance method otherwise.
pub fn add_method(definition: &mut TypeDefinition, function: FunctionDefinition)
    ensures
        keeps_shape(*old(definition), *final(definition)),
        function.name@ == constructor_name() ==> {
            &&& final(definition).default_constructor matches Some(c) && unbound_signature(c, function)
            &&& final(definition).methods == old(definition).methods
        },
        function.name@ != constructor_name() ==> {
            &&& final(definition).default_constructor == old(definition).default_constructor
            &&& final(definition).methods@.len() == old(definition).methods@.len() + 1
            &&& final(definition).methods@.last().name == function.name
            &&& !final(definition).methods@.last().is_static
            &&& unbound_signature(final(definition).methods@.last().callable, function)
        },
        python_type(*old(definition)) && dynamic_callable(function.callable) ==> python_type(*final(definition)),
{
    let ghost given = *definition;
    let ghost read = function;
    let FunctionDefinition { name, callable } = function;
    let AnonymousCallable { positional_parameters, named_parameters, return_type, type_parameters } = callable;
    let mut positional_parameters = positional_parameters;
    proof {
        reveal_strlit("self");
        reveal_strlit("__init__");
        assert("self"@ =~= self_name());
        assert("__init__"@ =~= constructor_name());
    }
    if positional_parameters.len() > 0 && str_equal(positional_parameters[0].name.as_str(), "self") {
        let _ = positional_parameters.remove(0);
        proof {
            assert(positional_parameters@ =~= read.callable.positional_parameters@.drop_first());
        }
    }
    let callable = AnonymousCallable { positional_parameters, named_parameters, return_type, type_parameters };
    if str_equal(name.as_str(), "__init__") {
        definition.default_constructor = Some(callable);
        proof {
            lemma_keeps_shape(given, given, given);
            if dynamic_callable(read.callable) {
                lemma_unbound_dynamic(callable, read);
            }
        }
    } else {
        definition.methods.push(Method { name, is_static: false, callable });
        proof {
            assert(given.methods@ =~= definition.methods@.subrange(0, given.methods@.len() as int));
            if dynamic_callable(read.callable) {
                lemma_unbound_dynamic(callable, read);
                assert(definition.methods@.last().callable == callable);
            }
        }
    }
}

/// Whether `c` ends the name in a class header.
pub open spec fn ends_class_name(c: char) -> bool {
    c == '[' || c == '(' || c == ':'
}

/// The first index at or after `i` where `s` holds `[`, `(` or `:`, or the
/// end of `s`.
pub open spec fn name_end_from(s: Seq<char>, i: int) -> int
    decreases s.len() - i,
{
    if i < 0 || i >= s.len() || ends_class_name(s[i]) {
        i
    } else {
        name_end_from(s, i + 1)
    }
}

/// The name a line declares a class of, when it is an unindented line
/// starting with `class `: what follows, up to a `[`, `(` or `:`, trimmed.
pub open spec fn class_line_name(line: Seq<char>) -> Option<Seq<char>> {
    if trimmed_start(line) == line && class_keyword().is_prefix_of(line) {
        let rest = line.skip(6);
        Some(trimmed(rest.take(name_end_from(rest, 0))))
    } else {
        None
    }
}

/// Some line of `lines` declares a class named `name`.
pub open spec fn named_by_class_line(lines: Seq<Seq<char>>, name: Seq<char>) -> bool {
    exists|j: int| 0 <= j < lines.len() && class_line_name(#[trigger] lines[j]) == Some(name)
}

/// The name declared by a line known to start with `class `.
fn class_name_of<'a>(line: &'a str) -> (name: &'a str)
    requires
        trimmed_start(line@) == line@,
        class_keyword().is_prefix_of(line@),
    ensures
        class_line_name(line@) == Some(name@),
{
    let n = line.unicode_len();
    let rest = line.substring_char(6, n);
    let m = rest.unicode_len();
    let mut end: usize = 0;
    while end < m && !(rest.get_char(end) == '[' || rest.get_char(end) == '(' || rest.get_char(end) == ':')
        invariant
            m == rest@.len(),
            0 <= end <= m,
            name_end_from(rest@, 0) == name_end_from(rest@, end as int),
        decreases m - end,
    {
        end = end + 1;
    }
    proof {
        assert(rest@ =~= line@.skip(6));
    }
    trim(rest.substring_char(0, end))
}

/// The index of the first type of `types` named `name`.
fn find_type(types: &Vec<TypeDefinition>, name: &str) -> (found: Option<usize>)
    ensures
        match found {
            Some(i) => i < types@.len() && types@[i as int].name@ == name@ && forall|j: int|
                0 <= j < i ==> #[trigger] types@[j].name@ != name@,
            None => forall|j: int| 0 <= j < types@.len() ==> #[trigger] types@[j].name@ != name@,
        },
{
    let n = types.len();
    let mut i: usize = 0;
    while i < n
        invariant
            n == types@.len(),
            0 <= i <= n,
            forall|j: int| 0 <= j < i ==> #[trigger] types@[j].name@ != name@,
        decreases n - i,
    {
        if str_equal(types[i].name.as_str(), name) {
            return Some(i);
        }
        i = i + 1;
    }
    None
}

/// What reading the methods of classes does to a module: its path,
/// functions and number of types stay, each type keeps its shape, and a
/// type that no line of `lines` declares a class of is left as it was.
pub open spec fn methods_added(lines: Seq<Seq<char>>, old: Module, new: Module) -> bool {
    &&& new.path == old.path
    &&& new.functions == old.functions
    &&& new.types@.len() == old.types@.len()
    &&& forall|i: int| 0 <= i < old.types@.len() ==> keeps_shape(old.types@[i], #[trigger] new.types@[i])
    &&& forall|i: int|
        0 <= i < old.types@.len() && !named_by_class_line(lines, old.types@[i].name@) ==> #[trigger] new.types@[i]
            == old.types@[i]
}

/// Some line of `lines`, without its indentation, starts with `def `.
pub open spec fn has_def_line(lines: Seq<Seq<char>>) -> bool {
    exists|k: int| 0 <= k < lines.len() && def_keyword().is_prefix_of(#[trigger] trimmed_start(lines[k]))
}

/// A line that does not end a class body: blank, or indented.
pub open spec fn indented_or_blank(line: Seq<char>) -> bool {
    trimmed_start(line).len() == 0 || trimmed_start(line).len() != line.len()
}

/// Line `j` of `lines` is in the body of the class whose line is `k`:
/// it comes after it, and neither it nor a line between them is
/// unindented.
pub open spec fn in_body(lines: Seq<Seq<char>>, k: int, j: int) -> bool {
    &&& k < j < lines.len()
    &&& forall|m: int| k < m <= j ==> indented_or_blank(#[trigger] lines[m])
}

/// The body of the class whose line is `k` has a `def` line.
pub open spec fn body_has_def(lines: Seq<Seq<char>>, k: int) -> bool {
    exists|j: int| #[trigger] in_body(lines, k, j) && def_keyword().is_prefix_of(trimmed_start(lines[j]))
}

/// `i` is the first index of `types` whose type has its name.
pub open spec fn first_named(types: Seq<TypeDefinition>, i: int) -> bool {
    &&& 0 <= i < types.len()
    &&& forall|j: int| 0 <= j < i ==> #[trigger] types[j].name@ != types[i].name@
}

/// `new` has a method more than `old`, or a constructor.
pub open spec fn method_read(old: TypeDefinition, new: TypeDefinition) -> bool {
    new.methods@.len() > old.methods@.len() || new.default_constructor is Some
}

/// Every class line of `lines` before line `end` whose class is the first
/// type of that name in `old`, and whose body has a `def` line, gave that
/// type a method or a constructor in `new`.
pub open spec fn class_bodies_read(lines: Seq<Seq<char>>, end: int, old: Module, new: Module) -> bool {
    forall|k: int, i: int|
        0 <= k < end && first_named(old.types@, i) && class_line_name(#[trigger] lines[k]) == Some(
            old.types@[i].name@,
        ) && body_has_def(lines, k) ==> method_read(old.types@[i], #[trigger] new.types@[i])
}

/// Reading the body of the class on line `k`, which runs to line `end`,
/// into the type at `idx` (the first of the class's name) keeps what the
/// class lines before `k` gave and adds what line `k` gives.
proof fn lemma_class_body_read(
    lines: Seq<Seq<char>>,
    k: int,
    end: int,
    idx: int,
    given: Module,
    before: Module,
    after: Module,
)
    requires
        0 <= k < end <= lines.len(),
        end == lines.len() || !indented_or_blank(lines[end]),
        forall|m: int| k < m < end ==> indented_or_blank(#[trigger] lines[m]),
        0 <= idx < before.types@.len(),
        before.types@.len() == given.types@.len(),
        after.types@ == before.types@.update(idx, after.types@[idx]),
        forall|i: int| 0 <= i < given.types@.len() ==> keeps_shape(given.types@[i], #[trigger] before.types@[i]),
        keeps_shape(before.types@[idx], after.types@[idx]),
        before.types@[idx].default_constructor is Some ==> after.types@[idx].default_constructor is Some,
        class_line_name(lines[k]) == Some(before.types@[idx].name@),
        forall|j: int| 0 <= j < idx ==> #[trigger] before.types@[j].name@ != before.types@[idx].name@,
        (exists|j: int| k < j < end && def_keyword().is_prefix_of(trimmed_start(#[trigger] lines[j])))
            ==> method_read(before.types@[idx], after.types@[idx]),
        class_bodies_read(lines, k, given, before),
    ensures
        class_bodies_read(lines, end, given, after),
{
    assert forall|kk: int, i: int|
        0 <= kk < end && first_named(given.types@, i) && class_line_name(#[trigger] lines[kk]) == Some(
            given.types@[i].name@,
        ) && body_has_def(lines, kk) implies method_read(given.types@[i], #[trigger] after.types@[i]) by {
        assert(keeps_shape(given.types@[i], before.types@[i]));
        if kk < k {
            assert(method_read(given.types@[i], before.types@[i]));
            if i == idx {
                assert(before.types@[idx].methods@.len() <= after.types@[idx].methods@.len());
            }
        } else if kk == k {
            if i < idx {
                assert(keeps_shape(given.types@[i], before.types@[i]));
                assert(false);
            } else if i > idx {
                assert(keeps_shape(given.types@[idx], before.types@[idx]));
                assert(given.types@[idx].name@ != given.types@[i].name@);
                assert(false);
            }
            let j = choose|j: int| #[trigger] in_body(lines, kk, j) && def_keyword().is_prefix_of(trimmed_start(lines[j]));
            if j >= end {
                assert(indented_or_blank(lines[end]));
                assert(false);
            }
            assert(method_read(before.types@[idx], after.types@[idx]));
            assert(given.types@[idx].methods@.len() <= before.types@[idx].methods@.len());
        } else {
            assert(indented_or_blank(lines[kk]));
            assert(false);
        }
    }
}

/// Reads, for each unindented `class` line of `input` whose class the
/// module has, the `def` lines of its body (the lines up to the next
/// unindented one) as methods of the first type of that name: `__init__`
/// as its constructor, the rest as instance methods, each without `self`.
/// A method header that cannot be read on its own line is an error, and
/// nothing else is.
fn parse_class_methods(input: &str, module: &mut Module) -> (read: Result<(), ParserError>)
    ensures
        methods_added(lines_of(input@), *old(module), *final(module)),
        python_module(*old(module)) ==> python_module(*final(module)),
        read is Err ==> has_def_line(lines_of(input@)) && old(module).types@.len() > 0,
        read is Err ==> exists|k: int, i: int|
            #![trigger lines_of(input@)[k], old(module).types@[i]]
            0 <= k < lines_of(input@).len() && first_named(old(module).types@, i) && class_line_name(
                lines_of(input@)[k],
            ) == Some(old(module).types@[i].name@) && body_has_def(lines_of(input@), k),
        read is Ok ==> class_bodies_read(lines_of(input@), lines_of(input@).len() as int, *old(module), *final(module)),
{
    let all = lines(input);
    let ghost views = all@.map_values(|l: &str| l@);
    let ghost given = *module;
    proof {
        assert forall|i: int| 0 <= i < given.types@.len() implies keeps_shape(
            given.types@[i],
            #[trigger] module.types@[i],
        ) by {
            lemma_keeps_shape(given.types@[i], given.types@[i], given.types@[i]);
        }
    }
    let n = all.len();
    let mut class_index: usize = 0;
    while class_index < n
        invariant
            n == all.len(),
            0 <= class_index <= n,
            views == all@.map_values(|l: &str| l@),
            views == lines_of(input@),
            given == *old(module),
            methods_added(views, given, *module),
            python_module(given) ==> python_module(*module),
            class_bodies_read(views, class_index as int, given, *module),
        decreases n - class_index,
    {
        let class_line = all[class_index];
        proof {
            assert(views[class_index as int] == class_line@);
        }
        let class_trimmed = trim_start(class_line);
        proof {
            reveal_strlit("class ");
            assert("class "@ =~= class_keyword());
            if class_trimmed@.len() == class_line@.len() {
                lemma_first_non_white(class_line@, 0);
                assert(class_trimmed@ =~= class_line@);
            }
        }
        if class_trimmed.unicode_len() != class_line.unicode_len() || !is_prefix("class ", class_trimmed) {
            proof {
                assert(class_line_name(views[class_index as int]) is None);
            }
            class_index = class_index + 1;
            continue;
        }
        let class_name = class_name_of(class_trimmed);
        let idx = match find_type(&module.types, class_name) {
            Some(idx) => idx,
            None => {
                proof {
                    assert forall|i: int| 0 <= i < given.types@.len() implies class_line_name(
                        views[class_index as int],
                    ) != Some(given.types@[i].name@) by {
                        assert(keeps_shape(given.types@[i], module.types@[i]));
                    }
                }
                class_index = class_index + 1;
                continue;
            },
        };
        let ghost before = *module;
        proof {
            assert(class_line_name(views[class_index as int]) == Some(before.types@[idx as int].name@));
            assert(named_by_class_line(views, before.types@[idx as int].name@));
        }
        let mut definition = module.types.remove(idx);
        let ghost taken = definition;
        proof {
            lemma_keeps_shape(taken, taken, taken);
        }
        let mut line_index = class_index + 1;
        let mut failure: Option<ParserError> = None;
        while line_index < n
            invariant_except_break
                failure is None,
            invariant
                taken == before.types@[idx as int],
                taken.default_constructor is Some ==> definition.default_constructor is Some,
                forall|m: int| class_index < m < line_index ==> indented_or_blank(#[trigger] views[m]),
                (exists|j: int|
                    class_index < j < line_index && def_keyword().is_prefix_of(trimmed_start(#[trigger] views[j])))
                    ==> method_read(taken, definition),
                n == all.len(),
                idx < before.types@.len(),
                class_index < line_index <= n,
                views == all@.map_values(|l: &str| l@),
                keeps_shape(taken, definition),
                python_module(given) ==> python_type(definition),
                module.types@ == before.types@.remove(idx as int),
                module.path == before.path,
                module.functions == before.functions,
                views == lines_of(input@),
                before.types@.len() == given.types@.len(),
                failure is Some ==> has_def_line(views) && given.types@.len() > 0,
                failure is Some ==> body_has_def(views, class_index as int),
            ensures
                failure is None ==> (line_index == n || !indented_or_blank(views[line_index as int])),
            decreases n - line_index,
        {
            let line = all[line_index];
            let trimmed = trim_start(line);
            proof {
                assert(views[line_index as int] == line@);
            }
            if trimmed.unicode_len() != 0 && trimmed.unicode_len() == line.unicode_len() {
                break;
            }
            proof {
                reveal_strlit("def ");
            }
            if is_prefix("def ", trimmed) {
                proof {
                    assert(views[line_index as int] == line@);
                    assert("def "@ =~= def_keyword());
                    assert(def_keyword().is_prefix_of(trimmed_start(views[line_index as int])));
                    assert(indented_or_blank(views[line_index as int]));
                    assert(in_body(views, class_index as int, line_index as int));
                }
                match parse_method_header(trimmed) {
                    Ok(function) => {
                        let ghost previous = definition;
                        add_method(&mut definition, function);
                        proof {
                            lemma_keeps_shape(taken, previous, definition);
                            assert(taken.methods@.len() <= previous.methods@.len());
                        }
                    },
                    Err(e) => {
                        failure = Some(e);
                        break;
                    },
                }
            }
            line_index = line_index + 1;
        }
        module.types.insert(idx, definition);
        proof {
            assert(module.types@ =~= before.types@.update(idx as int, definition));
            assert forall|i: int| 0 <= i < given.types@.len() implies keeps_shape(
                given.types@[i],
                #[trigger] module.types@[i],
            ) by {
                if i == idx {
                    lemma_keeps_shape(given.types@[i], before.types@[i], module.types@[i]);
                }
            }
        }
        if let Some(e) = failure {
            proof {
                assert forall|j: int| 0 <= j < idx implies #[trigger] given.types@[j].name@ != given.types@[idx as int].name@ by {
                    assert(keeps_shape(given.types@[j], before.types@[j]));
                    assert(keeps_shape(given.types@[idx as int], before.types@[idx as int]));
                }
                assert(first_named(given.types@, idx as int));
                assert(keeps_shape(given.types@[idx as int], before.types@[idx as int]));
                assert(class_line_name(views[class_index as int]) == Some(given.types@[idx as int].name@));
            }
            return Err(e);
        }
        proof {
            lemma_class_body_read(views, class_index as int, line_index as int, idx as int, given, before, *module);
        }
        class_index = line_index;
    }
    Ok(())
}

/// A feature as the header readers give it: a function whose signature has
/// no known types, or a type with nothing but a name.
pub open spec fn header_feature(feature: ParsedFeature) -> bool {
    match feature {
        ParsedFeature::Function(f) => dynamic_callable(f.callable),
        ParsedFeature::Type(t) => bare_type(t),
    }
}

/// A feature read from a `def` or `class` header.
struct HeaderFeature {
    feature: ParsedFeature,
}

impl HeaderFeature {
    #[verifier::type_invariant]
    spec fn read_from_header(self) -> bool {
        header_feature(self.feature)
    }
}

/// The declarations a Python module is searched for.
enum PythonAnchor {
    Def,
    Class,
}

impl<'input> Parser<'input, LazyStatefulLexer<'input>, HeaderFeature> for PythonAnchor {
    open spec fn parses(
        &self,
        before: LazyStatefulLexer<'input>,
        after: LazyStatefulLexer<'input>,
        result: Result<HeaderFeature, ParserError>,
    ) -> bool {
        result is Ok ==> after.remaining() < before.remaining()
    }

    fn parse(&self, lexer: &mut LazyStatefulLexer<'input>) -> (result: Result<HeaderFeature, ParserError>) {
        match self {
            PythonAnchor::Def => match parse_function_definition(lexer) {
                Ok(function) => Ok(HeaderFeature { feature: ParsedFeature::Function(function) }),
                Err(e) => Err(e),
            },
            PythonAnchor::Class => match parse_class_definition(lexer) {
                Ok(definition) => Ok(HeaderFeature { feature: ParsedFeature::Type(definition) }),
                Err(e) => Err(e),
            },
        }
    }
}

/// Adds features read from headers to a module.
struct HeaderReducer;

impl Reducer<Module, HeaderFeature> for HeaderReducer {
    closed spec fn reduces(&self, accumulator: Module, feature: HeaderFeature, result: Module) -> bool {
        feature_added(accumulator, feature.feature, result) && header_feature(feature.feature)
    }

    fn reduce(&self, accumulator: Module, feature: HeaderFeature) -> (result: Module) {
        proof {
            use_type_invariant(&feature);
        }
        let HeaderFeature { feature } = feature;
        let mut module = accumulator;
        match feature {
            ParsedFeature::Function(function) => module.functions.push(function),
            ParsedFeature::Type(definition) => module.types.push(definition),
        }
        module
    }
}

/// An anchor rule with the one parser `anchor`, whose features are added to
/// the module.
fn anchor_rule<'input>(anchor: PythonAnchor) -> (r: AnchorRule<'static, 'input, LazyStatefulLexer<'input>, Module, HeaderFeature>)
    ensures
        forall|accumulator: Module, result: Module|
            #[trigger] rule_folds(r, accumulator, result) ==> exists|feature: ParsedFeature|
                feature_added(accumulator, feature, result) && header_feature(feature),
{
    let mut parsers: Vec<Box<dyn Parser<'input, LazyStatefulLexer<'input>, HeaderFeature>>> = Vec::new();
    parsers.push(Box::new(anchor));
    let r = AnchorRule { parsers, reducer: Box::new(HeaderReducer) };
    proof {
        assert forall|accumulator: Module, result: Module| #[trigger] rule_folds(r, accumulator, result) implies exists|
            feature: ParsedFeature,
        | feature_added(accumulator, feature, result) && header_feature(feature) by {
            let f = choose|f: HeaderFeature| #[trigger] r.reducer.reduces(accumulator, f, result);
            assert(feature_added(accumulator, f.feature, result) && header_feature(f.feature));
        }
    }
    r
}

/// Reads the top-level functions and classes of a Python module, and the
/// methods of its classes, into a module at the root path. Parameters,
/// returns and methods are read without their types.
pub fn parse(input: &str) -> (parsed: Result<Module, ParserError>)
    ensures
        parsed matches Ok(module) ==> module.path@.len() == 0 && python_module(module),
        sanitized(input@).len() == 0 && (forall|i: int|
            0 <= i < statement_patterns().len() ==> regex_compiles(#[trigger] statement_patterns()[i]))
            ==> (parsed matches Ok(module) && module.functions@.len() == 0 && module.types@.len() == 0),
{
    let sanitized_input = sanitize_source(input);
    let rulesets = vec![("statements", statements())];
    proof {
        let names = ruleset_names(rulesets@);
        assert(names[0] == "statements");
        assert(name_index(names, "statements"@) == Some(0int));
        if forall|i: int| 0 <= i < statement_patterns().len() ==> regex_compiles(#[trigger] statement_patterns()[i]) {
            assert forall|i: int, j: int|
                0 <= i < rulesets@.len() && 0 <= j < rulesets@[i].1@.len() implies rule_accepted(
                #[trigger] rulesets@[i].1@[j],
                ruleset_names(rulesets@),
            ) by {
                assert(i == 0);
                assert(rulesets@[i].1@[j].pattern@ == statement_patterns()[j]);
            }
        }
    }
    let mut lexer = match LazyStatefulLexer::new(sanitized_input.as_str(), rulesets, "statements") {
        Ok(lexer) => lexer,
        Err(e) => {
            return Err(ParserError::from_lexer_error(e));
        },
    };
    proof {
        if sanitized(input@).len() == 0 {
            lemma_at_end(lexer);
        }
    }
    let initial = Module { path: ModulePath::empty(), functions: Vec::new(), types: Vec::new() };
    let def_rule = anchor_rule(PythonAnchor::Def);
    let class_rule = anchor_rule(PythonAnchor::Class);
    let mut anchors: Vec<(AnchorLocation<'static>, AnchorRule<'static, '_, LazyStatefulLexer<'_>, Module, HeaderFeature>)> = Vec::new();
    anchors.push((AnchorLocation::Exact { token_kind: "keyword", text: "def" }, def_rule));
    anchors.push((AnchorLocation::Exact { token_kind: "keyword", text: "class" }, class_rule));
    let ghost kept = |m: Module| headers_module(m);
    let parser = parse_at_anchors_keeping(initial, anchors, Ghost(kept));
    proof {
        assert forall|copy: Module| #[trigger] cloned(parser.initial, copy) implies kept(copy) by {
            assert(copy.functions@.len() == 0 && copy.types@.len() == 0);
        }
        assert forall|i: int, accumulator: Module, result: Module|
            0 <= i < parser.anchors@.len() && kept(accumulator) && #[trigger] rule_folds(
                parser.anchors@[i].1,
                accumulator,
                result,
            ) implies kept(result) by {
            let feature = choose|feature: ParsedFeature|
                feature_added(accumulator, feature, result) && header_feature(feature);
            match feature {
                ParsedFeature::Function(f) => {
                    assert forall|j: int| 0 <= j < result.functions@.len() implies dynamic_callable(
                        #[trigger] result.functions@[j].callable,
                    ) by {
                        if j < accumulator.functions@.len() {
                            assert(result.functions@[j] == accumulator.functions@[j]);
                        }
                    }
                },
                ParsedFeature::Type(t) => {
                    assert forall|j: int| 0 <= j < result.types@.len() implies bare_type(#[trigger] result.types@[j]) by {
                        if j < accumulator.types@.len() {
                            assert(result.types@[j] == accumulator.types@[j]);
                        }
                    }
                },
            }
        }
        assert(copies_kept(parser.initial, parser.kept@));
        assert(rules_keep(parser.anchors@, parser.kept@));
    }
    let mut module = match parser.parse(&mut lexer) {
        Ok(module) => Module { path: ModulePath::empty(), functions: module.functions, types: module.types },
        Err(e) => {
            return Err(e);
        },
    };
    proof {
        assert forall|j: int| 0 <= j < module.types@.len() implies python_type(#[trigger] module.types@[j]) by {
            assert(bare_type(module.types@[j]));
        }
    }
    match parse_class_methods(input, &mut module) {
        Ok(()) => Ok(module),
        Err(e) => Err(e),
    }
}

} // verus!
