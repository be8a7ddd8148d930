//! Parsers made of parsers.
use vstd::prelude::*;

use crate::parser::lexer::{Lexer, LexerError, LexerErrorKind, LexerState, LexerStateModel, Token};
use crate::parser::{
    converted_error_kind, lemma_read_on_preorder, lemma_restored, parse_progress, read_on, Parser,
    ParserError,
};
use crate::text::{owned, str_equal};

verus! {

/// A parser that never fails on an unexpected token: it gives the inner
/// parser's value in `Some`, or `None` with the lexer left where it was.
pub struct Optional<P> {
    pub parser: P,
}

/// Turns any parser into a parser that cannot fail. When the nested parser
/// succeeds, its result is wrapped in `Some`. If the nested parser encounters
/// an unexpected token, returns `None` instead. Also, in the latter case,
/// the input stream remains unchanged.
pub fn optional<P>(parser: P) -> (wrapped: Optional<P>)
    ensures
        wrapped.parser == parser,
{
    Optional { parser }
}

/// What an optional parser does: the inner parser's value in `Some`, or, on
/// an unexpected token, `None` with the lexer put back; any other error is
/// passed on.
pub open spec fn optional_parses<'input, L: Lexer<'input>, R, P: Parser<'input, L, R>>(
    parser: P,
    before: L,
    after: L,
    result: Result<Option<R>, ParserError>,
) -> bool {
    exists|middle: L, inner: Result<R, ParserError>|
        #[trigger] parser.parses(before, middle, inner) && read_on(before, middle) && match inner {
            Ok(value) => result == Ok::<Option<R>, ParserError>(Some(value)) && after == middle,
            Err(ParserError::UnexpectedToken { .. }) => result == Ok::<Option<R>, ParserError>(None)
                && after.position() == before.position(),
            Err(error) => result == Err::<Option<R>, ParserError>(error) && after == middle,
        }
}

impl<'input, L: Lexer<'input>, R, P: Parser<'input, L, R>> Parser<'input, L, Option<R>> for Optional<P> {
    open spec fn parses(&self, before: L, after: L, result: Result<Option<R>, ParserError>) -> bool {
        optional_parses(self.parser, before, after, result)
    }

    fn parse(&self, lexer: &mut L) -> (result: Result<Option<R>, ParserError>) {
        let ghost start = *lexer;
        let snapshot = lexer.snapshot();
        let inner = self.parser.parse(lexer);
        let ghost middle = *lexer;
        match inner {
            Ok(value) => {
                proof {
                    assert(self.parser.parses(start, middle, Ok(value)));
                }
                Ok(Some(value))
            },
            Err(ParserError::UnexpectedToken { expected, found }) => {
                let _ = lexer.restore(&snapshot);
                proof {
                    lemma_restored(start, middle, *lexer, snapshot@);
                    assert(self.parser.parses(start, middle, Err(ParserError::UnexpectedToken { expected, found })));
                }
                Ok(None)
            },
            Err(e) => {
                proof {
                    assert(self.parser.parses(start, middle, Err(e)));
                }
                Err(e)
            },
        }
    }
}

/// A place in the token stream that parsing can start from.
#[derive(Debug, PartialEq, Eq, Hash)]
pub enum AnchorLocation<'a> {
    /// Any token of the kind (e.g. any "identifier" token).
    Kind(&'a str),
    /// A token of the kind with exactly the text (e.g. a "keyword" token
    /// with text "function").
    Exact { token_kind: &'a str, text: &'a str },
    /// A run of consecutive tokens, each matching its location.
    Consecutive(Vec<AnchorLocation<'a>>),
}

/// Whether a token of kind `kind` with text `text` stands at `location`; a
/// run of tokens never matches a single token.
pub open spec fn location_matches(location: AnchorLocation, kind: Seq<char>, text: Seq<char>) -> bool {
    match location {
        AnchorLocation::Kind(k) => k@ == kind,
        AnchorLocation::Exact { token_kind, text: t } => token_kind@ == kind && t@ == text,
        AnchorLocation::Consecutive(_) => false,
    }
}

impl<'a> AnchorLocation<'a> {
    pub fn matches_token(&self, token: &Token) -> (matched: bool)
        ensures
            matched == location_matches(*self, token.kind@, token.text@),
    {
        match self {
            AnchorLocation::Kind(kind) => str_equal(token.kind, kind),
            AnchorLocation::Exact { token_kind, text } => str_equal(token.kind, token_kind) && str_equal(
                token.text,
                text,
            ),
            AnchorLocation::Consecutive(_) => false,
        }
    }

    /// How many locations a run holds (0 for a single location).
    fn run_length(&self) -> (length: usize)
        ensures
            match *self {
                AnchorLocation::Consecutive(sequence) => length == sequence@.len(),
                _ => length == 0,
            },
    {
        match self {
            AnchorLocation::Consecutive(sequence) => sequence.len(),
            _ => 0,
        }
    }

    /// The `i`-th location of a run.
    fn run_element(&self, i: usize) -> (element: &AnchorLocation<'a>)
        requires
            self is Consecutive,
            i < self->Consecutive_0@.len(),
        ensures
            *element == self->Consecutive_0@[i as int],
    {
        match self {
            AnchorLocation::Consecutive(sequence) => &sequence[i],
            _ => {
                proof {
                    assert(false);
                }
                self
            },
        }
    }
}

/// Folds a parsed value of type `R` into an accumulator of type `A`.
pub trait Reducer<A, R> {
    /// Folding `feature` into `accumulator` may give `result`.
    /// (Nothing is known of a reducer that does not model itself.)
    open spec fn reduces(&self, accumulator: A, feature: R, result: A) -> bool {
        false
    }

    fn reduce(&self, accumulator: A, feature: R) -> (result: A)
        ensures
            self.reduces(accumulator, feature, result),
    ;
}

/// Parsing behavior for one anchor location: the parsers to try there, in
/// order, and how a parsed value is folded into the accumulator.
#[verifier::reject_recursive_types(L)]
#[verifier::reject_recursive_types(A)]
#[verifier::reject_recursive_types(R)]
pub struct AnchorRule<'p, 'input, L: Lexer<'input>, A, R> {
    pub parsers: Vec<Box<dyn Parser<'input, L, R> + 'p>>,
    pub reducer: Box<dyn Reducer<A, R> + 'p>,
}

/// The four ways an anchor is looked for at a token.
pub enum AnchorSearch {
    /// An exact location for the token.
    Exact,
    /// A location for the token's kind.
    Kind,
    /// A run whose first location is exact for the token.
    RunExact,
    /// A run whose first location is one for the token's kind.
    RunKind,
}

/// Whether `location` is found by `search` for a token of kind `kind` with
/// text `text`.
pub open spec fn search_matches(search: AnchorSearch, location: AnchorLocation, kind: Seq<char>, text: Seq<char>) -> bool {
    match search {
        AnchorSearch::Exact => location is Exact && location_matches(location, kind, text),
        AnchorSearch::Kind => location is Kind && location_matches(location, kind, text),
        AnchorSearch::RunExact => location matches AnchorLocation::Consecutive(sequence) && sequence@.len()
            > 0 && sequence@[0] is Exact && location_matches(sequence@[0], kind, text),
        AnchorSearch::RunKind => location matches AnchorLocation::Consecutive(sequence) && sequence@.len()
            > 0 && location_matches(sequence@[0], kind, text),
    }
}

/// The first index from `start` on whose location `search` finds.
pub open spec fn first_found(
    locations: Seq<AnchorLocation>,
    search: AnchorSearch,
    kind: Seq<char>,
    text: Seq<char>,
    start: int,
) -> Option<int>
    decreases locations.len() - start,
{
    if start < 0 || start >= locations.len() {
        None
    } else if search_matches(search, locations[start], kind, text) {
        Some(start)
    } else {
        first_found(locations, search, kind, text, start + 1)
    }
}

/// The locations of `anchors`, in order.
pub open spec fn anchor_locations<'a, 'p, 'input, L: Lexer<'input>, A, R>(
    anchors: Seq<(AnchorLocation<'a>, AnchorRule<'p, 'input, L, A, R>)>,
) -> Seq<AnchorLocation<'a>> {
    anchors.map_values(|entry: (AnchorLocation<'a>, AnchorRule<'p, 'input, L, A, R>)| entry.0)
}

/// The first anchor that `search` finds for `token`.
pub fn first_anchor<'a, 'p, 'input, L: Lexer<'input>, A, R>(
    anchors: &Vec<(AnchorLocation<'a>, AnchorRule<'p, 'input, L, A, R>)>,
    search: AnchorSearch,
    token: &Token,
) -> (found: Option<usize>)
    ensures
        match first_found(anchor_locations(anchors@), search, token.kind@, token.text@, 0) {
            Some(i) => found == Some(i as usize),
            None => found is None,
        },
        found matches Some(i) ==> i < anchors@.len() && search_matches(
            search,
            anchors@[i as int].0,
            token.kind@,
            token.text@,
        ),
{
    let ghost locations = anchor_locations(anchors@);
    let n = anchors.len();
    let mut i: usize = 0;
    while i < n
        invariant
            n == anchors@.len(),
            locations == anchor_locations(anchors@),
            0 <= i <= n,
            first_found(locations, search, token.kind@, token.text@, 0) == first_found(
                locations,
                search,
                token.kind@,
                token.text@,
                i as int,
            ),
        decreases n - i,
    {
        let location = &anchors[i].0;
        assert(*location == locations[i as int]);
        let found_here = match search {
            AnchorSearch::Exact => match location {
                AnchorLocation::Exact { .. } => location.matches_token(token),
                _ => false,
            },
            AnchorSearch::Kind => match location {
                AnchorLocation::Kind(_) => location.matches_token(token),
                _ => false,
            },
            AnchorSearch::RunExact => match location {
                AnchorLocation::Consecutive(sequence) => sequence.len() > 0 && match &sequence[0] {
                    AnchorLocation::Exact { .. } => sequence[0].matches_token(token),
                    _ => false,
                },
                _ => false,
            },
            AnchorSearch::RunKind => match location {
                AnchorLocation::Consecutive(sequence) => sequence.len() > 0 && sequence[0].matches_token(
                    token,
                ),
                _ => false,
            },
        };
        if found_here {
            return Some(i);
        }
        i = i + 1;
    }
    None
}

/// A pending run of anchor locations: the anchor it belongs to, where it
/// began, its first token, and how many of its locations have matched.
struct PendingConsecutive<'input> {
    index: usize,
    start_snapshot: LexerState,
    start_token: Token<'input>,
    progress: usize,
}

/// The message of the error for an anchor parser that succeeded without
/// reading a token at the anchor token of kind `kind` and text `text`.
pub open spec fn no_progress_text(kind: Seq<char>, text: Seq<char>) -> Seq<char> {
    "Parser for anchor (\""@ + kind + "\", \""@ + text + "\") did not consume any tokens"@
}

/// The message of the error for an anchor parser that succeeded without
/// reading a token.
fn no_progress_message(token: &Token) -> (message: String)
    ensures
        message@ == no_progress_text(token.kind@, token.text@),
{
    let mut message = owned("Parser for anchor (\"");
    message.append(token.kind);
    message.append("\", \"");
    message.append(token.text);
    message.append("\") did not consume any tokens");
    message
}

/// Parser `i` of `rule`, run from a lexer standing at `at`, failed.
pub open spec fn parser_failed<'p, 'input, L: Lexer<'input>, A, R>(
    rule: AnchorRule<'p, 'input, L, A, R>,
    i: int,
    at: LexerStateModel,
) -> bool {
    exists|before: L, after: L, error: ParserError|
        before.position() == at && #[trigger] rule.parsers@[i].parses(before, after, Err(error))
}

/// Parser `i` of `rule`, run from a lexer standing at `at`, read `value`
/// and left the lexer's cursor moved (`moved`) or where it was.
pub open spec fn parser_read<'p, 'input, L: Lexer<'input>, A, R>(
    rule: AnchorRule<'p, 'input, L, A, R>,
    i: int,
    at: LexerStateModel,
    value: R,
    moved: bool,
) -> bool {
    exists|before: L, after: L|
        before.position() == at && #[trigger] rule.parsers@[i].parses(before, after, Ok(value))
            && (after.position().input_cursor != at.input_cursor) == moved
}

/// The parsers of `rule` before the `i`-th all failed from `at`.
pub open spec fn earlier_failed<'p, 'input, L: Lexer<'input>, A, R>(
    rule: AnchorRule<'p, 'input, L, A, R>,
    i: int,
    at: LexerStateModel,
) -> bool {
    forall|j: int| 0 <= j < i ==> #[trigger] parser_failed(rule, j, at)
}

/// `result` is what the reducer of `rule` makes of `accumulator` and some
/// value.
pub open spec fn rule_folds<'p, 'input, L: Lexer<'input>, A, R>(
    rule: AnchorRule<'p, 'input, L, A, R>,
    accumulator: A,
    result: A,
) -> bool {
    exists|feature: R| #[trigger] rule.reducer.reduces(accumulator, feature, result)
}

/// Tries the parsers of `rule` in order, each from `before_anchor`. The
/// first that succeeds has its value folded into `accumulator`; it is an
/// error for it not to have moved the lexer's cursor. When none succeeds,
/// the lexer is put back to `before_anchor` and the accumulator is handed
/// back unchanged.
#[verifier::spinoff_prover]
pub fn try_rule<'p, 'input, L: Lexer<'input>, A, R>(
    lexer: &mut L,
    rule: &AnchorRule<'p, 'input, L, A, R>,
    before_anchor: &LexerState,
    matched_token: &Token<'input>,
    accumulator: A,
    Ghost(bound): Ghost<nat>,
) -> (result: Result<Result<A, A>, ParserError>)
    requires
        old(lexer).ready(),
        old(lexer).restorable(before_anchor@),
        old(lexer).remaining_at(before_anchor@) <= bound,
    ensures
        final(lexer).ready(),
        final(lexer).remaining() <= bound,
        forall|s: LexerStateModel|
            old(lexer).restorable(s) ==> #[trigger] final(lexer).restorable(s) && final(lexer).remaining_at(s)
                <= old(lexer).remaining_at(s),
        result matches Ok(Ok(_)) ==> final(lexer).remaining() < bound,
        result matches Ok(Ok(updated)) ==> rule_folds(*rule, accumulator, updated),
        result matches Ok(Err(unchanged)) ==> final(lexer).position() == before_anchor@ && unchanged
            == accumulator,
        result matches Err(e) ==> e matches ParserError::Custom(m) && m@ == no_progress_text(
            matched_token.kind@,
            matched_token.text@,
        ),
        rule.parsers@.len() == 0 ==> result == Ok::<Result<A, A>, ParserError>(Err(accumulator)),
        result matches Ok(Ok(updated)) ==> exists|i: int, value: R|
            0 <= i < rule.parsers@.len() && earlier_failed(*rule, i, before_anchor@) && #[trigger] parser_read(
                *rule,
                i,
                before_anchor@,
                value,
                true,
            ) && rule.reducer.reduces(accumulator, value, updated),
        result is Err ==> exists|i: int, value: R|
            0 <= i < rule.parsers@.len() && earlier_failed(*rule, i, before_anchor@) && #[trigger] parser_read(
                *rule,
                i,
                before_anchor@,
                value,
                false,
            ),
        result is Ok && result->Ok_0 is Err ==> earlier_failed(*rule, rule.parsers@.len() as int, before_anchor@),
{
    let ghost start = *lexer;
    let n = rule.parsers.len();
    let mut i: usize = 0;
    let mut found: Option<R> = None;
    while i < n && found.is_none()
        invariant
            n == rule.parsers@.len(),
            0 <= i <= n,
            lexer.ready(),
            lexer.restorable(before_anchor@),
            lexer.remaining_at(before_anchor@) <= bound,
            start == *old(lexer),
            forall|s: LexerStateModel|
                start.restorable(s) ==> #[trigger] lexer.restorable(s) && lexer.remaining_at(s)
                    <= start.remaining_at(s),
            start.remaining_at(before_anchor@) <= bound,
            start.ready(),
            start.restorable(before_anchor@),
            found is Some ==> lexer.remaining() < bound,
            i == 0 ==> found is None,
            found is None ==> earlier_failed(*rule, i as int, before_anchor@),
            found matches Some(v) ==> earlier_failed(*rule, i - 1, before_anchor@) && parser_read(
                *rule,
                i - 1,
                before_anchor@,
                v,
                true,
            ),
        decreases n - i,
    {
        let ghost current = *lexer;
        let _ = lexer.restore(before_anchor);
        let ghost restored = *lexer;
        let outcome = rule.parsers[i].parse(lexer);
        proof {
            assert forall|s: LexerStateModel| start.restorable(s) implies #[trigger] lexer.restorable(s)
                && lexer.remaining_at(s) <= start.remaining_at(s) by {
                assert(current.restorable(s));
                assert(restored.restorable(s));
            }
            assert(current.restorable(before_anchor@));
            assert(restored.restorable(before_anchor@));
            assert(lexer.restorable(before_anchor@));
            assert(lexer.remaining_at(before_anchor@) <= start.remaining_at(before_anchor@));
            assert(restored.position() == before_anchor@);
            assert(restored.remaining() <= bound);
        }
        match outcome {
            Ok(feature) => {
                let after = lexer.snapshot();
                proof {
                    assert(rule.parsers@[i as int].parses(restored, *lexer, Ok(feature)));
                }
                if after.input_cursor() == before_anchor.input_cursor() {
                    proof {
                        assert(parser_read(*rule, i as int, before_anchor@, feature, false));
                    }
                    return Err(ParserError::Custom(no_progress_message(matched_token)));
                }
                proof {
                    assert(parser_read(*rule, i as int, before_anchor@, feature, true));
                }
                found = Some(feature);
            },
            Err(e) => {
                proof {
                    assert(rule.parsers@[i as int].parses(restored, *lexer, Err(e)));
                    assert(parser_failed(*rule, i as int, before_anchor@));
                    assert forall|j: int| 0 <= j < i + 1 implies #[trigger] parser_failed(*rule, j, before_anchor@) by {
                        if j < i {
                            assert(earlier_failed(*rule, i as int, before_anchor@));
                        }
                    }
                }
            },
        }
        i = i + 1;
    }
    match found {
        Some(feature) => {
            let ghost read = feature;
            let ghost before = accumulator;
            let updated = rule.reducer.reduce(accumulator, feature);
            proof {
                assert(rule.reducer.reduces(before, read, updated));
                assert(parser_read(*rule, i - 1, before_anchor@, read, true));
            }
            Ok(Ok(updated))
        },
        None => {
            let ghost current = *lexer;
            let _ = lexer.restore(before_anchor);
            proof {
                assert forall|s: LexerStateModel| start.restorable(s) implies #[trigger] lexer.restorable(s)
                    && lexer.remaining_at(s) <= start.remaining_at(s) by {
                    assert(current.restorable(s));
                }
            }
            Ok(Err(accumulator))
        },
    }
}

/// A parser that walks the whole token stream looking for anchors and folds
/// what the anchors' parsers read into an accumulator.
#[verifier::reject_recursive_types(L)]
#[verifier::reject_recursive_types(A)]
#[verifier::reject_recursive_types(R)]
pub struct AnchorParser<'p, 'input, 'anchor, L: Lexer<'input>, A, R> {
    pub initial: A,
    pub anchors: Vec<(AnchorLocation<'anchor>, AnchorRule<'p, 'input, L, A, R>)>,
    /// A property of accumulators that the anchors' rules keep.
    pub kept: Ghost<spec_fn(A) -> bool>,
}

/// Returns a parser that iterates over the token stream, looking for tokens that
/// match any of the provided anchor locations. When such a token is found, the
/// associated parsers are attempted. If a parser successfully matches, its result
/// is folded into the accumulator with the anchor's reducer. If no parser matches
/// or the token is not an anchor, the lexer advances by one token and continues
/// searching. Anchors are looked up in the order given: at a token, the first
/// exact location for it wins over the first location for its kind, and a run
/// of locations is started by the first run whose first location is exact for
/// the token, else the first whose first location is for its kind.
pub fn parse_at_anchors<'p, 'input, 'anchor, L: Lexer<'input>, A, R>(
    initial: A,
    anchors: Vec<(AnchorLocation<'anchor>, AnchorRule<'p, 'input, L, A, R>)>,
) -> (parser: AnchorParser<'p, 'input, 'anchor, L, A, R>)
    ensures
        parser.initial == initial,
        parser.anchors == anchors,
        parser.kept@ == (|a: A| true),
{
    AnchorParser { initial, anchors, kept: Ghost(|a: A| true) }
}

/// [`parse_at_anchors`], for a property `kept` of accumulators that the
/// anchors' rules keep: what the parser gives then has that property.
pub fn parse_at_anchors_keeping<'p, 'input, 'anchor, L: Lexer<'input>, A, R>(
    initial: A,
    anchors: Vec<(AnchorLocation<'anchor>, AnchorRule<'p, 'input, L, A, R>)>,
    Ghost(kept): Ghost<spec_fn(A) -> bool>,
) -> (parser: AnchorParser<'p, 'input, 'anchor, L, A, R>)
    ensures
        parser.initial == initial,
        parser.anchors == anchors,
        parser.kept@ == kept,
{
    AnchorParser { initial, anchors, kept: Ghost(kept) }
}

/// Folding a value into an accumulator with `kept` by the reducer of any
/// rule of `anchors` gives an accumulator with `kept`.
pub open spec fn rules_keep<'a, 'p, 'input, L: Lexer<'input>, A, R>(
    anchors: Seq<(AnchorLocation<'a>, AnchorRule<'p, 'input, L, A, R>)>,
    kept: spec_fn(A) -> bool,
) -> bool {
    forall|i: int, accumulator: A, result: A|
        0 <= i < anchors.len() && kept(accumulator) && #[trigger] rule_folds(anchors[i].1, accumulator, result)
            ==> kept(result)
}

/// What `first_found` finds lies between `start` and the end.
pub proof fn lemma_first_found_bounds(
    locations: Seq<AnchorLocation>,
    search: AnchorSearch,
    kind: Seq<char>,
    text: Seq<char>,
    start: int,
)
    ensures
        first_found(locations, search, kind, text, start) matches Some(i) ==> start <= i < locations.len(),
    decreases locations.len() - start,
{
    if 0 <= start < locations.len() && !search_matches(search, locations[start], kind, text) {
        lemma_first_found_bounds(locations, search, kind, text, start + 1);
    }
}

/// The anchor looked up first for a token of kind `kind` and text `text`:
/// the first exact location for it, else the first location for its kind.
pub open spec fn first_simple(locations: Seq<AnchorLocation>, kind: Seq<char>, text: Seq<char>) -> Option<int> {
    match first_found(locations, AnchorSearch::Exact, kind, text, 0) {
        Some(i) => Some(i),
        None => first_found(locations, AnchorSearch::Kind, kind, text, 0),
    }
}

/// The run anchor looked up for a token of kind `kind` and text `text`:
/// the first run whose first location is exact for it, else the first
/// whose first location is for its kind.
pub open spec fn first_run(locations: Seq<AnchorLocation>, kind: Seq<char>, text: Seq<char>) -> Option<int> {
    match first_found(locations, AnchorSearch::RunExact, kind, text, 0) {
        Some(i) => Some(i),
        None => first_found(locations, AnchorSearch::RunKind, kind, text, 0),
    }
}

/// Anchor `r` is one the walker looks up at a token of kind `kind` and
/// text `text`.
pub open spec fn anchor_chosen(locations: Seq<AnchorLocation>, kind: Seq<char>, text: Seq<char>, r: int) -> bool {
    first_simple(locations, kind, text) == Some(r) || first_run(locations, kind, text) == Some(r)
}

/// An error the anchor walker gives: a lexer error, converted, or the
/// error for an anchor parser that read no token at some anchor token.
pub open spec fn walk_error<'input, L: Lexer<'input>>(start: L, error: ParserError) -> bool {
    ||| lexer_failed(start, error, false)
    ||| error matches ParserError::Custom(m) && exists|kind: Seq<char>, text: Seq<char>|
        m@ == #[trigger] no_progress_text(kind, text)
}

/// Some lexer that `start` read on to had an error coming (not the end of
/// the input, when `eof_excluded`), and `error` is that error converted.
pub open spec fn lexer_failed<'input, L: Lexer<'input>>(start: L, error: ParserError, eof_excluded: bool) -> bool {
    exists|at: L, kind: LexerErrorKind|
        #![trigger read_on(start, at), converted_error_kind(kind, error)]
        read_on(start, at) && at.upcoming() == Err::<(Seq<char>, Seq<char>), LexerErrorKind>(kind)
            && converted_error_kind(kind, error) && (eof_excluded ==> kind !is Eof)
}

/// The first exact-or-kind anchor for the token coming at `lexer` has no
/// parser of its rule that succeeds from where `lexer` stands (or there is
/// no such anchor).
pub open spec fn simple_failed<'a, 'p, 'input, L: Lexer<'input>, A, R>(
    anchors: Seq<(AnchorLocation<'a>, AnchorRule<'p, 'input, L, A, R>)>,
    lexer: L,
) -> bool {
    match lexer.upcoming() {
        Ok(token) => match first_simple(anchor_locations(anchors), token.0, token.1) {
            Some(i) => earlier_failed(anchors[i].1, anchors[i].1.parsers@.len() as int, lexer.position()),
            None => true,
        },
        Err(_) => true,
    }
}

/// One call of `next` took the lexer from `from` to `to`, giving a token
/// or finding the end of the input.
pub open spec fn moved_by_next<'input, L: Lexer<'input>>(from: L, to: L) -> bool {
    from.failed(&to, LexerError::Eof) || exists|token: (Seq<char>, Seq<char>)| #[trigger] from.took(&to, token)
}

/// A walk stays one when it takes one more step.
pub proof fn lemma_trace_push<'a, 'p, 'input, L: Lexer<'input>, A, R>(
    anchors: Seq<(AnchorLocation<'a>, AnchorRule<'p, 'input, L, A, R>)>,
    trace: Seq<(L, A, Option<LexerStateModel>)>,
    next: (L, A, Option<LexerStateModel>),
)
    requires
        walk_trace(anchors, trace),
        walk_step(anchors, trace.last(), next),
    ensures
        walk_trace(anchors, trace.push(next)),
        trace.push(next)[0] == trace[0],
        trace.push(next).last() == next,
{
    let pushed = trace.push(next);
    assert forall|k: int| 0 <= k < pushed.len() - 1 implies #[trigger] walk_step(anchors, pushed[k], pushed[k + 1]) by {
        if k < trace.len() - 1 {
            assert(pushed[k] == trace[k] && pushed[k + 1] == trace[k + 1]);
        }
    }
}

/// One step of the walk over anchors, between two configurations (the
/// lexer where the step begins, the accumulator, and where a pending run of
/// anchor locations began): the step begins at a token; it either leaves
/// the accumulator as it was, once the first exact-or-kind anchor of that
/// token failed, and moves on by one call of `next` from where it stands
/// or from where the pending run began; or it folds into the accumulator
/// the value that the first succeeding parser of an anchor chosen at a
/// token read, with progress, from where it stands or from where the
/// pending run began. A new pending run begins where the step begins.
pub open spec fn walk_step<'a, 'p, 'input, L: Lexer<'input>, A, R>(
    anchors: Seq<(AnchorLocation<'a>, AnchorRule<'p, 'input, L, A, R>)>,
    before: (L, A, Option<LexerStateModel>),
    after: (L, A, Option<LexerStateModel>),
) -> bool {
    &&& before.0.upcoming() is Ok
    &&& after.2 is None || after.2 == Some(before.0.position()) || after.2 == before.2
    &&& {
        ||| {
            &&& after.1 == before.1
            &&& simple_failed(anchors, before.0)
            &&& exists|from: L|
                (from.position() == before.0.position() || before.2 == Some(from.position()))
                    && #[trigger] moved_by_next(from, after.0)
        }
        ||| exists|r: int, at: LexerStateModel, kind: Seq<char>, text: Seq<char>, i: int, value: R|
            #![trigger anchor_chosen(anchor_locations(anchors), kind, text, r), parser_read(anchors[r].1, i, at, value, true)]
            0 <= r < anchors.len() && (at == before.0.position() || before.2 == Some(at)) && anchor_chosen(
                anchor_locations(anchors),
                kind,
                text,
                r,
            ) && earlier_failed(anchors[r].1, i, at) && parser_read(anchors[r].1, i, at, value, true)
                && anchors[r].1.reducer.reduces(before.1, value, after.1)
    }
}

/// `trace` is a walk over anchors: configurations, each the one before
/// after one step.
pub open spec fn walk_trace<'a, 'p, 'input, L: Lexer<'input>, A, R>(
    anchors: Seq<(AnchorLocation<'a>, AnchorRule<'p, 'input, L, A, R>)>,
    trace: Seq<(L, A, Option<LexerStateModel>)>,
) -> bool {
    &&& trace.len() > 0
    &&& forall|k: int| 0 <= k < trace.len() - 1 ==> #[trigger] walk_step(anchors, trace[k], trace[k + 1])
}

/// Every copy of `initial` has `kept`.
pub open spec fn copies_kept<A: Clone>(initial: A, kept: spec_fn(A) -> bool) -> bool {
    forall|copy: A| #[trigger] cloned(initial, copy) ==> kept(copy)
}

/// What walking the stream for anchors does, as far as it does not
/// depend on the anchors' parsers: it reads the stream to its end.
pub open spec fn anchors_parse<'input, L: Lexer<'input>, A>(before: L, after: L, result: Result<A, ParserError>) -> bool {
    result is Ok ==> after.upcoming() == Err::<(Seq<char>, Seq<char>), LexerErrorKind>(LexerErrorKind::Eof)
}

/// Invariant of a pending run: it names a run anchor with more locations to
/// match, and the lexer can go back to where it began, with no more tokens
/// left than `bound`, which is more than the lexer has left now.
pub open spec fn pending_ok<'a, 'p, 'input, L: Lexer<'input>, A, R>(
    anchors: Seq<(AnchorLocation<'a>, AnchorRule<'p, 'input, L, A, R>)>,
    index: usize,
    progress: usize,
    start: LexerStateModel,
    lexer: L,
    bound: nat,
) -> bool {
    &&& index < anchors.len()
    &&& anchors[index as int].0 matches AnchorLocation::Consecutive(sequence) && 1 <= progress
        < sequence@.len()
    &&& lexer.restorable(start)
    &&& lexer.remaining_at(start) <= bound
    &&& lexer.remaining() < bound
}

impl<'p, 'input, 'anchor, L: Lexer<'input>, A: Clone, R> AnchorParser<'p, 'input, 'anchor, L, A, R> {
    /// Walks the token stream from the lexer's position to its end, trying
    /// the anchors' rules where they match (see [`parse_at_anchors`]).
    #[verifier::spinoff_prover]
    #[verifier::rlimit(80)]
    pub fn parse(&self, lexer: &mut L) -> (result: Result<A, ParserError>)
        requires
            old(lexer).ready(),
        ensures
            read_on(*old(lexer), *final(lexer)),
            anchors_parse(*old(lexer), *final(lexer), result),
            copies_kept(self.initial, self.kept@) && rules_keep(self.anchors@, self.kept@) ==> (result matches Ok(
                a,
            ) ==> (self.kept@)(a)),
            old(lexer).upcoming() == Err::<(Seq<char>, Seq<char>), LexerErrorKind>(LexerErrorKind::Eof)
                ==> (result matches Ok(a) && cloned(self.initial, a)),
            old(lexer).upcoming() matches Err(kind) ==> (kind !is Eof ==> (result matches Err(e)
                && converted_error_kind(kind, e))),
            self.anchors@.len() == 0 ==> (result matches Ok(a) ==> cloned(self.initial, a)),
            result matches Ok(a) ==> exists|trace: Seq<(L, A, Option<LexerStateModel>)>|
                #[trigger] walk_trace(self.anchors@, trace) && trace[0].0 == *old(lexer) && cloned(
                    self.initial,
                    trace[0].1,
                ) && trace[0].2 is None && trace.last().1 == a && trace.last().0.upcoming() == Err::<
                    (Seq<char>, Seq<char>),
                    LexerErrorKind,
                >(LexerErrorKind::Eof),
            self.anchors@.len() == 0 ==> (result matches Err(e) ==> lexer_failed(*old(lexer), e, true)),
            result matches Err(e) ==> walk_error(*old(lexer), e),
            self.anchors@.len() == 0 && (forall|m: L|
                read_on(*old(lexer), m) && #[trigger] m.upcoming() is Err ==> m.upcoming() == Err::<
                    (Seq<char>, Seq<char>),
                    LexerErrorKind,
                >(LexerErrorKind::Eof)) ==> (result matches Ok(a) && cloned(self.initial, a)),
    {
        let ghost start = *lexer;
        let ghost kept = self.kept@;
        let ghost keeping = copies_kept(self.initial, kept) && rules_keep(self.anchors@, kept);
        let anchors = &self.anchors;
        let mut accumulator = self.initial.clone();
        proof {
            assert(cloned(self.initial, accumulator));
        }
        let mut pending: Option<PendingConsecutive<'input>> = None;
        let ghost mut bound: nat = 0;
        proof {
            lemma_read_on_preorder(start, start, start);
        }
        let ghost mut first = true;
        let ghost mut trace: Seq<(L, A, Option<LexerStateModel>)> = seq![(start, accumulator, None)];
        loop
            invariant
                start == *old(lexer),
                start.ready(),
                first ==> *lexer == start && pending is None && cloned(self.initial, accumulator),
                !first ==> start.upcoming() is Ok,
                self.anchors@.len() == 0 ==> pending is None && cloned(self.initial, accumulator),
                walk_trace(self.anchors@, trace),
                trace[0].0 == start,
                trace[0].2 is None,
                cloned(self.initial, trace[0].1),
                trace.last().0 == *lexer,
                trace.last().1 == accumulator,
                trace.last().2 == (match pending {
                    Some(c) => Some(c.start_snapshot@),
                    None => None::<LexerStateModel>,
                }),
                pending matches Some(c) ==> first_run(anchor_locations(anchors@), c.start_token.kind@, c.start_token.text@)
                    == Some(c.index as int),
                anchors == &self.anchors,
                read_on(start, *lexer),
                pending matches Some(c) ==> pending_ok(
                    anchors@,
                    c.index,
                    c.progress,
                    c.start_snapshot@,
                    *lexer,
                    bound,
                ),
                pending is Some ==> bound <= start.remaining(),
                kept == self.kept@,
                keeping == (copies_kept(self.initial, kept) && rules_keep(self.anchors@, kept)),
                keeping ==> kept(accumulator),
            decreases (if pending is Some {
                bound
            } else {
                lexer.remaining()
            }), lexer.remaining(),
        {
            let ghost at_loop = *lexer;
            let peeked = lexer.peek();
            proof {
                lemma_read_on_preorder(start, at_loop, *lexer);
                if pending is Some {
                    let c = pending->Some_0;
                    assert(lexer.restorable(c.start_snapshot@));
                }
            }
            let next = match peeked {
                Ok(token) => token,
                Err(LexerError::Eof) => {
                    return Ok(accumulator);
                },
                Err(error) => {
                    let converted = ParserError::from_lexer_error(error);
                    assert(converted_error_kind(crate::parser::lexer::error_kind(error), converted));
                    assert(read_on(start, at_loop));
                    assert(lexer_failed(start, converted, true));
                    return Err(converted);
                },
            };
            proof {
                first = false;
            }
            let ghost at_token = *lexer;
            assert(read_on(start, at_token));
            let anchor_count = anchors.len();
            let simple = match first_anchor(anchors, AnchorSearch::Exact, &next) {
                Some(i) => Some(i),
                None => first_anchor(anchors, AnchorSearch::Kind, &next),
            };
            proof {
                let locations = anchor_locations(self.anchors@);
                assert(locations.len() == anchor_count);
                lemma_first_found_bounds(locations, AnchorSearch::Exact, next.kind@, next.text@, 0);
                lemma_first_found_bounds(locations, AnchorSearch::Kind, next.kind@, next.text@, 0);
                assert(simple matches Some(i) ==> first_simple(locations, next.kind@, next.text@) == Some(i as int));
            }
            if let Some(i) = simple {
                pending = None;
                let before_anchor = lexer.snapshot();
                let tried = try_rule(
                    lexer,
                    &anchors[i].1,
                    &before_anchor,
                    &next,
                    accumulator,
                    Ghost(at_token.remaining()),
                );
                proof {
                    lemma_chain(start, at_token, *lexer);
                }
                match tried {
                    Err(e) => {
                        return Err(e);
                    },
                    Ok(Ok(updated)) => {
                        proof {
                            let cfg = (*lexer, updated, None::<LexerStateModel>);
                            let rule = anchors@[i as int].1;
                            let (ii, vv) = choose|ii: int, vv: R|
                                0 <= ii < rule.parsers@.len() && earlier_failed(rule, ii, before_anchor@) && #[trigger] parser_read(
                                    rule,
                                    ii,
                                    before_anchor@,
                                    vv,
                                    true,
                                ) && rule.reducer.reduces(trace.last().1, vv, updated);
                            assert(anchor_chosen(anchor_locations(self.anchors@), next.kind@, next.text@, i as int));
                            assert(before_anchor@ == at_loop.position());
                            assert(trace.last().0 == at_loop);
                            assert(at_loop.upcoming() is Ok);
                            assert(0 <= (i as int) < self.anchors@.len());
                            assert(walk_step(self.anchors@, trace.last(), cfg));
                            lemma_trace_push(self.anchors@, trace, cfg);
                            trace = trace.push(cfg);
                        }
                        accumulator = updated;
                        continue;
                    },
                    Ok(Err(unchanged)) => {
                        accumulator = unchanged;
                    },
                }
            }
            assert(simple_failed(self.anchors@, at_loop));
            assert(lexer.position() == at_loop.position());
            let before_current = lexer.snapshot();
            let ghost at_current = *lexer;
            assert(read_on(start, at_current));
            let run = match first_anchor(anchors, AnchorSearch::RunExact, &next) {
                Some(i) => Some(i),
                None => first_anchor(anchors, AnchorSearch::RunKind, &next),
            };
            proof {
                let locations = anchor_locations(self.anchors@);
                lemma_first_found_bounds(locations, AnchorSearch::RunExact, next.kind@, next.text@, 0);
                lemma_first_found_bounds(locations, AnchorSearch::RunKind, next.kind@, next.text@, 0);
                assert(run matches Some(i) ==> first_run(locations, next.kind@, next.text@) == Some(i as int));
            }
            if let Some(ci) = run {
                pending = None;
                let run_length = anchors[ci].0.run_length();
                if run_length == 1 {
                    let ghost before_run_try = *lexer;
                    assert(before_run_try == at_current);
                    let tried = try_rule(
                        lexer,
                        &anchors[ci].1,
                        &before_current,
                        &next,
                        accumulator,
                        Ghost(at_current.remaining()),
                    );
                    proof {
                        lemma_chain(start, before_run_try, *lexer);
                    }
                    match tried {
                        Err(e) => {
                            return Err(e);
                        },
                        Ok(Ok(updated)) => {
                            proof {
                                let cfg = (*lexer, updated, None::<LexerStateModel>);
                                let rule = anchors@[ci as int].1;
                                let (ii, vv) = choose|ii: int, vv: R|
                                    0 <= ii < rule.parsers@.len() && earlier_failed(rule, ii, before_current@) && #[trigger] parser_read(
                                        rule,
                                        ii,
                                        before_current@,
                                        vv,
                                        true,
                                    ) && rule.reducer.reduces(trace.last().1, vv, updated);
                                assert(anchor_chosen(anchor_locations(self.anchors@), next.kind@, next.text@, ci as int));
                                assert(before_current@ == at_loop.position());
                                assert(trace.last().0 == at_loop);
                                assert(at_loop.upcoming() is Ok);
                                assert(0 <= (ci as int) < self.anchors@.len());
                                assert(walk_step(self.anchors@, trace.last(), cfg));
                                lemma_trace_push(self.anchors@, trace, cfg);
                                trace = trace.push(cfg);
                            }
                            accumulator = updated;
                            continue;
                        },
                        Ok(Err(unchanged)) => {
                            accumulator = unchanged;
                        },
                    }
                    let ghost before_next = *lexer;
                    assert(before_next.position() == at_loop.position());
                    let stepped = lexer.next();
                    proof {
                        lemma_read_on_preorder(start, before_next, *lexer);
                    }
                    proof {
                        if stepped is Ok {
                            assert(before_next.took(&*lexer, (stepped->Ok_0.kind@, stepped->Ok_0.text@)));
                        }
                    }
                    match stepped {
                        Ok(_) => {},
                        Err(e) => {
                            let converted = ParserError::from_lexer_error(e);
                            assert(converted_error_kind(crate::parser::lexer::error_kind(e), converted));
                            assert(read_on(start, before_next));
                            assert(lexer_failed(start, converted, false));
                            return Err(converted);
                        },
                    }
                    proof {
                        let cfg = (*lexer, accumulator, None::<LexerStateModel>);
                        assert(moved_by_next(before_next, *lexer));
                        assert(trace.last().0 == at_loop);
                        assert(trace.last().1 == accumulator);
                        assert(simple_failed(self.anchors@, trace.last().0));
                        assert(trace.last().0.upcoming() is Ok);
                        assert(before_next.position() == trace.last().0.position());
                        assert(cfg.1 == trace.last().1);
                        assert(moved_by_next(before_next, cfg.0));
                        assert(walk_step(self.anchors@, trace.last(), cfg));
                        lemma_trace_push(self.anchors@, trace, cfg);
                        trace = trace.push(cfg);
                    }
                    continue;
                }
                let stepped = lexer.next();
                proof {
                    lemma_read_on_preorder(start, at_current, *lexer);
                }
                proof {
                    if stepped is Ok {
                        assert(at_current.took(&*lexer, (stepped->Ok_0.kind@, stepped->Ok_0.text@)));
                    }
                }
                match stepped {
                    Ok(_) => {},
                    Err(e) => {
                        let converted = ParserError::from_lexer_error(e);
                        assert(converted_error_kind(crate::parser::lexer::error_kind(e), converted));
                        assert(read_on(start, at_current));
                        assert(lexer_failed(start, converted, false));
                        return Err(converted);
                    },
                }
                proof {
                    bound = at_current.remaining();
                    assert(lexer.restorable(before_current@));
                }
                pending = Some(
                    PendingConsecutive {
                        index: ci,
                        start_snapshot: before_current,
                        start_token: next,
                        progress: 1,
                    },
                );
                proof {
                    let cfg = (*lexer, accumulator, Some(before_current@));
                    assert(before_current@ == at_loop.position());
                    assert(at_current.position() == at_loop.position());
                    assert(moved_by_next(at_current, *lexer));
                    assert(trace.last().0 == at_loop);
                    assert(trace.last().1 == accumulator);
                    assert(simple_failed(self.anchors@, trace.last().0));
                    assert(trace.last().0.upcoming() is Ok);
                    assert(at_current.position() == trace.last().0.position() || trace.last().2 == Some(at_current.position()));
                    assert(cfg.1 == trace.last().1);
                    assert(moved_by_next(at_current, cfg.0));
                    assert(walk_step(self.anchors@, trace.last(), cfg));
                    lemma_trace_push(self.anchors@, trace, cfg);
                    trace = trace.push(cfg);
                }
                continue;
            }
            let taken = pending;
            pending = None;
            if let Some(candidate) = taken {
                let mut candidate = candidate;
                let mut advanced = false;
                let mut completed = false;
                let run_length = anchors[candidate.index].0.run_length();
                let ghost mut moved_from = *lexer;
                if candidate.progress < run_length {
                    let expected = anchors[candidate.index].0.run_element(candidate.progress);
                    if expected.matches_token(&next) {
                        let ghost before_next = *lexer;
                        let stepped = lexer.next();
                        proof {
                            lemma_read_on_preorder(start, before_next, *lexer);
                            assert(lexer.restorable(candidate.start_snapshot@));
                            moved_from = before_next;
                        }
                        proof {
                            if stepped is Ok {
                                assert(before_next.took(&*lexer, (stepped->Ok_0.kind@, stepped->Ok_0.text@)));
                            }
                        }

                        match stepped {
                            Ok(_) => {},
                            Err(e) => {
                                let converted = ParserError::from_lexer_error(e);
                                assert(converted_error_kind(crate::parser::lexer::error_kind(e), converted));
                                assert(read_on(start, before_next));
                                assert(lexer_failed(start, converted, false));
                                return Err(converted);
                            },
                        }
                        candidate.progress = candidate.progress + 1;
                        advanced = true;
                        completed = candidate.progress == run_length;
                    }
                }
                if completed {
                    let ghost before_try = *lexer;
                    let tried = try_rule(
                        lexer,
                        &anchors[candidate.index].1,
                        &candidate.start_snapshot,
                        &candidate.start_token,
                        accumulator,
                        Ghost(bound),
                    );
                    proof {
                        lemma_chain(start, before_try, *lexer);
                    }
                    match tried {
                        Err(e) => {
                            return Err(e);
                        },
                        Ok(Ok(updated)) => {
                            proof {
                                let cfg = (*lexer, updated, None::<LexerStateModel>);
                                let rule = anchors@[candidate.index as int].1;
                                let (ii, vv) = choose|ii: int, vv: R|
                                    0 <= ii < rule.parsers@.len() && earlier_failed(rule, ii, candidate.start_snapshot@) && #[trigger] parser_read(
                                        rule,
                                        ii,
                                        candidate.start_snapshot@,
                                        vv,
                                        true,
                                    ) && rule.reducer.reduces(trace.last().1, vv, updated);
                                assert(anchor_chosen(anchor_locations(self.anchors@), candidate.start_token.kind@, candidate.start_token.text@, candidate.index as int));
                                assert(walk_step(self.anchors@, trace.last(), cfg));
                                lemma_trace_push(self.anchors@, trace, cfg);
                                trace = trace.push(cfg);
                            }
                            accumulator = updated;
                            continue;
                        },
                        Ok(Err(unchanged)) => {
                            accumulator = unchanged;
                        },
                    }
                    let ghost before_restore = *lexer;
                    let _ = lexer.restore(&candidate.start_snapshot);
                    proof {
                        assert(before_restore.restorable(candidate.start_snapshot@));
                        lemma_chain(start, before_restore, *lexer);
                    }
                    let ghost before_next = *lexer;
                    assert(before_next.position() == candidate.start_snapshot@);
                    let stepped = lexer.next();
                    proof {
                        lemma_read_on_preorder(start, before_next, *lexer);
                    }
                    proof {
                        if stepped is Ok {
                            assert(before_next.took(&*lexer, (stepped->Ok_0.kind@, stepped->Ok_0.text@)));
                        }
                        if stepped matches Err(LexerError::Eof) {
                            assert(before_next.failed(&*lexer, LexerError::Eof));
                        }
                    }
                    proof {
                        if stepped is Ok || stepped matches Err(LexerError::Eof) {
                            let cfg = (*lexer, accumulator, None::<LexerStateModel>);
                            assert(moved_by_next(before_next, *lexer));
                            assert(trace.last().0 == at_loop);
                            assert(trace.last().1 == accumulator);
                            assert(simple_failed(self.anchors@, trace.last().0));
                            assert(trace.last().0.upcoming() is Ok);
                            assert(before_next.position() == trace.last().0.position() || trace.last().2 == Some(before_next.position()));
                            assert(cfg.1 == trace.last().1);
                            assert(moved_by_next(before_next, cfg.0));
                            assert(walk_step(self.anchors@, trace.last(), cfg));
                            lemma_trace_push(self.anchors@, trace, cfg);
                            trace = trace.push(cfg);
                        }
                    }
                    match stepped {
                        Ok(_) => {
                            continue;
                        },
                        Err(LexerError::Eof) => {
                            return Ok(accumulator);
                        },
                        Err(e) => {
                            let converted = ParserError::from_lexer_error(e);
                            assert(converted_error_kind(crate::parser::lexer::error_kind(e), converted));
                            assert(read_on(start, before_next));
                            assert(lexer_failed(start, converted, false));
                            return Err(converted);
                        },
                    }
                }
                if advanced {
                    pending = Some(candidate);
                    proof {
                        let cfg = (*lexer, accumulator, Some(candidate.start_snapshot@));
                        assert(moved_by_next(moved_from, *lexer));
                        assert(trace.last().0 == at_loop);
                        assert(trace.last().1 == accumulator);
                        assert(simple_failed(self.anchors@, trace.last().0));
                        assert(trace.last().0.upcoming() is Ok);
                        assert(moved_from.position() == trace.last().0.position() || trace.last().2 == Some(moved_from.position()));
                        assert(cfg.1 == trace.last().1);
                        assert(moved_by_next(moved_from, cfg.0));
                        assert(walk_step(self.anchors@, trace.last(), cfg));
                        lemma_trace_push(self.anchors@, trace, cfg);
                        trace = trace.push(cfg);
                    }
                    continue;
                }
            }
            let ghost before_next = *lexer;
            assert(read_on(start, before_next));
            assert(before_next.position() == at_loop.position());
            let stepped = lexer.next();
            proof {
                lemma_read_on_preorder(start, before_next, *lexer);
            }
            proof {
                if stepped is Ok {
                    assert(before_next.took(&*lexer, (stepped->Ok_0.kind@, stepped->Ok_0.text@)));
                }
                if stepped matches Err(LexerError::Eof) {
                    assert(before_next.failed(&*lexer, LexerError::Eof));
                }
            }
            proof {
                if stepped is Ok || stepped matches Err(LexerError::Eof) {
                    let cfg = (*lexer, accumulator, None::<LexerStateModel>);
                    assert(moved_by_next(before_next, *lexer));
                    assert(trace.last().0 == at_loop);
                    assert(trace.last().1 == accumulator);
                    assert(simple_failed(self.anchors@, trace.last().0));
                    assert(trace.last().0.upcoming() is Ok);
                    assert(before_next.position() == trace.last().0.position() || trace.last().2 == Some(before_next.position()));
                    assert(cfg.1 == trace.last().1);
                    assert(moved_by_next(before_next, cfg.0));
                    assert(walk_step(self.anchors@, trace.last(), cfg));
                    lemma_trace_push(self.anchors@, trace, cfg);
                    trace = trace.push(cfg);
                }
            }
            match stepped {
                Ok(_) => {
                    continue;
                },
                Err(LexerError::Eof) => {
                    return Ok(accumulator);
                },
                Err(e) => {
                    let converted = ParserError::from_lexer_error(e);
                    assert(converted_error_kind(crate::parser::lexer::error_kind(e), converted));
                    assert(read_on(start, before_next));
                    assert(lexer_failed(start, converted, true));
                    return Err(converted);
                },
            }
        }
    }
}

/// A lexer that has read on from `start` to `before` and has since moved
/// (perhaps back) without giving up any position or having more tokens
/// left than `start` has read on to `after`, if it has no more tokens left
/// than `start`.
#[verifier::spinoff_prover]
proof fn lemma_chain<'input, L: Lexer<'input>>(start: L, before: L, after: L)
    requires
        start.ready(),
        read_on(start, before),
        after.ready(),
        after.remaining() <= start.remaining(),
        forall|s: LexerStateModel|
            before.restorable(s) ==> #[trigger] after.restorable(s) && after.remaining_at(s)
                <= before.remaining_at(s),
    ensures
        read_on(start, after),
{
    assert forall|s: LexerStateModel| start.restorable(s) implies #[trigger] after.restorable(s)
        && after.remaining_at(s) <= start.remaining_at(s) by {
        assert(before.restorable(s));
    }
}

} // verus!
