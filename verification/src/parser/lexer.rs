//! A lazy, stateful lexer: it turns its input into tokens on demand, keeps
//! every token it made so that it can rewind and replay, and follows a stack
//! of rulesets that its rules (or its caller) push and pop.
use vstd::prelude::*;
use vstd::string::*;

use crate::pattern::{compile_pattern, describe_regex_error, find_first, regex_compiles, regex_first_match, CompiledPattern, RegexFailure};
use crate::text::{owned, str_equal};
use crate::util::list::{
    branch_before_post, lemma_branch_distinct, lemma_store_grown_preorder, lists_kept, store_grown,
    BranchStore, BranchedList,
};

verus! {

/// The branch key under which a pop of the ruleset stack is recorded in the
/// token buffer.
pub const BRANCH_KEY_POP: &'static str = "__BRANCHED_LIST_POP__";

/// Where a token lies: the row and column (counted in characters, from 0)
/// of its first character and of the position right after it.
#[derive(Clone, Copy, Debug)]
pub struct TokenPosition {
    pub row_begin: usize,
    pub row_end: usize,
    pub column_begin: usize,
    pub column_end: usize,
}

/// A token: its kind, its text and where it starts.
#[derive(Clone, Copy, Debug)]
pub struct Token<'a> {
    pub kind: &'a str,
    pub text: &'a str,
    pub position: TokenPosition,
}

/// What a matched rule does to the stack of rulesets.
#[derive(Clone, Copy)]
pub enum StateModification {
    /// The stack stays as it is.
    Unchanged,
    /// The top ruleset is popped; with one ruleset left this is an error
    /// (`LexerError::InvalidState`).
    Pop,
    /// The named ruleset is pushed.
    Push(&'static str),
}

/// A rule: a pattern, the kind of token it makes, whether that token is
/// given out (`keep`) or skipped, and what a match does to the ruleset
/// stack.
#[derive(Clone, Copy)]
pub struct LexerRule {
    pub pattern: &'static str,
    pub kind: &'static str,
    pub keep: bool,
    pub modification: StateModification,
}

/// Why the lexer could not give a token.
#[derive(Debug)]
pub enum LexerError {
    NoMatch,
    Eof,
    InvalidSnapshot { message: String },
    InvalidState { message: String },
    InvalidRule { message: String },
    InvalidDefaultState { supplied_state: &'static str, message: String },
    Custom { message: String },
}

/// A rule whose pattern has been compiled.
struct CompiledLexerRule {
    rule: LexerRule,
    pattern: CompiledPattern,
}

/// The index of the first name in `names` that reads `name`.
pub open spec fn name_index(names: Seq<&'static str>, name: Seq<char>) -> Option<int>
    decreases names.len(),
{
    if names.len() == 0 {
        None
    } else if names[0]@ == name {
        Some(0)
    } else {
        match name_index(names.drop_first(), name) {
            Some(i) => Some(i + 1),
            None => None,
        }
    }
}

/// What [`name_index`] finds: the first name that reads `name`, or none
/// when no name does.
pub proof fn lemma_name_index(names: Seq<&'static str>, name: Seq<char>)
    ensures
        match name_index(names, name) {
            Some(i) => 0 <= i < names.len() && names[i]@ == name && forall|j: int|
                0 <= j < i ==> #[trigger] names[j]@ != name,
            None => forall|j: int| 0 <= j < names.len() ==> #[trigger] names[j]@ != name,
        },
    decreases names.len(),
{
    if names.len() > 0 && names[0]@ != name {
        lemma_name_index(names.drop_first(), name);
        assert forall|j: int| 1 <= j < names.len() implies #[trigger] names[j] == names.drop_first()[j - 1] by {}
    }
}

/// The names of `rulesets`, in order.
pub open spec fn ruleset_names(rulesets: Seq<(&'static str, Vec<LexerRule>)>) -> Seq<&'static str> {
    rulesets.map_values(|r: (&'static str, Vec<LexerRule>)| r.0)
}

/// A rule the lexer accepts among rulesets named `names`: its pattern
/// compiles, a ruleset it pushes exists, and a rule that skips its tokens
/// leaves the ruleset stack alone.
pub open spec fn rule_accepted(rule: LexerRule, names: Seq<&'static str>) -> bool {
    &&& regex_compiles(rule.pattern@)
    &&& (rule.modification matches StateModification::Push(target) ==> name_index(names, target@) is Some)
    &&& (!rule.keep ==> rule.modification is Unchanged)
}

/// The pattern of every rule of every ruleset compiles.
pub open spec fn patterns_compile(rulesets: Seq<(&'static str, Vec<LexerRule>)>) -> bool {
    forall|i: int, j: int|
        0 <= i < rulesets.len() && 0 <= j < rulesets[i].1@.len() ==> regex_compiles(
            (#[trigger] rulesets[i].1@[j]).pattern@,
        )
}

/// Every rule of every ruleset is accepted.
pub open spec fn rulesets_accepted(rulesets: Seq<(&'static str, Vec<LexerRule>)>) -> bool {
    forall|i: int, j: int|
        0 <= i < rulesets.len() && 0 <= j < rulesets[i].1@.len() ==> rule_accepted(
            #[trigger] rulesets[i].1@[j],
            ruleset_names(rulesets),
        )
}

/// The position of the first ruleset named `name`.
fn find_ruleset_name(names: &Vec<&'static str>, name: &str) -> (found: Option<usize>)
    ensures
        match name_index(names@, name@) {
            Some(i) => found == Some(i as usize),
            None => found is None,
        },
{
    proof {
        lemma_name_index(names@, name@);
    }
    let n = names.len();
    let mut i: usize = 0;
    while i < n
        invariant
            n == names@.len(),
            0 <= i <= n,
            forall|j: int| 0 <= j < i ==> #[trigger] names@[j]@ != name@,
            match name_index(names@, name@) {
                Some(k) => 0 <= k < n && names@[k]@ == name@ && forall|j: int|
                    0 <= j < k ==> #[trigger] names@[j]@ != name@,
                None => forall|j: int| 0 <= j < n ==> #[trigger] names@[j]@ != name@,
            },
        decreases n - i,
    {
        if str_equal(names[i], name) {
            proof {
                match name_index(names@, name@) {
                    Some(k) => {
                        if k < i {
                            assert(names@[k]@ != name@);
                        }
                        if k > i {
                            assert(names@[i as int]@ != name@);
                        }
                    },
                    None => {
                        assert(names@[i as int]@ != name@);
                    },
                }
            }
            return Some(i);
        }
        i = i + 1;
    }
    proof {
        match name_index(names@, name@) {
            Some(k) => {
                assert(names@[k]@ != name@);
            },
            None => {},
        }
    }
    None
}

/// The lexer error that stands for a pattern the regex crate refused.
fn lexer_error_from_regex(error: regex::Error) -> (e: LexerError)
    ensures
        e is InvalidRule || e is Custom,
{
    lexer_error_from_failure(describe_regex_error(error))
}

/// The lexer error a pattern that does not compile becomes: a syntax error
/// or a pattern too large is an invalid rule, anything else a custom error,
/// each with a message that carries what the regex engine said.
pub fn lexer_error_from_failure(failure: RegexFailure) -> (e: LexerError)
    ensures
        match failure {
            RegexFailure::Syntax(message) => e matches LexerError::InvalidRule { message: m } && m@
                == "A syntax error was encountered in a rule pattern: '"@ + message@ + "'."@,
            RegexFailure::TooBig(size) => e matches LexerError::InvalidRule { message: m } && m@
                == "A rule pattern is too large to be compiled by the regex engine (size: "@ + size@ + ")."@,
            RegexFailure::Other(description) => e matches LexerError::Custom { message: m } && m@
                == "An unknown error occurred while compiling the regex: '"@ + description@ + "'"@,
        },
{
    match failure {
        RegexFailure::Syntax(message) => {
            let mut text = owned("A syntax error was encountered in a rule pattern: '");
            text.append(message.as_str());
            text.append("'.");
            LexerError::InvalidRule { message: text }
        },
        RegexFailure::TooBig(size) => {
            let mut text = owned("A rule pattern is too large to be compiled by the regex engine (size: ");
            text.append(size.as_str());
            text.append(").");
            LexerError::InvalidRule { message: text }
        },
        RegexFailure::Other(description) => {
            let mut text = owned("An unknown error occurred while compiling the regex: '");
            text.append(description.as_str());
            text.append("'");
            LexerError::Custom { message: text }
        },
    }
}

/// The lexer's position, as `Lexer::snapshot` takes it and
/// `Lexer::restore` puts it back: how many buffered tokens have been given
/// out, where the input cursor stands (in bytes of the input) and on which
/// row and column, and the stack of ruleset names. A `LazyStatefulLexer`
/// also records which branch of its token buffer it reads, and the cursor
/// in characters.
#[derive(Debug)]
pub struct LexerState {
    pub token_buffer_index: usize,
    pub input_cursor: usize,
    pub input_row: usize,
    pub input_column: usize,
    pub state: Vec<&'static str>,
    stateful_token_buffer: Option<BranchedList>,
    character_cursor: usize,
}

/// The number of bytes that UTF-8 takes for `c`.
pub open spec fn utf8_len(c: char) -> nat {
    let v = c as u32;
    if v < 0x80 {
        1
    } else if v < 0x800 {
        2
    } else if v < 0x10000 {
        3
    } else {
        4
    }
}

/// The number of bytes that UTF-8 takes for the first `count` characters
/// of `text`.
pub open spec fn utf8_prefix_len(text: Seq<char>, count: int) -> nat
    decreases count,
{
    if count <= 0 {
        0
    } else {
        utf8_prefix_len(text, count - 1) + utf8_len(text[count - 1])
    }
}

/// The byte offset in `text` of its character `count` (saturating at the
/// largest `usize`, which no text held in memory reaches).
fn byte_offset(text: &str, count: usize) -> (offset: usize)
    requires
        count <= text@.len(),
    ensures
        utf8_prefix_len(text@, count as int) <= usize::MAX ==> offset == utf8_prefix_len(text@, count as int),
{
    let mut offset: usize = 0;
    let mut i: usize = 0;
    while i < count
        invariant
            0 <= i <= count <= text@.len(),
            utf8_prefix_len(text@, i as int) <= usize::MAX ==> offset == utf8_prefix_len(text@, i as int),
            utf8_prefix_len(text@, i as int) > usize::MAX ==> offset == usize::MAX,
        decreases count - i,
    {
        let c = text.get_char(i);
        let v = c as u32;
        let width: usize = if v < 0x80 {
            1
        } else if v < 0x800 {
            2
        } else if v < 0x10000 {
            3
        } else {
            4
        };
        assert(width == utf8_len(text@[i as int]));
        offset = offset.saturating_add(width);
        i = i + 1;
    }
    offset
}

/// The value of a [`LexerState`].
pub struct LexerStateModel {
    pub token_buffer_index: usize,
    pub input_cursor: usize,
    pub input_row: usize,
    pub input_column: usize,
    pub state: Seq<&'static str>,
    pub token_buffer: Option<BranchedList>,
}

impl View for LexerState {
    type V = LexerStateModel;

    closed spec fn view(&self) -> LexerStateModel {
        LexerStateModel {
            token_buffer_index: self.token_buffer_index,
            input_cursor: self.character_cursor,
            input_row: self.input_row,
            input_column: self.input_column,
            state: self.state@,
            token_buffer: self.stateful_token_buffer,
        }
    }
}

/// A copy of `names`.
fn copy_names(names: &Vec<&'static str>) -> (copy: Vec<&'static str>)
    ensures
        copy@ == names@,
{
    let mut copy: Vec<&'static str> = Vec::new();
    let n = names.len();
    let mut i: usize = 0;
    while i < n
        invariant
            n == names@.len(),
            0 <= i <= n,
            copy@ == names@.take(i as int),
        decreases n - i,
    {
        copy.push(names[i]);
        proof {
            assert(copy@ =~= names@.take(i + 1));
        }
        i = i + 1;
    }
    proof {
        assert(names@.take(n as int) =~= names@);
    }
    copy
}

impl Clone for LexerState {
    fn clone(&self) -> (copy: Self)
        ensures
            copy@ == self@,
    {
        LexerState {
            token_buffer_index: self.token_buffer_index,
            input_cursor: self.input_cursor,
            input_row: self.input_row,
            input_column: self.input_column,
            state: copy_names(&self.state),
            stateful_token_buffer: self.stateful_token_buffer,
            character_cursor: self.character_cursor,
        }
    }
}

impl LexerState {
    /// The public cursor of this position, in bytes of the input.
    pub closed spec fn byte_cursor(&self) -> usize {
        self.input_cursor
    }

    /// The input cursor of this position, as the lexer counts it (in
    /// characters, for a `LazyStatefulLexer`).
    pub fn input_cursor(&self) -> (cursor: usize)
        ensures
            cursor == self@.input_cursor,
    {
        self.character_cursor
    }

    /// How many buffered tokens precede this position.
    pub fn token_buffer_index(&self) -> (index: usize)
        ensures
            index == self@.token_buffer_index,
    {
        self.token_buffer_index
    }

    /// A position with the given parts and no token buffer, for lexers that
    /// keep none.
    pub fn new(
        token_buffer_index: usize,
        input_cursor: usize,
        input_row: usize,
        input_column: usize,
        state: Vec<&'static str>,
    ) -> (position: Self)
        ensures
            position@ == (LexerStateModel {
                token_buffer_index,
                input_cursor,
                input_row,
                input_column,
                state: state@,
                token_buffer: None,
            }),
    {
        LexerState {
            token_buffer_index,
            input_cursor,
            input_row,
            input_column,
            state,
            stateful_token_buffer: None,
            character_cursor: input_cursor,
        }
    }
}

/// The kinds of [`LexerError`], without their messages.
pub enum LexerErrorKind {
    NoMatch,
    Eof,
    InvalidSnapshot,
    InvalidState,
    InvalidRule,
    InvalidDefaultState,
    Custom,
}

/// The kind of `error`.
pub open spec fn error_kind(error: LexerError) -> LexerErrorKind {
    match error {
        LexerError::NoMatch => LexerErrorKind::NoMatch,
        LexerError::Eof => LexerErrorKind::Eof,
        LexerError::InvalidSnapshot { .. } => LexerErrorKind::InvalidSnapshot,
        LexerError::InvalidState { .. } => LexerErrorKind::InvalidState,
        LexerError::InvalidRule { .. } => LexerErrorKind::InvalidRule,
        LexerError::InvalidDefaultState { .. } => LexerErrorKind::InvalidDefaultState,
        LexerError::Custom { .. } => LexerErrorKind::Custom,
    }
}

/// What a call of `next` gave, with the token taken as its kind and text.
pub open spec fn outcome(result: Result<Token, LexerError>) -> Result<(Seq<char>, Seq<char>), LexerErrorKind> {
    match result {
        Ok(token) => Ok((token.kind@, token.text@)),
        Err(error) => Err(error_kind(error)),
    }
}

/// A pull-based lexer whose position can be saved and put back.
///
/// A lexer is `ready` when it can go on reading; a position is
/// `restorable` when `restore` accepts it and leaves the lexer ready. A
/// ready lexer's own snapshots are restorable, and stay so whatever it reads
/// or restores afterwards. `remaining` bounds the tokens the lexer can still
/// give, and `remaining_at` the tokens it could give once put back to a
/// position; neither grows as the lexer goes on.
pub trait Lexer<'a> {
    /// The position that `snapshot` would give now (left open by a lexer
    /// that does not model itself).
    open spec fn position(&self) -> LexerStateModel {
        arbitrary()
    }

    /// The lexer can go on reading (never, for a lexer that does not model
    /// itself).
    open spec fn ready(&self) -> bool {
        false
    }

    /// Restoring `state` succeeds and leaves the lexer ready.
    open spec fn restorable(&self, state: LexerStateModel) -> bool {
        false
    }

    /// What `next` gives from here: the next token's kind and text, or the
    /// kind of error.
    open spec fn upcoming(&self) -> Result<(Seq<char>, Seq<char>), LexerErrorKind> {
        arbitrary()
    }

    /// A bound on the tokens the lexer can still give.
    open spec fn remaining(&self) -> nat {
        0
    }

    /// `after` is this lexer once one call of `next` has given a token with
    /// the kind and text `token` (left open, as always true, by a lexer that
    /// does not model itself).
    open spec fn took(&self, after: &Self, token: (Seq<char>, Seq<char>)) -> bool {
        true
    }

    /// `after` is this lexer once one call of `next` has failed with
    /// `error` (left open, as always true, by a lexer that does not model
    /// itself).
    open spec fn failed(&self, after: &Self, error: LexerError) -> bool {
        true
    }

    /// A bound on the tokens the lexer could give once put back to `state`.
    open spec fn remaining_at(&self, state: LexerStateModel) -> nat {
        0
    }

    /// The next token, or why there is none.
    fn next(&mut self) -> (token: Result<Token<'a>, LexerError>)
        requires
            old(self).ready(),
        ensures
            final(self).ready(),
            outcome(token) == old(self).upcoming(),
            token matches Ok(t) ==> old(self).took(final(self), (t.kind@, t.text@)),
            token matches Err(e) ==> old(self).failed(final(self), e),
            token matches Err(LexerError::Eof) ==> final(self).upcoming() == Err::<
                (Seq<char>, Seq<char>),
                LexerErrorKind,
            >(LexerErrorKind::Eof),
            token is Ok ==> final(self).remaining() < old(self).remaining(),
            token is Err ==> final(self).remaining() <= old(self).remaining(),
            forall|s: LexerStateModel|
                old(self).restorable(s) ==> #[trigger] final(self).restorable(s)
                    && final(self).remaining_at(s) <= old(self).remaining_at(s),
    ;

    /// The current position.
    fn snapshot(&self) -> (position: LexerState)
        ensures
            position@ == self.position(),
            self.ready() ==> self.restorable(position@) && self.remaining_at(position@)
                == self.remaining(),
    ;

    /// Moves back (or forward) to `state`; on success the lexer's position
    /// is `state`, on failure it is unchanged.
    fn restore(&mut self, state: &LexerState) -> (error: Option<LexerError>)
        requires
            old(self).ready(),
        ensures
            error is None ==> final(self).position() == state@,
            error is Some ==> final(self).position() == old(self).position() && final(self).ready()
                && final(self).remaining() == old(self).remaining(),
            old(self).restorable(state@) ==> error is None && final(self).ready()
                && final(self).remaining() == old(self).remaining_at(state@),
            forall|s: LexerStateModel|
                old(self).restorable(s) ==> #[trigger] final(self).restorable(s)
                    && final(self).remaining_at(s) <= old(self).remaining_at(s),
    ;

    /// The next token, leaving the lexer where it was: at the same position,
    /// with the same token to come.
    fn peek(&mut self) -> (token: Result<Token<'a>, LexerError>)
        requires
            old(self).ready(),
        ensures
            final(self).ready(),
            final(self).position() == old(self).position(),
            outcome(token) == old(self).upcoming(),
            final(self).upcoming() == old(self).upcoming(),
            final(self).remaining() <= old(self).remaining(),
            forall|s: LexerStateModel|
                old(self).restorable(s) ==> #[trigger] final(self).restorable(s)
                    && final(self).remaining_at(s) <= old(self).remaining_at(s),
    ;
}

/// A token in the buffer, with the lexer state right after it was made, so
/// that replaying it puts the lexer where making it did.
#[derive(Clone, Copy)]
pub struct TokenBufferEntry<'input> {
    pub token: Token<'input>,
    pub input_cursor_after: usize,
    pub input_row_after: usize,
    pub input_column_after: usize,
    pub state_modification_after: StateModification,
}

/// The text `rule`'s pattern matches at the very start of `remaining`, if
/// its leftmost match starts there.
pub open spec fn match_at_start(rule: LexerRule, remaining: Seq<char>) -> Option<Seq<char>> {
    match regex_first_match(rule.pattern@, remaining) {
        Some(found) => if found.0 == 0 && found.1.len() <= remaining.len() && found.1
            == remaining.subrange(0, found.1.len() as int) {
            Some(found.1)
        } else {
            None
        },
        None => None,
    }
}

/// Among `rules`, the one whose non-empty match at the start of `remaining`
/// is longest (the earliest of equally long ones), with that match.
pub open spec fn best_match(rules: Seq<LexerRule>, remaining: Seq<char>) -> Option<(int, Seq<char>)>
    decreases rules.len(),
{
    if rules.len() == 0 {
        None
    } else {
        let earlier = best_match(rules.drop_last(), remaining);
        match match_at_start(rules.last(), remaining) {
            Some(text) => if text.len() > 0 && (earlier is None || text.len()
                > earlier.unwrap().1.len()) {
                Some(((rules.len() - 1) as int, text))
            } else {
                earlier
            },
            None => earlier,
        }
    }
}

/// What [`best_match`] finds: a rule whose pattern matches at the start,
/// with the longest match, the first such rule on a tie.
pub proof fn lemma_best_match(rules: Seq<LexerRule>, remaining: Seq<char>)
    ensures
        best_match(rules, remaining) matches Some(found) ==> {
            &&& 0 <= found.0 < rules.len()
            &&& 0 < found.1.len() <= remaining.len()
            &&& found.1 == remaining.subrange(0, found.1.len() as int)
            &&& match_at_start(rules[found.0], remaining) == Some(found.1)
        },
    decreases rules.len(),
{
    if rules.len() > 0 {
        lemma_best_match(rules.drop_last(), remaining);
    }
}

/// The row and column after reading `text` from (`row`, `column`): a line
/// break moves to the start of the next row, any other character one
/// column on.
pub open spec fn advance(row: int, column: int, text: Seq<char>) -> (int, int)
    decreases text.len(),
{
    if text.len() == 0 {
        (row, column)
    } else {
        let before = advance(row, column, text.drop_last());
        if text.last() == '\n' {
            (before.0 + 1, 0)
        } else {
            (before.0, before.1 + 1)
        }
    }
}

/// Moving over `text` keeps the row and column within bounds.
pub proof fn lemma_advance_bounds(row: int, column: int, text: Seq<char>)
    requires
        0 <= column,
    ensures
        row <= advance(row, column, text).0 <= row + text.len(),
        0 <= advance(row, column, text).1 <= column + text.len(),
    decreases text.len(),
{
    if text.len() > 0 {
        lemma_advance_bounds(row, column, text.drop_last());
    }
}

/// How a scan for the next kept token ends.
pub enum ScanEnd {
    /// The input ran out.
    Eof,
    /// No rule matches what is left.
    NoMatch,
    /// `rule` matched `text`, which begins at (`row_begin`, `column_begin`).
    Token { rule: LexerRule, text: Seq<char>, row_begin: int, column_begin: int },
}

/// The end of a scan, and where it leaves the cursor, row and column.
pub struct Scan {
    pub end: ScanEnd,
    pub cursor: int,
    pub row: int,
    pub column: int,
}

/// Reads `input` from `cursor` with `rules`, skipping the matches of rules
/// that do not keep their tokens, up to the first kept token, a place no rule
/// matches, or the end.
pub open spec fn scan(input: Seq<char>, rules: Seq<LexerRule>, cursor: int, row: int, column: int) -> Scan
    decreases input.len() - cursor,
{
    if cursor < 0 || cursor >= input.len() {
        Scan { end: ScanEnd::Eof, cursor, row, column }
    } else {
        let remaining = input.subrange(cursor, input.len() as int);
        match best_match(rules, remaining) {
            None => Scan { end: ScanEnd::NoMatch, cursor, row, column },
            Some(found) => {
                proof {
                    lemma_best_match(rules, remaining);
                }
                let after = advance(row, column, found.1);
                if rules[found.0].keep {
                    Scan {
                        end: ScanEnd::Token {
                            rule: rules[found.0],
                            text: found.1,
                            row_begin: row,
                            column_begin: column,
                        },
                        cursor: cursor + found.1.len(),
                        row: after.0,
                        column: after.1,
                    }
                } else {
                    scan(input, rules, cursor + found.1.len(), after.0, after.1)
                }
            },
        }
    }
}

/// The ruleset stack after `modification`, or `None` when it pops the last
/// ruleset.
pub open spec fn modified_stack(stack: Seq<&'static str>, modification: StateModification) -> Option<
    Seq<&'static str>,
> {
    match modification {
        StateModification::Unchanged => Some(stack),
        StateModification::Pop => if stack.len() <= 1 {
            None
        } else {
            Some(stack.drop_last())
        },
        StateModification::Push(target) => Some(stack.push(target)),
    }
}

/// Reading on from `cursor` cannot overflow the row and column counters.
pub open spec fn counters_fit(cursor: int, row: int, column: int, length: int) -> bool {
    cursor <= length ==> row + (length - cursor) <= usize::MAX && column + (length - cursor)
        <= usize::MAX
}

/// A buffered entry that leaves the lexer inside its input with room on its
/// counters.
pub open spec fn entry_fits(entry: TokenBufferEntry, length: int) -> bool {
    &&& entry.input_cursor_after <= length
    &&& counters_fit(
        entry.input_cursor_after as int,
        entry.input_row_after as int,
        entry.input_column_after as int,
        length,
    )
}

/// Where the last of `entries` left the cursor (0 for none).
pub open spec fn end_cursor(entries: Seq<TokenBufferEntry>) -> int {
    if entries.len() == 0 {
        0
    } else {
        entries.last().input_cursor_after as int
    }
}

/// A scan never moves the cursor back, stops inside the input, and a kept
/// token moves it forward.
pub proof fn lemma_scan_progress(input: Seq<char>, rules: Seq<LexerRule>, cursor: int, row: int, column: int)
    requires
        0 <= cursor,
    ensures
        scan(input, rules, cursor, row, column).cursor >= cursor,
        cursor <= input.len() ==> scan(input, rules, cursor, row, column).cursor <= input.len(),
        scan(input, rules, cursor, row, column).end is Token ==> scan(input, rules, cursor, row, column).cursor
            > cursor,
        scan(input, rules, cursor, row, column).end is Eof ==> scan(input, rules, cursor, row, column).cursor
            >= input.len(),
    decreases input.len() - cursor,
{
    if cursor < input.len() {
        let remaining = input.subrange(cursor, input.len() as int);
        lemma_best_match(rules, remaining);
        match best_match(rules, remaining) {
            Some(found) => {
                let after = advance(row, column, found.1);
                if !rules[found.0].keep {
                    lemma_scan_progress(input, rules, cursor + found.1.len(), after.0, after.1);
                }
            },
            None => {},
        }
    }
}

/// A lexer over `input` that makes tokens only when asked, longest match
/// first, following a stack of rulesets. Every token it gives out is kept in
/// a branched buffer, so that after rewinding to a snapshot the same tokens
/// come again without matching; pushes and pops of the ruleset stack branch
/// the buffer so that a replay follows them too.
pub struct LazyStatefulLexer<'input> {
    input: &'input str,
    input_length: usize,
    rulesets: Vec<(&'static str, Vec<CompiledLexerRule>)>,
    state: Vec<&'static str>,
    token_buffer_store: BranchStore<TokenBufferEntry<'input>>,
    token_buffer: BranchedList,
    token_buffer_root_index: usize,
    input_cursor: usize,
    input_row: usize,
    input_column: usize,
}

/// How the lexer's next fresh scan begins: at the end of its input, with no
/// ruleset to read with, or with the ruleset at index `k`.
pub enum FreshStart {
    AtEnd,
    NoRuleset,
    Ruleset(int),
}

impl<'input> LazyStatefulLexer<'input> {
    /// The names of the lexer's rulesets, in order.
    pub closed spec fn ruleset_names(&self) -> Seq<&'static str> {
        self.rulesets@.map_values(|r: (&'static str, Vec<CompiledLexerRule>)| r.0)
    }

    /// The rules of the lexer's `i`-th ruleset, in order.
    pub closed spec fn ruleset_rules(&self, i: int) -> Seq<LexerRule> {
        self.rulesets@[i].1@.map_values(|c: CompiledLexerRule| c.rule)
    }

    /// The text the lexer reads.
    pub closed spec fn input_text(&self) -> Seq<char> {
        self.input@
    }

    /// Every token buffer branch of the lexer.
    pub closed spec fn store(&self) -> BranchStore<TokenBufferEntry<'input>> {
        self.token_buffer_store
    }

    /// The token buffer branch the lexer reads.
    pub closed spec fn buffer(&self) -> BranchedList {
        self.token_buffer
    }

    /// The tokens in the buffer branch the lexer reads.
    pub open spec fn buffered(&self) -> Seq<TokenBufferEntry<'input>> {
        self.store().contents(self.buffer())
    }

    /// The two lexers read the same input with the same rulesets.
    pub closed spec fn same_setup(&self, other: &Self) -> bool {
        &&& self.input == other.input
        &&& self.input_length == other.input_length
        &&& self.rulesets == other.rulesets
    }

    /// Having the same setup is an equivalence: reflexive, symmetric and
    /// transitive.
    pub proof fn lemma_same_setup_equivalence(a: &Self, b: &Self, c: &Self)
        ensures
            a.same_setup(a),
            a.same_setup(b) ==> b.same_setup(a),
            a.same_setup(b) && b.same_setup(c) ==> a.same_setup(c),
    {
    }

    /// Lexers with the same setup read the same text with the same rules.
    pub proof fn lemma_same_setup(&self, other: &Self)
        requires
            self.same_setup(other),
        ensures
            self.input_text() == other.input_text(),
            self.ruleset_names() == other.ruleset_names(),
            forall|i: int| #[trigger] self.ruleset_rules(i) == other.ruleset_rules(i),
    {
    }

    /// How the next fresh scan begins.
    pub open spec fn fresh_start(&self) -> FreshStart {
        if self.position().input_cursor >= self.input_text().len() {
            FreshStart::AtEnd
        } else if self.position().state.len() == 0 {
            FreshStart::NoRuleset
        } else {
            match name_index(self.ruleset_names(), self.position().state.last()@) {
                Some(k) => FreshStart::Ruleset(k),
                None => FreshStart::NoRuleset,
            }
        }
    }

    /// The lexer's own invariant.
    pub closed spec fn wf(&self) -> bool {
        &&& self.token_buffer_store.wf()
        &&& self.token_buffer_store.valid(self.token_buffer)
        &&& self.token_buffer_root_index <= self.token_buffer_store.contents(self.token_buffer).len()
        &&& self.input_length == self.input@.len()
        &&& forall|i: int, j: int|
            0 <= i < self.rulesets@.len() && 0 <= j < self.rulesets@[i].1@.len() ==> {
                &&& (#[trigger] self.rulesets@[i].1@[j]).pattern@ == self.rulesets@[i].1@[j].rule.pattern@
                &&& rule_accepted(self.rulesets@[i].1@[j].rule, self.ruleset_names())
            }
        &&& forall|l: BranchedList, i: int|
            self.token_buffer_store.valid(l) && 0 <= i < self.token_buffer_store.contents(l).len()
                ==> entry_fits(#[trigger] self.token_buffer_store.contents(l)[i], self.input_length as int)
    }

    /// What `next` does, from the lexer `old` to the lexer `new`, giving
    /// `result`. A buffered token is given out again with the position it
    /// left the lexer at. Else the input is scanned with the ruleset on top of
    /// the stack; the row, column and cursor follow the scan (also when it
    /// ends in an error), and a kept token changes the ruleset stack as its
    /// rule says and is appended to the buffer.
    pub open spec fn next_post(old: Self, new: Self, result: Result<Token<'input>, LexerError>) -> bool {
        let before = old.position();
        let after = new.position();
        &&& new.same_setup(&old)
        &&& new.buffer() == old.buffer()
        &&& if before.token_buffer_index < old.buffered().len() {
            let entry = old.buffered()[before.token_buffer_index as int];
            &&& new.store() == old.store()
            &&& after.token_buffer_index == before.token_buffer_index + 1
            &&& after.input_cursor == entry.input_cursor_after
            &&& after.input_row == entry.input_row_after
            &&& after.input_column == entry.input_column_after
            &&& match modified_stack(before.state, entry.state_modification_after) {
                Some(stack) => after.state == stack && result == Ok::<Token<'input>, LexerError>(entry.token),
                None => after.state == before.state && result is Err && result->Err_0 is InvalidState,
            }
        } else {
            match old.fresh_start() {
                FreshStart::AtEnd => new == old && result is Err && result->Err_0 is Eof,
                FreshStart::NoRuleset => new == old && result is Err && result->Err_0 is InvalidState,
                FreshStart::Ruleset(k) => {
                    let s = scan(
                        old.input_text(),
                        old.ruleset_rules(k),
                        before.input_cursor as int,
                        before.input_row as int,
                        before.input_column as int,
                    );
                    &&& after.input_cursor == s.cursor
                    &&& after.input_row == s.row
                    &&& after.input_column == s.column
                    &&& match s.end {
                        ScanEnd::Eof => {
                            &&& result is Err && result->Err_0 is Eof
                            &&& new.store() == old.store()
                            &&& after.token_buffer_index == before.token_buffer_index
                            &&& after.state == before.state
                        },
                        ScanEnd::NoMatch => {
                            &&& result is Err && result->Err_0 is NoMatch
                            &&& new.store() == old.store()
                            &&& after.token_buffer_index == before.token_buffer_index
                            &&& after.state == before.state
                        },
                        ScanEnd::Token { rule, text, row_begin, column_begin } => match modified_stack(
                            before.state,
                            rule.modification,
                        ) {
                            None => {
                                &&& result is Err && result->Err_0 is InvalidState
                                &&& new.store() == old.store()
                                &&& after.token_buffer_index == before.token_buffer_index
                                &&& after.state == before.state
                            },
                            Some(stack) => {
                                &&& result is Ok
                                &&& result->Ok_0.kind@ == rule.kind@
                                &&& result->Ok_0.text@ == text
                                &&& result->Ok_0.position.row_begin == row_begin
                                &&& result->Ok_0.position.column_begin == column_begin
                                &&& result->Ok_0.position.row_end == s.row
                                &&& result->Ok_0.position.column_end == s.column
                                &&& after.state == stack
                                &&& after.token_buffer_index == before.token_buffer_index + 1
                                &&& new.buffered() == old.buffered().push(
                                    TokenBufferEntry {
                                        token: result->Ok_0,
                                        input_cursor_after: s.cursor as usize,
                                        input_row_after: s.row as usize,
                                        input_column_after: s.column as usize,
                                        state_modification_after: rule.modification,
                                    },
                                )
                                &&& lists_kept(old.store(), new.store(), old.buffer())
                                &&& forall|o: BranchedList| #[trigger] new.store().valid(o) <==> old.store().valid(o)
                            },
                        },
                    }
                },
            }
        }
    }

    /// Builds a lexer over `input` with the named `rulesets`, starting in
    /// the ruleset `default`. Fails when no ruleset is called `default`
    /// (`InvalidDefaultState`), or when a rule is not accepted: its pattern
    /// does not compile, it pushes a ruleset that does not exist, or it
    /// skips its tokens and yet changes the ruleset stack (`InvalidRule`,
    /// or `Custom` for an unusual regex failure).
    pub fn new(
        input: &'input str,
        rulesets: Vec<(&'static str, Vec<LexerRule>)>,
        default: &'static str,
    ) -> (lexer: Result<Self, LexerError>)
        ensures
            name_index(ruleset_names(rulesets@), default@) is None ==> (lexer matches Err(
                LexerError::InvalidDefaultState { supplied_state, .. },
            ) && supplied_state == default),
            name_index(ruleset_names(rulesets@), default@) is Some ==> {
                &&& lexer is Ok <==> rulesets_accepted(rulesets@)
                &&& lexer matches Err(e) ==> (e is InvalidRule || e is Custom)
                &&& patterns_compile(rulesets@) ==> (lexer matches Err(e) ==> e is InvalidRule)
            },
            lexer matches Ok(l) ==> {
                &&& l.wf()
                &&& l.ready()
                &&& l.input_text() == input@
                &&& l.ruleset_names() == ruleset_names(rulesets@)
                &&& forall|i: int| 0 <= i < rulesets@.len() ==> #[trigger] l.ruleset_rules(i) == rulesets@[i].1@
                &&& l.buffered().len() == 0
                &&& l.position().token_buffer_index == 0
                &&& l.position().input_cursor == 0
                &&& l.position().input_row == 0
                &&& l.position().input_column == 0
                &&& l.position().state == seq![default]
            },
    {
        let mut names: Vec<&'static str> = Vec::new();
        let count = rulesets.len();
        let mut i: usize = 0;
        while i < count
            invariant
                count == rulesets@.len(),
                0 <= i <= count,
                names@ == ruleset_names(rulesets@).take(i as int),
            decreases count - i,
        {
            names.push(rulesets[i].0);
            proof {
                assert(names@ =~= ruleset_names(rulesets@).take(i + 1));
            }
            i = i + 1;
        }
        proof {
            assert(names@ =~= ruleset_names(rulesets@));
        }
        if find_ruleset_name(&names, default).is_none() {
            let mut message = owned("The default state '");
            message.append(default);
            message.append("' could not be found in the provided rulesets.");
            return Err(LexerError::InvalidDefaultState { supplied_state: default, message });
        }
        let mut compiled_rulesets: Vec<(&'static str, Vec<CompiledLexerRule>)> = Vec::new();
        let mut i: usize = 0;
        while i < count
            invariant
                count == rulesets@.len(),
                0 <= i <= count,
                names@ == ruleset_names(rulesets@),
                compiled_rulesets@.len() == i,
                name_index(ruleset_names(rulesets@), default@) is Some,
                forall|a: int|
                    0 <= a < i ==> {
                        &&& (#[trigger] compiled_rulesets@[a]).0 == rulesets@[a].0
                        &&& compiled_rulesets@[a].1@.len() == rulesets@[a].1@.len()
                        &&& forall|b: int|
                            0 <= b < rulesets@[a].1@.len() ==> {
                                &&& (#[trigger] compiled_rulesets@[a].1@[b]).rule == rulesets@[a].1@[b]
                                &&& compiled_rulesets@[a].1@[b].pattern@ == rulesets@[a].1@[b].pattern@
                                &&& rule_accepted(rulesets@[a].1@[b], names@)
                            }
                    },
            decreases count - i,
        {
            let rules = &rulesets[i].1;
            let mut compiled: Vec<CompiledLexerRule> = Vec::new();
            let rule_count = rules.len();
            let mut j: usize = 0;
            while j < rule_count
                invariant
                    rule_count == rules@.len(),
                    count == rulesets@.len(),
                    names@ == ruleset_names(rulesets@),
                    0 <= i < count,
                    rules@ == rulesets@[i as int].1@,
                    0 <= j <= rule_count,
                name_index(ruleset_names(rulesets@), default@) is Some,
                    compiled@.len() == j,
                    forall|b: int|
                        0 <= b < j ==> {
                            &&& (#[trigger] compiled@[b]).rule == rules@[b]
                            &&& compiled@[b].pattern@ == rules@[b].pattern@
                            &&& rule_accepted(rules@[b], names@)
                        },
                decreases rule_count - j,
            {
                let rule = rules[j];
                let pattern = match compile_pattern(rule.pattern) {
                    Ok(p) => p,
                    Err(e) => {
                        proof {
                            assert(!rule_accepted(rulesets@[i as int].1@[j as int], ruleset_names(rulesets@)));
                            assert(!regex_compiles(rulesets@[i as int].1@[j as int].pattern@));
                            assert(!patterns_compile(rulesets@));
                        }
                        return Err(lexer_error_from_regex(e));
                    },
                };
                if let StateModification::Push(target) = rule.modification {
                    if find_ruleset_name(&names, target).is_none() {
                        proof {
                            assert(!rule_accepted(rulesets@[i as int].1@[j as int], ruleset_names(rulesets@)));
                        }
                        let mut message = owned("The rule with the pattern '");
                        message.append(rule.pattern);
                        message.append("' tries to push the ruleset '");
                        message.append(target);
                        message.append("' which is not defined in the provided rulesets.");
                        return Err(LexerError::InvalidRule { message });
                    }
                }
                let changes_state = match rule.modification {
                    StateModification::Unchanged => false,
                    _ => true,
                };
                if !rule.keep && changes_state {
                    proof {
                        assert(!rule_accepted(rulesets@[i as int].1@[j as int], ruleset_names(rulesets@)));
                    }
                    let mut message = owned("The rule with the pattern '");
                    message.append(rule.pattern);
                    message.append(
                        "' tries to modify the lexer state while being marked as 'keep: false', which is not allowed. Only rules that emit a token are allowed to modify the lexer state.",
                    );
                    return Err(LexerError::InvalidRule { message });
                }
                compiled.push(CompiledLexerRule { rule, pattern });
                j = j + 1;
            }
            compiled_rulesets.push((rulesets[i].0, compiled));
            i = i + 1;
        }
        let mut token_buffer_store: BranchStore<TokenBufferEntry<'input>> = BranchStore::new();
        let token_buffer = BranchedList::empty(&mut token_buffer_store);
        let mut state: Vec<&'static str> = Vec::new();
        state.push(default);
        let lexer = LazyStatefulLexer {
            input,
            input_length: input.unicode_len(),
            rulesets: compiled_rulesets,
            state,
            token_buffer_store,
            token_buffer,
            token_buffer_root_index: 0,
            input_cursor: 0,
            input_row: 0,
            input_column: 0,
        };
        proof {
            assert(lexer.ruleset_names() =~= ruleset_names(rulesets@));
            assert forall|a: int| 0 <= a < rulesets@.len() implies #[trigger] lexer.ruleset_rules(a) == rulesets@[a].1@ by {
                assert(lexer.ruleset_rules(a) =~= rulesets@[a].1@);
            }
            assert(lexer.state@ =~= seq![default]);
            assert forall|a: int, b: int|
                0 <= a < rulesets@.len() && 0 <= b < rulesets@[a].1@.len() implies rule_accepted(
                    #[trigger] rulesets@[a].1@[b],
                    ruleset_names(rulesets@),
                ) by {
                assert(compiled_rulesets@[a].1@[b].rule == rulesets@[a].1@[b]);
            }
        }
        Ok(lexer)
    }
}

/// Where a scan stopped, as the lexer computes it.
enum ScanStop<'input> {
    Eof,
    NoMatch,
    Found { rule: LexerRule, text: &'input str, row_begin: usize, column_begin: usize },
}

/// A scan's stop with the cursor, row and column it left.
struct ScanOutcome<'input> {
    stop: ScanStop<'input>,
    cursor: usize,
    row: usize,
    column: usize,
}

/// The row and column after reading `text` from (`row`, `column`).
fn advance_position(row: usize, column: usize, text: &str) -> (after: (usize, usize))
    requires
        row + text@.len() <= usize::MAX,
        column + text@.len() <= usize::MAX,
    ensures
        after.0 == advance(row as int, column as int, text@).0,
        after.1 == advance(row as int, column as int, text@).1,
{
    let n = text.unicode_len();
    let mut r = row;
    let mut c = column;
    let mut i: usize = 0;
    while i < n
        invariant
            n == text@.len(),
            0 <= i <= n,
            row + n <= usize::MAX,
            column + n <= usize::MAX,
            r == advance(row as int, column as int, text@.take(i as int)).0,
            c == advance(row as int, column as int, text@.take(i as int)).1,
        decreases n - i,
    {
        proof {
            lemma_advance_bounds(row as int, column as int, text@.take(i as int));
            assert(text@.take(i + 1).drop_last() =~= text@.take(i as int));
        }
        if text.get_char(i) == '\n' {
            r = r + 1;
            c = 0;
        } else {
            c = c + 1;
        }
        i = i + 1;
    }
    proof {
        assert(text@.take(n as int) =~= text@);
    }
    (r, c)
}

impl<'input> LazyStatefulLexer<'input> {
    /// The index of the first ruleset named `name`.
    fn find_ruleset(&self, name: &str) -> (found: Option<usize>)
        ensures
            match found {
                Some(f) => name_index(self.ruleset_names(), name@) == Some(f as int),
                None => name_index(self.ruleset_names(), name@) is None,
            },
    {
        let ghost names = self.ruleset_names();
        proof {
            lemma_name_index(names, name@);
        }
        let n = self.rulesets.len();
        let mut i: usize = 0;
        while i < n
            invariant
                n == self.rulesets@.len(),
                names == self.ruleset_names(),
                names.len() == n,
                0 <= i <= n,
                forall|j: int| 0 <= j < i ==> #[trigger] names[j]@ != name@,
                match name_index(names, name@) {
                    Some(k) => 0 <= k < n && names[k]@ == name@ && forall|j: int|
                        0 <= j < k ==> #[trigger] names[j]@ != name@,
                    None => forall|j: int| 0 <= j < n ==> #[trigger] names[j]@ != name@,
                },
            decreases n - i,
        {
            if str_equal(self.rulesets[i].0, name) {
                proof {
                    assert(names[i as int] == self.rulesets@[i as int].0);
                    match name_index(names, name@) {
                        Some(k) => {
                            if k < i {
                                assert(names[k]@ != name@);
                            }
                            if k > i {
                                assert(names[i as int]@ != name@);
                            }
                        },
                        None => {
                            assert(names[i as int]@ != name@);
                        },
                    }
                }
                return Some(i);
            }
            proof {
                assert(names[i as int] == self.rulesets@[i as int].0);
            }
            i = i + 1;
        }
        proof {
            match name_index(names, name@) {
                Some(k) => {
                    assert(names[k]@ != name@);
                },
                None => {},
            }
        }
        None
    }

    /// The rule of ruleset `k` with the longest match at the start of
    /// `remaining`, and that match.
    fn best_rule(&self, k: usize, remaining: &'input str) -> (found: Option<(usize, &'input str)>)
        requires
            self.wf(),
            k < self.rulesets@.len(),
        ensures
            match best_match(self.ruleset_rules(k as int), remaining@) {
                Some(f) => found matches Some(x) && x.0 == f.0 && x.1@ == f.1,
                None => found is None,
            },
    {
        let ghost rules = self.ruleset_rules(k as int);
        let compiled = &self.rulesets[k].1;
        let n = compiled.len();
        let mut best: Option<(usize, &'input str)> = None;
        let mut best_length: usize = 0;
        let mut j: usize = 0;
        while j < n
            invariant
                self.wf(),
                k < self.rulesets@.len(),
                compiled@ == self.rulesets@[k as int].1@,
                rules == self.ruleset_rules(k as int),
                n == compiled@.len(),
                rules.len() == n,
                0 <= j <= n,
                match best_match(rules.take(j as int), remaining@) {
                    Some(f) => best matches Some(x) && x.0 == f.0 && x.1@ == f.1 && best_length
                        == f.1.len(),
                    None => best is None && best_length == 0,
                },
            decreases n - j,
        {
            proof {
                assert(rules.take(j + 1).drop_last() =~= rules.take(j as int));
                assert(rules.take(j + 1).last() == rules[j as int]);
                assert(rules[j as int] == compiled@[j as int].rule);
                assert(compiled@[j as int].pattern@ == compiled@[j as int].rule.pattern@);
            }
            let c = &compiled[j];
            match find_first(&c.pattern, remaining) {
                Some((start, text)) => {
                    if start == 0 {
                        let length = text.unicode_len();
                        if length > best_length {
                            best = Some((j, text));
                            best_length = length;
                        }
                    }
                },
                None => {},
            }
            j = j + 1;
        }
        proof {
            assert(rules.take(n as int) =~= rules);
        }
        best
    }

    /// Scans from the lexer's cursor with ruleset `k`, skipping the matches of
    /// rules that do not keep their tokens.
    fn scan_from(&self, k: usize) -> (outcome: ScanOutcome<'input>)
        requires
            self.wf(),
            k < self.rulesets@.len(),
            counters_fit(
                self.input_cursor as int,
                self.input_row as int,
                self.input_column as int,
                self.input_length as int,
            ),
        ensures
            ({
                let s = scan(
                    self.input_text(),
                    self.ruleset_rules(k as int),
                    self.input_cursor as int,
                    self.input_row as int,
                    self.input_column as int,
                );
                &&& outcome.cursor == s.cursor
                &&& outcome.row == s.row
                &&& outcome.column == s.column
                &&& match outcome.stop {
                    ScanStop::Eof => s.end is Eof,
                    ScanStop::NoMatch => s.end is NoMatch,
                    ScanStop::Found { rule, text, row_begin, column_begin } => s.end == ScanEnd::Token {
                        rule,
                        text: text@,
                        row_begin: row_begin as int,
                        column_begin: column_begin as int,
                    },
                }
            }),
            counters_fit(
                outcome.cursor as int,
                outcome.row as int,
                outcome.column as int,
                self.input_length as int,
            ),
            outcome.stop is Found ==> outcome.cursor <= self.input_length,
    {
        let ghost input = self.input_text();
        let ghost rules = self.ruleset_rules(k as int);
        let ghost whole = scan(
            input,
            rules,
            self.input_cursor as int,
            self.input_row as int,
            self.input_column as int,
        );
        let length = self.input_length;
        let mut cursor = self.input_cursor;
        let mut row = self.input_row;
        let mut column = self.input_column;
        loop
            invariant
                self.wf(),
                k < self.rulesets@.len(),
                input == self.input_text(),
                rules == self.ruleset_rules(k as int),
                length == self.input_length,
                length == input.len(),
                counters_fit(cursor as int, row as int, column as int, length as int),
                scan(input, rules, cursor as int, row as int, column as int) == whole,
                whole == scan(
                    self.input_text(),
                    self.ruleset_rules(k as int),
                    self.input_cursor as int,
                    self.input_row as int,
                    self.input_column as int,
                ),
            decreases length - cursor,
        {
            if cursor >= length {
                assert(scan(input, rules, cursor as int, row as int, column as int).end is Eof);
                assert(whole.cursor == cursor);
                assert(whole.end is Eof);
                assert(whole == scan(
                    self.input_text(),
                    self.ruleset_rules(k as int),
                    self.input_cursor as int,
                    self.input_row as int,
                    self.input_column as int,
                ));
                return ScanOutcome { stop: ScanStop::Eof, cursor, row, column };
            }
            let remaining = self.input.substring_char(cursor, length);
            proof {
                lemma_best_match(rules, remaining@);
            }
            match self.best_rule(k, remaining) {
                None => {
                    return ScanOutcome { stop: ScanStop::NoMatch, cursor, row, column };
                },
                Some((i, text)) => {
                    let text_length = text.unicode_len();
                    proof {
                        lemma_advance_bounds(row as int, column as int, text@);
                        assert(rules[i as int] == self.rulesets@[k as int].1@[i as int].rule);
                    }
                    let rule = self.rulesets[k].1[i].rule;
                    let (row_end, column_end) = advance_position(row, column, text);
                    let row_begin = row;
                    let column_begin = column;
                    cursor = cursor + text_length;
                    row = row_end;
                    column = column_end;
                    if rule.keep {
                        return ScanOutcome {
                            stop: ScanStop::Found { rule, text, row_begin, column_begin },
                            cursor,
                            row,
                            column,
                        };
                    }
                },
            }
        }
    }
}

impl<'input> Lexer<'input> for LazyStatefulLexer<'input> {
    closed spec fn position(&self) -> LexerStateModel {
        LexerStateModel {
            token_buffer_index: self.token_buffer_root_index,
            input_cursor: self.input_cursor,
            input_row: self.input_row,
            input_column: self.input_column,
            state: self.state@,
            token_buffer: Some(self.token_buffer),
        }
    }

    /// One call of `next` took the lexer from here to `after`, giving a
    /// token of that kind and text.
    closed spec fn took(&self, after: &Self, token: (Seq<char>, Seq<char>)) -> bool {
        exists|t: Token<'input>| #[trigger] Self::next_post(*self, *after, Ok(t)) && (t.kind@, t.text@) == token
    }

    /// One call of `next` took the lexer from here to `after`, failing with
    /// `error`.
    closed spec fn failed(&self, after: &Self, error: LexerError) -> bool {
        Self::next_post(*self, *after, Err(error))
    }

    /// Well formed, at a position it could be restored to.
    closed spec fn ready(&self) -> bool {
        &&& self.wf()
        &&& self.restorable(self.position())
    }

    /// A position on one of this lexer's buffer branches, at most at its
    /// end (and then not before the last buffered token), with room on its
    /// counters.
    closed spec fn restorable(&self, state: LexerStateModel) -> bool {
        &&& state.token_buffer matches Some(b)
        &&& self.token_buffer_store.valid(b)
        &&& state.token_buffer_index <= self.token_buffer_store.contents(b).len()
        &&& (state.token_buffer_index == self.token_buffer_store.contents(b).len() ==> state.input_cursor
            >= end_cursor(self.token_buffer_store.contents(b)))
        &&& counters_fit(
            state.input_cursor as int,
            state.input_row as int,
            state.input_column as int,
            self.input_length as int,
        )
    }

    /// A buffered token replayed, else what a scan with the ruleset on top
    /// of the stack finds.
    closed spec fn upcoming(&self) -> Result<(Seq<char>, Seq<char>), LexerErrorKind> {
        let here = self.position();
        if here.token_buffer_index < self.buffered().len() {
            let entry = self.buffered()[here.token_buffer_index as int];
            match modified_stack(here.state, entry.state_modification_after) {
                Some(_) => Ok((entry.token.kind@, entry.token.text@)),
                None => Err(LexerErrorKind::InvalidState),
            }
        } else {
            match self.fresh_start() {
                FreshStart::AtEnd => Err(LexerErrorKind::Eof),
                FreshStart::NoRuleset => Err(LexerErrorKind::InvalidState),
                FreshStart::Ruleset(k) => {
                    let s = scan(
                        self.input_text(),
                        self.ruleset_rules(k),
                        here.input_cursor as int,
                        here.input_row as int,
                        here.input_column as int,
                    );
                    match s.end {
                        ScanEnd::Eof => Err(LexerErrorKind::Eof),
                        ScanEnd::NoMatch => Err(LexerErrorKind::NoMatch),
                        ScanEnd::Token { rule, text, .. } => match modified_stack(here.state, rule.modification) {
                            Some(_) => Ok((rule.kind@, text)),
                            None => Err(LexerErrorKind::InvalidState),
                        },
                    }
                },
            }
        }
    }

    /// The buffered tokens still ahead, and the input after the last of
    /// them.
    closed spec fn remaining(&self) -> nat {
        self.remaining_at(self.position())
    }

    closed spec fn remaining_at(&self, state: LexerStateModel) -> nat {
        match state.token_buffer {
            Some(b) => {
                let contents = self.token_buffer_store.contents(b);
                ((contents.len() - state.token_buffer_index) + (self.input_length - end_cursor(
                    contents,
                ))) as nat
            },
            None => 0,
        }
    }

    /// The next token: replayed from the buffer when the lexer stands before
    /// a buffered token, else matched from the input (longest match first,
    /// the earlier rule on a tie, skipping the tokens of rules that do not
    /// keep them) and appended to the buffer. `Eof` at the end of the input,
    /// `NoMatch` where no rule matches, `InvalidState` when the ruleset stack
    /// names no ruleset or a rule pops its last ruleset.
    fn next(&mut self) -> (token: Result<Token<'input>, LexerError>)
        ensures
            Self::next_post(*old(self), *final(self), token),
            store_grown(old(self).store(), final(self).store()),
    {
        let ghost start = *self;
        if self.token_buffer_root_index < self.token_buffer.root_branch_size(&self.token_buffer_store) {
            let entry = self.token_buffer.copied_at(&self.token_buffer_store, self.token_buffer_root_index);
            self.token_buffer_root_index = self.token_buffer_root_index + 1;
            self.input_cursor = entry.input_cursor_after;
            self.input_row = entry.input_row_after;
            self.input_column = entry.input_column_after;
            match entry.state_modification_after {
                StateModification::Unchanged => {},
                StateModification::Pop => {
                    if self.state.len() <= 1 {
                        return Err(
                            LexerError::InvalidState {
                                message: owned(
                                    "The lexer state cannot be popped because it only contains one ruleset.",
                                ),
                            },
                        );
                    }
                    self.state.pop();
                },
                StateModification::Push(target) => {
                    self.state.push(target);
                },
            }
            proof {
                lemma_store_grown_preorder(start.store(), start.store(), start.store());
                assert(Self::next_post(start, *self, Ok(entry.token)));
            }
            return Ok(entry.token);
        }
        proof {
            lemma_store_grown_preorder(start.store(), start.store(), start.store());
        }
        if self.input_cursor >= self.input_length {
            return Err(LexerError::Eof);
        }
        if self.state.len() == 0 {
            return Err(
                LexerError::InvalidState {
                    message: owned("The lexer is currently not equipped with any rulesets."),
                },
            );
        }
        let name = self.state[self.state.len() - 1];
        let k = match self.find_ruleset(name) {
            Some(k) => k,
            None => {
                let mut message = owned("The lexer's internal state refers to an unknown ruleset: ");
                message.append(name);
                return Err(LexerError::InvalidState { message });
            },
        };
        proof {
            lemma_name_index(self.ruleset_names(), name@);
        }
        let outcome = self.scan_from(k);
        proof {
            lemma_scan_progress(
                self.input_text(),
                self.ruleset_rules(k as int),
                self.input_cursor as int,
                self.input_row as int,
                self.input_column as int,
            );
            assert(start.position().state.last() == name);
            assert(start.wf());
            assert(!(start.position().input_cursor >= start.input_text().len()));
            assert(start.position().state.len() != 0);
            assert(name_index(start.ruleset_names(), start.position().state.last()@) == Some(k as int));
            assert(start.fresh_start() == FreshStart::Ruleset(k as int));
        }
        self.input_cursor = outcome.cursor;
        self.input_row = outcome.row;
        self.input_column = outcome.column;
        match outcome.stop {
            ScanStop::Eof => {
                assert(self.same_setup(&start));
                assert(self.position().state == start.position().state);
                assert(self.store() == start.store());
                assert(self.buffer() == start.buffer());
                Err(LexerError::Eof)
            },
            ScanStop::NoMatch => Err(LexerError::NoMatch),
            ScanStop::Found { rule, text, row_begin, column_begin } => {
                match rule.modification {
                    StateModification::Unchanged => {},
                    StateModification::Pop => {
                        if self.state.len() <= 1 {
                            return Err(
                                LexerError::InvalidState {
                                    message: owned(
                                        "The lexer state cannot be popped because it only contains one ruleset.",
                                    ),
                                },
                            );
                        }
                        self.state.pop();
                    },
                    StateModification::Push(target) => {
                        self.state.push(target);
                    },
                }
                let token = Token {
                    kind: rule.kind,
                    text,
                    position: TokenPosition {
                        row_begin,
                        row_end: self.input_row,
                        column_begin,
                        column_end: self.input_column,
                    },
                };
                let entry = TokenBufferEntry {
                    token,
                    input_cursor_after: self.input_cursor,
                    input_row_after: self.input_row,
                    input_column_after: self.input_column,
                    state_modification_after: rule.modification,
                };
                let ghost store_before = self.token_buffer_store;
                self.token_buffer.append(&mut self.token_buffer_store, entry);
                self.token_buffer_root_index = self.token_buffer.root_branch_size(&self.token_buffer_store);
                proof {
                    let store_after = self.token_buffer_store;
                    assert forall|l: BranchedList, i: int|
                        store_after.valid(l) && 0 <= i < store_after.contents(l).len() implies entry_fits(
                            #[trigger] store_after.contents(l)[i],
                            self.input_length as int,
                        ) by {
                        assert(store_before.valid(l));
                        if l != self.token_buffer {
                            assert(store_after.valid(l));
                            assert(store_after.contents(l) == store_before.contents(l));
                        } else if i < store_before.contents(l).len() {
                            assert(store_after.contents(l)[i] == store_before.contents(l)[i]);
                        }
                    }
                    assert forall|l: BranchedList|
                        #![trigger store_after.valid(l)]
                        #![trigger store_after.contents(l)]
                        store_before.valid(l) implies {
                            &&& store_after.valid(l)
                            &&& store_before.contents(l).len() <= store_after.contents(l).len()
                            &&& forall|i: int|
                                0 <= i < store_before.contents(l).len() ==> #[trigger] store_after.contents(l)[i]
                                    == store_before.contents(l)[i]
                        } by {
                        if l != self.token_buffer {
                            assert(store_after.valid(l));
                            assert(store_after.contents(l) == store_before.contents(l));
                        } else {
                            assert forall|i: int| 0 <= i < store_before.contents(l).len() implies #[trigger] store_after.contents(l)[i]
                                == store_before.contents(l)[i] by {
                                assert(store_after.contents(l) == store_before.contents(l).push(entry));
                            }
                        }
                    }
                    assert forall|st: LexerStateModel| start.restorable(st) implies #[trigger] self.restorable(st)
                        && self.remaining_at(st) <= start.remaining_at(st) by {
                        let b = st.token_buffer.unwrap();
                        assert(store_after.valid(b));
                        if b != self.token_buffer {
                            assert(store_after.contents(b) == store_before.contents(b));
                        }
                    }
                    assert(Self::next_post(start, *self, Ok(token)));
                }
                Ok(token)
            },
        }
    }

    /// The lexer's position, with the buffer branch it reads.
    fn snapshot(&self) -> (position: LexerState)
        ensures
            self.position().input_cursor <= self.input_text().len() && utf8_prefix_len(
                self.input_text(),
                self.position().input_cursor as int,
            ) <= usize::MAX ==> position.byte_cursor() == utf8_prefix_len(
                self.input_text(),
                self.position().input_cursor as int,
            ),
    {
        let length = self.input.unicode_len();
        let characters = if self.input_cursor <= length {
            self.input_cursor
        } else {
            length
        };
        LexerState {
            token_buffer_index: self.token_buffer_root_index,
            input_cursor: byte_offset(self.input, characters),
            input_row: self.input_row,
            input_column: self.input_column,
            state: copy_names(&self.state),
            stateful_token_buffer: Some(self.token_buffer),
            character_cursor: self.input_cursor,
        }
    }

    /// The next token, with the lexer put back where it was.
    fn peek(&mut self) -> (token: Result<Token<'input>, LexerError>) {
        let ghost start = *self;
        let snapshot = self.snapshot();
        let next = self.next();
        let ghost middle = *self;
        if let Some(e) = self.restore(&snapshot) {
            return Err(e);
        }
        proof {
            let i = start.token_buffer_root_index as int;
            let b = start.token_buffer;
            assert(self.token_buffer == b);
            assert(self.state@ == start.state@);
            if i < start.buffered().len() {
                assert(self.store() == start.store());
            } else if next is Ok {
                assert(middle.store().contents(b)[i] == middle.buffered().last());
                assert(self.store() == middle.store());
            } else {
                assert(self.store() == start.store());
            }
        }
        next
    }

    /// Puts the lexer back to `state`. Fails with `InvalidSnapshot`,
    /// changing nothing, when `state` records no buffer branch of this
    /// lexer, or a token index past the end of that branch.
    fn restore(&mut self, state: &LexerState) -> (error: Option<LexerError>)
        ensures
            error is None <==> (state@.token_buffer matches Some(b) && old(self).store().valid(b)
                && state@.token_buffer_index <= old(self).store().contents(b).len()),
            error matches Some(e) ==> e is InvalidSnapshot && *final(self) == *old(self),
            error is None ==> final(self).same_setup(old(self)) && final(self).store() == old(self).store(),
            store_grown(old(self).store(), final(self).store()),
    {
        proof {
            lemma_store_grown_preorder(self.store(), self.store(), self.store());
        }
        let token_buffer = match state.stateful_token_buffer {
            Some(b) => b,
            None => {
                return Some(
                    LexerError::InvalidSnapshot {
                        message: owned(
                            "Snapshot does not contain a token buffer; cannot restore LazyStatefulLexer.",
                        ),
                    },
                );
            },
        };
        if !self.token_buffer_store.holds(token_buffer) {
            return Some(
                LexerError::InvalidSnapshot {
                    message: owned("Snapshot refers to a token buffer this lexer does not hold."),
                },
            );
        }
        if state.token_buffer_index > token_buffer.root_branch_size(&self.token_buffer_store) {
            return Some(
                LexerError::InvalidSnapshot {
                    message: owned("Invalid token buffer index in the snapshot."),
                },
            );
        }
        self.token_buffer = token_buffer;
        self.token_buffer_root_index = state.token_buffer_index;
        self.input_cursor = state.character_cursor;
        self.input_row = state.input_row;
        self.input_column = state.input_column;
        self.state = copy_names(&state.state);
        None
    }
}

/// A lexer at the end of its input, with no buffered token ahead of it, has
/// nothing more to give.
pub proof fn lemma_at_end<'input>(lexer: LazyStatefulLexer<'input>)
    requires
        lexer.position().token_buffer_index >= lexer.buffered().len(),
        lexer.position().input_cursor >= lexer.input_text().len(),
    ensures
        lexer.upcoming() == Err::<(Seq<char>, Seq<char>), LexerErrorKind>(LexerErrorKind::Eof),
{
}

impl<'input> LazyStatefulLexer<'input> {
    /// A branch taken from the lexer's current buffer branch keeps the lexer
    /// well formed once it reads that branch from its start.
    proof fn lemma_branch_keeps_wf(
        old: Self,
        new: Self,
        key: Seq<char>,
    )
        requires
            old.ready(),
            new.token_buffer_store.wf(),
            branch_before_post(
                old.token_buffer_store,
                new.token_buffer_store,
                old.token_buffer,
                key,
                old.token_buffer_root_index as int,
                Ok(new.token_buffer),
            ),
            new.same_setup(&old),
            new.token_buffer_root_index == 0,
            new.input_cursor == old.input_cursor,
            new.input_row == old.input_row,
            new.input_column == old.input_column,
        ensures
            new.ready(),
            store_grown(old.store(), new.store()),
            forall|s: LexerStateModel| old.restorable(s) ==> #[trigger] new.restorable(s),
    {
        let os = old.token_buffer_store;
        let ns = new.token_buffer_store;
        lemma_branch_distinct(os, ns, old.token_buffer, key, old.token_buffer_root_index as int, new.token_buffer);
        assert forall|l: BranchedList| #![trigger ns.valid(l)] #![trigger ns.contents(l)] os.valid(l) implies {
            &&& ns.valid(l)
            &&& os.contents(l).len() <= ns.contents(l).len()
            &&& forall|i: int| 0 <= i < os.contents(l).len() ==> #[trigger] ns.contents(l)[i] == os.contents(l)[i]
        } by {
            if l != old.token_buffer {
                if os.branch_at(old.token_buffer, key, old.token_buffer_root_index as int) is None {
                    assert(ns.valid(l));
                }
            }
        }
        assert forall|l: BranchedList, i: int|
            ns.valid(l) && 0 <= i < ns.contents(l).len() implies entry_fits(
                #[trigger] ns.contents(l)[i],
                new.input_length as int,
            ) by {
            if os.valid(l) {
                assert(ns.contents(l)[i] == os.contents(l)[i]);
            }
        }
    }

    /// Pushes the ruleset `name` onto the stack, as a parser that drives the
    /// lexer does. The lexer goes on reading in the buffer branch under
    /// `name` at its current place, made empty there if it was not yet, so
    /// that restoring an earlier snapshot undoes the push. Fails with
    /// `InvalidState`, changing nothing, when no ruleset is called `name`.
    pub fn push_state(&mut self, name: &'static str) -> (result: Result<(), LexerError>)
        requires
            old(self).ready(),
        ensures
            final(self).ready(),
            final(self).same_setup(old(self)),
            store_grown(old(self).store(), final(self).store()),
            forall|s: LexerStateModel| old(self).restorable(s) ==> #[trigger] final(self).restorable(s),
            name_index(old(self).ruleset_names(), name@) is None ==> result is Err && result->Err_0 is InvalidState
                && *final(self) == *old(self),
            name_index(old(self).ruleset_names(), name@) is Some ==> {
                let before = old(self).position();
                let after = final(self).position();
                &&& result is Ok
                &&& branch_before_post(
                    old(self).store(),
                    final(self).store(),
                    old(self).buffer(),
                    name@,
                    before.token_buffer_index as int,
                    Ok(final(self).buffer()),
                )
                &&& after.token_buffer_index == 0
                &&& after.input_cursor == before.input_cursor
                &&& after.input_row == before.input_row
                &&& after.input_column == before.input_column
                &&& after.state == before.state.push(name)
            },
    {
        proof {
            lemma_store_grown_preorder(self.store(), self.store(), self.store());
        }
        if self.find_ruleset(name).is_none() {
            let mut message = owned("The lexer cannot push the unknown ruleset '");
            message.append(name);
            message.append("' onto the state stack.");
            return Err(LexerError::InvalidState { message });
        }
        let ghost start = *self;
        let branch = match self.token_buffer.branch_before_index(
            &mut self.token_buffer_store,
            name,
            self.token_buffer_root_index,
        ) {
            Ok(b) => b,
            Err(_) => {
                proof {
                    assert(false);
                }
                return Err(
                    LexerError::InvalidState {
                        message: owned("Failed to branch token buffer while pushing a state."),
                    },
                );
            },
        };
        self.token_buffer = branch;
        self.token_buffer_root_index = 0;
        self.state.push(name);
        proof {
            Self::lemma_branch_keeps_wf(start, *self, name@);
        }
        Ok(())
    }

    /// Pops the top ruleset off the stack, as a parser that drives the lexer
    /// does. The lexer goes on reading in the buffer branch recorded under
    /// the pop key at its current place, so that restoring an earlier
    /// snapshot undoes the pop. Fails with `InvalidState`, changing nothing,
    /// when the stack holds one ruleset or none.
    pub fn pop_state(&mut self) -> (result: Result<(), LexerError>)
        requires
            old(self).ready(),
        ensures
            final(self).ready(),
            final(self).same_setup(old(self)),
            store_grown(old(self).store(), final(self).store()),
            forall|s: LexerStateModel| old(self).restorable(s) ==> #[trigger] final(self).restorable(s),
            old(self).position().state.len() <= 1 ==> result is Err && result->Err_0 is InvalidState
                && *final(self) == *old(self),
            old(self).position().state.len() > 1 ==> {
                let before = old(self).position();
                let after = final(self).position();
                &&& result is Ok
                &&& branch_before_post(
                    old(self).store(),
                    final(self).store(),
                    old(self).buffer(),
                    BRANCH_KEY_POP@,
                    before.token_buffer_index as int,
                    Ok(final(self).buffer()),
                )
                &&& after.token_buffer_index == 0
                &&& after.input_cursor == before.input_cursor
                &&& after.input_row == before.input_row
                &&& after.input_column == before.input_column
                &&& after.state == before.state.drop_last()
            },
    {
        proof {
            lemma_store_grown_preorder(self.store(), self.store(), self.store());
        }
        if self.state.len() <= 1 {
            return Err(
                LexerError::InvalidState {
                    message: owned(
                        "The lexer state cannot be popped because it only contains one ruleset.",
                    ),
                },
            );
        }
        let ghost start = *self;
        let branch = match self.token_buffer.branch_before_index(
            &mut self.token_buffer_store,
            BRANCH_KEY_POP,
            self.token_buffer_root_index,
        ) {
            Ok(b) => b,
            Err(_) => {
                proof {
                    assert(false);
                }
                return Err(
                    LexerError::InvalidState {
                        message: owned("Failed to branch token buffer while popping state."),
                    },
                );
            },
        };
        self.token_buffer = branch;
        self.token_buffer_root_index = 0;
        self.state.pop();
        proof {
            Self::lemma_branch_keeps_wf(start, *self, BRANCH_KEY_POP@);
        }
        Ok(())
    }

    /// Rewinding replays: if `next` took the lexer from `a` to `b` giving the
    /// token `t`, and restoring a snapshot of `a` then took `b` to `c`
    /// (same setup, a buffer that has only grown, and `a`'s position), then
    /// `next` from `c` gives `t` again and leaves the lexer where `b` stood.
    pub proof fn lemma_restore_replays(
        a: Self,
        b: Self,
        c: Self,
        d: Self,
        t: Token<'input>,
        r: Result<Token<'input>, LexerError>,
    )
        requires
            a.ready(),
            Self::next_post(a, b, Ok(t)),
            store_grown(b.store(), c.store()),
            c.same_setup(&b),
            c.position() == a.position(),
            Self::next_post(c, d, r),
        ensures
            r == Ok::<Token<'input>, LexerError>(t),
            d.position() == b.position(),
    {
        Self::lemma_same_setup_equivalence(&c, &b, &a);
        Self::lemma_rewind_replays(a, b, c, d, t, r);
    }

    /// Rewinding replays: if `next` took the lexer from `a` to `b` giving the
    /// token `t`, and the lexer `c` later stands where `a` stood (as
    /// restoring a snapshot of `a` leaves it) with a buffer that has only
    /// grown since `b`, then `next` from `c` gives `t` again and leaves the
    /// lexer where `b` stood.
    pub proof fn lemma_rewind_replays(
        a: Self,
        b: Self,
        c: Self,
        d: Self,
        t: Token<'input>,
        r: Result<Token<'input>, LexerError>,
    )
        requires
            a.ready(),
            Self::next_post(a, b, Ok(t)),
            store_grown(b.store(), c.store()),
            c.same_setup(&a),
            c.position() == a.position(),
            Self::next_post(c, d, r),
        ensures
            r == Ok::<Token<'input>, LexerError>(t),
            d.position() == b.position(),
    {
        let i = a.token_buffer_root_index as int;
        let l = a.token_buffer;
        assert(c.token_buffer == l);
        assert(b.store().valid(l));
        if i < a.buffered().len() {
            assert(c.store().contents(l)[i] == a.store().contents(l)[i]);
        } else {
            assert(b.store().contents(l)[i] == b.buffered().last());
            assert(c.store().contents(l)[i] == b.store().contents(l)[i]);
        }
        assert(c.state@ == a.state@);
        assert(d.state@ == b.state@);
    }
}

} // verus!
