//! Reading C++ declarations. Members, parameters and types are read from
//! the text between top-level separators; declarations are found with the
//! lexer.
use vstd::prelude::*;

use crate::features::{
    lemma_type_models_index, type_models, AnonymousCallable, FunctionDefinition, Method, ModulePath,
    PrimitiveType, Type, TypeDefinition, TypeModel, TypeParameter, TypePath, TypePathModel,
    ValueParameter,
};
use crate::features::Module;
use crate::parser::atoms::{exact, token_kind};
use crate::languages::{feature_added, plain_rule, rule, ParsedFeature};
use crate::parser::combinators::{
    copies_kept, optional, parse_at_anchors_keeping, rule_folds, rules_keep, AnchorLocation, AnchorRule, Reducer,
};
use crate::parser::lexer::{
    lemma_at_end, name_index, rule_accepted, ruleset_names, LazyStatefulLexer, Lexer, LexerError,
    LexerErrorKind, LexerRule, LexerStateModel, StateModification,
};
use crate::pattern::regex_compiles;
use crate::parser::{
    converted_error_kind, lemma_read_on_preorder, parse_progress, read_on, restore_to, Parser, ParserError,
};
use crate::text::join_strings;
use crate::text::{
    before_char, before_first, find_char, find_from, first_two_words, is_prefix, lemma_find_from,
    lemma_rfind_before, lemma_rfind_white_before, owned, reference_marks_end, replace, replaced,
    rfind_before, rfind_char, rfind_white, rfind_white_before, split_from, split_str, str_equal,
    strip_suffix, trim, trim_reference_marks, trim_start, trimmed, trimmed_start, without_suffix,
    words_from,
};

verus! {

/// The separator a top-level split cuts at.
pub enum Separator {
    Comma,
    Semicolon,
}

/// How deep a scan is inside braces, parentheses, angle brackets and square
/// brackets.
pub struct Depths {
    pub brace: nat,
    pub paren: nat,
    pub angle: nat,
    pub bracket: nat,
}

/// Outside every kind of bracket.
pub open spec fn at_top(d: Depths) -> bool {
    d.brace == 0 && d.paren == 0 && d.angle == 0 && d.bracket == 0
}

/// The depths after `c`. Parentheses and square brackets always nest; an
/// angle bracket counts only outside them, and (when splitting at
/// semicolons) a brace only outside every other kind; closing an unopened
/// bracket changes nothing.
pub open spec fn depth_step(separator: Separator, d: Depths, c: char) -> Depths {
    let plain = d.paren == 0 && d.bracket == 0;
    if c == '(' {
        Depths { paren: d.paren + 1, ..d }
    } else if c == ')' {
        Depths { paren: if d.paren > 0 { (d.paren - 1) as nat } else { 0 }, ..d }
    } else if c == '[' {
        Depths { bracket: d.bracket + 1, ..d }
    } else if c == ']' {
        Depths { bracket: if d.bracket > 0 { (d.bracket - 1) as nat } else { 0 }, ..d }
    } else if c == '<' && plain {
        Depths { angle: d.angle + 1, ..d }
    } else if c == '>' && plain && d.angle > 0 {
        Depths { angle: (d.angle - 1) as nat, ..d }
    } else if separator is Semicolon && c == '{' && plain && d.angle == 0 {
        Depths { brace: d.brace + 1, ..d }
    } else if separator is Semicolon && c == '}' && plain && d.angle == 0 && d.brace > 0 {
        Depths { brace: (d.brace - 1) as nat, ..d }
    } else {
        d
    }
}

/// The depths before the `i`-th character of `s`.
pub open spec fn depths_before(separator: Separator, s: Seq<char>, i: int) -> Depths
    decreases i,
{
    if i <= 0 {
        Depths { brace: 0, paren: 0, angle: 0, bracket: 0 }
    } else {
        depth_step(separator, depths_before(separator, s, i - 1), s[i - 1])
    }
}

/// The separator's character.
pub open spec fn separator_char(separator: Separator) -> char {
    match separator {
        Separator::Comma => ',',
        Separator::Semicolon => ';',
    }
}

/// The `i`-th character of `s` is a separator outside every bracket.
pub open spec fn is_cut(separator: Separator, s: Seq<char>, i: int) -> bool {
    s[i] == separator_char(separator) && at_top(depths_before(separator, s, i))
}

/// The trimmed pieces of `s` between top-level separators, from a piece
/// that began at `start`, scanning on at `i`. Empty pieces are dropped,
/// except, when splitting at commas, the ones followed by a comma.
pub open spec fn pieces_from(separator: Separator, s: Seq<char>, start: int, i: int) -> Seq<Seq<char>>
    decreases s.len() - i,
{
    if i < 0 || i >= s.len() {
        let tail = trimmed(s.subrange(start, s.len() as int));
        if tail.len() > 0 {
            seq![tail]
        } else {
            Seq::empty()
        }
    } else if is_cut(separator, s, i) {
        let piece = trimmed(s.subrange(start, i));
        let rest = pieces_from(separator, s, i + 1, i + 1);
        if piece.len() > 0 || separator is Comma {
            seq![piece] + rest
        } else {
            rest
        }
    } else {
        pieces_from(separator, s, start, i + 1)
    }
}

/// No depth exceeds the number of characters read.
proof fn lemma_depths_bounded(separator: Separator, s: Seq<char>, i: int)
    requires
        0 <= i <= s.len(),
    ensures
        depths_before(separator, s, i).brace <= i,
        depths_before(separator, s, i).paren <= i,
        depths_before(separator, s, i).angle <= i,
        depths_before(separator, s, i).bracket <= i,
    decreases i,
{
    if i > 0 {
        lemma_depths_bounded(separator, s, i - 1);
    }
}

/// The trimmed pieces of `input` between top-level separators (see
/// [`pieces_from`]).
fn split_top_level<'a>(input: &'a str, separator: Separator) -> (pieces: Vec<&'a str>)
    ensures
        pieces@.map_values(|p: &'a str| p@) == pieces_from(separator, input@, 0, 0),
{
    let n = input.unicode_len();
    let cut_char = match separator {
        Separator::Comma => ',',
        Separator::Semicolon => ';',
    };
    let keep_empty = match separator {
        Separator::Comma => true,
        Separator::Semicolon => false,
    };
    let semicolons = !keep_empty;
    let mut pieces: Vec<&'a str> = Vec::new();
    let mut start: usize = 0;
    let mut brace: usize = 0;
    let mut paren: usize = 0;
    let mut angle: usize = 0;
    let mut bracket: usize = 0;
    let mut i: usize = 0;
    while i < n
        invariant
            n == input@.len(),
            0 <= start <= i <= n,
            cut_char == separator_char(separator),
            keep_empty == (separator is Comma),
            semicolons == (separator is Semicolon),
            depths_before(separator, input@, i as int) == (Depths {
                brace: brace as nat,
                paren: paren as nat,
                angle: angle as nat,
                bracket: bracket as nat,
            }),
            pieces@.map_values(|p: &'a str| p@) + pieces_from(separator, input@, start as int, i as int)
                == pieces_from(separator, input@, 0, 0),
        decreases n - i,
    {
        proof {
            lemma_depths_bounded(separator, input@, i as int);
        }
        let c = input.get_char(i);
        let plain = paren == 0 && bracket == 0;
        if c == cut_char && brace == 0 && paren == 0 && angle == 0 && bracket == 0 {
            let piece = trim(input.substring_char(start, i));
            let ghost before = pieces@.map_values(|p: &'a str| p@);
            if keep_empty || piece.unicode_len() > 0 {
                pieces.push(piece);
                proof {
                    assert(pieces@.map_values(|p: &'a str| p@) =~= before.push(piece@));
                    assert(before.push(piece@) + pieces_from(separator, input@, i + 1, i + 1) =~= before
                        + (seq![piece@] + pieces_from(separator, input@, i + 1, i + 1)));
                }
            }
            start = i + 1;
        } else if c == '(' {
            paren = paren + 1;
        } else if c == ')' {
            if paren > 0 {
                paren = paren - 1;
            }
        } else if c == '[' {
            bracket = bracket + 1;
        } else if c == ']' {
            if bracket > 0 {
                bracket = bracket - 1;
            }
        } else if c == '<' && plain {
            angle = angle + 1;
        } else if c == '>' && plain && angle > 0 {
            angle = angle - 1;
        } else if semicolons && c == '{' && plain && angle == 0 {
            brace = brace + 1;
        } else if semicolons && c == '}' && plain && angle == 0 && brace > 0 {
            brace = brace - 1;
        }
        i = i + 1;
    }
    let tail = trim(input.substring_char(start, n));
    let ghost before = pieces@.map_values(|p: &'a str| p@);
    if tail.unicode_len() > 0 {
        pieces.push(tail);
        proof {
            assert(pieces@.map_values(|p: &'a str| p@) =~= before.push(tail@));
            assert(before + seq![tail@] =~= before.push(tail@));
        }
    } else {
        proof {
            assert(before + Seq::<Seq<char>>::empty() =~= before);
        }
    }
    pieces
}

/// Splits `input` at the commas outside every bracket, trimming each piece;
/// a last piece that is empty is dropped.
pub fn split_top_level_commas<'a>(input: &'a str) -> (pieces: Vec<&'a str>)
    ensures
        pieces@.map_values(|p: &'a str| p@) == pieces_from(Separator::Comma, input@, 0, 0),
{
    split_top_level(input, Separator::Comma)
}

/// Splits `input` at the semicolons outside every bracket and brace,
/// trimming each piece and dropping the empty ones.
pub fn split_top_level_semicolons(input: &str) -> (pieces: Vec<String>)
    ensures
        pieces@.map_values(|p: String| p@) == pieces_from(Separator::Semicolon, input@, 0, 0),
{
    let slices = split_top_level(input, Separator::Semicolon);
    let ghost views = slices@.map_values(|p: &str| p@);
    let mut pieces: Vec<String> = Vec::new();
    let n = slices.len();
    let mut i: usize = 0;
    while i < n
        invariant
            n == slices@.len(),
            0 <= i <= n,
            views == slices@.map_values(|p: &str| p@),
            pieces@.len() == i,
            forall|k: int| 0 <= k < i ==> #[trigger] pieces@[k]@ == views[k],
        decreases n - i,
    {
        pieces.push(crate::text::owned(slices[i]));
        i = i + 1;
    }
    proof {
        assert(pieces@.map_values(|p: String| p@) =~= views);
    }
    pieces
}

/// A type's text without `const `, `volatile `, `&` and `*`, trimmed.
pub open spec fn cleaned_type_text(s: Seq<char>) -> Seq<char> {
    trimmed(
        replaced(
            replaced(replaced(replaced(s, "const "@, ""@), "volatile "@, ""@), "&"@, ""@),
            "*"@,
            ""@,
        ),
    )
}

/// The type a built-in type name stands for.
pub open spec fn builtin_type(name: Seq<char>) -> Option<TypeModel> {
    if name == "int"@ || name == "long"@ || name == "short"@ || name == "double"@ || name == "float"@ {
        Some(TypeModel::Primitive(PrimitiveType::Number))
    } else if name == "bool"@ {
        Some(TypeModel::Primitive(PrimitiveType::Boolean))
    } else if name == "std::string"@ || name == "string"@ {
        Some(TypeModel::Primitive(PrimitiveType::String))
    } else if name == "void"@ {
        Some(TypeModel::Dynamic)
    } else {
        None
    }
}

/// The C++ built-in types are read as the model's primitives, whatever
/// `const`, `volatile`, `&` and `*` stand around them: `int`, `long`,
/// `short`, `double` and `float` as numbers, `bool` as a boolean,
/// `std::string` and `string` as a string, and `void` as a dynamic value.
pub proof fn law_builtin_types_are_primitives(text: Seq<char>)
    ensures
        set!["int"@, "long"@, "short"@, "double"@, "float"@].contains(cleaned_type_text(text)) ==> type_of_text(text)
            == Some(TypeModel::Primitive(PrimitiveType::Number)),
        cleaned_type_text(text) == "bool"@ ==> type_of_text(text) == Some(TypeModel::Primitive(PrimitiveType::Boolean)),
        set!["std::string"@, "string"@].contains(cleaned_type_text(text)) ==> type_of_text(text) == Some(
            TypeModel::Primitive(PrimitiveType::String),
        ),
        cleaned_type_text(text) == "void"@ ==> type_of_text(text) == Some(TypeModel::Dynamic),
{
    reveal_strlit("int");
    reveal_strlit("long");
    reveal_strlit("short");
    reveal_strlit("double");
    reveal_strlit("float");
    reveal_strlit("bool");
    reveal_strlit("std::string");
    reveal_strlit("string");
    reveal_strlit("void");
}

/// The non-empty pieces of `pieces`, in order.
pub open spec fn non_empty(pieces: Seq<Seq<char>>) -> Seq<Seq<char>>
    decreases pieces.len(),
{
    if pieces.len() == 0 {
        Seq::empty()
    } else if pieces.last().len() > 0 {
        non_empty(pieces.drop_last()).push(pieces.last())
    } else {
        non_empty(pieces.drop_last())
    }
}

/// The module path and name that a cleaned type text names: the non-empty
/// `::`-separated segments, the last being the name, when there is a `::`
/// and any such segment; else the whole text.
pub open spec fn qualified_name(cleaned: Seq<char>) -> (Seq<Seq<char>>, Seq<char>) {
    let segments = non_empty(split_from(cleaned, "::"@, 0, 0));
    if split_from(cleaned, "::"@, 0, 0).len() > 1 && segments.len() > 0 {
        (segments.drop_last(), segments.last())
    } else {
        (Seq::empty(), cleaned)
    }
}

/// The type a C++ type text stands for; `None` when its angle brackets
/// (or those of a type argument) close before they open.
pub open spec fn type_of_text(s: Seq<char>) -> Option<TypeModel>
    decreases s.len(), 1nat, 0nat,
{
    let cleaned = cleaned_type_text(s);
    if cleaned.len() == 0 {
        Some(TypeModel::Dynamic)
    } else if builtin_type(cleaned) is Some {
        builtin_type(cleaned)
    } else {
        let arguments: Option<Seq<TypeModel>> = match (
            find_from(cleaned, '<', 0),
            rfind_before(cleaned, '>', cleaned.len() as int),
        ) {
            (Some(open), Some(close)) => if open >= close {
                None
            } else {
                types_of_texts(
                    pieces_from(Separator::Comma, cleaned.subrange(open + 1, close), 0, 0),
                    s.len(),
                )
            },
            _ => Some(Seq::empty()),
        };
        match arguments {
            Some(arguments) => Some(
                TypeModel::Composite(
                    TypePathModel {
                        module: qualified_name(cleaned).0,
                        name: qualified_name(cleaned).1,
                        type_arguments: arguments,
                    },
                ),
            ),
            None => None,
        }
    }
}

/// The types of `texts`, each shorter than `bound`; `None` if one has none.
pub open spec fn types_of_texts(texts: Seq<Seq<char>>, bound: nat) -> Option<Seq<TypeModel>>
    decreases bound, 0nat, texts.len(),
{
    if texts.len() == 0 {
        Some(Seq::empty())
    } else {
        let last = if texts.last().len() < bound {
            type_of_text(texts.last())
        } else {
            None
        };
        match (types_of_texts(texts.drop_last(), bound), last) {
            (Some(types), Some(t)) => Some(types.push(t)),
            _ => None,
        }
    }
}

proof fn lemma_replaced_shorter(s: Seq<char>, from: Seq<char>)
    requires
        from.len() > 0,
    ensures
        replaced(s, from, Seq::empty()).len() <= s.len(),
    decreases s.len(),
{
    if s.len() >= from.len() {
        if s.take(from.len() as int) == from {
            lemma_replaced_shorter(s.skip(from.len() as int), from);
        } else {
            lemma_replaced_shorter(s.drop_first(), from);
        }
    }
}

proof fn lemma_trimmed_shorter(s: Seq<char>)
    ensures
        trimmed(s).len() <= s.len(),
{
    crate::text::lemma_first_non_white(s, 0);
    crate::text::lemma_non_white_end(s, s.len() as int);
}

proof fn lemma_cleaned_shorter(s: Seq<char>)
    ensures
        cleaned_type_text(s).len() <= s.len(),
{
    reveal_strlit("const ");
    reveal_strlit("volatile ");
    reveal_strlit("&");
    reveal_strlit("*");
    reveal_strlit("");
    let a = replaced(s, "const "@, ""@);
    let b = replaced(a, "volatile "@, ""@);
    let c = replaced(b, "&"@, ""@);
    let d = replaced(c, "*"@, ""@);
    assert(""@ == Seq::<char>::empty());
    lemma_replaced_shorter(s, "const "@);
    lemma_replaced_shorter(a, "volatile "@);
    lemma_replaced_shorter(b, "&"@);
    lemma_replaced_shorter(c, "*"@);
    lemma_trimmed_shorter(d);
}

/// Every piece of a split is no longer than what it was cut from.
proof fn lemma_pieces_shorter(separator: Separator, s: Seq<char>, start: int, i: int)
    requires
        0 <= start <= i <= s.len(),
    ensures
        forall|k: int|
            0 <= k < pieces_from(separator, s, start, i).len() ==> #[trigger] pieces_from(
                separator,
                s,
                start,
                i,
            )[k].len() <= s.len() - start,
    decreases s.len() - i,
{
    let result = pieces_from(separator, s, start, i);
    if i >= s.len() {
        lemma_trimmed_shorter(s.subrange(start, s.len() as int));
    } else if is_cut(separator, s, i) {
        lemma_trimmed_shorter(s.subrange(start, i));
        lemma_pieces_shorter(separator, s, i + 1, i + 1);
        let piece = trimmed(s.subrange(start, i));
        let rest = pieces_from(separator, s, i + 1, i + 1);
        assert forall|k: int| 0 <= k < rest.len() implies #[trigger] rest[k].len() <= s.len() - start by {
        }
        if piece.len() > 0 || separator is Comma {
            assert(result == seq![piece] + rest);
            assert forall|k: int| 0 <= k < result.len() implies #[trigger] result[k].len() <= s.len() - start by {
                if k > 0 {
                    assert(result[k] == rest[k - 1]);
                }
            }
        } else {
            assert(result == rest);
        }
    } else {
        lemma_pieces_shorter(separator, s, start, i + 1);
        assert(result == pieces_from(separator, s, start, i + 1));
    }
}

/// The text of a type without qualifiers and reference marks.
fn clean_type_text(text: &str) -> (cleaned: String)
    ensures
        cleaned@ == cleaned_type_text(text@),
{
    proof {
        reveal_strlit("const ");
        reveal_strlit("volatile ");
        reveal_strlit("&");
        reveal_strlit("*");
    }
    let a = replace(text, "const ", "");
    let b = replace(a.as_str(), "volatile ", "");
    let c = replace(b.as_str(), "&", "");
    let d = replace(c.as_str(), "*", "");
    owned(trim(d.as_str()))
}

/// The non-empty strings of `pieces`.
fn keep_non_empty<'a>(pieces: &Vec<&'a str>) -> (kept: Vec<&'a str>)
    ensures
        kept@.map_values(|p: &'a str| p@) == non_empty(pieces@.map_values(|p: &'a str| p@)),
{
    let ghost views = pieces@.map_values(|p: &'a str| p@);
    let mut kept: Vec<&'a str> = Vec::new();
    let n = pieces.len();
    let mut i: usize = 0;
    while i < n
        invariant
            n == pieces@.len(),
            0 <= i <= n,
            views == pieces@.map_values(|p: &'a str| p@),
            kept@.map_values(|p: &'a str| p@) == non_empty(views.take(i as int)),
        decreases n - i,
    {
        let ghost before = kept@.map_values(|p: &'a str| p@);
        proof {
            assert(views.take(i + 1).drop_last() =~= views.take(i as int));
        }
        if pieces[i].unicode_len() > 0 {
            kept.push(pieces[i]);
            proof {
                assert(kept@.map_values(|p: &'a str| p@) =~= before.push(views[i as int]));
            }
        }
        i = i + 1;
    }
    proof {
        assert(views.take(n as int) =~= views);
    }
    kept
}

/// The type a C++ type text names: a built-in number, boolean or string
/// type, `void` or an empty text for a dynamic value, else a (possibly
/// qualified, possibly generic) composite type. Fails when the text's angle
/// brackets close before they open.
fn parse_type_name(text: &str) -> (parsed: Result<Type, ParserError>)
    ensures
        match type_of_text(text@) {
            Some(t) => parsed matches Ok(p) && p@ == t,
            None => parsed is Err,
        },
    decreases text@.len(),
{
    let cleaned_string = clean_type_text(text);
    let cleaned = cleaned_string.as_str();
    proof {
        lemma_cleaned_shorter(text@);
    }
    if cleaned.unicode_len() == 0 {
        return Ok(Type::Dynamic);
    }
    proof {
        reveal_strlit("int");
        reveal_strlit("long");
        reveal_strlit("short");
        reveal_strlit("double");
        reveal_strlit("float");
        reveal_strlit("bool");
        reveal_strlit("std::string");
        reveal_strlit("string");
        reveal_strlit("void");
    }
    if str_equal(cleaned, "int") || str_equal(cleaned, "long") || str_equal(cleaned, "short") || str_equal(
        cleaned,
        "double",
    ) || str_equal(cleaned, "float") {
        return Ok(Type::Primitive(PrimitiveType::Number));
    }
    if str_equal(cleaned, "bool") {
        return Ok(Type::Primitive(PrimitiveType::Boolean));
    }
    if str_equal(cleaned, "std::string") || str_equal(cleaned, "string") {
        return Ok(Type::Primitive(PrimitiveType::String));
    }
    if str_equal(cleaned, "void") {
        return Ok(Type::Dynamic);
    }
    let mut type_arguments: Vec<Type> = Vec::new();
    let open = find_char(cleaned, '<');
    let close = rfind_char(cleaned, '>');
    proof {
        lemma_find_from(cleaned@, '<', 0);
        lemma_rfind_before(cleaned@, '>', cleaned@.len() as int);
    }
    let ghost arguments: Seq<TypeModel> = Seq::empty();
    if let (Some(open), Some(close)) = (open, close) {
        if open >= close {
            let mut message = owned("Malformed type name: ");
            message.append(cleaned);
            return Err(ParserError::Custom(message));
        }
        let inner = cleaned.substring_char(open + 1, close);
        let pieces = split_top_level_commas(inner);
        let ghost piece_views = pieces@.map_values(|p: &str| p@);
        let ghost bound = text@.len();
        proof {
            lemma_pieces_shorter(Separator::Comma, inner@, 0, 0);
        }
        let n = pieces.len();
        let mut k: usize = 0;
        while k < n
            invariant
                n == pieces@.len(),
                0 <= k <= n,
                piece_views == pieces@.map_values(|p: &str| p@),
                piece_views == pieces_from(Separator::Comma, inner@, 0, 0),
                bound == text@.len(),
                inner@.len() < bound,
                0 <= open < close <= cleaned@.len(),
                inner@ == cleaned@.subrange(open + 1, close as int),
                cleaned_type_text(text@) == cleaned@,
                cleaned@.len() > 0,
                builtin_type(cleaned@) is None,
                find_from(cleaned@, '<', 0) == Some(open as int),
                rfind_before(cleaned@, '>', cleaned@.len() as int) == Some(close as int),
                forall|q: int| 0 <= q < piece_views.len() ==> #[trigger] piece_views[q].len() <= inner@.len(),
                types_of_texts(piece_views.take(k as int), bound) == Some(type_models(type_arguments@)),
            decreases n - k,
        {
            proof {
                assert(piece_views.take(k + 1).drop_last() =~= piece_views.take(k as int));
                assert(piece_views.take(k + 1).last() == piece_views[k as int]);
                assert(pieces@[k as int]@ == piece_views[k as int]);
            }
            let argument = parse_type_name(pieces[k]);
            match argument {
                Ok(t) => {
                    let ghost before = type_arguments@;
                    type_arguments.push(t);
                    proof {
                        assert(type_arguments@.drop_last() =~= before);
                    }
                },
                Err(e) => {
                    proof {
                        assert(type_of_text(piece_views[k as int]) is None);
                        assert(piece_views[k as int].len() < bound);
                        assert(types_of_texts(piece_views.take(k + 1), bound) is None);
                        lemma_types_prefix_none(piece_views, bound, (k + 1) as int);
                        assert(piece_views.take(n as int) =~= piece_views);
                        assert(inner@ == cleaned@.subrange(open + 1, close as int));
                        assert(types_of_texts(
                            pieces_from(Separator::Comma, cleaned@.subrange(open + 1, close as int), 0, 0),
                            text@.len(),
                        ) is None);
                        assert(cleaned_type_text(text@) == cleaned@);
                        assert(builtin_type(cleaned@) is None);
                        assert(find_from(cleaned@, '<', 0) == Some(open as int));
                        assert(rfind_before(cleaned@, '>', cleaned@.len() as int) == Some(close as int));
                    }
                    return Err(e);
                },
            }
            k = k + 1;
        }
        proof {
            assert(piece_views.take(n as int) =~= piece_views);
            arguments = type_models(type_arguments@);
        }
    } else {
        proof {
            assert(type_models(type_arguments@) =~= Seq::<TypeModel>::empty());
        }
    }
    proof {
        reveal_strlit("::");
    }
    let all_segments = split_str(cleaned, "::");
    let segments = keep_non_empty(&all_segments);
    let mut module_segments: Vec<&str> = Vec::new();
    let name;
    if all_segments.len() > 1 && segments.len() > 0 {
        let m = segments.len() - 1;
        let mut j: usize = 0;
        while j < m
            invariant
                m + 1 == segments@.len(),
                0 <= j <= m,
                module_segments@.len() == j,
                forall|q: int| 0 <= q < j ==> #[trigger] module_segments@[q] == segments@[q],
            decreases m - j,
        {
            module_segments.push(segments[j]);
            j = j + 1;
        }
        name = owned(segments[m]);
        proof {
            assert(segments@.map_values(|p: &str| p@)[m as int] == segments@[m as int]@);
            assert(all_segments@.map_values(|p: &str| p@).len() == all_segments@.len());
            assert(name@ == qualified_name(cleaned@).1);
            assert(module_segments@.map_values(|p: &str| p@) =~= segments@.map_values(|p: &str| p@).drop_last());
        }
    } else {
        name = owned(cleaned);
        proof {
            assert(all_segments@.map_values(|p: &str| p@).len() == all_segments@.len());
            assert(segments@.map_values(|p: &str| p@).len() == segments@.len());
            assert(name@ == qualified_name(cleaned@).1);
        }
    }
    let module = ModulePath::new(module_segments);
    proof {
        let q = qualified_name(cleaned@);
        assert(module@ =~= q.0);
    }
    let path = TypePath { module, name, type_arguments };
    proof {
        let q = qualified_name(cleaned@);
        assert(path@ == TypePathModel { module: q.0, name: q.1, type_arguments: arguments });
    }
    let result = Type::Composite(path);
    proof {
        let q = qualified_name(cleaned@);
        assert(cleaned_type_text(text@) == cleaned@);
        assert(builtin_type(cleaned@) is None);
        assert(type_models(type_arguments@) == arguments);
        let cl = cleaned@;
        let spec_arguments: Option<Seq<TypeModel>> = match (
            find_from(cl, '<', 0),
            rfind_before(cl, '>', cl.len() as int),
        ) {
            (Some(o), Some(c)) => if o >= c {
                None
            } else {
                types_of_texts(pieces_from(Separator::Comma, cl.subrange(o + 1, c), 0, 0), text@.len())
            },
            _ => Some(Seq::empty()),
        };
        assert(spec_arguments == Some(arguments));
        assert(result@ == TypeModel::Composite(
            TypePathModel { module: q.0, name: q.1, type_arguments: arguments },
        ));
    }
    Ok(result)
}

/// Once a prefix of the texts has no types, no longer prefix has.
proof fn lemma_types_prefix_none(texts: Seq<Seq<char>>, bound: nat, k: int)
    requires
        0 <= k <= texts.len(),
        types_of_texts(texts.take(k), bound) is None,
    ensures
        types_of_texts(texts, bound) is None,
    decreases texts.len() - k,
{
    if k < texts.len() {
        assert(texts.take(k + 1).drop_last() =~= texts.take(k));
        lemma_types_prefix_none(texts, bound, k + 1);
    } else {
        assert(texts.take(k) =~= texts);
    }
}

/// The name a piece of a template parameter list declares: the piece
/// without `typename ` and `class `, before any `=`, trimmed.
pub open spec fn template_parameter_name(piece: Seq<char>) -> Seq<char> {
    trimmed(before_char(replaced(replaced(piece, "typename "@, ""@), "class "@, ""@), '='))
}

/// The names of `pieces`' template parameters, in order.
pub open spec fn template_parameter_names(pieces: Seq<Seq<char>>) -> Seq<Seq<char>>
    decreases pieces.len(),
{
    if pieces.len() == 0 {
        Seq::empty()
    } else {
        template_parameter_names(pieces.drop_last()).push(template_parameter_name(pieces.last()))
    }
}

/// The names a template parameter text declares (the text between its
/// outermost angle brackets, or all of it when it has none), the empty
/// ones dropped; `None` when its angle brackets close before they open.
pub open spec fn type_parameter_names(raw: Seq<char>) -> Option<Seq<Seq<char>>> {
    let t = trimmed(raw);
    if t.len() == 0 {
        Some(Seq::empty())
    } else {
        let params: Option<Seq<char>> = match (find_from(t, '<', 0), rfind_before(t, '>', t.len() as int)) {
            (Some(open), Some(close)) => if open >= close {
                None
            } else {
                Some(t.subrange(open + 1, close))
            },
            _ => Some(t),
        };
        match params {
            Some(params) => Some(
                non_empty(template_parameter_names(pieces_from(Separator::Comma, params, 0, 0))),
            ),
            None => None,
        }
    }
}

/// `parameters` are named `names`, in order, without defaults.
pub open spec fn parameters_named(parameters: Seq<TypeParameter>, names: Seq<Seq<char>>) -> bool {
    &&& parameters.len() == names.len()
    &&& forall|k: int|
        0 <= k < names.len() ==> (#[trigger] parameters[k]).name@ == names[k] && parameters[k].default is None
}

/// The type parameters declared by a template parameter text: one per
/// non-empty name, without defaults. Fails when its angle brackets close
/// before they open.
#[verifier::spinoff_prover]
fn parse_type_parameters(raw: &str) -> (parameters: Result<Vec<TypeParameter>, ParserError>)
    ensures
        match type_parameter_names(raw@) {
            Some(names) => parameters matches Ok(ps) && parameters_named(ps@, names),
            None => parameters is Err,
        },
{
    let trimmed_raw = trim(raw);
    if trimmed_raw.unicode_len() == 0 {
        return Ok(Vec::new());
    }
    proof {
        lemma_find_from(trimmed_raw@, '<', 0);
        lemma_rfind_before(trimmed_raw@, '>', trimmed_raw@.len() as int);
        reveal_strlit("typename ");
        reveal_strlit("class ");
    }
    let params = match (find_char(trimmed_raw, '<'), rfind_char(trimmed_raw, '>')) {
        (Some(open), Some(close)) => {
            if open >= close {
                let mut message = owned("Malformed template parameters: ");
                message.append(trimmed_raw);
                return Err(ParserError::Custom(message));
            }
            trimmed_raw.substring_char(open + 1, close)
        },
        _ => trimmed_raw,
    };
    let pieces = split_top_level_commas(params);
    let ghost piece_views = pieces@.map_values(|p: &str| p@);
    let ghost names = template_parameter_names(piece_views);
    let mut parameters: Vec<TypeParameter> = Vec::new();
    let n = pieces.len();
    let mut i: usize = 0;
    while i < n
        invariant
            n == pieces@.len(),
            0 <= i <= n,
            piece_views == pieces@.map_values(|p: &str| p@),
            parameters@.len() == non_empty(template_parameter_names(piece_views.take(i as int))).len(),
            forall|k: int|
                0 <= k < parameters@.len() ==> #[trigger] parameters@[k].name@ == non_empty(
                    template_parameter_names(piece_views.take(i as int)),
                )[k] && parameters@[k].default is None,
        decreases n - i,
    {
        proof {
            assert(piece_views.take(i + 1).drop_last() =~= piece_views.take(i as int));
            assert(piece_views.take(i + 1).last() == pieces@[i as int]@);
        }
        proof {
            reveal_strlit("typename ");
            reveal_strlit("class ");
            let x = template_parameter_names(piece_views.take(i as int));
            let y = template_parameter_name(piece_views[i as int]);
            assert(template_parameter_names(piece_views.take(i + 1)) == x.push(y));
            assert(x.push(y).drop_last() =~= x);
        }
        let without_typename = replace(pieces[i], "typename ", "");
        let without_class = replace(without_typename.as_str(), "class ", "");
        let value = trim(before_first(without_class.as_str(), '='));
        if value.unicode_len() > 0 {
            parameters.push(TypeParameter { name: owned(value), default: None });
        }
        i = i + 1;
    }
    proof {
        assert(piece_views.take(n as int) =~= piece_views);
        assert(piece_views == pieces_from(Separator::Comma, params@, 0, 0));
        let names = non_empty(template_parameter_names(piece_views));
        assert(type_parameter_names(raw@) == Some(names));
        assert(names == non_empty(template_parameter_names(piece_views.take(n as int))));
        assert(parameters_named(parameters@, names));
    }
    Ok(parameters)
}

/// The name and type text of a parameter declaration: the last
/// white-space separated word (without trailing `&` and `*`) names it, and
/// what precedes that name is its type; a trailing `const` is ignored.
/// `None` for an empty declaration, `void` and `...`.
pub open spec fn parameter_parts(parameter: Seq<char>) -> Option<(Seq<char>, Seq<char>)> {
    let cleaned = trimmed(parameter);
    if cleaned.len() == 0 || cleaned == "void"@ || cleaned == "..."@ {
        None
    } else {
        let t = trimmed(
            match without_suffix(cleaned, "const"@) {
                Some(x) => x,
                None => cleaned,
            },
        );
        let identifier = match rfind_white_before(t, t.len() as int) {
            Some(i) => trimmed_start(t.subrange(i + 1, t.len() as int)),
            None => t,
        };
        if identifier.len() == 0 {
            None
        } else {
            let name = reference_marks_end(identifier, identifier.len() as int);
            let type_text = trimmed(
                match without_suffix(t, name) {
                    Some(x) => x,
                    None => t,
                },
            );
            Some((reference_marks_end(name, name.len() as int), type_text))
        }
    }
}

/// The parameter a declaration declares: `Some(None)` for none,
/// `Some(Some((name, type)))`, or `None` when its type is malformed.
pub open spec fn parameter_of(parameter: Seq<char>) -> Option<Option<(Seq<char>, TypeModel)>> {
    match parameter_parts(parameter) {
        None => Some(None),
        Some(parts) => match type_of_text(parts.1) {
            Some(t) => Some(Some((parts.0, t))),
            None => None,
        },
    }
}

/// `parameter` is a required, non-variadic, non-nullable parameter named
/// and typed as `model` says.
pub open spec fn parameter_matches(parameter: ValueParameter, model: (Seq<char>, TypeModel)) -> bool {
    &&& parameter.name@ == model.0
    &&& parameter.value_type@ == model.1
    &&& parameter.required
    &&& !parameter.variadic
    &&& !parameter.nullable
}

/// Reads one parameter declaration (see [`parameter_parts`]).
fn parse_parameter_text(parameter: &str) -> (parsed: Result<Option<ValueParameter>, ParserError>)
    ensures
        match parameter_of(parameter@) {
            Some(None) => parsed matches Ok(None),
            Some(Some(model)) => parsed matches Ok(Some(p)) && parameter_matches(p, model),
            None => parsed is Err,
        },
{
    proof {
        reveal_strlit("void");
        reveal_strlit("...");
        reveal_strlit("const");
    }
    let cleaned = trim(parameter);
    if cleaned.unicode_len() == 0 || str_equal(cleaned, "void") || str_equal(cleaned, "...") {
        return Ok(None);
    }
    let without_const = match strip_suffix(cleaned, "const") {
        Some(x) => x,
        None => cleaned,
    };
    let t = trim(without_const);
    proof {
        lemma_rfind_white_before(t@, t@.len() as int);
    }
    let t_length = t.unicode_len();
    let identifier = match rfind_white(t) {
        Some(i) => trim_start(t.substring_char(i + 1, t_length)),
        None => t,
    };
    if identifier.unicode_len() == 0 {
        return Ok(None);
    }
    let name = trim_reference_marks(identifier);
    let type_source = match strip_suffix(t, name) {
        Some(x) => x,
        None => t,
    };
    let type_text = trim(type_source);
    let final_name = trim_reference_marks(name);
    match parse_type_name(type_text) {
        Ok(value_type) => Ok(
            Some(
                ValueParameter {
                    name: owned(final_name),
                    value_type,
                    required: true,
                    variadic: false,
                    nullable: false,
                },
            ),
        ),
        Err(e) => Err(e),
    }
}

/// The parameters of a list of declarations, in order; `None` when one has
/// a malformed type.
pub open spec fn parameters_of(pieces: Seq<Seq<char>>) -> Option<Seq<(Seq<char>, TypeModel)>>
    decreases pieces.len(),
{
    if pieces.len() == 0 {
        Some(Seq::empty())
    } else {
        let last = if trimmed(pieces.last()).len() == 0 {
            Some(None)
        } else {
            parameter_of(pieces.last())
        };
        match (parameters_of(pieces.drop_last()), last) {
            (Some(ps), Some(None)) => Some(ps),
            (Some(ps), Some(Some(p))) => Some(ps.push(p)),
            _ => None,
        }
    }
}

/// The parameters and return type of a signature text, `name(params)`
/// preceded by a return type (`void` when there is none); no parameters
/// and a dynamic return type when it has no name. `None` when its
/// parentheses are missing or close before they open, or a type is
/// malformed.
pub open spec fn callable_of(signature: Seq<char>) -> Option<(Seq<(Seq<char>, TypeModel)>, TypeModel)> {
    let open = match find_from(signature, '(', 0) {
        Some(i) => i,
        None => signature.len() as int,
    };
    let close = match rfind_before(signature, ')', signature.len() as int) {
        Some(i) => i,
        None => signature.len() as int,
    };
    if open + 1 > close {
        None
    } else {
        let before = trimmed(signature.subrange(0, open));
        let params = signature.subrange(open + 1, close);
        let name_end = match rfind_white_before(before, before.len() as int) {
            Some(i) => i,
            None => before.len() as int,
        };
        let return_text = trimmed(before.subrange(0, name_end));
        let name = trimmed(before.subrange(name_end, before.len() as int));
        if name.len() == 0 {
            Some((Seq::empty(), TypeModel::Dynamic))
        } else {
            match (
                parameters_of(pieces_from(Separator::Comma, params, 0, 0)),
                type_of_text(
                    if return_text.len() == 0 {
                        "void"@
                    } else {
                        return_text
                    },
                ),
            ) {
                (Some(ps), Some(r)) => Some((ps, r)),
                _ => None,
            }
        }
    }
}

/// `callable` has the parameters and return type of `model`, no named
/// parameters, and the type parameters `type_parameters`.
pub open spec fn callable_matches(
    callable: AnonymousCallable,
    model: (Seq<(Seq<char>, TypeModel)>, TypeModel),
    type_parameters: Seq<TypeParameter>,
) -> bool {
    &&& callable.positional_parameters@.len() == model.0.len()
    &&& forall|k: int|
        0 <= k < model.0.len() ==> parameter_matches(#[trigger] callable.positional_parameters@[k], model.0[k])
    &&& callable.named_parameters@.len() == 0
    &&& callable.return_type@ == model.1
    &&& callable.type_parameters@ == type_parameters
}

/// Reads a signature text into a callable with the given type parameters
/// (see [`callable_of`]).
fn parse_callable(signature: &str, type_parameters: Vec<TypeParameter>) -> (parsed: Result<
    AnonymousCallable,
    ParserError,
>)
    ensures
        match callable_of(signature@) {
            Some(model) => parsed matches Ok(c) && callable_matches(c, model, type_parameters@),
            None => parsed is Err,
        },
{
    let n = signature.unicode_len();
    proof {
        lemma_find_from(signature@, '(', 0);
        lemma_rfind_before(signature@, ')', n as int);
        reveal_strlit("void");
    }
    let open = match find_char(signature, '(') {
        Some(i) => i,
        None => n,
    };
    let close = match rfind_char(signature, ')') {
        Some(i) => i,
        None => n,
    };
    if open >= close {
        let mut message = owned("Malformed signature: ");
        message.append(signature);
        return Err(ParserError::Custom(message));
    }
    let before = trim(signature.substring_char(0, open));
    let params = signature.substring_char(open + 1, close);
    proof {
        lemma_rfind_white_before(before@, before@.len() as int);
    }
    let name_end = match rfind_white(before) {
        Some(i) => i,
        None => before.unicode_len(),
    };
    let return_text = trim(before.substring_char(0, name_end));
    let name = trim(before.substring_char(name_end, before.unicode_len()));
    if name.unicode_len() == 0 {
        return Ok(
            AnonymousCallable {
                positional_parameters: Vec::new(),
                named_parameters: Vec::new(),
                return_type: Type::Dynamic,
                type_parameters,
            },
        );
    }
    let pieces = split_top_level_commas(params);
    let ghost piece_views = pieces@.map_values(|p: &str| p@);
    let ghost return_source = if return_text@.len() == 0 {
        "void"@
    } else {
        return_text@
    };
    proof {
        assert(callable_of(signature@) == match (parameters_of(piece_views), type_of_text(return_source)) {
            (Some(ps), Some(r)) => Some((ps, r)),
            _ => None,
        });
    }
    let mut positional: Vec<ValueParameter> = Vec::new();
    let count = pieces.len();
    let mut i: usize = 0;
    while i < count
        invariant
            count == pieces@.len(),
            0 <= i <= count,
            piece_views == pieces@.map_values(|p: &str| p@),
            callable_of(signature@) == match (parameters_of(piece_views), type_of_text(return_source)) {
                (Some(ps), Some(r)) => Some((ps, r)),
                _ => None,
            },
            parameters_of(piece_views.take(i as int)) matches Some(ps) && positional@.len() == ps.len()
                && forall|k: int| 0 <= k < ps.len() ==> parameter_matches(#[trigger] positional@[k], ps[k]),
        decreases count - i,
    {
        proof {
            assert(piece_views.take(i + 1).drop_last() =~= piece_views.take(i as int));
            assert(piece_views.take(i + 1).last() == pieces@[i as int]@);
        }
        let piece = pieces[i];
        if trim(piece).unicode_len() > 0 {
            match parse_parameter_text(piece) {
                Ok(Some(parameter)) => {
                    positional.push(parameter);
                },
                Ok(None) => {},
                Err(e) => {
                    proof {
                        assert(parameter_of(piece_views[i as int]) is None);
                        assert(parameters_of(piece_views.take(i + 1)) is None);
                        lemma_parameters_prefix_none(piece_views, (i + 1) as int);
                        assert(piece_views.take(count as int) =~= piece_views);
                    }
                    return Err(e);
                },
            }
        }
        i = i + 1;
    }
    proof {
        assert(piece_views.take(count as int) =~= piece_views);
    }
    let return_type = if return_text.unicode_len() == 0 {
        parse_type_name("void")
    } else {
        parse_type_name(return_text)
    };
    match return_type {
        Ok(return_type) => Ok(
            AnonymousCallable {
                positional_parameters: positional,
                named_parameters: Vec::new(),
                return_type,
                type_parameters,
            },
        ),
        Err(e) => Err(e),
    }
}

/// Once a prefix of the declarations has a malformed one, so has every
/// longer prefix.
proof fn lemma_parameters_prefix_none(pieces: Seq<Seq<char>>, k: int)
    requires
        0 <= k <= pieces.len(),
        parameters_of(pieces.take(k)) is None,
    ensures
        parameters_of(pieces) is None,
    decreases pieces.len() - k,
{
    if k < pieces.len() {
        assert(pieces.take(k + 1).drop_last() =~= pieces.take(k));
        lemma_parameters_prefix_none(pieces, k + 1);
    } else {
        assert(pieces.take(k) =~= pieces);
    }
}

/// The name and signature of a function signature text: the word before
/// its first `(` names it, and what precedes that word is its return type.
/// `None` when it has no parentheses, no name or no return type, or its
/// signature is malformed.
pub open spec fn function_of_text(signature: Seq<char>) -> Option<
    (Seq<char>, (Seq<(Seq<char>, TypeModel)>, TypeModel)),
> {
    let t = trimmed(signature);
    match (find_from(t, '(', 0), find_from(t, ')', 0)) {
        (Some(open), Some(_)) => {
            let before = trimmed(t.subrange(0, open));
            let last_space = match rfind_white_before(before, before.len() as int) {
                Some(i) => i,
                None => before.len() as int,
            };
            let name = trimmed(before.subrange(last_space, before.len() as int));
            let return_text = trimmed(before.subrange(0, last_space));
            if name.len() == 0 || return_text.len() == 0 {
                None
            } else {
                match callable_of(t) {
                    Some(c) => Some((name, c)),
                    None => None,
                }
            }
        },
        _ => None,
    }
}

/// Reads a function from its signature text (see [`function_of_text`]).
fn parse_function_from_text(signature: &str) -> (parsed: Result<FunctionDefinition, ParserError>)
    ensures
        match function_of_text(signature@) {
            Some(f) => parsed matches Ok(d) && d.name@ == f.0 && callable_matches(
                d.callable,
                f.1,
                Seq::empty(),
            ),
            None => parsed is Err,
        },
{
    let signature = trim(signature);
    proof {
        lemma_find_from(signature@, '(', 0);
        lemma_find_from(signature@, ')', 0);
    }
    let open = match (find_char(signature, '('), find_char(signature, ')')) {
        (Some(open), Some(_)) => open,
        _ => {
            let mut message = owned("Not a function signature: ");
            message.append(signature);
            return Err(ParserError::Custom(message));
        },
    };
    let before = trim(signature.substring_char(0, open));
    proof {
        lemma_rfind_white_before(before@, before@.len() as int);
    }
    let before_length = before.unicode_len();
    let last_space = match rfind_white(before) {
        Some(i) => i,
        None => before_length,
    };
    let name = trim(before.substring_char(last_space, before_length));
    let return_text = trim(before.substring_char(0, last_space));
    if name.unicode_len() == 0 || return_text.unicode_len() == 0 {
        let mut message = owned("Malformed function signature: ");
        message.append(signature);
        return Err(ParserError::Custom(message));
    }
    let no_type_parameters: Vec<TypeParameter> = Vec::new();
    match parse_callable(signature, no_type_parameters) {
        Ok(callable) => Ok(FunctionDefinition { name: owned(name), callable }),
        Err(e) => Err(e),
    }
}

/// What one member declaration of a type body declares.
pub enum MemberModel {
    /// Nothing (an empty member, an access specifier, or a lone word).
    Skip,
    /// The default constructor.
    Constructor((Seq<(Seq<char>, TypeModel)>, TypeModel)),
    /// A named constructor: a function returning the type itself.
    NamedConstructor(Seq<char>, (Seq<(Seq<char>, TypeModel)>, TypeModel)),
    /// A method.
    Method(Seq<char>, (Seq<(Seq<char>, TypeModel)>, TypeModel)),
    /// A property: its name and type.
    Property(Seq<char>, TypeModel),
}

/// What a member declaration of the type `owner` declares; `None` when
/// it is malformed. A member with parentheses (and without `const`) is a
/// function: the default constructor when it is named after the type, a
/// named constructor when it returns the type, else a method. Any other
/// member of two words or more declares a property named by its second
/// word, typed by its first.
pub open spec fn member_of(member: Seq<char>, owner: Seq<char>) -> Option<MemberModel> {
    let m = trimmed(member);
    if m.len() == 0 || "public:"@.is_prefix_of(m) || "private:"@.is_prefix_of(m)
        || "protected:"@.is_prefix_of(m) {
        Some(MemberModel::Skip)
    } else {
        let unqualified = trimmed(replaced(m, "const"@, ""@));
        match (find_from(unqualified, '(', 0), find_from(unqualified, ')', 0)) {
            (Some(open), Some(_)) => {
                let return_part = trimmed(unqualified.subrange(0, open));
                let last_space = match rfind_white_before(return_part, return_part.len() as int) {
                    Some(i) => i,
                    None => return_part.len() as int,
                };
                let name = trimmed(return_part.subrange(last_space, return_part.len() as int));
                let returned = trimmed(return_part.subrange(0, last_space));
                match callable_of(unqualified) {
                    Some(c) => Some(
                        if name == owner {
                            MemberModel::Constructor(c)
                        } else if returned == owner {
                            MemberModel::NamedConstructor(name, c)
                        } else {
                            MemberModel::Method(name, c)
                        },
                    ),
                    None => None,
                }
            },
            _ => {
                let words = words_from(m, 0);
                if words.len() >= 2 {
                    match type_of_text(words[0]) {
                        Some(t) => Some(MemberModel::Property(words[1], t)),
                        None => None,
                    }
                } else {
                    Some(MemberModel::Skip)
                }
            },
        }
    }
}

/// The members of a type body, gathered in order: properties, the default
/// constructor (the last one declared), named constructors and methods.
pub struct BodyModel {
    pub properties: Seq<(Seq<char>, TypeModel)>,
    pub constructor: Option<(Seq<(Seq<char>, TypeModel)>, TypeModel)>,
    pub named_constructors: Seq<(Seq<char>, (Seq<(Seq<char>, TypeModel)>, TypeModel))>,
    pub methods: Seq<(Seq<char>, (Seq<(Seq<char>, TypeModel)>, TypeModel))>,
}

/// `body` with `member` added.
pub open spec fn add_member(body: BodyModel, member: MemberModel) -> BodyModel {
    match member {
        MemberModel::Skip => body,
        MemberModel::Constructor(c) => BodyModel { constructor: Some(c), ..body },
        MemberModel::NamedConstructor(name, c) => BodyModel {
            named_constructors: body.named_constructors.push((name, c)),
            ..body
        },
        MemberModel::Method(name, c) => BodyModel { methods: body.methods.push((name, c)), ..body },
        MemberModel::Property(name, t) => BodyModel { properties: body.properties.push((name, t)), ..body },
    }
}

/// The members the declarations `members` of the type `owner` declare;
/// `None` when one is malformed.
pub open spec fn body_of(members: Seq<Seq<char>>, owner: Seq<char>) -> Option<BodyModel>
    decreases members.len(),
{
    if members.len() == 0 {
        Some(
            BodyModel {
                properties: Seq::empty(),
                constructor: None,
                named_constructors: Seq::empty(),
                methods: Seq::empty(),
            },
        )
    } else {
        match (body_of(members.drop_last(), owner), member_of(members.last(), owner)) {
            (Some(body), Some(member)) => Some(add_member(body, member)),
            _ => None,
        }
    }
}

/// `definition` is the type `owner` with the members of `body`, no
/// static methods, type parameters or implemented interfaces.
pub open spec fn definition_matches(definition: TypeDefinition, body: BodyModel, owner: Seq<char>) -> bool {
    &&& definition.name@ == owner
    &&& definition.properties@.len() == body.properties.len()
    &&& forall|k: int|
        0 <= k < body.properties.len() ==> (#[trigger] definition.properties@[k]).0@ == body.properties[k].0
            && definition.properties@[k].1@ == body.properties[k].1
    &&& match body.constructor {
        Some(c) => definition.default_constructor matches Some(d) && callable_matches(d, c, Seq::empty()),
        None => definition.default_constructor is None,
    }
    &&& definition.named_constructors@.len() == body.named_constructors.len()
    &&& forall|k: int|
        0 <= k < body.named_constructors.len() ==> (#[trigger] definition.named_constructors@[k]).name@
            == body.named_constructors[k].0 && callable_matches(
            definition.named_constructors@[k].callable,
            body.named_constructors[k].1,
            Seq::empty(),
        )
    &&& definition.methods@.len() == body.methods.len()
    &&& forall|k: int|
        0 <= k < body.methods.len() ==> (#[trigger] definition.methods@[k]).name@ == body.methods[k].0
            && !definition.methods@[k].is_static && callable_matches(
            definition.methods@[k].callable,
            body.methods[k].1,
            Seq::empty(),
        )
    &&& definition.static_methods@.len() == 0
    &&& definition.type_parameters@.len() == 0
    &&& definition.implements@.len() == 0
}

/// Once a prefix of the members has a malformed one, so has every longer
/// prefix.
proof fn lemma_body_prefix_none(members: Seq<Seq<char>>, owner: Seq<char>, k: int)
    requires
        0 <= k <= members.len(),
        body_of(members.take(k), owner) is None,
    ensures
        body_of(members, owner) is None,
    decreases members.len() - k,
{
    if k < members.len() {
        assert(members.take(k + 1).drop_last() =~= members.take(k));
        lemma_body_prefix_none(members, owner, k + 1);
    } else {
        assert(members.take(k) =~= members);
    }
}

/// Adds what `member` declares to `definition`, the type `owner` (see
/// [`member_of`]); fails, leaving it unchanged, when the member is
/// malformed.
#[verifier::rlimit(40)]
fn add_member_to(definition: &mut TypeDefinition, member: &str, owner: &str, Ghost(body): Ghost<BodyModel>) -> (added: Result<(), ParserError>)
    requires
        definition_matches(*old(definition), body, owner@),
    ensures
        match member_of(member@, owner@) {
            Some(m) => added is Ok && definition_matches(*final(definition), add_member(body, m), owner@),
            None => added is Err,
        },
{
    proof {
        reveal_strlit("public:");
        reveal_strlit("private:");
        reveal_strlit("protected:");
        reveal_strlit("const");
        reveal_strlit("");
    }
    let ghost before = *definition;
    let m = trim(member);
    if m.unicode_len() == 0 || is_prefix("public:", m) || is_prefix("private:", m)
        || is_prefix("protected:", m) {
        return Ok(());
    }
    let unqualified_string = replace(m, "const", "");
    let unqualified = trim(unqualified_string.as_str());
    proof {
        lemma_find_from(unqualified@, '(', 0);
        lemma_find_from(unqualified@, ')', 0);
    }
    let function_like = match (find_char(unqualified, '('), find_char(unqualified, ')')) {
        (Some(open), Some(_)) => Some(open),
        _ => None,
    };
    if let Some(open) = function_like {
        let return_part = trim(unqualified.substring_char(0, open));
        proof {
            lemma_rfind_white_before(return_part@, return_part@.len() as int);
        }
        let return_length = return_part.unicode_len();
        let last_space = match rfind_white(return_part) {
            Some(k) => k,
            None => return_length,
        };
        let method_name = trim(return_part.substring_char(last_space, return_length));
        let method_return = trim(return_part.substring_char(0, last_space));
        let no_type_parameters: Vec<TypeParameter> = Vec::new();
        let callable = match parse_callable(unqualified, no_type_parameters) {
            Ok(c) => c,
            Err(e) => {
                return Err(e);
            },
        };
        if str_equal(method_name, owner) {
            definition.default_constructor = Some(callable);
        } else if str_equal(method_return, owner) {
            definition.named_constructors.push(FunctionDefinition { name: owned(method_name), callable });
            proof {
                let b = add_member(body, member_of(member@, owner@).unwrap());
                assert forall|k: int| 0 <= k < b.named_constructors.len() implies (#[trigger] definition.named_constructors@[k]).name@
                    == b.named_constructors[k].0 && callable_matches(
                    definition.named_constructors@[k].callable,
                    b.named_constructors[k].1,
                    Seq::empty(),
                ) by {
                    if k < body.named_constructors.len() {
                        assert(definition.named_constructors@[k] == before.named_constructors@[k]);
                    }
                }
            }
        } else {
            definition.methods.push(Method { name: owned(method_name), is_static: false, callable });
            proof {
                let b = add_member(body, member_of(member@, owner@).unwrap());
                assert forall|k: int| 0 <= k < b.methods.len() implies (#[trigger] definition.methods@[k]).name@
                    == b.methods[k].0 && !definition.methods@[k].is_static && callable_matches(
                    definition.methods@[k].callable,
                    b.methods[k].1,
                    Seq::empty(),
                ) by {
                    if k < body.methods.len() {
                        assert(definition.methods@[k] == before.methods@[k]);
                    }
                }
            }
        }
        Ok(())
    } else {
        let (first, second) = first_two_words(m);
        if let (Some(type_word), Some(property_name)) = (first, second) {
            let property_type = match parse_type_name(type_word) {
                Ok(t) => t,
                Err(e) => {
                    return Err(e);
                },
            };
            definition.properties.push((owned(property_name), property_type));
            proof {
                let b = add_member(body, member_of(member@, owner@).unwrap());
                assert forall|k: int| 0 <= k < b.properties.len() implies (#[trigger] definition.properties@[k]).0@
                    == b.properties[k].0 && definition.properties@[k].1@ == b.properties[k].1 by {
                    if k < body.properties.len() {
                        assert(definition.properties@[k] == before.properties@[k]);
                    }
                }
            }
        }
        Ok(())
    }
}

/// Reads the members of a type body (the text between its braces) into a
/// definition of the type `type_name_text` (see [`member_of`]).
fn parse_type_body(body: &str, type_name_text: &str) -> (parsed: Result<TypeDefinition, ParserError>)
    ensures
        match body_of(pieces_from(Separator::Semicolon, body@, 0, 0), type_name_text@) {
            Some(b) => parsed matches Ok(d) && definition_matches(d, b, type_name_text@),
            None => parsed is Err,
        },
{
    let members = split_top_level_semicolons(body);
    let ghost member_views = members@.map_values(|p: String| p@);
    let mut definition = TypeDefinition {
        name: owned(type_name_text),
        properties: Vec::new(),
        default_constructor: None,
        named_constructors: Vec::new(),
        methods: Vec::new(),
        static_methods: Vec::new(),
        type_parameters: Vec::new(),
        implements: Vec::new(),
    };
    let n = members.len();
    let mut i: usize = 0;
    while i < n
        invariant
            n == members@.len(),
            0 <= i <= n,
            member_views == members@.map_values(|p: String| p@),
            member_views == pieces_from(Separator::Semicolon, body@, 0, 0),
            body_of(member_views.take(i as int), type_name_text@) matches Some(b) && definition_matches(
                definition,
                b,
                type_name_text@,
            ),
        decreases n - i,
    {
        proof {
            assert(member_views.take(i + 1).drop_last() =~= member_views.take(i as int));
            assert(member_views.take(i + 1).last() == members@[i as int]@);
        }
        let ghost body_before = body_of(member_views.take(i as int), type_name_text@).unwrap();
        match add_member_to(&mut definition, members[i].as_str(), type_name_text, Ghost(body_before)) {
            Ok(()) => {},
            Err(e) => {
                proof {
                    assert(body_of(member_views.take(i + 1), type_name_text@) is None);
                    lemma_body_prefix_none(member_views, type_name_text@, (i + 1) as int);
                    assert(member_views.take(n as int) =~= member_views);
                }
                return Err(e);
            },
        }
        i = i + 1;
    }
    proof {
        assert(member_views.take(n as int) =~= member_views);
    }
    Ok(definition)
}

/// A signature as C++ declarations give it: every parameter positional,
/// required, not variadic and never null.
pub open spec fn positional_callable(callable: AnonymousCallable) -> bool {
    &&& callable.named_parameters@.len() == 0
    &&& forall|k: int|
        0 <= k < callable.positional_parameters@.len() ==> (#[trigger] callable.positional_parameters@[k]).required
            && !callable.positional_parameters@[k].variadic && !callable.positional_parameters@[k].nullable
}

/// A type as C++ declarations give it: no static methods, no implemented
/// interfaces, and positional signatures for its constructors and
/// (instance) methods.
pub open spec fn declared_type(definition: TypeDefinition) -> bool {
    &&& definition.static_methods@.len() == 0
    &&& definition.implements@.len() == 0
    &&& definition.default_constructor matches Some(c) ==> positional_callable(c)
    &&& forall|k: int|
        0 <= k < definition.named_constructors@.len() ==> positional_callable(
            (#[trigger] definition.named_constructors@[k]).callable,
        )
    &&& forall|k: int|
        0 <= k < definition.methods@.len() ==> !(#[trigger] definition.methods@[k]).is_static
            && positional_callable(definition.methods@[k].callable)
}

/// A function or type as C++ declarations give it: a function has a name
/// and a positional signature; a type is a declared type.
pub open spec fn declared_feature(feature: ParsedFeature) -> bool {
    match feature {
        ParsedFeature::Function(f) => f.name@.len() > 0 && positional_callable(f.callable),
        ParsedFeature::Type(t) => declared_type(t),
    }
}

/// A module as C++ declarations give it: named functions with positional
/// signatures, and declared types.
pub open spec fn declared_module(module: Module) -> bool {
    &&& forall|i: int|
        0 <= i < module.functions@.len() ==> (#[trigger] module.functions@[i]).name@.len() > 0 && positional_callable(
            module.functions@[i].callable,
        )
    &&& forall|i: int| 0 <= i < module.types@.len() ==> declared_type(#[trigger] module.types@[i])
}

/// A callable read from a signature has a positional signature.
proof fn lemma_matches_positional(
    callable: AnonymousCallable,
    model: (Seq<(Seq<char>, TypeModel)>, TypeModel),
    type_parameters: Seq<TypeParameter>,
)
    requires
        callable_matches(callable, model, type_parameters),
    ensures
        positional_callable(callable),
{
    assert forall|k: int| 0 <= k < callable.positional_parameters@.len() implies (
    #[trigger] callable.positional_parameters@[k]).required && !callable.positional_parameters@[k].variadic
        && !callable.positional_parameters@[k].nullable by {
        assert(parameter_matches(callable.positional_parameters@[k], model.0[k]));
    }
}

/// A type read from a body is a declared type.
proof fn lemma_body_declared(definition: TypeDefinition, body: BodyModel, owner: Seq<char>)
    requires
        definition_matches(definition, body, owner),
    ensures
        declared_type(definition),
{
    if let Some(c) = definition.default_constructor {
        lemma_matches_positional(c, body.constructor->Some_0, Seq::empty());
    }
    assert forall|k: int| 0 <= k < definition.named_constructors@.len() implies positional_callable(
        (#[trigger] definition.named_constructors@[k]).callable,
    ) by {
        lemma_matches_positional(definition.named_constructors@[k].callable, body.named_constructors[k].1, Seq::empty());
    }
    assert forall|k: int| 0 <= k < definition.methods@.len() implies !(#[trigger] definition.methods@[k]).is_static
        && positional_callable(definition.methods@[k].callable) by {
        lemma_matches_positional(definition.methods@[k].callable, body.methods[k].1, Seq::empty());
    }
}

/// A function read from its text has a name and a positional signature.
proof fn lemma_function_declared(function: FunctionDefinition, signature: Seq<char>)
    requires
        function_of_text(signature) matches Some(f) && function.name@ == f.0 && callable_matches(
            function.callable,
            f.1,
            Seq::empty(),
        ),
    ensures
        function.name@.len() > 0,
        positional_callable(function.callable),
{
    let f = function_of_text(signature)->Some_0;
    lemma_matches_positional(function.callable, f.1, Seq::empty());
}

/// Reads the next token's text, or fails as the lexer does.
fn next_text<'input>(lexer: &mut LazyStatefulLexer<'input>) -> (text: Result<&'input str, ParserError>)
    requires
        old(lexer).ready(),
    ensures
        read_on(*old(lexer), *final(lexer)),
        text is Ok ==> final(lexer).remaining() < old(lexer).remaining(),
        match old(lexer).upcoming() {
            Ok(next) => text matches Ok(t) && t@ == next.1,
            Err(kind) => text matches Err(e) && converted_error_kind(kind, e),
        },
{
    match lexer.next() {
        Ok(token) => Ok(token.text),
        Err(e) => Err(ParserError::from_lexer_error(e)),
    }
}

/// Reads tokens up to one whose text is `stop`, giving the texts before it
/// (none of which is `stop`); a lexer error, the end of the input among
/// them, is passed on.
fn texts_until<'input>(lexer: &mut LazyStatefulLexer<'input>, stop: &str) -> (texts: Result<Vec<String>, ParserError>)
    requires
        old(lexer).ready(),
    ensures
        read_on(*old(lexer), *final(lexer)),
        texts is Ok ==> final(lexer).remaining() < old(lexer).remaining(),
        texts matches Ok(v) ==> forall|i: int| 0 <= i < v@.len() ==> #[trigger] v@[i]@ != stop@,
        match old(lexer).upcoming() {
            Ok(next) => {
                &&& next.1 == stop@ ==> (texts matches Ok(v) && v@.len() == 0)
                &&& texts matches Ok(v) ==> (v@.len() > 0 ==> v@[0]@ == next.1)
                &&& texts matches Ok(v) ==> (next.1 != stop@ ==> v@.len() > 0)
            },
            Err(kind) => texts matches Err(e) && converted_error_kind(kind, e),
        },
{
    let ghost start = *lexer;
    proof {
        lemma_read_on_preorder(start, start, start);
    }
    let mut texts: Vec<String> = Vec::new();
    loop
        invariant
            start.ready(),
            read_on(start, *lexer),
            start == *old(lexer),
            texts@.len() == 0 ==> *lexer == start,
            texts@.len() > 0 ==> (start.upcoming() matches Ok(next) && texts@[0]@ == next.1 && next.1 != stop@),
            texts@.len() > 0 ==> lexer.remaining() < start.remaining(),
            forall|i: int| 0 <= i < texts@.len() ==> #[trigger] texts@[i]@ != stop@,
        decreases lexer.remaining(),
    {
        let ghost before = *lexer;
        let text = next_text(lexer);
        proof {
            lemma_read_on_preorder(start, before, *lexer);
        }
        match text {
            Ok(text) => {
                if str_equal(text, stop) {
                    return Ok(texts);
                }
                texts.push(owned(text));
            },
            Err(e) => {
                return Err(e);
            },
        }
    }
}

/// Reads `struct` or `class` (as `kind` says), a name, optional template
/// parameters in angle brackets, and a body in braces (whose members are
/// read as the text of its tokens joined by spaces), with an optional `;`
/// after it.
fn parse_struct_or_class<'input>(lexer: &mut LazyStatefulLexer<'input>, kind: &str) -> (parsed: Result<
    TypeDefinition,
    ParserError,
>)
    requires
        old(lexer).ready(),
    ensures
        read_on(*old(lexer), *final(lexer)),
        parsed is Ok ==> final(lexer).remaining() < old(lexer).remaining(),
        parsed matches Ok(definition) ==> declared_type(definition),
{
    let ghost start = *lexer;
    let opened = exact(kind).parse(lexer);
    if let Err(e) = opened {
        return Err(e);
    }
    let ghost after_kind = *lexer;
    let name = match token_kind("identifier").parse(lexer) {
        Ok(name) => name,
        Err(e) => {
            proof {
                lemma_read_on_preorder(start, after_kind, *lexer);
            }
            return Err(e);
        },
    };
    proof {
        lemma_read_on_preorder(start, after_kind, *lexer);
    }
    let ghost at_angle = *lexer;
    let angle = optional(exact("<")).parse(lexer);
    proof {
        lemma_read_on_preorder(start, at_angle, *lexer);
    }
    let type_parameters = match angle {
        Ok(Some(_)) => {
            let ghost at_params = *lexer;
            let params = texts_until(lexer, ">");
            proof {
                lemma_read_on_preorder(start, at_params, *lexer);
            }
            match params {
                Ok(params) => match parse_type_parameters(join_strings(&params, " ").as_str()) {
                    Ok(ps) => ps,
                    Err(e) => {
                        return Err(e);
                    },
                },
                Err(e) => {
                    return Err(e);
                },
            }
        },
        Ok(None) => Vec::new(),
        Err(e) => {
            return Err(e);
        },
    };
    let ghost at_brace = *lexer;
    let brace = exact("{").parse(lexer);
    proof {
        lemma_read_on_preorder(start, at_brace, *lexer);
    }
    if let Err(e) = brace {
        return Err(e);
    }
    let mut body_tokens: Vec<String> = Vec::new();
    let mut depth: usize = 1;
    while depth > 0
        invariant
            start.ready(),
            read_on(start, *lexer),
            start == *old(lexer),
            lexer.remaining() < start.remaining(),
        decreases lexer.remaining(),
    {
        let ghost before = *lexer;
        let text = next_text(lexer);
        proof {
            lemma_read_on_preorder(start, before, *lexer);
        }
        let text = match text {
            Ok(text) => text,
            Err(e) => {
                return Err(e);
            },
        };
        if str_equal(text, "{") {
            if depth == usize::MAX {
                return Err(ParserError::Custom(owned("Braces are nested too deeply.")));
            }
            depth = depth + 1;
            if depth > 1 {
                body_tokens.push(owned(text));
            }
        } else if str_equal(text, "}") {
            depth = depth - 1;
            if depth > 0 {
                body_tokens.push(owned(text));
            }
        } else {
            body_tokens.push(owned(text));
        }
    }
    let body_text = join_strings(&body_tokens, " ");
    let mut definition = match parse_type_body(body_text.as_str(), name.as_str()) {
        Ok(d) => d,
        Err(e) => {
            return Err(e);
        },
    };
    proof {
        let b = body_of(pieces_from(Separator::Semicolon, body_text@, 0, 0), name@)->Some_0;
        lemma_body_declared(definition, b, name@);
    }
    definition.type_parameters = type_parameters;
    let ghost at_semicolon = *lexer;
    let semicolon = optional(exact(";")).parse(lexer);
    proof {
        lemma_read_on_preorder(start, at_semicolon, *lexer);
    }
    if let Err(e) = semicolon {
        return Err(e);
    }
    Ok(definition)
}

/// Whether `text` is `;`, `{` or `}`, where a declaration's signature ends.
fn ends_signature(text: &str) -> (ends: bool)
    ensures
        ends == (text@ == ";"@ || text@ == "{"@ || text@ == "}"@),
{
    str_equal(text, ";") || str_equal(text, "{") || str_equal(text, "}")
}

/// Whether the lexer's next token ends a signature (with `Err(())` for
/// the end of the input, and the lexer's error for any other failure).
fn peek_ends_signature<'input>(lexer: &mut LazyStatefulLexer<'input>) -> (ends: Result<bool, Option<ParserError>>)
    requires
        old(lexer).ready(),
    ensures
        read_on(*old(lexer), *final(lexer)),
        final(lexer).position() == old(lexer).position(),
        final(lexer).remaining() <= old(lexer).remaining(),
        match old(lexer).upcoming() {
            Ok(next) => ends == Ok::<bool, Option<ParserError>>(
                next.1 == ";"@ || next.1 == "{"@ || next.1 == "}"@,
            ),
            Err(LexerErrorKind::Eof) => ends == Err::<bool, Option<ParserError>>(None),
            Err(kind) => ends matches Err(Some(e)) && converted_error_kind(kind, e),
        },
{
    match lexer.peek() {
        Ok(token) => Ok(ends_signature(token.text)),
        Err(LexerError::Eof) => Err(None),
        Err(e) => Err(Some(ParserError::from_lexer_error(e))),
    }
}

/// Reads the tokens of a function-like declaration up to the `;`, `{` or
/// `}` that ends it, or up to the `)` that closes its first `(`, and gives
/// their texts joined by spaces. Fails unless that text holds both `(` and
/// `)`; a lexer error other than the end of the input is passed on.
fn parse_function_signature_from_lexer<'input>(lexer: &mut LazyStatefulLexer<'input>) -> (signature: Result<
    String,
    ParserError,
>)
    requires
        old(lexer).ready(),
    ensures
        read_on(*old(lexer), *final(lexer)),
        signature matches Ok(text) ==> find_from(text@, '(', 0) is Some && find_from(text@, ')', 0) is Some,
{
    let ghost start = *lexer;
    proof {
        lemma_read_on_preorder(start, start, start);
    }
    let mut tokens: Vec<String> = Vec::new();
    loop
        invariant
            start.ready(),
            read_on(start, *lexer),
            start == *old(lexer),
        decreases lexer.remaining(),
    {
        let ghost at_peek = *lexer;
        let ends = peek_ends_signature(lexer);
        proof {
            lemma_read_on_preorder(start, at_peek, *lexer);
        }
        match ends {
            Ok(true) => {
                break;
            },
            Ok(false) => {},
            Err(None) => {
                break;
            },
            Err(Some(e)) => {
                return Err(e);
            },
        }
        let ghost before = *lexer;
        let text = next_text(lexer);
        proof {
            lemma_read_on_preorder(start, before, *lexer);
        }
        let text = match text {
            Ok(text) => text,
            Err(e) => {
                return Err(e);
            },
        };
        tokens.push(owned(text));
        if str_equal(text, "(") {
            let mut depth: usize = 1;
            while depth > 0
                invariant
                    start.ready(),
                    read_on(start, *lexer),
                    start == *old(lexer),
                decreases lexer.remaining(),
            {
                let ghost inner_peek = *lexer;
                let peeked = lexer.peek();
                proof {
                    lemma_read_on_preorder(start, inner_peek, *lexer);
                }
                match peeked {
                    Ok(_) => {},
                    Err(LexerError::Eof) => {
                        break;
                    },
                    Err(e) => {
                        return Err(ParserError::from_lexer_error(e));
                    },
                }
                let ghost inner_before = *lexer;
                let inner = next_text(lexer);
                proof {
                    lemma_read_on_preorder(start, inner_before, *lexer);
                }
                let inner = match inner {
                    Ok(text) => text,
                    Err(e) => {
                        return Err(e);
                    },
                };
                tokens.push(owned(inner));
                if str_equal(inner, "(") {
                    if depth == usize::MAX {
                        return Err(ParserError::Custom(owned("Parentheses are nested too deeply.")));
                    }
                    depth = depth + 1;
                } else if str_equal(inner, ")") {
                    depth = depth - 1;
                }
            }
            break;
        }
    }
    let text = join_strings(&tokens, " ");
    proof {
        lemma_find_from(text@, '(', 0);
        lemma_find_from(text@, ')', 0);
    }
    if find_char(text.as_str(), '(').is_some() && find_char(text.as_str(), ')').is_some() {
        Ok(text)
    } else {
        Err(ParserError::Custom(owned("not a function-like declaration")))
    }
}

/// Reads `template`, optional template parameters in angle brackets, and
/// the struct, class or function they apply to.
fn parse_template_definition<'input>(lexer: &mut LazyStatefulLexer<'input>) -> (parsed: Result<
    ParsedFeature,
    ParserError,
>)
    requires
        old(lexer).ready(),
    ensures
        read_on(*old(lexer), *final(lexer)),
        parsed is Ok ==> final(lexer).remaining() < old(lexer).remaining(),
        parsed matches Ok(feature) ==> declared_feature(feature),
{
    let ghost start = *lexer;
    let opened = exact("template").parse(lexer);
    if let Err(e) = opened {
        return Err(e);
    }
    let ghost after_keyword = *lexer;
    let angle = optional(exact("<")).parse(lexer);
    proof {
        lemma_read_on_preorder(start, after_keyword, *lexer);
    }
    let template_tokens = match angle {
        Ok(Some(_)) => {
            let ghost at_params = *lexer;
            let texts = texts_until(lexer, ">");
            proof {
                lemma_read_on_preorder(start, at_params, *lexer);
            }
            match texts {
                Ok(texts) => texts,
                Err(e) => {
                    return Err(e);
                },
            }
        },
        Ok(None) => Vec::new(),
        Err(e) => {
            return Err(e);
        },
    };
    let type_parameters = match parse_type_parameters(join_strings(&template_tokens, " ").as_str()) {
        Ok(ps) => ps,
        Err(e) => {
            return Err(e);
        },
    };
    let ghost at_peek = *lexer;
    let next_kind = match lexer.peek() {
        Ok(token) => owned(token.text),
        Err(_) => String::new(),
    };
    proof {
        lemma_read_on_preorder(start, at_peek, *lexer);
    }
    if str_equal(next_kind.as_str(), "struct") || str_equal(next_kind.as_str(), "class") {
        let ghost at_type = *lexer;
        let parsed = parse_struct_or_class(lexer, next_kind.as_str());
        proof {
            lemma_read_on_preorder(start, at_type, *lexer);
        }
        return match parsed {
            Ok(definition) => {
                let mut definition = definition;
                definition.type_parameters = type_parameters;
                Ok(ParsedFeature::Type(definition))
            },
            Err(e) => Err(e),
        };
    }
    let ghost at_function = *lexer;
    let function_text = parse_function_signature_from_lexer(lexer);
    proof {
        lemma_read_on_preorder(start, at_function, *lexer);
    }
    let function_text = match function_text {
        Ok(text) => text,
        Err(e) => {
            return Err(e);
        },
    };
    match parse_function_from_text(function_text.as_str()) {
        Ok(function) => {
            proof {
                lemma_function_declared(function, function_text@);
            }
            let mut function = function;
            function.callable.type_parameters = type_parameters;
            Ok(ParsedFeature::Function(function))
        },
        Err(e) => Err(e),
    }
}

/// Reads the tokens of a declaration that starts with an identifier as the
/// text of a function signature; on a token that is not part of
/// one, the lexer is put back.
fn parse_identifier_function<'input>(lexer: &mut LazyStatefulLexer<'input>) -> (parsed: Result<
    ParsedFeature,
    ParserError,
>)
    requires
        old(lexer).ready(),
    ensures
        read_on(*old(lexer), *final(lexer)),
        parsed is Ok ==> final(lexer).remaining() < old(lexer).remaining(),
        parsed matches Ok(feature) ==> declared_feature(feature),
{
    let ghost start = *lexer;
    let snapshot = lexer.snapshot();
    proof {
        lemma_read_on_preorder(start, start, start);
    }
    let mut tokens: Vec<String> = Vec::new();
    loop
        invariant
            start.ready(),
            read_on(start, *lexer),
            start == *old(lexer),
            tokens@.len() > 0 ==> lexer.remaining() < start.remaining(),
        decreases lexer.remaining(),
    {
        let ghost at_peek = *lexer;
        let ends = peek_ends_signature(lexer);
        proof {
            lemma_read_on_preorder(start, at_peek, *lexer);
        }
        match ends {
            Ok(true) => {
                break;
            },
            Ok(false) => {},
            Err(None) => {
                break;
            },
            Err(Some(e)) => {
                return Err(e);
            },
        }
        let ghost before = *lexer;
        let text = next_text(lexer);
        proof {
            lemma_read_on_preorder(start, before, *lexer);
        }
        let text = match text {
            Ok(text) => text,
            Err(e) => {
                return Err(e);
            },
        };
        tokens.push(owned(text));
        if str_equal(text, "(") {
            let mut depth: usize = 1;
            loop
                invariant_except_break
                    depth > 0,
                invariant
                    start.ready(),
                    read_on(start, *lexer),
                    start == *old(lexer),
                    tokens@.len() > 0,
                    lexer.remaining() < start.remaining(),
                decreases lexer.remaining(),
            {
                let ghost inner_peek = *lexer;
                let peeked = lexer.peek();
                proof {
                    lemma_read_on_preorder(start, inner_peek, *lexer);
                }
                if peeked.is_err() {
                    break;
                }
                let ghost inner_before = *lexer;
                let inner = next_text(lexer);
                proof {
                    lemma_read_on_preorder(start, inner_before, *lexer);
                }
                let inner = match inner {
                    Ok(text) => text,
                    Err(e) => {
                        return Err(e);
                    },
                };
                tokens.push(owned(inner));
                if str_equal(inner, "(") {
                    if depth == usize::MAX {
                        return Err(ParserError::Custom(owned("Parentheses are nested too deeply.")));
                    }
                    depth = depth + 1;
                } else if str_equal(inner, ")") {
                    depth = depth - 1;
                    if depth == 0 {
                        break;
                    }
                }
                if depth == 0 {
                    break;
                }
            }
            break;
        }
    }
    let text = join_strings(&tokens, " ");
    proof {
        lemma_find_from(text@, '(', 0);
        lemma_find_from(text@, ')', 0);
    }
    if !(find_char(text.as_str(), '(').is_some() && find_char(text.as_str(), ')').is_some()) {
        return Err(ParserError::Custom(owned("not a function-like declaration")));
    }
    proof {
        if tokens@.len() == 0 {
            assert(text@.len() == 0);
        }
    }
    match parse_function_from_text(text.as_str()) {
        Ok(function) => {
            proof {
                lemma_function_declared(function, text@);
            }
            Ok(ParsedFeature::Function(function))
        },
        Err(_) => {
            restore_to(lexer, &snapshot, Ghost(start));
            Err(ParserError::Custom(owned("not a function-like declaration")))
        },
    }
}

/// A feature read from a C++ declaration.
struct DeclaredFeature {
    feature: ParsedFeature,
}

impl DeclaredFeature {
    #[verifier::type_invariant]
    spec fn read_from_declaration(self) -> bool {
        declared_feature(self.feature)
    }
}

/// The declarations a C++ source is searched for.
enum CppAnchor {
    Template,
    Struct,
    Class,
    Function,
}

impl<'input> Parser<'input, LazyStatefulLexer<'input>, DeclaredFeature> for CppAnchor {
    open spec fn parses(
        &self,
        before: LazyStatefulLexer<'input>,
        after: LazyStatefulLexer<'input>,
        result: Result<DeclaredFeature, ParserError>,
    ) -> bool {
        result is Ok ==> after.remaining() < before.remaining()
    }

    fn parse(&self, lexer: &mut LazyStatefulLexer<'input>) -> (result: Result<DeclaredFeature, ParserError>) {
        let parsed = match self {
            CppAnchor::Template => parse_template_definition(lexer),
            CppAnchor::Struct => match parse_struct_or_class(lexer, "struct") {
                Ok(definition) => Ok(ParsedFeature::Type(definition)),
                Err(e) => Err(e),
            },
            CppAnchor::Class => match parse_struct_or_class(lexer, "class") {
                Ok(definition) => Ok(ParsedFeature::Type(definition)),
                Err(e) => Err(e),
            },
            CppAnchor::Function => parse_identifier_function(lexer),
        };
        match parsed {
            Ok(feature) => Ok(DeclaredFeature { feature }),
            Err(e) => Err(e),
        }
    }
}

/// Adds features read from declarations to a module.
struct DeclarationReducer;

impl Reducer<Module, DeclaredFeature> for DeclarationReducer {
    closed spec fn reduces(&self, accumulator: Module, feature: DeclaredFeature, result: Module) -> bool {
        feature_added(accumulator, feature.feature, result) && declared_feature(feature.feature)
    }

    fn reduce(&self, accumulator: Module, feature: DeclaredFeature) -> (result: Module) {
        proof {
            use_type_invariant(&feature);
        }
        let DeclaredFeature { feature } = feature;
        let mut module = accumulator;
        match feature {
            ParsedFeature::Function(function) => module.functions.push(function),
            ParsedFeature::Type(definition) => module.types.push(definition),
        }
        module
    }
}

/// The patterns of the lexer rules for C++ statements, in order.
pub open spec fn statement_patterns() -> Seq<Seq<char>> {
    seq![
        r"[ \t\r\n]+"@,
        r"//[^\n]*"@,
        r"(?s)/\*.*?\*/"@,
        r"\b(template|struct|class|public|private|protected|typename|class|const|volatile)\b"@,
        r"[A-Za-z_][A-Za-z0-9_]*"@,
        r"[0-9]+(?:\.[0-9]+)?"@,
        r"\{|\}|\(|\)|;|:|,|<|>|\.|::|\*|&|=|\+|-|/|%|\[|\]"@,
        r"[^\sA-Za-z0-9_{}();:,.<>\[\]\*&=+/\-%]+"@,
    ]
}

/// The lexer rules for C++ statements: whitespace and comments are
/// skipped, keywords come before identifiers, and any other run of
/// characters no rule names is skipped.
fn statements() -> (rules: Vec<LexerRule>)
    ensures
        rules@.len() == 8,
        plain_rule(rules@[0], r"[ \t\r\n]+", "whitespace", false),
        plain_rule(rules@[1], r"//[^\n]*", "line_comment", false),
        plain_rule(rules@[2], r"(?s)/\*.*?\*/", "block_comment", false),
        plain_rule(
            rules@[3],
            r"\b(template|struct|class|public|private|protected|typename|class|const|volatile)\b",
            "keyword",
            true,
        ),
        plain_rule(rules@[4], r"[A-Za-z_][A-Za-z0-9_]*", "identifier", true),
        plain_rule(rules@[5], r"[0-9]+(?:\.[0-9]+)?", "numeric_literal", true),
        plain_rule(rules@[6], r"\{|\}|\(|\)|;|:|,|<|>|\.|::|\*|&|=|\+|-|/|%|\[|\]", "punctuation", true),
        plain_rule(rules@[7], r"[^\sA-Za-z0-9_{}();:,.<>\[\]\*&=+/\-%]+", "irrelevant", false),
{
    vec![
        rule(r"[ \t\r\n]+", "whitespace", false),
        rule(r"//[^\n]*", "line_comment", false),
        rule(r"(?s)/\*.*?\*/", "block_comment", false),
        rule(
            r"\b(template|struct|class|public|private|protected|typename|class|const|volatile)\b",
            "keyword",
            true,
        ),
        rule(r"[A-Za-z_][A-Za-z0-9_]*", "identifier", true),
        rule(r"[0-9]+(?:\.[0-9]+)?", "numeric_literal", true),
        rule(r"\{|\}|\(|\)|;|:|,|<|>|\.|::|\*|&|=|\+|-|/|%|\[|\]", "punctuation", true),
        rule(r"[^\sA-Za-z0-9_{}();:,.<>\[\]\*&=+/\-%]+", "irrelevant", false),
    ]
}

/// An anchor rule with the one parser `anchor`, whose features are added to
/// the module.
fn anchor_rule<'input>(anchor: CppAnchor) -> (r: AnchorRule<'static, 'input, LazyStatefulLexer<'input>, Module, DeclaredFeature>)
    ensures
        forall|accumulator: Module, result: Module|
            #[trigger] rule_folds(r, accumulator, result) ==> exists|feature: ParsedFeature|
                feature_added(accumulator, feature, result) && declared_feature(feature),
{
    let mut parsers: Vec<Box<dyn Parser<'input, LazyStatefulLexer<'input>, DeclaredFeature>>> = Vec::new();
    parsers.push(Box::new(anchor));
    let r = AnchorRule { parsers, reducer: Box::new(DeclarationReducer) };
    proof {
        assert forall|accumulator: Module, result: Module| #[trigger] rule_folds(r, accumulator, result) implies exists|
            feature: ParsedFeature,
        | feature_added(accumulator, feature, result) && declared_feature(feature) by {
            let f = choose|f: DeclaredFeature| #[trigger] r.reducer.reduces(accumulator, f, result);
            assert(feature_added(accumulator, f.feature, result) && declared_feature(f.feature));
        }
    }
    r
}

/// Reads the functions, structs, classes and templates a C++ source
/// declares into a module at the root path.
pub fn parse(input: &str) -> (parsed: Result<Module, ParserError>)
    ensures
        parsed matches Ok(module) ==> module.path@.len() == 0 && declared_module(module),
        input@.len() == 0 && (forall|i: int|
            0 <= i < statement_patterns().len() ==> regex_compiles(#[trigger] statement_patterns()[i]))
            ==> (parsed matches Ok(module) && module.functions@.len() == 0 && module.types@.len() == 0),
{
    let rulesets = vec![("statements", statements())];
    proof {
        let names = ruleset_names(rulesets@);
        assert(names[0] == "statements");
        assert(name_index(names, "statements"@) == Some(0int));
        if forall|i: int| 0 <= i < statement_patterns().len() ==> regex_compiles(#[trigger] statement_patterns()[i]) {
            assert forall|i: int, j: int|
                0 <= i < rulesets@.len() && 0 <= j < rulesets@[i].1@.len() implies rule_accepted(
                #[trigger] rulesets@[i].1@[j],
                ruleset_names(rulesets@),
            ) by {
                assert(i == 0);
                assert(rulesets@[i].1@[j].pattern@ == statement_patterns()[j]);
            }
        }
    }
    let mut lexer = match LazyStatefulLexer::new(input, rulesets, "statements") {
        Ok(lexer) => lexer,
        Err(e) => {
            return Err(ParserError::from_lexer_error(e));
        },
    };
    proof {
        if input@.len() == 0 {
            lemma_at_end(lexer);
        }
    }
    let initial = Module { path: ModulePath::empty(), functions: Vec::new(), types: Vec::new() };
    let mut anchors: Vec<(AnchorLocation<'static>, AnchorRule<'static, '_, LazyStatefulLexer<'_>, Module, DeclaredFeature>)> = Vec::new();
    anchors.push((AnchorLocation::Exact { token_kind: "keyword", text: "template" }, anchor_rule(CppAnchor::Template)));
    anchors.push((AnchorLocation::Exact { token_kind: "keyword", text: "struct" }, anchor_rule(CppAnchor::Struct)));
    anchors.push((AnchorLocation::Exact { token_kind: "keyword", text: "class" }, anchor_rule(CppAnchor::Class)));
    anchors.push((AnchorLocation::Kind("identifier"), anchor_rule(CppAnchor::Function)));
    let ghost kept = |m: Module| declared_module(m);
    let parser = parse_at_anchors_keeping(initial, anchors, Ghost(kept));
    proof {
        assert forall|copy: Module| #[trigger] cloned(parser.initial, copy) implies kept(copy) by {
            assert(copy.functions@.len() == 0 && copy.types@.len() == 0);
        }
        assert forall|i: int, accumulator: Module, result: Module|
            0 <= i < parser.anchors@.len() && kept(accumulator) && #[trigger] rule_folds(
                parser.anchors@[i].1,
                accumulator,
                result,
            ) implies kept(result) by {
            let feature = choose|feature: ParsedFeature|
                feature_added(accumulator, feature, result) && declared_feature(feature);
            match feature {
                ParsedFeature::Function(f) => {
                    assert forall|j: int| 0 <= j < result.functions@.len() implies (#[trigger] result.functions@[j]).name@.len()
                        > 0 && positional_callable(result.functions@[j].callable) by {
                        if j < accumulator.functions@.len() {
                            assert(result.functions@[j] == accumulator.functions@[j]);
                        }
                    }
                },
                ParsedFeature::Type(t) => {
                    assert forall|j: int| 0 <= j < result.types@.len() implies declared_type(#[trigger] result.types@[j]) by {
                        if j < accumulator.types@.len() {
                            assert(result.types@[j] == accumulator.types@[j]);
                        }
                    }
                },
            }
        }
        assert(copies_kept(parser.initial, parser.kept@));
        assert(rules_keep(parser.anchors@, parser.kept@));
    }
    match parser.parse(&mut lexer) {
        Ok(module) => {
            let root = ModulePath::empty();
            Ok(Module { path: root, functions: module.functions, types: module.types })
        },
        Err(e) => Err(e),
    }
}

} // verus!
