//! Filling templates: placeholders written in a pattern of the caller's
//! choosing (such as `${name}`) are replaced by values looked up by name.
use vstd::prelude::*;

use crate::pattern::{
    compile_pattern, escape, escaped, group_captures, match_splits, regex_compiles, regex_group_captures,
    regex_match_splits, CompiledPattern,
};

verus! {

/// A generated file: its path, relative to an output root, and its content.
pub struct CodegenOutput {
    pub path: String,
    pub content: String,
}

/// What a name in a placeholder looks like.
pub const NAME_PATTERN: &'static str = r"[A-Za-z_][A-Za-z0-9_]*";

/// The text of [`NAME_PATTERN`].
pub open spec fn name_pattern() -> Seq<char> {
    seq!['[', 'A', '-', 'Z', 'a', '-', 'z', '_', ']', '[', 'A', '-', 'Z', 'a', '-', 'z', '0', '-', '9', '_', ']', '*']
}

/// Why a placeholder pattern was refused.
#[derive(Debug, Clone, PartialEq, Eq, Structural)]
pub enum TemplateError {
    InvalidPattern,
}

/// The opening of the capture group that takes a placeholder's name.
pub open spec fn key_group_open() -> Seq<char> {
    seq!['(', '?', 'P', '<', 'k', 'e', 'y', '>']
}

/// The regex that finds placeholders written as `prefix`, a name and
/// `suffix`: the two taken literally, the name captured as `key`.
pub open spec fn placeholder_source(prefix: Seq<char>, suffix: Seq<char>) -> Seq<char> {
    escaped(prefix) + key_group_open() + name_pattern() + seq![')'] + escaped(suffix)
}

/// The placeholder regex of a pattern in which names were matched as
/// `splits` (what comes before, the name, what comes after): there must be
/// exactly one name.
pub open spec fn placeholder_for(splits: Seq<(Seq<char>, Seq<char>, Seq<char>)>) -> Option<Seq<char>> {
    if splits.len() == 1 {
        Some(placeholder_source(splits[0].0, splits[0].2))
    } else {
        None
    }
}

/// The placeholder regex for a pattern whose names were found as `splits`
/// (for each, the text before it, the name and the text after it): the
/// text around the one name, escaped, about a group that captures a name
/// as `key`. A pattern with no name or with more than one is invalid.
pub fn placeholder_pattern(splits: &[(&str, &str, &str)]) -> (source: Result<String, TemplateError>)
    ensures
        match placeholder_for(splits@.map_values(|m: (&str, &str, &str)| (m.0@, m.1@, m.2@))) {
            Some(p) => source matches Ok(s) && s@ == p,
            None => source == Err::<String, TemplateError>(TemplateError::InvalidPattern),
        },
{
    if splits.len() != 1 {
        return Err(TemplateError::InvalidPattern);
    }
    let (prefix, _, suffix) = splits[0];
    let mut source = escape(prefix);
    proof {
        reveal_strlit("(?P<key>");
        reveal_strlit(")");
        reveal_strlit("[A-Za-z_][A-Za-z0-9_]*");
        assert("(?P<key>"@ =~= key_group_open());
        assert(")"@ =~= seq![')']);
        assert(NAME_PATTERN@ =~= name_pattern());
    }
    source.append("(?P<key>");
    source.append(NAME_PATTERN);
    source.append(")");
    let escaped_suffix = escape(suffix);
    source.append(escaped_suffix.as_str());
    Ok(source)
}

/// The placeholder regex of `pattern`, when one can be made: the name
/// regex compiles, the pattern holds exactly one name, and the regex made
/// from the text around it compiles.
pub open spec fn engine_source(pattern: Seq<char>) -> Option<Seq<char>> {
    if !regex_compiles(name_pattern()) {
        None
    } else {
        match placeholder_for(regex_match_splits(name_pattern(), pattern)) {
            Some(p) => if regex_compiles(p) {
                Some(p)
            } else {
                None
            },
            None => None,
        }
    }
}

/// Replaces placeholders in text.
pub struct TemplateEngine {
    placeholder: CompiledPattern,
}

impl View for TemplateEngine {
    type V = Seq<char>;

    /// The regex that finds placeholders.
    closed spec fn view(&self) -> Seq<char> {
        self.placeholder@
    }
}

/// The value of the last pair of `values` whose name is `key`.
pub open spec fn value_of(values: Seq<(Seq<char>, Seq<char>)>, key: Seq<char>) -> Option<Seq<char>>
    decreases values.len(),
{
    if values.len() == 0 {
        None
    } else if values.last().0 == key {
        Some(values.last().1)
    } else {
        value_of(values.drop_last(), key)
    }
}

/// The views of the pairs of `values`.
pub open spec fn value_views(values: Seq<(&str, &str)>) -> Seq<(Seq<char>, Seq<char>)> {
    values.map_values(|v: (&str, &str)| (v.0@, v.1@))
}

/// What a placeholder `whole` whose name is `key` is replaced by: the value
/// of that name, or the placeholder itself when there is none.
pub open spec fn replacement(values: Seq<(Seq<char>, Seq<char>)>, whole: Seq<char>, key: Option<Seq<char>>) -> Seq<char> {
    match key {
        Some(k) => match value_of(values, k) {
            Some(v) => v,
            None => whole,
        },
        None => whole,
    }
}

/// The views of the captures of `captures`.
pub open spec fn capture_views(captures: Seq<(&str, &str, Option<&str>)>) -> Seq<(Seq<char>, Seq<char>, Option<Seq<char>>)> {
    captures.map_values(
        |c: (&str, &str, Option<&str>)|
            (
                c.0@,
                c.1@,
                match c.2 {
                    Some(k) => Some(k@),
                    None => None,
                },
            ),
    )
}

/// Placeholders found in `input` as `captures` (for each, the text before
/// it, the placeholder and its name) lie in the input in order, without
/// overlapping.
pub open spec fn captures_fit(input: Seq<char>, captures: Seq<(Seq<char>, Seq<char>, Option<Seq<char>>)>) -> bool {
    &&& forall|i: int| 0 <= i < captures.len() ==> (#[trigger] captures[i].0 + captures[i].1).is_prefix_of(input)
    &&& forall|i: int, j: int|
        0 <= i < j < captures.len() ==> #[trigger] captures[i].0.len() + captures[i].1.len()
            <= #[trigger] captures[j].0.len()
}

/// Where the `i`-th placeholder of `captures` ends in the input (0 before
/// the first).
pub open spec fn end_of(captures: Seq<(Seq<char>, Seq<char>, Option<Seq<char>>)>, i: int) -> int {
    if i <= 0 {
        0
    } else {
        (captures[i - 1].0.len() + captures[i - 1].1.len()) as int
    }
}

/// The input up to the end of its `k`-th placeholder, with the first `k`
/// placeholders replaced.
pub open spec fn rendered_upto(
    input: Seq<char>,
    captures: Seq<(Seq<char>, Seq<char>, Option<Seq<char>>)>,
    values: Seq<(Seq<char>, Seq<char>)>,
    k: int,
) -> Seq<char>
    decreases k,
{
    if k <= 0 {
        Seq::empty()
    } else {
        rendered_upto(input, captures, values, k - 1) + input.subrange(end_of(captures, k - 1), captures[k - 1].0.len() as int)
            + replacement(values, captures[k - 1].1, captures[k - 1].2)
    }
}

/// `input` with each placeholder of `captures` replaced.
pub open spec fn rendered(
    input: Seq<char>,
    captures: Seq<(Seq<char>, Seq<char>, Option<Seq<char>>)>,
    values: Seq<(Seq<char>, Seq<char>)>,
) -> Seq<char> {
    rendered_upto(input, captures, values, captures.len() as int) + input.subrange(
        end_of(captures, captures.len() as int),
        input.len() as int,
    )
}

/// Every placeholder of `captures` is replaced by itself: none has a name
/// with a value.
pub open spec fn nothing_replaced(
    captures: Seq<(Seq<char>, Seq<char>, Option<Seq<char>>)>,
    values: Seq<(Seq<char>, Seq<char>)>,
) -> bool {
    forall|i: int| 0 <= i < captures.len() ==> #[trigger] replacement(values, captures[i].1, captures[i].2) == captures[i].1
}

/// Rendering leaves the input as it is when no placeholder has a value.
pub proof fn lemma_render_unchanged(
    input: Seq<char>,
    captures: Seq<(Seq<char>, Seq<char>, Option<Seq<char>>)>,
    values: Seq<(Seq<char>, Seq<char>)>,
)
    requires
        captures_fit(input, captures),
        nothing_replaced(captures, values),
    ensures
        rendered(input, captures, values) == input,
{
    lemma_rendered_prefix(input, captures, values, captures.len() as int);
    let end = end_of(captures, captures.len() as int);
    assert(input.subrange(0, end) + input.subrange(end, input.len() as int) =~= input);
}

/// With nothing replaced, the first `k` placeholders rendered are the
/// input up to the end of the `k`-th.
proof fn lemma_rendered_prefix(
    input: Seq<char>,
    captures: Seq<(Seq<char>, Seq<char>, Option<Seq<char>>)>,
    values: Seq<(Seq<char>, Seq<char>)>,
    k: int,
)
    requires
        captures_fit(input, captures),
        nothing_replaced(captures, values),
        0 <= k <= captures.len(),
    ensures
        0 <= end_of(captures, k) <= input.len(),
        rendered_upto(input, captures, values, k) == input.subrange(0, end_of(captures, k)),
    decreases k,
{
    if k > 0 {
        lemma_rendered_prefix(input, captures, values, k - 1);
        let c = captures[k - 1];
        assert((c.0 + c.1).is_prefix_of(input));
        if k > 1 {
            assert(captures[k - 2].0.len() + captures[k - 2].1.len() <= captures[k - 1].0.len());
        }
        assert(replacement(values, c.1, c.2) == c.1);
        assert(c.1 =~= input.subrange(c.0.len() as int, end_of(captures, k))) by {
            assert forall|j: int| 0 <= j < c.1.len() implies c.1[j] == input[c.0.len() + j] by {
                assert((c.0 + c.1)[c.0.len() + j] == c.1[j]);
                assert((c.0 + c.1) =~= input.subrange(0, (c.0 + c.1).len() as int));
            }
        }
        assert(input.subrange(0, end_of(captures, k - 1)) + input.subrange(end_of(captures, k - 1), c.0.len() as int)
            + c.1 =~= input.subrange(0, end_of(captures, k)));
    }
}

/// The value of the last pair of `values` named `key`.
fn lookup<'v>(values: &[(&'v str, &'v str)], key: &str) -> (found: Option<&'v str>)
    ensures
        match value_of(value_views(values@), key@) {
            Some(v) => found matches Some(f) && f@ == v,
            None => found is None,
        },
{
    let mut i = values.len();
    proof {
        assert(values@.take(i as int) =~= values@);
    }
    while i > 0
        invariant
            i <= values@.len(),
            value_of(value_views(values@), key@) == value_of(value_views(values@.take(i as int)), key@),
        decreases i,
    {
        proof {
            assert(value_views(values@.take(i as int)).drop_last() =~= value_views(values@.take(i - 1)));
        }
        if crate::text::str_equal(values[i - 1].0, key) {
            return Some(values[i - 1].1);
        }
        i = i - 1;
    }
    proof {
        assert(value_views(values@.take(0)) =~= Seq::<(Seq<char>, Seq<char>)>::empty());
    }
    None
}

/// Replaces each placeholder found in `input` as `captures` (for each, the
/// text before it, the placeholder and its name) by the value of its name
/// in `values` (the last pair of that name), keeping placeholders whose
/// name has no value, and everything around them.
pub fn render_captures(input: &str, captures: &[(&str, &str, Option<&str>)], values: &[(&str, &str)]) -> (output: String)
    requires
        captures_fit(input@, capture_views(captures@)),
    ensures
        output@ == rendered(input@, capture_views(captures@), value_views(values@)),
{
    let ghost cs = capture_views(captures@);
    let ghost vs = value_views(values@);
    let n = input.unicode_len();
    let m = captures.len();
    let mut output = String::new();
    let mut end: usize = 0;
    let mut i: usize = 0;
    while i < m
        invariant
            n == input@.len(),
            m == captures@.len(),
            cs == capture_views(captures@),
            vs == value_views(values@),
            captures_fit(input@, cs),
            0 <= i <= m,
            end == end_of(cs, i as int),
            end <= n,
            output@ == rendered_upto(input@, cs, vs, i as int),
        decreases m - i,
    {
        let (before, whole, key) = captures[i];
        proof {
            assert(cs[i as int].0 == before@ && cs[i as int].1 == whole@);
            assert((cs[i as int].0 + cs[i as int].1).is_prefix_of(input@));
            if i > 0 {
                assert(cs[i - 1].0.len() + cs[i - 1].1.len() <= cs[i as int].0.len());
            }
        }
        let start = before.unicode_len();
        let gap = input.substring_char(end, start);
        output.append(gap);
        let replaced = match key {
            Some(k) => match lookup(values, k) {
                Some(v) => v,
                None => whole,
            },
            None => whole,
        };
        output.append(replaced);
        end = start + whole.unicode_len();
        i = i + 1;
    }
    let tail = input.substring_char(end, n);
    output.append(tail);
    output
}

impl TemplateEngine {
    /// Makes an engine for placeholders written as `pattern` is: a name
    /// with fixed text around it, such as `${name}` or `{{name}}`. The
    /// pattern must hold exactly one name (a letter or `_`, then letters,
    /// digits and `_`).
    pub fn new(pattern: &str) -> (engine: Result<Self, TemplateError>)
        ensures
            match engine_source(pattern@) {
                Some(p) => engine matches Ok(e) && e@ == p,
                None => engine matches Err(e) && e == TemplateError::InvalidPattern,
            },
    {
        proof {
            reveal_strlit("[A-Za-z_][A-Za-z0-9_]*");
            assert(NAME_PATTERN@ =~= name_pattern());
        }
        let names = match compile_pattern(NAME_PATTERN) {
            Ok(names) => names,
            Err(_) => {
                return Err(TemplateError::InvalidPattern);
            },
        };
        let splits = match_splits(&names, pattern);
        let source = match placeholder_pattern(splits.as_slice()) {
            Ok(source) => source,
            Err(e) => {
                return Err(e);
            },
        };
        match compile_pattern(source.as_str()) {
            Ok(placeholder) => Ok(TemplateEngine { placeholder }),
            Err(_) => Err(TemplateError::InvalidPattern),
        }
    }

    /// Replaces each placeholder in `input` by the value of its name in
    /// `values` (the last pair of that name); a placeholder whose name has
    /// no value is kept as it is.
    pub fn render(&self, input: &str, values: &[(&str, &str)]) -> (output: String)
        ensures
            output@ == rendered(input@, regex_group_captures(self@, input@, "key"@), value_views(values@)),
            nothing_replaced(regex_group_captures(self@, input@, "key"@), value_views(values@)) ==> output@ == input@,
    {
        let captures = group_captures(&self.placeholder, input, "key");
        proof {
            let cs = capture_views(captures@);
            assert forall|i: int| 0 <= i < cs.len() implies (#[trigger] cs[i].0 + cs[i].1).is_prefix_of(input@) by {
                assert((captures@[i].0@ + captures@[i].1@).is_prefix_of(input@));
            }
            assert forall|i: int, j: int| 0 <= i < j < cs.len() implies #[trigger] cs[i].0.len() + cs[i].1.len()
                <= #[trigger] cs[j].0.len() by {
                assert(captures@[i].0@.len() + captures@[i].1@.len() <= captures@[j].0@.len());
            }
            if nothing_replaced(cs, value_views(values@)) {
                lemma_render_unchanged(input@, cs, value_views(values@));
            }
        }
        render_captures(input, captures.as_slice(), values)
    }
}

} // verus!
