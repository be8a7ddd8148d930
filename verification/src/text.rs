//! Character-sequence helpers shared by the rest of the crate: joining
//! rendered pieces with a separator, as generated code is assembled.
use vstd::prelude::*;
use vstd::string::*;

verus! {

/// The pieces of `parts` laid end to end with `separator` between each
/// neighbouring pair (no separator before the first or after the last).
pub open spec fn join_seqs(parts: Seq<Seq<char>>, separator: Seq<char>) -> Seq<char>
    decreases parts.len(),
{
    if parts.len() == 0 {
        Seq::empty()
    } else if parts.len() == 1 {
        parts[0]
    } else {
        join_seqs(parts.drop_last(), separator) + separator + parts.last()
    }
}

/// The character view of each string of `strings`.
pub open spec fn string_views(strings: Seq<String>) -> Seq<Seq<char>> {
    strings.map_values(|s: String| s@)
}

/// Joins `parts` with `separator`, as `[String]::join` does.
pub fn join_strings(parts: &Vec<String>, separator: &str) -> (joined: String)
    ensures
        joined@ == join_seqs(string_views(parts@), separator@),
{
    let mut joined = String::new();
    let ghost views = string_views(parts@);
    let n = parts.len();
    let mut i: usize = 0;
    while i < n
        invariant
            n == parts.len(),
            0 <= i <= n,
            views == string_views(parts@),
            joined@ == join_seqs(views.take(i as int), separator@),
        decreases n - i,
    {
        if i != 0 {
            joined.append(separator);
        }
        joined.append(parts[i].as_str());
        proof {
            assert(views.take(i + 1).drop_last() =~= views.take(i as int));
        }
        i = i + 1;
    }
    proof {
        assert(views.take(n as int) =~= views);
    }
    joined
}

/// Copies a string slice into an owned string.
pub fn owned(s: &str) -> (r: String)
    ensures
        r@ == s@,
{
    s.to_owned()
}

/// Whether two string slices hold the same characters.
pub(crate) fn str_equal(a: &str, b: &str) -> (equal: bool)
    ensures
        equal == (a@ == b@),
{
    let n = a.unicode_len();
    if n != b.unicode_len() {
        return false;
    }
    let mut i: usize = 0;
    while i < n
        invariant
            n == a@.len(),
            n == b@.len(),
            0 <= i <= n,
            forall|j: int| 0 <= j < i ==> a@[j] == b@[j],
        decreases n - i,
    {
        if a.get_char(i) != b.get_char(i) {
            return false;
        }
        i = i + 1;
    }
    assert(a@ =~= b@);
    true
}

/// Whether `text` begins with `prefix`.
pub fn is_prefix(prefix: &str, text: &str) -> (b: bool)
    ensures
        b == prefix@.is_prefix_of(text@),
{
    let n = prefix.unicode_len();
    let m = text.unicode_len();
    if n > m {
        return false;
    }
    let mut i: usize = 0;
    while i < n
        invariant
            n == prefix@.len(),
            m == text@.len(),
            n <= m,
            0 <= i <= n,
            forall|j: int| 0 <= j < i ==> prefix@[j] == text@[j],
        decreases n - i,
    {
        if prefix.get_char(i) != text.get_char(i) {
            return false;
        }
        i = i + 1;
    }
    proof {
        assert(prefix@ =~= text@.subrange(0, n as int));
    }
    true
}

/// Whether `c` has the Unicode `White_Space` property (what
/// `char::is_whitespace` tests).
pub open spec fn is_white_space(c: char) -> bool {
    let v = c as u32;
    ||| 0x9 <= v <= 0xD
    ||| v == 0x20
    ||| v == 0x85
    ||| v == 0xA0
    ||| v == 0x1680
    ||| 0x2000 <= v <= 0x200A
    ||| v == 0x2028
    ||| v == 0x2029
    ||| v == 0x202F
    ||| v == 0x205F
    ||| v == 0x3000
}

/// Whether `c` is white space.
pub fn white_space(c: char) -> (b: bool)
    ensures
        b == is_white_space(c),
{
    let v = c as u32;
    (0x9 <= v && v <= 0xD) || v == 0x20 || v == 0x85 || v == 0xA0 || v == 0x1680 || (0x2000 <= v
        && v <= 0x200A) || v == 0x2028 || v == 0x2029 || v == 0x202F || v == 0x205F || v == 0x3000
}

/// The index of the first character of `s` at or after `i` that is not
/// white space (the length when there is none).
pub open spec fn first_non_white_from(s: Seq<char>, i: int) -> int
    decreases s.len() - i,
{
    if i < 0 || i >= s.len() || !is_white_space(s[i]) {
        i
    } else {
        first_non_white_from(s, i + 1)
    }
}

/// The end of `s` before `j` without the white space that precedes `j`:
/// the index after the last character before `j` that is not white space.
pub open spec fn non_white_end_before(s: Seq<char>, j: int) -> int
    decreases j,
{
    if j <= 0 || j > s.len() || !is_white_space(s[j - 1]) {
        j
    } else {
        non_white_end_before(s, j - 1)
    }
}

/// `s` without its leading white space.
pub open spec fn trimmed_start(s: Seq<char>) -> Seq<char> {
    s.subrange(first_non_white_from(s, 0), s.len() as int)
}

/// `s` without its leading and trailing white space.
pub open spec fn trimmed(s: Seq<char>) -> Seq<char> {
    let start = first_non_white_from(s, 0);
    if start >= s.len() {
        Seq::empty()
    } else {
        s.subrange(start, non_white_end_before(s, s.len() as int))
    }
}

/// The first character from `i` on that is not white space: everything
/// before it from `i` is white space.
pub proof fn lemma_first_non_white(s: Seq<char>, i: int)
    requires
        0 <= i <= s.len(),
    ensures
        i <= first_non_white_from(s, i) <= s.len(),
        first_non_white_from(s, i) < s.len() ==> !is_white_space(s[first_non_white_from(s, i)]),
        forall|j: int| i <= j < first_non_white_from(s, i) ==> is_white_space(#[trigger] s[j]),
    decreases s.len() - i,
{
    if i < s.len() && is_white_space(s[i]) {
        lemma_first_non_white(s, i + 1);
    }
}

/// The end of `s` before `j` without trailing white space: everything
/// after it up to `j` is white space.
pub proof fn lemma_non_white_end(s: Seq<char>, j: int)
    requires
        0 <= j <= s.len(),
    ensures
        0 <= non_white_end_before(s, j) <= j,
        non_white_end_before(s, j) > 0 ==> !is_white_space(s[non_white_end_before(s, j) - 1]),
        forall|k: int| non_white_end_before(s, j) <= k < j ==> is_white_space(#[trigger] s[k]),
    decreases j,
{
    if j > 0 && is_white_space(s[j - 1]) {
        lemma_non_white_end(s, j - 1);
    }
}

/// The index of the first non-white character at or after `from`.
fn skip_white(s: &str, from: usize) -> (index: usize)
    requires
        from <= s@.len(),
    ensures
        index == first_non_white_from(s@, from as int),
{
    let n = s.unicode_len();
    let mut i = from;
    while i < n && white_space(s.get_char(i))
        invariant
            n == s@.len(),
            from <= i <= n,
            first_non_white_from(s@, from as int) == first_non_white_from(s@, i as int),
        decreases n - i,
    {
        i = i + 1;
    }
    i
}

/// The index after the last non-white character before `to`.
fn back_over_white(s: &str, to: usize) -> (index: usize)
    requires
        to <= s@.len(),
    ensures
        index == non_white_end_before(s@, to as int),
{
    let mut j = to;
    while j > 0 && white_space(s.get_char(j - 1))
        invariant
            j <= to <= s@.len(),
            non_white_end_before(s@, to as int) == non_white_end_before(s@, j as int),
        decreases j,
    {
        j = j - 1;
    }
    j
}

/// `s` without its leading white space, as `str::trim_start`.
pub fn trim_start(s: &str) -> (t: &str)
    ensures
        t@ == trimmed_start(s@),
{
    let n = s.unicode_len();
    let start = skip_white(s, 0);
    proof {
        lemma_first_non_white(s@, 0);
    }
    s.substring_char(start, n)
}

/// `s` without leading and trailing white space, as `str::trim`.
pub fn trim(s: &str) -> (t: &str)
    ensures
        t@ == trimmed(s@),
{
    let n = s.unicode_len();
    let start = skip_white(s, 0);
    proof {
        lemma_first_non_white(s@, 0);
    }
    if start >= n {
        return s.substring_char(n, n);
    }
    let end = back_over_white(s, n);
    proof {
        lemma_non_white_end(s@, n as int);
        if end <= start {
            assert(is_white_space(s@[start as int]));
        }
    }
    s.substring_char(start, end)
}

/// The first index at or after `i` where `s` holds `c`.
pub open spec fn find_from(s: Seq<char>, c: char, i: int) -> Option<int>
    decreases s.len() - i,
{
    if i < 0 || i >= s.len() {
        None
    } else if s[i] == c {
        Some(i)
    } else {
        find_from(s, c, i + 1)
    }
}

/// What [`find_from`] finds: the first occurrence of `c` from `i` on.
pub proof fn lemma_find_from(s: Seq<char>, c: char, i: int)
    requires
        0 <= i,
    ensures
        find_from(s, c, i) matches Some(j) ==> i <= j < s.len() && s[j] == c && forall|k: int|
            i <= k < j ==> #[trigger] s[k] != c,
        find_from(s, c, i) is None ==> forall|k: int| i <= k < s.len() ==> #[trigger] s[k] != c,
    decreases s.len() - i,
{
    if i < s.len() && s[i] != c {
        lemma_find_from(s, c, i + 1);
    }
}

/// The last index before `j` where `s` holds `c`.
pub open spec fn rfind_before(s: Seq<char>, c: char, j: int) -> Option<int>
    decreases j,
{
    if j <= 0 || j > s.len() {
        None
    } else if s[j - 1] == c {
        Some(j - 1)
    } else {
        rfind_before(s, c, j - 1)
    }
}

/// What [`rfind_before`] finds: the last occurrence of `c` before `j`.
pub proof fn lemma_rfind_before(s: Seq<char>, c: char, j: int)
    requires
        j <= s.len(),
    ensures
        rfind_before(s, c, j) matches Some(i) ==> 0 <= i < j && s[i] == c && forall|k: int|
            i < k < j ==> #[trigger] s[k] != c,
        rfind_before(s, c, j) is None ==> forall|k: int| 0 <= k < j ==> #[trigger] s[k] != c,
    decreases j,
{
    if j > 0 && s[j - 1] != c {
        lemma_rfind_before(s, c, j - 1);
    }
}

/// The last index before `j` where `s` holds white space.
pub open spec fn rfind_white_before(s: Seq<char>, j: int) -> Option<int>
    decreases j,
{
    if j <= 0 || j > s.len() {
        None
    } else if is_white_space(s[j - 1]) {
        Some(j - 1)
    } else {
        rfind_white_before(s, j - 1)
    }
}

/// What [`rfind_white_before`] finds: a white space character before `j`.
pub proof fn lemma_rfind_white_before(s: Seq<char>, j: int)
    requires
        j <= s.len(),
    ensures
        rfind_white_before(s, j) matches Some(i) ==> 0 <= i < j && is_white_space(s[i]),
    decreases j,
{
    if j > 0 && !is_white_space(s[j - 1]) {
        lemma_rfind_white_before(s, j - 1);
    }
}

/// The first index of `c` in `s`, as `str::find` with a character (counted
/// in characters).
pub fn find_char(s: &str, c: char) -> (found: Option<usize>)
    ensures
        match found {
            Some(f) => find_from(s@, c, 0) == Some(f as int),
            None => find_from(s@, c, 0) is None,
        },
{
    let n = s.unicode_len();
    let mut i: usize = 0;
    while i < n
        invariant
            n == s@.len(),
            0 <= i <= n,
            find_from(s@, c, 0) == find_from(s@, c, i as int),
        decreases n - i,
    {
        if s.get_char(i) == c {
            return Some(i);
        }
        i = i + 1;
    }
    None
}

/// The last index of `c` in `s`, as `str::rfind` with a character.
pub fn rfind_char(s: &str, c: char) -> (found: Option<usize>)
    ensures
        match found {
            Some(f) => rfind_before(s@, c, s@.len() as int) == Some(f as int),
            None => rfind_before(s@, c, s@.len() as int) is None,
        },
{
    let n = s.unicode_len();
    let mut j: usize = n;
    while j > 0
        invariant
            n == s@.len(),
            0 <= j <= n,
            rfind_before(s@, c, n as int) == rfind_before(s@, c, j as int),
        decreases j,
    {
        if s.get_char(j - 1) == c {
            return Some(j - 1);
        }
        j = j - 1;
    }
    None
}

/// The last index of white space in `s`, as `str::rfind(char::is_whitespace)`.
pub fn rfind_white(s: &str) -> (found: Option<usize>)
    ensures
        match found {
            Some(f) => rfind_white_before(s@, s@.len() as int) == Some(f as int),
            None => rfind_white_before(s@, s@.len() as int) is None,
        },
{
    let n = s.unicode_len();
    let mut j: usize = n;
    while j > 0
        invariant
            n == s@.len(),
            0 <= j <= n,
            rfind_white_before(s@, n as int) == rfind_white_before(s@, j as int),
        decreases j,
    {
        if white_space(s.get_char(j - 1)) {
            return Some(j - 1);
        }
        j = j - 1;
    }
    None
}

/// `s` with every non-overlapping occurrence of `from`, left to right,
/// replaced by `to` (`from` is not empty).
pub open spec fn replaced(s: Seq<char>, from: Seq<char>, to: Seq<char>) -> Seq<char>
    decreases s.len(),
{
    if from.len() == 0 || s.len() < from.len() {
        s
    } else if s.take(from.len() as int) == from {
        to + replaced(s.skip(from.len() as int), from, to)
    } else {
        seq![s[0]] + replaced(s.drop_first(), from, to)
    }
}

/// Whether `s` holds `pattern` at `at`.
fn holds_at(s: &str, at: usize, pattern: &str) -> (b: bool)
    requires
        at <= s@.len(),
    ensures
        b == (at + pattern@.len() <= s@.len() && s@.subrange(at as int, at + pattern@.len()) == pattern@),
{
    let n = s.unicode_len();
    let m = pattern.unicode_len();
    if m > n - at {
        return false;
    }
    let mut k: usize = 0;
    while k < m
        invariant
            n == s@.len(),
            m == pattern@.len(),
            at + m <= n,
            0 <= k <= m,
            forall|q: int| 0 <= q < k ==> s@[at + q] == pattern@[q],
        decreases m - k,
    {
        if s.get_char(at + k) != pattern.get_char(k) {
            proof {
                assert(s@.subrange(at as int, at + m)[k as int] != pattern@[k as int]);
            }
            return false;
        }
        k = k + 1;
    }
    proof {
        assert(s@.subrange(at as int, at + m) =~= pattern@);
    }
    true
}

/// `s` with `from` replaced by `to`, as `str::replace`.
pub fn replace(s: &str, from: &str, to: &str) -> (r: String)
    requires
        from@.len() > 0,
    ensures
        r@ == replaced(s@, from@, to@),
{
    let n = s.unicode_len();
    let m = from.unicode_len();
    let mut out = String::new();
    let mut i: usize = 0;
    proof {
        assert(s@.skip(0) =~= s@);
        assert(out@ + replaced(s@.skip(0), from@, to@) =~= replaced(s@, from@, to@));
    }
    while i < n
        invariant
            n == s@.len(),
            m == from@.len(),
            m > 0,
            0 <= i <= n,
            out@ + replaced(s@.skip(i as int), from@, to@) == replaced(s@, from@, to@),
        decreases n - i,
    {
        let ghost rest = s@.skip(i as int);
        if holds_at(s, i, from) {
            proof {
                assert(rest.take(m as int) =~= s@.subrange(i as int, i + m));
                assert(rest.skip(m as int) =~= s@.skip(i + m));
                assert(out@ + to@ + replaced(s@.skip(i + m), from@, to@) =~= out@ + (to@ + replaced(
                    rest.skip(m as int),
                    from@,
                    to@,
                )));
            }
            out.append(to);
            i = i + m;
        } else {
            proof {
                if rest.len() >= m {
                    assert(rest.take(m as int) =~= s@.subrange(i as int, i + m));
                }
                assert(rest.drop_first() =~= s@.skip(i + 1));
                assert(rest[0] == s@[i as int]);
            }
            let c = s.get_char(i);
            let piece = s.substring_char(i, i + 1);
            proof {
                assert(piece@ =~= seq![c]);
                if rest.len() >= m {
                    assert(out@ + piece@ + replaced(s@.skip(i + 1), from@, to@) =~= out@ + (seq![rest[0]]
                        + replaced(rest.drop_first(), from@, to@)));
                } else {
                    assert(rest.len() < m);
                }
            }
            out.append(piece);
            i = i + 1;
        }
    }
    proof {
        assert(s@.skip(n as int) =~= Seq::<char>::empty());
        assert(out@ + Seq::<char>::empty() =~= out@);
    }
    out
}

/// The pieces of `s` between non-overlapping occurrences of `separator`
/// (found left to right), for a piece that began at `start`, scanning on at
/// `i`; empty pieces included, as `str::split` gives them.
pub open spec fn split_from(s: Seq<char>, separator: Seq<char>, start: int, i: int) -> Seq<Seq<char>>
    decreases s.len() - i,
{
    if separator.len() == 0 || i < 0 || i + separator.len() > s.len() {
        seq![s.subrange(start, s.len() as int)]
    } else if s.subrange(i, i + separator.len()) == separator {
        seq![s.subrange(start, i)] + split_from(s, separator, i + separator.len(), i + separator.len())
    } else {
        split_from(s, separator, start, i + 1)
    }
}

/// `line` without the carriage return that ends it, if it ends with one.
pub open spec fn without_carriage_return(line: Seq<char>) -> Seq<char> {
    if line.len() > 0 && line.last() == '\r' {
        line.drop_last()
    } else {
        line
    }
}

/// The lines of `s`, scanning from `i` with the current line begun at
/// `start`, as `str::lines` gives them: split at each `\n`, a `\r` just
/// before it dropped, and no empty line after a final `\n`.
pub open spec fn lines_from(s: Seq<char>, start: int, i: int) -> Seq<Seq<char>>
    decreases s.len() - i,
{
    if start < 0 || i < start || i > s.len() {
        Seq::empty()
    } else if i == s.len() {
        if start < s.len() {
            seq![s.subrange(start, s.len() as int)]
        } else {
            Seq::empty()
        }
    } else if s[i] == '\n' {
        seq![without_carriage_return(s.subrange(start, i))] + lines_from(s, i + 1, i + 1)
    } else {
        lines_from(s, start, i + 1)
    }
}

/// The lines of `s`, as `str::lines` gives them.
pub open spec fn lines_of(s: Seq<char>) -> Seq<Seq<char>> {
    lines_from(s, 0, 0)
}

/// The lengths of `lines` added up.
pub open spec fn total_length(lines: Seq<Seq<char>>) -> nat
    decreases lines.len(),
{
    if lines.len() == 0 {
        0
    } else {
        lines[0].len() + total_length(lines.drop_first())
    }
}

/// The lines of `s` from `start` on hold no more characters than `s` has
/// from `start` on.
pub proof fn lemma_lines_length(s: Seq<char>, start: int, i: int)
    requires
        0 <= start <= i <= s.len(),
    ensures
        total_length(lines_from(s, start, i)) <= s.len() - start,
    decreases s.len() - i,
{
    if i == s.len() {
        if start < s.len() {
            let lines = lines_from(s, start, i);
            assert(lines.drop_first() =~= Seq::<Seq<char>>::empty());
            assert(total_length(lines.drop_first()) == 0);
        }
    } else if s[i] == '\n' {
        lemma_lines_length(s, i + 1, i + 1);
        let rest = lines_from(s, i + 1, i + 1);
        let lines = lines_from(s, start, i);
        let line = without_carriage_return(s.subrange(start, i));
        assert(lines == seq![line] + rest);
        assert(lines.drop_first() =~= rest);
        assert(lines[0] == line);
        assert(line.len() <= i - start);
        assert(total_length(lines) == line.len() + total_length(rest));
    } else {
        lemma_lines_length(s, start, i + 1);
    }
}

/// The lines of `s`, as `str::lines`: split at each `\n`, with a `\r` just
/// before it dropped.
pub fn lines<'a>(s: &'a str) -> (lines: Vec<&'a str>)
    ensures
        lines@.map_values(|l: &'a str| l@) == lines_of(s@),
{
    let n = s.unicode_len();
    let mut lines: Vec<&'a str> = Vec::new();
    let mut start: usize = 0;
    let mut i: usize = 0;
    while i < n
        invariant
            n == s@.len(),
            0 <= start <= i <= n,
            lines@.map_values(|l: &'a str| l@) + lines_from(s@, start as int, i as int) == lines_of(s@),
        decreases n - i,
    {
        if s.get_char(i) == '\n' {
            let mut end = i;
            if i > start && s.get_char(i - 1) == '\r' {
                end = i - 1;
            }
            let line = s.substring_char(start, end);
            proof {
                assert(line@ =~= without_carriage_return(s@.subrange(start as int, i as int)));
            }
            let ghost before = lines@.map_values(|l: &'a str| l@);
            lines.push(line);
            proof {
                assert(lines@.map_values(|l: &'a str| l@) =~= before.push(line@));
                assert(before.push(line@) + lines_from(s@, i + 1, i + 1) =~= before + (seq![line@]
                    + lines_from(s@, i + 1, i + 1)));
            }
            i = i + 1;
            start = i;
        } else {
            i = i + 1;
        }
    }
    if start < n {
        let line = s.substring_char(start, n);
        let ghost before = lines@.map_values(|l: &'a str| l@);
        lines.push(line);
        proof {
            assert(lines@.map_values(|l: &'a str| l@) =~= before + seq![line@]);
        }
    } else {
        proof {
            assert(lines@.map_values(|l: &'a str| l@) =~= lines@.map_values(|l: &'a str| l@) + Seq::<Seq<char>>::empty());
        }
    }
    lines
}

/// The code of `c`, with an ASCII capital letter taken as its small one.
pub open spec fn ascii_lower(c: char) -> u32 {
    if 'A' <= c <= 'Z' {
        ((c as u32) + 32) as u32
    } else {
        c as u32
    }
}

/// `a` and `b` are the same text when ASCII letters are compared without
/// regard to case, as `str::eq_ignore_ascii_case` decides.
pub open spec fn equal_ignoring_ascii_case(a: Seq<char>, b: Seq<char>) -> bool {
    &&& a.len() == b.len()
    &&& forall|i: int| 0 <= i < a.len() ==> ascii_lower(#[trigger] a[i]) == ascii_lower(b[i])
}

/// The code of `c`, with an ASCII capital letter taken as its small one.
fn lower_ascii_code(c: char) -> (l: u32)
    ensures
        l == ascii_lower(c),
{
    if 'A' <= c && c <= 'Z' {
        (c as u32) + 32
    } else {
        c as u32
    }
}

/// Whether `a` and `b` are equal when ASCII letters are compared without
/// regard to case, as `str::eq_ignore_ascii_case`.
pub fn eq_ignore_ascii_case(a: &str, b: &str) -> (equal: bool)
    ensures
        equal == equal_ignoring_ascii_case(a@, b@),
{
    let n = a.unicode_len();
    if n != b.unicode_len() {
        return false;
    }
    let mut i: usize = 0;
    while i < n
        invariant
            n == a@.len(),
            n == b@.len(),
            0 <= i <= n,
            forall|j: int| 0 <= j < i ==> ascii_lower(#[trigger] a@[j]) == ascii_lower(b@[j]),
        decreases n - i,
    {
        if lower_ascii_code(a.get_char(i)) != lower_ascii_code(b.get_char(i)) {
            return false;
        }
        i = i + 1;
    }
    true
}

/// The decimal digit `d` (below ten) as a character.
pub open spec fn digit_char(d: nat) -> char {
    "0123456789"@[d as int]
}

/// `n` written in decimal.
pub open spec fn decimal(n: nat) -> Seq<char>
    decreases n,
{
    if n < 10 {
        seq![digit_char(n)]
    } else {
        decimal(n / 10) + seq![digit_char(n % 10)]
    }
}

/// `n` written in decimal, as `usize::to_string`.
pub fn decimal_text(n: usize) -> (text: String)
    ensures
        text@ == decimal(n as nat),
    decreases n,
{
    let digits = "0123456789";
    proof {
        reveal_strlit("0123456789");
    }
    if n < 10 {
        let digit = digits.substring_char(n, n + 1);
        proof {
            assert(digit@ =~= seq![digit_char(n as nat)]);
        }
        String::from_str(digit)
    } else {
        let mut text = decimal_text(n / 10);
        let d = n % 10;
        let digit = digits.substring_char(d, d + 1);
        proof {
            assert(digit@ =~= seq![digit_char(d as nat)]);
        }
        text.append(digit);
        text
    }
}

/// The pieces of `s` between the occurrences of `separator`.
pub fn split_str<'a>(s: &'a str, separator: &str) -> (pieces: Vec<&'a str>)
    requires
        separator@.len() > 0,
    ensures
        pieces@.map_values(|p: &'a str| p@) == split_from(s@, separator@, 0, 0),
{
    let n = s.unicode_len();
    let m = separator.unicode_len();
    let mut pieces: Vec<&'a str> = Vec::new();
    let mut start: usize = 0;
    let mut i: usize = 0;
    while m <= n && i <= n - m
        invariant
            n == s@.len(),
            m == separator@.len(),
            m > 0,
            0 <= start <= i,
            i <= n,
            pieces@.map_values(|p: &'a str| p@) + split_from(s@, separator@, start as int, i as int)
                == split_from(s@, separator@, 0, 0),
        decreases n - i,
    {
        if holds_at(s, i, separator) {
            let piece = s.substring_char(start, i);
            let ghost before = pieces@.map_values(|p: &'a str| p@);
            pieces.push(piece);
            proof {
                assert(pieces@.map_values(|p: &'a str| p@) =~= before.push(piece@));
                assert(before.push(piece@) + split_from(s@, separator@, i + m, i + m) =~= before + (
                seq![piece@] + split_from(s@, separator@, i + m, i + m)));
            }
            i = i + m;
            start = i;
        } else {
            i = i + 1;
        }
    }
    let tail = s.substring_char(start, n);
    let ghost before = pieces@.map_values(|p: &'a str| p@);
    pieces.push(tail);
    proof {
        assert(pieces@.map_values(|p: &'a str| p@) =~= before + seq![tail@]);
    }
    pieces
}

/// `s` without `suffix` at its end, if it ends with it.
pub open spec fn without_suffix(s: Seq<char>, suffix: Seq<char>) -> Option<Seq<char>> {
    if suffix.len() <= s.len() && s.subrange(s.len() - suffix.len(), s.len() as int) == suffix {
        Some(s.subrange(0, s.len() - suffix.len()))
    } else {
        None
    }
}

/// `s` without `suffix`, as `str::strip_suffix`.
pub fn strip_suffix<'a>(s: &'a str, suffix: &str) -> (stripped: Option<&'a str>)
    ensures
        match without_suffix(s@, suffix@) {
            Some(t) => stripped matches Some(r) && r@ == t,
            None => stripped is None,
        },
{
    let n = s.unicode_len();
    let m = suffix.unicode_len();
    if m > n {
        return None;
    }
    if holds_at(s, n - m, suffix) {
        Some(s.substring_char(0, n - m))
    } else {
        None
    }
}

/// The end of `s` before `j` without the `&` and `*` that precede `j`.
pub open spec fn reference_marks_end(s: Seq<char>, j: int) -> Seq<char>
    decreases j,
{
    if j <= 0 || j > s.len() || (s[j - 1] != '&' && s[j - 1] != '*') {
        s.subrange(0, if j < 0 { 0 } else if j > s.len() { s.len() as int } else { j })
    } else {
        reference_marks_end(s, j - 1)
    }
}

/// `s` without trailing `&` and `*`, as `str::trim_end_matches(['&', '*'])`.
pub fn trim_reference_marks(s: &str) -> (t: &str)
    ensures
        t@ == reference_marks_end(s@, s@.len() as int),
{
    let n = s.unicode_len();
    let mut j: usize = n;
    while j > 0 && (s.get_char(j - 1) == '&' || s.get_char(j - 1) == '*')
        invariant
            j <= n == s@.len(),
            reference_marks_end(s@, n as int) == reference_marks_end(s@, j as int),
        decreases j,
    {
        j = j - 1;
    }
    s.substring_char(0, j)
}

/// The part of `s` before the first `c` (all of `s` if there is none), as
/// `s.split(c).next()`.
pub open spec fn before_char(s: Seq<char>, c: char) -> Seq<char> {
    match find_from(s, c, 0) {
        Some(i) => s.subrange(0, i),
        None => s,
    }
}

/// The part of `s` before the first `c`, as `s.split(c).next()`.
pub fn before_first<'a>(s: &'a str, c: char) -> (t: &'a str)
    ensures
        t@ == before_char(s@, c),
{
    proof {
        lemma_find_from(s@, c, 0);
    }
    match find_char(s, c) {
        Some(i) => s.substring_char(0, i),
        None => s,
    }
}

/// The index of the first white-space character of `s` at or after `i`
/// (the length when there is none).
pub open spec fn first_white_from(s: Seq<char>, i: int) -> int
    decreases s.len() - i,
{
    if i < 0 || i >= s.len() || is_white_space(s[i]) {
        i
    } else {
        first_white_from(s, i + 1)
    }
}

/// The white-space separated words of `s` from `i` on, as
/// `str::split_whitespace` gives them.
pub open spec fn words_from(s: Seq<char>, i: int) -> Seq<Seq<char>>
    decreases s.len() - i,
{
    let a = first_non_white_from(s, i);
    if i < 0 || a >= s.len() || a < i {
        Seq::empty()
    } else {
        let b = first_white_from(s, a);
        if b <= a || b > s.len() {
            Seq::empty()
        } else {
            seq![s.subrange(a, b)] + words_from(s, b)
        }
    }
}

proof fn lemma_first_white(s: Seq<char>, i: int)
    requires
        0 <= i <= s.len(),
    ensures
        i <= first_white_from(s, i) <= s.len(),
    decreases s.len() - i,
{
    if i < s.len() && !is_white_space(s[i]) {
        lemma_first_white(s, i + 1);
    }
}

/// The word of `s` that begins at or after `from`, and where it ends.
fn next_word<'a>(s: &'a str, from: usize) -> (found: Option<(&'a str, usize)>)
    requires
        from <= s@.len(),
    ensures
        match found {
            Some((word, end)) => words_from(s@, from as int).len() > 0 && word@ == words_from(
                s@,
                from as int,
            )[0] && words_from(s@, from as int).drop_first() == words_from(s@, end as int) && end
                <= s@.len(),
            None => words_from(s@, from as int).len() == 0,
        },
{
    let n = s.unicode_len();
    let a = skip_white(s, from);
    proof {
        lemma_first_non_white(s@, from as int);
    }
    if a >= n {
        return None;
    }
    let mut b = a;
    while b < n && !white_space(s.get_char(b))
        invariant
            n == s@.len(),
            a <= b <= n,
            first_white_from(s@, a as int) == first_white_from(s@, b as int),
        decreases n - b,
    {
        b = b + 1;
    }
    proof {
        assert(!is_white_space(s@[a as int]));
        assert(b > a);
        assert((seq![s@.subrange(a as int, b as int)] + words_from(s@, b as int)).drop_first() =~= words_from(
            s@,
            b as int,
        ));
    }
    Some((s.substring_char(a, b), b))
}

/// The first two white-space separated words of `s`.
pub fn first_two_words<'a>(s: &'a str) -> (words: (Option<&'a str>, Option<&'a str>))
    ensures
        match words.0 {
            Some(w) => words_from(s@, 0).len() >= 1 && w@ == words_from(s@, 0)[0],
            None => words_from(s@, 0).len() == 0,
        },
        match words.1 {
            Some(w) => words_from(s@, 0).len() >= 2 && w@ == words_from(s@, 0)[1],
            None => words_from(s@, 0).len() < 2,
        },
{
    match next_word(s, 0) {
        None => (None, None),
        Some((first, end)) => match next_word(s, end) {
            None => (Some(first), None),
            Some((second, _)) => (Some(first), Some(second)),
        },
    }
}

} // verus!
