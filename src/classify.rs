//! Deciding, one line at a time, whether a line opens a section.
//!
//! A line is a header only when, after its closing bracket or brackets,
//! nothing but blanks or a comment follows, and the enclosed name holds,
//! outside quotes, none of the characters that only values use. Array
//! literals of several elements, nested arrays with commas and inline
//! tables that start with a bracket are content.
//!
//! The name ends at the first `]` (or `]]`) after which only blanks or a
//! comment follow, so a quoted name may hold `]`. A line that is only a
//! one-element array, such as `[2]` or `["x"]` closing a multi-line array,
//! has a header's shape and is taken for one; regrouping such a manifest
//! then gives a text that does not parse, which the pipeline reports
//! rather than writes.

use vstd::prelude::*;
use crate::text::{find_char, lemma_find_char, string_of};

verus! {

/// Blanks inside a line.
pub open spec fn is_space(c: char) -> bool {
    c == ' ' || c == '\t' || c == '\r' || c == '\n'
}

/// Characters that a value may hold but a section name may not.
pub open spec fn is_value_char(c: char) -> bool {
    c == '[' || c == ']' || c == '{' || c == '}' || c == ',' || c == '='
}

/// The first index at or after `i` and before `hi` that holds no blank,
/// or `hi`.
pub open spec fn skip_spaces(s: Seq<char>, i: int, hi: int) -> int
    decreases hi - i,
{
    if 0 <= i < hi && i < s.len() && is_space(s[i]) {
        skip_spaces(s, i + 1, hi)
    } else {
        i
    }
}

/// `j` moved back over the blanks that end `s[lo..j]`.
pub open spec fn back_spaces(s: Seq<char>, lo: int, j: int) -> int
    decreases j - lo,
{
    if lo < j && 0 < j <= s.len() && is_space(s[j - 1]) {
        back_spaces(s, lo, j - 1)
    } else {
        j
    }
}

/// Whether `s[i..]` is empty, blank, or a comment after blanks.
pub open spec fn rest_ok(s: Seq<char>, i: int) -> bool {
    let j = skip_spaces(s, i, s.len() as int);
    j >= s.len() || s[j] == '#'
}

/// Whether `s[i..b]` can end a section name, `q` being the quote that is
/// open at `i` (`'\0'` when none): outside quotes no character that only
/// values use, and every quote closed.
pub open spec fn name_ok_from(s: Seq<char>, i: int, b: int, q: char) -> bool
    decreases b - i,
{
    if i >= b || i < 0 || i >= s.len() {
        q == '\0'
    } else if q != '\0' {
        name_ok_from(s, i + 1, b, if s[i] == q { '\0' } else { q })
    } else if s[i] == '"' || s[i] == '\'' {
        name_ok_from(s, i + 1, b, s[i])
    } else {
        !is_value_char(s[i]) && name_ok_from(s, i + 1, b, '\0')
    }
}

/// Whether `s[a..b]` can be a section name: quoted parts may hold any
/// character (`'cfg(target_os = "linux")'`), the rest none that only
/// values use.
pub open spec fn name_ok(s: Seq<char>, a: int, b: int) -> bool {
    name_ok_from(s, a, b, '\0')
}

/// Whether `s[i]` closes a header of `w` brackets: `]` (or `]]`) with only
/// blanks or a comment after it.
pub open spec fn closes(s: Seq<char>, i: int, w: int) -> bool {
    &&& 0 <= i < s.len()
    &&& s[i] == ']'
    &&& (w == 1 || (i + 1 < s.len() && s[i + 1] == ']'))
    &&& rest_ok(s, i + w)
}

/// The first index at or after `i` that closes a header of `w` brackets,
/// or `s.len()`.
pub open spec fn close_at(s: Seq<char>, i: int, w: int) -> int
    decreases s.len() - i,
{
    if i < 0 || i >= s.len() {
        s.len() as int
    } else if closes(s, i, w) {
        i
    } else {
        close_at(s, i + 1, w)
    }
}

pub proof fn lemma_close_at(s: Seq<char>, i: int, w: int)
    requires
        0 <= i <= s.len(),
    ensures
        i <= close_at(s, i, w) <= s.len(),
        close_at(s, i, w) < s.len() ==> closes(s, close_at(s, i, w), w),
    decreases s.len() - i,
{
    if i < s.len() && !closes(s, i, w) {
        lemma_close_at(s, i + 1, w);
    }
}

/// The header that line `s` opens, if any: whether it is an array-of-tables
/// header, and the bounds of its name in `s`. The name ends at the first
/// closing bracket (or pair) after which only blanks or a comment follow.
pub open spec fn header_of(s: Seq<char>) -> Option<(bool, int, int)> {
    let a = skip_spaces(s, 0, s.len() as int);
    if a >= s.len() || s[a] != '[' {
        None
    } else if a + 1 < s.len() && s[a + 1] == '[' {
        let p = close_at(s, a + 2, 2);
        if p < s.len() && name_ok(s, a + 2, p) {
            Some((true, a + 2, p))
        } else {
            None
        }
    } else {
        let p = close_at(s, a + 1, 1);
        if p < s.len() && name_ok(s, a + 1, p) {
            Some((false, a + 1, p))
        } else {
            None
        }
    }
}

/// The top-level key of the name `s[a..b]`: what stands before its first
/// dot, without surrounding blanks.
pub open spec fn top_key(s: Seq<char>, a: int, b: int) -> Seq<char> {
    let f = find_char(s, '.', a);
    let d = if f < b { f } else { b };
    let ks = skip_spaces(s, a, d);
    let ke = back_spaces(s, ks, d);
    s.subrange(ks, ke)
}

/// The top-level key of the section that line `s` opens, if it opens one.
pub open spec fn line_top(s: Seq<char>) -> Option<Seq<char>> {
    match header_of(s) {
        Some((_, a, b)) => Some(top_key(s, a, b)),
        None => None,
    }
}

/// What a line is.
#[derive(Debug, Clone, PartialEq, Eq)]
pub enum LineClass {
    /// A value, part of a value, a comment or a blank line.
    Content,
    /// `[name]`
    Table { name: String },
    /// `[[name]]`
    ArrayTable { name: String },
}

/// Where the name of a header line stands.
#[derive(Debug, Clone, Copy, PartialEq, Eq)]
pub struct HeaderSpan {
    pub array: bool,
    pub start: usize,
    pub end: usize,
}

pub proof fn lemma_skip_spaces(s: Seq<char>, i: int, hi: int)
    requires
        0 <= i <= hi <= s.len(),
    ensures
        i <= skip_spaces(s, i, hi) <= hi,
        forall|k: int| i <= k < skip_spaces(s, i, hi) ==> is_space(#[trigger] s[k]),
        skip_spaces(s, i, hi) < hi ==> !is_space(s[skip_spaces(s, i, hi)]),
    decreases hi - i,
{
    if i < hi && is_space(s[i]) {
        lemma_skip_spaces(s, i + 1, hi);
    }
}

proof fn lemma_back_spaces(s: Seq<char>, lo: int, j: int)
    requires
        0 <= lo <= j <= s.len(),
    ensures
        lo <= back_spaces(s, lo, j) <= j,
    decreases j - lo,
{
    if lo < j && is_space(s[j - 1]) {
        lemma_back_spaces(s, lo, j - 1);
    }
}

fn skip_spaces_exec(s: &Vec<char>, i: usize, hi: usize) -> (r: usize)
    requires
        i <= hi <= s@.len(),
    ensures
        r == skip_spaces(s@, i as int, hi as int),
{
    let mut k = i;
    while k < hi && (s[k] == ' ' || s[k] == '\t' || s[k] == '\r' || s[k] == '\n')
        invariant
            i <= k <= hi <= s@.len(),
            skip_spaces(s@, i as int, hi as int) == skip_spaces(s@, k as int, hi as int),
        decreases hi - k,
    {
        k = k + 1;
    }
    k
}

fn back_spaces_exec(s: &Vec<char>, lo: usize, j: usize) -> (r: usize)
    requires
        lo <= j <= s@.len(),
    ensures
        r == back_spaces(s@, lo as int, j as int),
{
    let mut k = j;
    while k > lo && (s[k - 1] == ' ' || s[k - 1] == '\t' || s[k - 1] == '\r' || s[k - 1]
        == '\n')
        invariant
            lo <= k <= j <= s@.len(),
            back_spaces(s@, lo as int, j as int) == back_spaces(s@, lo as int, k as int),
        decreases k - lo,
    {
        k = k - 1;
    }
    k
}

fn find_char_exec(s: &Vec<char>, c: char, i: usize) -> (r: usize)
    requires
        i <= s@.len(),
    ensures
        r == find_char(s@, c, i as int),
{
    let mut k = i;
    while k < s.len() && s[k] != c
        invariant
            i <= k <= s@.len(),
            find_char(s@, c, i as int) == find_char(s@, c, k as int),
        decreases s@.len() - k,
    {
        k = k + 1;
    }
    k
}

fn name_ok_exec(s: &Vec<char>, a: usize, b: usize) -> (r: bool)
    requires
        a <= b <= s@.len(),
    ensures
        r == name_ok(s@, a as int, b as int),
{
    let mut k = a;
    let mut q: char = '\0';
    while k < b
        invariant
            a <= k <= b <= s@.len(),
            name_ok(s@, a as int, b as int) == name_ok_from(s@, k as int, b as int, q),
        decreases b - k,
    {
        let c = s[k];
        if q != '\0' {
            if c == q {
                q = '\0';
            }
        } else if c == '"' || c == '\'' {
            q = c;
        } else if c == '[' || c == ']' || c == '{' || c == '}' || c == ',' || c == '=' {
            return false;
        }
        k = k + 1;
    }
    q == '\0'
}

fn rest_ok_exec(s: &Vec<char>, i: usize) -> (r: bool)
    requires
        i <= s@.len(),
    ensures
        r == rest_ok(s@, i as int),
{
    let j = skip_spaces_exec(s, i, s.len());
    j >= s.len() || s[j] == '#'
}

fn closes_exec(s: &Vec<char>, i: usize, w: usize) -> (r: bool)
    requires
        i < s@.len(),
        w == 1 || w == 2,
    ensures
        r == closes(s@, i as int, w as int),
{
    let n = s.len();
    if s[i] != ']' {
        return false;
    }
    if w == 2 && !(i + 1 < n && s[i + 1] == ']') {
        return false;
    }
    rest_ok_exec(s, i + w)
}

fn close_at_exec(s: &Vec<char>, i: usize, w: usize) -> (r: usize)
    requires
        i <= s@.len(),
        w == 1 || w == 2,
    ensures
        r == close_at(s@, i as int, w as int),
{
    let mut k = i;
    while k < s.len() && !closes_exec(s, k, w)
        invariant
            i <= k <= s@.len(),
            w == 1 || w == 2,
            close_at(s@, i as int, w as int) == close_at(s@, k as int, w as int),
        decreases s@.len() - k,
    {
        k = k + 1;
    }
    k
}

/// Finds the header that line `s` opens, if any.
pub fn header_span(s: &Vec<char>) -> (r: Option<HeaderSpan>)
    ensures
        match r {
            None => header_of(s@) is None,
            Some(h) => header_of(s@) == Some((h.array, h.start as int, h.end as int)),
        },
{
    let n = s.len();
    let a = skip_spaces_exec(s, 0, n);
    proof {
        lemma_skip_spaces(s@, 0, n as int);
    }
    if a >= n || s[a] != '[' {
        return None;
    }
    if a + 1 < n && s[a + 1] == '[' {
        let p = close_at_exec(s, a + 2, 2);
        proof {
            lemma_close_at(s@, a + 2, 2);
        }
        if p < n && name_ok_exec(s, a + 2, p) {
            Some(HeaderSpan { array: true, start: a + 2, end: p })
        } else {
            None
        }
    } else {
        let p = close_at_exec(s, a + 1, 1);
        proof {
            lemma_close_at(s@, a + 1, 1);
        }
        if p < n && name_ok_exec(s, a + 1, p) {
            Some(HeaderSpan { array: false, start: a + 1, end: p })
        } else {
            None
        }
    }
}

/// The top-level key of the name `s[a..b]` (see `top_key`).
pub fn top_key_exec(s: &Vec<char>, a: usize, b: usize) -> (r: Vec<char>)
    requires
        a <= b <= s@.len(),
    ensures
        r@ == top_key(s@, a as int, b as int),
{
    let f = find_char_exec(s, '.', a);
    proof {
        lemma_find_char(s@, '.', a as int);
    }
    let d = if f < b {
        f
    } else {
        b
    };
    let ks = skip_spaces_exec(s, a, d);
    proof {
        lemma_skip_spaces(s@, a as int, d as int);
    }
    let ke = back_spaces_exec(s, ks, d);
    proof {
        lemma_back_spaces(s@, ks as int, d as int);
    }
    let mut r: Vec<char> = Vec::new();
    let mut k = ks;
    while k < ke
        invariant
            ks <= k <= ke <= s@.len(),
            r@ == s@.subrange(ks as int, k as int),
        decreases ke - k,
    {
        r.push(s[k]);
        k = k + 1;
    }
    r
}

/// The top-level key of the section that line `s` opens, if it opens one.
pub fn line_top_exec(s: &Vec<char>) -> (r: Option<Vec<char>>)
    ensures
        match r {
            None => line_top(s@) is None,
            Some(k) => line_top(s@) == Some(k@),
        },
{
    match header_span(s) {
        None => None,
        Some(h) => {
            proof {
                lemma_header_bounds(s@);
            }
            Some(top_key_exec(s, h.start, h.end))
        },
    }
}

proof fn lemma_header_bounds(s: Seq<char>)
    ensures
        header_of(s) matches Some((_, a, b)) ==> 0 <= a <= b <= s.len(),
{
    let a = skip_spaces(s, 0, s.len() as int);
    lemma_skip_spaces(s, 0, s.len() as int);
    if a < s.len() && s[a] == '[' {
        if a + 1 < s.len() && s[a + 1] == '[' {
            lemma_close_at(s, a + 2, 2);
        } else {
            lemma_close_at(s, a + 1, 1);
        }
    }
}

/// Whether `s` holds a character that only values use outside brackets:
/// a comma, an equals sign or a brace.
pub open spec fn has_value_mark(s: Seq<char>) -> bool {
    exists|k: int| 0 <= k < s.len() && (s[k] == ',' || s[k] == '=' || s[k] == '{' || s[k] == '}')
}

proof fn lemma_name_marks(s: Seq<char>, i: int, b: int, k: int)
    requires
        0 <= i <= k < b <= s.len(),
        name_ok_from(s, i, b, '\0'),
        forall|j: int| i <= j < b ==> s[j] != '"' && s[j] != '\'',
    ensures
        !is_value_char(s[k]),
    decreases k - i,
{
    if i < k {
        lemma_name_marks(s, i + 1, b, k);
    }
}

/// Lines that belong to values are never taken for headers: a line whose
/// first non-blank character is not `[` (an array element, an inline table,
/// a key and its value), and a line without comment marker or quote that
/// holds a comma, an equals sign or a brace (an array of several elements,
/// a nested array literal, an inline table inside brackets) are content.
pub proof fn lemma_value_lines_are_content(s: Seq<char>)
    requires
        ({
            let a = skip_spaces(s, 0, s.len() as int);
            a >= s.len() || s[a] != '['
        }) || ((forall|k: int| 0 <= k < s.len() ==> s[k] != '#' && s[k] != '"' && s[k] != '\'')
            && has_value_mark(s)),
    ensures
        header_of(s) is None,
        line_top(s) is None,
{
    let n = s.len() as int;
    let a = skip_spaces(s, 0, n);
    lemma_skip_spaces(s, 0, n);
    if a < n && s[a] == '[' && header_of(s) is Some {
        let k = choose|k: int|
            0 <= k < s.len() && (s[k] == ',' || s[k] == '=' || s[k] == '{' || s[k] == '}');
        let (array, b, p) = header_of(s)->0;
        let e = if array { p + 2 } else { p + 1 };
        if array {
            lemma_close_at(s, a + 2, 2);
        } else {
            lemma_close_at(s, a + 1, 1);
        }
        lemma_skip_spaces(s, e, n);
        assert(skip_spaces(s, e, n) >= n);
        if k < a {
            assert(is_space(s[k]));
        } else if k < b {
        } else if k < p {
            lemma_name_marks(s, b, p, k);
        } else if k < e {
        } else {
            assert(is_space(s[k]));
        }
    }
}

/// Classifies one line of a manifest.
pub fn classify_line(line: &str) -> (r: LineClass)
    ensures
        match header_of(line@) {
            None => r == LineClass::Content,
            Some((array, a, b)) => {
                &&& array ==> (r matches LineClass::ArrayTable { name } && name@ == line@.subrange(a, b))
                &&& !array ==> (r matches LineClass::Table { name } && name@ == line@.subrange(a, b))
            },
        },
{
    let s = crate::text::str_chars(line);
    match header_span(&s) {
        None => LineClass::Content,
        Some(h) => {
            proof {
                lemma_header_bounds(s@);
            }
            let name = string_of(vstd::slice::slice_subrange(s.as_slice(), h.start, h.end));
            if h.array {
                LineClass::ArrayTable { name }
            } else {
                LineClass::Table { name }
            }
        },
    }
}

} // verus!
