//! Characters, lines and the conversions between them and `String`.

use vstd::prelude::*;
use vstd::string::StrSliceExecFns;

verus! {

/// The characters of `s`, one by one.
pub fn str_chars(s: &str) -> (r: Vec<char>)
    ensures
        r@ == s@,
{
    let n = s.unicode_len();
    let mut r: Vec<char> = Vec::new();
    let mut i: usize = 0;
    while i < n
        invariant
            n == s@.len(),
            i <= n,
            r@ == s@.subrange(0, i as int),
        decreases n - i,
    {
        r.push(s.get_char(i));
        i = i + 1;
    }
    assert(r@ =~= s@);
    r
}

/// Relies on `String`'s `FromIterator<&char>`: the string holds the given
/// characters in order.
#[verifier::external_body]
pub(crate) fn string_of(v: &[char]) -> (r: String)
    ensures
        r@ == v@,
{
    v.iter().collect()
}

/// Whether `a` and `b` hold the same characters.
pub fn chars_eq(a: &[char], b: &[char]) -> (r: bool)
    ensures
        r == (a@ == b@),
{
    if a.len() != b.len() {
        return false;
    }
    let mut i: usize = 0;
    while i < a.len()
        invariant
            a@.len() == b@.len(),
            i <= a@.len(),
            forall|j: int| 0 <= j < i ==> a@[j] == b@[j],
        decreases a@.len() - i,
    {
        if a[i] != b[i] {
            return false;
        }
        i = i + 1;
    }
    assert(a@ =~= b@);
    true
}

/// Index of the first `c` in `s` at or after `i`, or `s.len()` when there is none.
pub open spec fn find_char(s: Seq<char>, c: char, i: int) -> int
    decreases s.len() - i,
{
    if i < 0 || i >= s.len() {
        s.len() as int
    } else if s[i] == c {
        i
    } else {
        find_char(s, c, i + 1)
    }
}

pub proof fn lemma_find_char(s: Seq<char>, c: char, i: int)
    requires
        0 <= i <= s.len(),
    ensures
        i <= find_char(s, c, i) <= s.len(),
        forall|j: int| i <= j < find_char(s, c, i) ==> s[j] != c,
        find_char(s, c, i) < s.len() ==> s[find_char(s, c, i)] == c,
    decreases s.len() - i,
{
    if i < s.len() && s[i] != c {
        lemma_find_char(s, c, i + 1);
    }
}

/// The lines of a text: the pieces between line feeds, where a final line
/// feed ends the last line rather than starting an empty one.
pub open spec fn lines_of(s: Seq<char>) -> Seq<Seq<char>>
    decreases s.len()
    via lines_of_decreases
{
    if s.len() == 0 {
        seq![]
    } else {
        let e = find_char(s, '\n', 0);
        if e < s.len() {
            seq![s.subrange(0, e)] + lines_of(s.subrange(e + 1, s.len() as int))
        } else {
            seq![s]
        }
    }
}

#[via_fn]
proof fn lines_of_decreases(s: Seq<char>) {
    if s.len() > 0 {
        lemma_find_char(s, '\n', 0);
    }
}

/// The view of a vector of lines.
pub open spec fn view_lines(v: Seq<Vec<char>>) -> Seq<Seq<char>> {
    v.map_values(|l: Vec<char>| l@)
}

/// The text made of the given lines, each one ended by a line feed.
pub open spec fn text_of(ls: Seq<Seq<char>>) -> Seq<char>
    decreases ls.len(),
{
    if ls.len() == 0 {
        seq![]
    } else {
        text_of(ls.drop_last()) + ls.last() + seq!['\n']
    }
}

/// Splits a text into its lines (see `lines_of`).
pub fn split_lines(s: &Vec<char>) -> (r: Vec<Vec<char>>)
    ensures
        view_lines(r@) == lines_of(s@),
{
    let mut r: Vec<Vec<char>> = Vec::new();
    let mut start: usize = 0;
    let n = s.len();
    proof {
        assert(s@.subrange(0, n as int) =~= s@);
        assert(view_lines(r@) =~= seq![]);
        assert(seq![] + lines_of(s@) =~= lines_of(s@));
    }
    while start < n
        invariant
            n == s@.len(),
            start <= n,
            lines_of(s@) == view_lines(r@) + lines_of(s@.subrange(start as int, n as int)),
        decreases n - start,
    {
        let ghost rest = s@.subrange(start as int, n as int);
        let mut line: Vec<char> = Vec::new();
        let mut i: usize = start;
        while i < n && s[i] != '\n'
            invariant
                n == s@.len(),
                start <= i <= n,
                line@ == s@.subrange(start as int, i as int),
                forall|j: int| start <= j < i ==> s@[j] != '\n',
            decreases n - i,
        {
            line.push(s[i]);
            i = i + 1;
        }
        proof {
            lemma_find_char(rest, '\n', 0);
            assert(line@ =~= rest.subrange(0, (i - start) as int));
            if i < n {
                assert(rest[(i - start) as int] == '\n');
                assert(find_char(rest, '\n', 0) <= i - start);
                assert(find_char(rest, '\n', 0) == i - start);
                assert(rest.subrange((i - start) + 1, rest.len() as int)
                    =~= s@.subrange(i + 1, n as int));
            } else {
                assert(find_char(rest, '\n', 0) == rest.len());
                assert(line@ =~= rest);
                assert(s@.subrange(n as int, n as int) =~= seq![]);
            }
        }
        let ghost before = view_lines(r@);
        r.push(line);
        proof {
            assert(view_lines(r@) =~= before + seq![line@]);
        }
        if i < n {
            start = i + 1;
        } else {
            start = n;
        }
    }
    proof {
        assert(s@.subrange(n as int, n as int) =~= seq![]);
        assert(view_lines(r@) + seq![] =~= view_lines(r@));
    }
    r
}

/// Joins lines into a text, ending each with a line feed (see `text_of`).
pub fn join_lines(ls: &Vec<Vec<char>>) -> (r: Vec<char>)
    ensures
        r@ == text_of(view_lines(ls@)),
{
    let mut r: Vec<char> = Vec::new();
    let mut k: usize = 0;
    while k < ls.len()
        invariant
            k <= ls@.len(),
            r@ == text_of(view_lines(ls@).subrange(0, k as int)),
        decreases ls@.len() - k,
    {
        let line = &ls[k];
        let mut i: usize = 0;
        let ghost r0 = r@;
        while i < line.len()
            invariant
                i <= line@.len(),
                r@ == r0 + line@.subrange(0, i as int),
            decreases line@.len() - i,
        {
            r.push(line[i]);
            i = i + 1;
        }
        r.push('\n');
        proof {
            let sub = view_lines(ls@).subrange(0, k + 1);
            assert(sub.drop_last() =~= view_lines(ls@).subrange(0, k as int));
            assert(line@.subrange(0, i as int) =~= line@);
            assert(r@ =~= text_of(sub.drop_last()) + sub.last() + seq!['\n']);
        }
        k = k + 1;
    }
    assert(view_lines(ls@).subrange(0, k as int) =~= view_lines(ls@));
    r
}

} // verus!
