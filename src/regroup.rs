//! Grouping the lines of a manifest by top-level key and laying the groups
//! out in canonical order.
//!
//! Each line belongs to the section opened by the nearest header at or
//! before it, and a section belongs to the first dotted segment of its
//! name, so `[workspace.package]` joins `[workspace]` wherever it stands.
//! Lines before the first header stay first.

use vstd::prelude::*;
use crate::classify::{is_space, line_top, line_top_exec};
use crate::order::{canonical_order, contains_str, expected_order, same_strs, strs};
use crate::text::{
    chars_eq, join_lines, lines_of, split_lines, str_chars, string_of, text_of, view_lines,
};

verus! {

broadcast use vstd::seq_lib::group_seq_properties;

/// The top-level key that owns line `i` of `ls`: that of the nearest header
/// at or before it, or `None` before the first header.
pub open spec fn owner(ls: Seq<Seq<char>>, i: int) -> Option<Seq<char>>
    decreases i + 1,
{
    if i < 0 || i >= ls.len() {
        None
    } else {
        match line_top(ls[i]) {
            Some(k) => Some(k),
            None => owner(ls, i - 1),
        }
    }
}

/// The distinct top-level keys of the headers among the first `n` lines,
/// in the order in which they first appear.
pub open spec fn keys_upto(ls: Seq<Seq<char>>, n: int) -> Seq<Seq<char>>
    decreases n,
{
    if n <= 0 || n > ls.len() {
        seq![]
    } else {
        let ks = keys_upto(ls, n - 1);
        match line_top(ls[n - 1]) {
            Some(k) => if ks.contains(k) {
                ks
            } else {
                ks.push(k)
            },
            None => ks,
        }
    }
}

/// The top-level keys of a manifest's sections, in order of appearance.
pub open spec fn section_keys(ls: Seq<Seq<char>>) -> Seq<Seq<char>> {
    keys_upto(ls, ls.len() as int)
}

/// The top-level keys of the header lines among the first `n`, leaving out
/// each header whose key already owns the line before it: the keys of the
/// runs of consecutive sections, in order.
pub open spec fn runs_upto(ls: Seq<Seq<char>>, n: int) -> Seq<Seq<char>>
    decreases n,
{
    if n <= 0 || n > ls.len() {
        seq![]
    } else {
        let rs = runs_upto(ls, n - 1);
        match line_top(ls[n - 1]) {
            Some(k) => if owner(ls, n - 2) == Some(k) {
                rs
            } else {
                rs.push(k)
            },
            None => rs,
        }
    }
}

/// The keys of the runs of consecutive sections of a manifest. The
/// sections stand grouped and in canonical order exactly when these are
/// the canonical order of its keys.
pub open spec fn section_runs(ls: Seq<Seq<char>>) -> Seq<Seq<char>> {
    runs_upto(ls, ls.len() as int)
}

/// The lines among the first `n` that `k` owns, in order.
pub open spec fn group_upto(ls: Seq<Seq<char>>, k: Option<Seq<char>>, n: int) -> Seq<Seq<char>>
    decreases n,
{
    if n <= 0 || n > ls.len() {
        seq![]
    } else if owner(ls, n - 1) == k {
        group_upto(ls, k, n - 1).push(ls[n - 1])
    } else {
        group_upto(ls, k, n - 1)
    }
}

/// All the lines that `k` owns, in order.
pub open spec fn group(ls: Seq<Seq<char>>, k: Option<Seq<char>>) -> Seq<Seq<char>> {
    group_upto(ls, k, ls.len() as int)
}

/// A line of blanks only.
pub open spec fn is_blank(l: Seq<char>) -> bool {
    forall|j: int| 0 <= j < l.len() ==> is_space(#[trigger] l[j])
}

/// `b` without its trailing blank lines.
pub open spec fn trim_end(b: Seq<Seq<char>>) -> Seq<Seq<char>>
    decreases b.len(),
{
    if b.len() > 0 && is_blank(b.last()) {
        trim_end(b.drop_last())
    } else {
        b
    }
}

/// The non-empty blocks in order, one empty line between two of them.
pub open spec fn join_blocks(bs: Seq<Seq<Seq<char>>>) -> Seq<Seq<char>>
    decreases bs.len(),
{
    if bs.len() == 0 {
        seq![]
    } else {
        let acc = join_blocks(bs.drop_last());
        let b = bs.last();
        if b.len() == 0 {
            acc
        } else if acc.len() == 0 {
            b
        } else {
            acc + seq![Seq::<char>::empty()] + b
        }
    }
}

/// The lines before the first header, then the sections of each key of
/// `order` in turn, each without trailing blank lines.
pub open spec fn section_blocks(ls: Seq<Seq<char>>, order: Seq<Seq<char>>) -> Seq<Seq<Seq<char>>> {
    seq![trim_end(group(ls, None))] + order.map_values(
        |k: Seq<char>| trim_end(group(ls, Some(k))),
    )
}

/// The manifest `ls` with its sections grouped by top-level key in
/// canonical order, or `None` when every group already stands in one piece
/// and in that order.
pub open spec fn regrouped(ls: Seq<Seq<char>>, order: Seq<Seq<char>>) -> Option<Seq<Seq<char>>> {
    let keys = section_keys(ls);
    let e = canonical_order(keys, order);
    if e == section_runs(ls) {
        None
    } else {
        Some(join_blocks(section_blocks(ls, e)))
    }
}

pub open spec fn opt_view(o: Option<Vec<char>>) -> Option<Seq<char>> {
    match o {
        Some(v) => Some(v@),
        None => None,
    }
}

fn tops_of(lines: &Vec<Vec<char>>) -> (r: Vec<Option<Vec<char>>>)
    ensures
        r@.len() == lines@.len(),
        forall|i: int| 0 <= i < r@.len() ==> opt_view(#[trigger] r@[i]) == line_top(lines@[i]@),
{
    let mut r: Vec<Option<Vec<char>>> = Vec::new();
    let mut i: usize = 0;
    while i < lines.len()
        invariant
            i <= lines@.len(),
            r@.len() == i,
            forall|j: int| 0 <= j < i ==> opt_view(#[trigger] r@[j]) == line_top(lines@[j]@),
        decreases lines@.len() - i,
    {
        r.push(line_top_exec(&lines[i]));
        i = i + 1;
    }
    r
}

fn keys_exec(lines: &Vec<Vec<char>>, tops: &Vec<Option<Vec<char>>>) -> (r: Vec<String>)
    requires
        tops@.len() == lines@.len(),
        forall|i: int| 0 <= i < tops@.len() ==> opt_view(#[trigger] tops@[i]) == line_top(lines@[i]@),
    ensures
        strs(r@) == section_keys(view_lines(lines@)),
{
    let ghost ls = view_lines(lines@);
    let mut r: Vec<String> = Vec::new();
    let mut i: usize = 0;
    assert(strs(r@) =~= seq![]);
    while i < lines.len()
        invariant
            i <= lines@.len(),
            ls == view_lines(lines@),
            tops@.len() == lines@.len(),
            forall|j: int| 0 <= j < tops@.len() ==> opt_view(#[trigger] tops@[j]) == line_top(lines@[j]@),
            strs(r@) == keys_upto(ls, i as int),
        decreases lines@.len() - i,
    {
        assert(ls[i as int] == lines@[i as int]@);
        assert(opt_view(tops@[i as int]) == line_top(lines@[i as int]@));
        match &tops[i] {
            Some(k) => {
                let s = string_of(k.as_slice());
                if !contains_str(&r, &s) {
                    proof {
                        assert(strs(r@.push(s)) =~= strs(r@).push(s@));
                    }
                    r.push(s);
                }
            },
            None => {},
        }
        i = i + 1;
    }
    r
}

fn runs_exec(lines: &Vec<Vec<char>>, tops: &Vec<Option<Vec<char>>>) -> (r: Vec<String>)
    requires
        tops@.len() == lines@.len(),
        forall|i: int| 0 <= i < tops@.len() ==> opt_view(#[trigger] tops@[i]) == line_top(lines@[i]@),
    ensures
        strs(r@) == section_runs(view_lines(lines@)),
{
    let ghost ls = view_lines(lines@);
    let mut r: Vec<String> = Vec::new();
    let mut prev: Option<Vec<char>> = None;
    let mut i: usize = 0;
    assert(strs(r@) =~= seq![]);
    while i < lines.len()
        invariant
            i <= lines@.len(),
            ls == view_lines(lines@),
            tops@.len() == lines@.len(),
            forall|j: int| 0 <= j < tops@.len() ==> opt_view(#[trigger] tops@[j]) == line_top(lines@[j]@),
            opt_view(prev) == owner(ls, i - 1),
            strs(r@) == runs_upto(ls, i as int),
        decreases lines@.len() - i,
    {
        assert(ls[i as int] == lines@[i as int]@);
        assert(opt_view(tops@[i as int]) == line_top(lines@[i as int]@));
        match &tops[i] {
            Some(t) => {
                let same = match &prev {
                    Some(p) => chars_eq(p.as_slice(), t.as_slice()),
                    None => false,
                };
                if !same {
                    let s = string_of(t.as_slice());
                    proof {
                        assert(strs(r@.push(s)) =~= strs(r@).push(s@));
                    }
                    r.push(s);
                }
                prev = Some(copy_line(t));
            },
            None => {},
        }
        i = i + 1;
    }
    r
}

fn is_blank_exec(l: &Vec<char>) -> (r: bool)
    ensures
        r == is_blank(l@),
{
    let mut j: usize = 0;
    while j < l.len()
        invariant
            j <= l@.len(),
            forall|k: int| 0 <= k < j ==> is_space(#[trigger] l@[k]),
        decreases l@.len() - j,
    {
        let c = l[j];
        if !(c == ' ' || c == '\t' || c == '\r' || c == '\n') {
            assert(!is_space(l@[j as int]));
            return false;
        }
        j = j + 1;
    }
    true
}

fn copy_line(l: &Vec<char>) -> (r: Vec<char>)
    ensures
        r@ == l@,
{
    let mut r: Vec<char> = Vec::new();
    let mut j: usize = 0;
    while j < l.len()
        invariant
            j <= l@.len(),
            r@ == l@.subrange(0, j as int),
        decreases l@.len() - j,
    {
        r.push(l[j]);
        j = j + 1;
    }
    assert(r@ =~= l@);
    r
}

/// The lines that `key` owns, without trailing blank lines.
fn section_of(lines: &Vec<Vec<char>>, tops: &Vec<Option<Vec<char>>>, key: &Option<Vec<char>>) -> (r:
    Vec<Vec<char>>)
    requires
        tops@.len() == lines@.len(),
        forall|i: int| 0 <= i < tops@.len() ==> opt_view(#[trigger] tops@[i]) == line_top(lines@[i]@),
    ensures
        view_lines(r@) == trim_end(group(view_lines(lines@), opt_view(*key))),
{
    let ghost ls = view_lines(lines@);
    let ghost k = opt_view(*key);
    let mut r: Vec<Vec<char>> = Vec::new();
    let mut mine: bool = key.is_none();
    let mut i: usize = 0;
    assert(view_lines(r@) =~= seq![]);
    while i < lines.len()
        invariant
            i <= lines@.len(),
            ls == view_lines(lines@),
            k == opt_view(*key),
            tops@.len() == lines@.len(),
            forall|j: int| 0 <= j < tops@.len() ==> opt_view(#[trigger] tops@[j]) == line_top(lines@[j]@),
            mine == (owner(ls, i - 1) == k),
            view_lines(r@) == group_upto(ls, k, i as int),
        decreases lines@.len() - i,
    {
        assert(ls[i as int] == lines@[i as int]@);
        assert(opt_view(tops@[i as int]) == line_top(lines@[i as int]@));
        match &tops[i] {
            Some(t) => {
                mine = match key {
                    Some(kk) => chars_eq(t.as_slice(), kk.as_slice()),
                    None => false,
                };
            },
            None => {},
        }
        if mine {
            let l = copy_line(&lines[i]);
            proof {
                assert(view_lines(r@.push(l)) =~= view_lines(r@).push(l@));
            }
            r.push(l);
        }
        i = i + 1;
    }
    while r.len() > 0 && is_blank_exec(&r[r.len() - 1])
        invariant
            trim_end(group(ls, k)) == trim_end(view_lines(r@)),
        decreases r@.len(),
    {
        proof {
            assert(view_lines(r@).last() == r@[r@.len() - 1]@);
            assert(view_lines(r@).drop_last() =~= view_lines(r@.drop_last()));
        }
        r.pop();
    }
    proof {
        if r@.len() > 0 {
            assert(view_lines(r@).last() == r@[r@.len() - 1]@);
        }
    }
    r
}

/// Appends a block to `out` as `join_blocks` does.
fn append_block(out: &mut Vec<Vec<char>>, b: Vec<Vec<char>>)
    ensures
        view_lines(final(out)@) == ({
            let acc = view_lines(old(out)@);
            let vb = view_lines(b@);
            if vb.len() == 0 {
                acc
            } else if acc.len() == 0 {
                vb
            } else {
                acc + seq![Seq::<char>::empty()] + vb
            }
        }),
{
    let ghost acc = view_lines(out@);
    let ghost vb = view_lines(b@);
    if b.len() == 0 {
        return;
    }
    if out.len() > 0 {
        out.push(Vec::new());
    }
    let ghost start = view_lines(out@);
    let mut i: usize = 0;
    while i < b.len()
        invariant
            i <= b@.len(),
            vb == view_lines(b@),
            view_lines(out@) == start + vb.subrange(0, i as int),
        decreases b@.len() - i,
    {
        let l = copy_line(&b[i]);
        proof {
            assert(view_lines(out@.push(l)) =~= view_lines(out@).push(l@));
            assert(start + vb.subrange(0, i + 1) =~= (start + vb.subrange(0, i as int)).push(l@));
        }
        out.push(l);
        i = i + 1;
    }
    proof {
        assert(vb.subrange(0, i as int) =~= vb);
        if acc.len() == 0 {
            assert(start =~= seq![]);
            assert(view_lines(out@) =~= vb);
        } else {
            assert(start =~= acc + seq![Seq::<char>::empty()]);
        }
    }
}

/// Regroups the lines of a manifest: the lines before the first header,
/// then the sections of each top-level key in canonical order, one blank
/// line between groups. Returns `None` when the keys already stand in
/// canonical order, so that a manifest in canonical order is left as it is.
pub fn regroup_lines(lines: &Vec<Vec<char>>, order: &Vec<String>) -> (r: Option<Vec<Vec<char>>>)
    ensures
        match r {
            None => regrouped(view_lines(lines@), strs(order@)) is None,
            Some(out) => regrouped(view_lines(lines@), strs(order@)) == Some(view_lines(out@)),
        },
{
    let ghost ls = view_lines(lines@);
    let tops = tops_of(lines);
    let keys = keys_exec(lines, &tops);
    let e = expected_order(&keys, order);
    let runs = runs_exec(lines, &tops);
    if same_strs(&e, &runs) {
        return None;
    }
    let ghost es = strs(e@);
    let ghost blocks = section_blocks(ls, es);
    let mut out = section_of(lines, &tops, &None);
    proof {
        assert(blocks.take(1).drop_last() =~= Seq::<Seq<Seq<char>>>::empty());
        assert(join_blocks(Seq::<Seq<Seq<char>>>::empty()) == Seq::<Seq<char>>::empty());
        assert(blocks.take(1).last() == blocks[0]);
        assert(blocks[0] == trim_end(group(ls, None)));
        assert(join_blocks(blocks.take(1)) == blocks[0]);
    }
    let mut m: usize = 0;
    while m < e.len()
        invariant
            m <= e@.len(),
            ls == view_lines(lines@),
            es == strs(e@),
            blocks == section_blocks(ls, es),
            tops@.len() == lines@.len(),
            forall|j: int| 0 <= j < tops@.len() ==> opt_view(#[trigger] tops@[j]) == line_top(lines@[j]@),
            view_lines(out@) == join_blocks(blocks.take(m + 1)),
        decreases e@.len() - m,
    {
        let key = Some(str_chars(e[m].as_str()));
        let b = section_of(lines, &tops, &key);
        proof {
            assert(opt_view(key) == Some(es[m as int]));
            assert(blocks.take(m + 2).drop_last() =~= blocks.take(m + 1));
            assert(blocks.take(m + 2).last() == blocks[m + 1]);
        }
        append_block(&mut out, b);
        m = m + 1;
    }
    proof {
        assert(blocks.take(m + 1) =~= blocks);
    }
    Some(out)
}

/// Regroups the sections of a manifest text (see `regroup_lines`); lines
/// are read as `lines_of` splits them, and each output line ends with a
/// line feed. Returns `None` when the sections already stand in canonical
/// order.
pub fn regroup_text(text: &str, order: &Vec<String>) -> (r: Option<String>)
    ensures
        match r {
            None => regrouped(lines_of(text@), strs(order@)) is None,
            Some(s) => regrouped(lines_of(text@), strs(order@)) matches Some(out) && s@ == text_of(out),
        },
{
    let chars = str_chars(text);
    let lines = split_lines(&chars);
    match regroup_lines(&lines, order) {
        None => None,
        Some(out) => {
            let joined = join_lines(&out);
            Some(string_of(joined.as_slice()))
        },
    }
}

} // verus!
