//! What regrouping guarantees: every section lands in the group of its
//! top-level key, each group keeps its lines, the keys come out in
//! canonical order, and regrouping the result changes nothing.

use vstd::prelude::*;
use crate::classify::{header_of, is_space, line_top};
use crate::order::{
    canonical_order, lemma_canonical_order_contains, lemma_canonical_order_idempotent,
    lemma_canonical_order_no_dup,
};
use crate::regroup::{
    group, group_upto, is_blank, join_blocks, keys_upto, owner, regrouped, runs_upto,
    section_blocks, section_keys, section_runs, trim_end,
};
use crate::text::{find_char, lemma_find_char, lines_of, text_of};

verus! {

broadcast use vstd::seq_lib::group_seq_properties;

/// Every header line of `b` opens a section of top-level key `k`.
pub open spec fn headers_of(b: Seq<Seq<char>>, k: Seq<char>) -> bool {
    forall|j: int| 0 <= j < b.len() && (#[trigger] line_top(b[j])) is Some ==> line_top(b[j]) == Some(k)
}

proof fn lemma_owner_prefix(a: Seq<Seq<char>>, b: Seq<Seq<char>>, i: int)
    requires
        i < a.len(),
    ensures
        owner(a + b, i) == owner(a, i),
    decreases i + 1,
{
    if i >= 0 {
        assert((a + b)[i] == a[i]);
        lemma_owner_prefix(a, b, i - 1);
    }
}

proof fn lemma_group_prefix(a: Seq<Seq<char>>, b: Seq<Seq<char>>, k: Option<Seq<char>>, n: int)
    requires
        n <= a.len(),
    ensures
        group_upto(a + b, k, n) == group_upto(a, k, n),
    decreases n,
{
    if n > 0 {
        lemma_group_prefix(a, b, k, n - 1);
        lemma_owner_prefix(a, b, n - 1);
        assert((a + b)[n - 1] == a[n - 1]);
    }
}

proof fn lemma_keys_prefix(a: Seq<Seq<char>>, b: Seq<Seq<char>>, n: int)
    requires
        n <= a.len(),
    ensures
        keys_upto(a + b, n) == keys_upto(a, n),
    decreases n,
{
    if n > 0 {
        lemma_keys_prefix(a, b, n - 1);
        assert((a + b)[n - 1] == a[n - 1]);
    }
}

/// Inside a block that opens with a header of `k` and has no header of
/// another key, every line belongs to `k`.
proof fn lemma_owner_in_block(a: Seq<Seq<char>>, b: Seq<Seq<char>>, k: Seq<char>, j: int)
    requires
        b.len() > 0,
        line_top(b[0]) == Some(k),
        headers_of(b, k),
        0 <= j < b.len(),
    ensures
        owner(a + b, a.len() + j) == Some(k),
    decreases j,
{
    assert((a + b)[a.len() + j] == b[j]);
    if j > 0 && line_top(b[j]) is None {
        lemma_owner_in_block(a, b, k, j - 1);
    }
}

proof fn lemma_group_block(a: Seq<Seq<char>>, b: Seq<Seq<char>>, k: Seq<char>, kk: Option<Seq<char>>, j: int)
    requires
        b.len() > 0,
        line_top(b[0]) == Some(k),
        headers_of(b, k),
        0 <= j <= b.len(),
    ensures
        group_upto(a + b, kk, a.len() + j) == group_upto(a, kk, a.len() as int) + if kk == Some(k) {
            b.take(j)
        } else {
            Seq::<Seq<char>>::empty()
        },
    decreases j,
{
    if j == 0 {
        lemma_group_prefix(a, b, kk, a.len() as int);
        assert(b.take(0) =~= Seq::<Seq<char>>::empty());
    } else {
        lemma_group_block(a, b, k, kk, j - 1);
        lemma_owner_in_block(a, b, k, j - 1);
        assert((a + b)[a.len() + j - 1] == b[j - 1]);
        assert(b.take(j) =~= b.take(j - 1).push(b[j - 1]));
    }
}

proof fn lemma_keys_block(a: Seq<Seq<char>>, b: Seq<Seq<char>>, k: Seq<char>, j: int)
    requires
        b.len() > 0,
        line_top(b[0]) == Some(k),
        headers_of(b, k),
        1 <= j <= b.len(),
    ensures
        keys_upto(a + b, a.len() + j) == if keys_upto(a, a.len() as int).contains(k) {
            keys_upto(a, a.len() as int)
        } else {
            keys_upto(a, a.len() as int).push(k)
        },
    decreases j,
{
    assert((a + b)[a.len() + j - 1] == b[j - 1]);
    if j == 1 {
        lemma_keys_prefix(a, b, a.len() as int);
    } else {
        lemma_keys_block(a, b, k, j - 1);
        let ks = keys_upto(a, a.len() as int);
        if !ks.contains(k) {
            assert(ks.push(k)[ks.len() as int] == k);
        }
    }
}

proof fn lemma_runs_prefix(a: Seq<Seq<char>>, b: Seq<Seq<char>>, n: int)
    requires
        n <= a.len(),
    ensures
        runs_upto(a + b, n) == runs_upto(a, n),
    decreases n,
{
    if n > 0 {
        lemma_runs_prefix(a, b, n - 1);
        assert((a + b)[n - 1] == a[n - 1]);
        lemma_owner_prefix(a, b, n - 2);
    }
}

proof fn lemma_runs_block(a: Seq<Seq<char>>, b: Seq<Seq<char>>, k: Seq<char>, j: int)
    requires
        b.len() > 0,
        line_top(b[0]) == Some(k),
        headers_of(b, k),
        1 <= j <= b.len(),
    ensures
        runs_upto(a + b, a.len() + j) == if owner(a, a.len() - 1) == Some(k) {
            runs_upto(a, a.len() as int)
        } else {
            runs_upto(a, a.len() as int).push(k)
        },
    decreases j,
{
    assert((a + b)[a.len() + j - 1] == b[j - 1]);
    if j == 1 {
        lemma_runs_prefix(a, b, a.len() as int);
        lemma_owner_prefix(a, b, a.len() - 1);
    } else {
        lemma_runs_block(a, b, k, j - 1);
        lemma_owner_in_block(a, b, k, j - 2);
    }
}

/// An empty line neither opens a section nor holds anything.
proof fn lemma_empty_line()
    ensures
        line_top(Seq::<char>::empty()) is None,
        is_blank(Seq::<char>::empty()),
{
}

proof fn lemma_group_sep(a: Seq<Seq<char>>, kk: Option<Seq<char>>)
    requires
        a.len() > 0,
    ensures
        group(a + seq![Seq::<char>::empty()], kk) == group(a, kk) + if owner(a, a.len() - 1) == kk {
            seq![Seq::<char>::empty()]
        } else {
            Seq::<Seq<char>>::empty()
        },
        section_keys(a + seq![Seq::<char>::empty()]) == section_keys(a),
        section_runs(a + seq![Seq::<char>::empty()]) == section_runs(a),
        owner(a + seq![Seq::<char>::empty()], a.len() as int) == owner(a, a.len() - 1),
{
    let s = seq![Seq::<char>::empty()];
    lemma_empty_line();
    assert((a + s)[a.len() as int] == Seq::<char>::empty());
    lemma_owner_prefix(a, s, a.len() - 1);
    lemma_group_prefix(a, s, kk, a.len() as int);
    lemma_keys_prefix(a, s, a.len() as int);
    lemma_runs_prefix(a, s, a.len() as int);
    assert((a + s).len() == a.len() + 1);
}

proof fn lemma_group_headers(ls: Seq<Seq<char>>, k: Seq<char>, n: int)
    ensures
        headers_of(group_upto(ls, Some(k), n), k),
    decreases n,
{
    if n > 0 && n <= ls.len() {
        lemma_group_headers(ls, k, n - 1);
    }
}

proof fn lemma_preamble_headers(ls: Seq<Seq<char>>, n: int)
    ensures
        forall|j: int| 0 <= j < group_upto(ls, None, n).len() ==> (#[trigger] line_top(group_upto(ls, None, n)[j])) is None,
    decreases n,
{
    if n > 0 && n <= ls.len() {
        lemma_preamble_headers(ls, n - 1);
    }
}

proof fn lemma_owned_in_group(ls: Seq<Seq<char>>, kk: Option<Seq<char>>, i: int, n: int)
    requires
        0 <= i < n <= ls.len(),
        owner(ls, i) == kk,
    ensures
        group_upto(ls, kk, n).len() > 0,
    decreases n,
{
    if i < n - 1 {
        lemma_owned_in_group(ls, kk, i, n - 1);
    }
}

proof fn lemma_group_start(ls: Seq<Seq<char>>, k: Seq<char>, n: int)
    requires
        group_upto(ls, Some(k), n).len() > 0,
    ensures
        line_top(group_upto(ls, Some(k), n)[0]) == Some(k),
    decreases n,
{
    if n > 0 && n <= ls.len() {
        if group_upto(ls, Some(k), n - 1).len() > 0 {
            lemma_group_start(ls, k, n - 1);
        } else {
            if line_top(ls[n - 1]) is None && n - 2 >= 0 {
                lemma_owned_in_group(ls, Some(k), n - 2, n - 1);
            }
        }
    }
}

proof fn lemma_key_has_group(ls: Seq<Seq<char>>, k: Seq<char>, n: int)
    requires
        keys_upto(ls, n).contains(k),
    ensures
        group_upto(ls, Some(k), n).len() > 0,
    decreases n,
{
    if n > 0 && n <= ls.len() {
        if keys_upto(ls, n - 1).contains(k) {
            lemma_key_has_group(ls, k, n - 1);
        } else {
            let ks = keys_upto(ls, n - 1);
            assert(line_top(ls[n - 1]) == Some(k)) by {
                if line_top(ls[n - 1]) is None || line_top(ls[n - 1]) != Some(k) {
                    assert(keys_upto(ls, n) == ks || keys_upto(ls, n) == ks.push(line_top(ls[n - 1])->0));
                    if keys_upto(ls, n) != ks {
                        let x = choose|x: int| 0 <= x < keys_upto(ls, n).len() && keys_upto(ls, n)[x] == k;
                        if x < ks.len() {
                            assert(ks[x] == k);
                        }
                    }
                }
            }
            lemma_owned_in_group(ls, Some(k), n - 1, n);
        }
    }
}

proof fn lemma_keys_no_dup(ls: Seq<Seq<char>>, n: int)
    ensures
        keys_upto(ls, n).no_duplicates(),
    decreases n,
{
    if n > 0 && n <= ls.len() {
        lemma_keys_no_dup(ls, n - 1);
    }
}

proof fn lemma_header_not_blank(l: Seq<char>)
    requires
        line_top(l) is Some,
    ensures
        !is_blank(l),
{
    let a = crate::classify::skip_spaces(l, 0, l.len() as int);
    crate::classify::lemma_skip_spaces(l, 0, l.len() as int);
    assert(header_of(l) is Some);
    assert(a < l.len() && l[a] == '[');
    assert(!is_space(l[a]));
}

proof fn lemma_trim_end(b: Seq<Seq<char>>)
    ensures
        trim_end(b) == b.take(trim_end(b).len() as int),
        trim_end(b).len() <= b.len(),
        b.len() > 0 && !is_blank(b[0]) ==> trim_end(b).len() > 0,
        trim_end(trim_end(b)) == trim_end(b),
        trim_end(b.push(Seq::<char>::empty())) == trim_end(b),
    decreases b.len(),
{
    lemma_empty_line();
    assert(b.push(Seq::<char>::empty()).drop_last() =~= b);
    if b.len() > 0 && is_blank(b.last()) {
        lemma_trim_end(b.drop_last());
        let t = trim_end(b.drop_last());
        assert(b.drop_last().take(t.len() as int) =~= b.take(t.len() as int));
        if b.len() == 1 {
            assert(t.len() == 0);
        } else {
            assert(b.drop_last()[0] == b[0]);
        }
    } else {
        assert(b.take(b.len() as int) =~= b);
    }
}

proof fn lemma_no_headers(p: Seq<Seq<char>>, n: int)
    requires
        forall|j: int| 0 <= j < p.len() ==> (#[trigger] line_top(p[j])) is None,
        0 <= n <= p.len(),
    ensures
        group_upto(p, None, n) == p.take(n),
        forall|k: Seq<char>| #[trigger] group_upto(p, Some(k), n) == Seq::<Seq<char>>::empty(),
        keys_upto(p, n) == Seq::<Seq<char>>::empty(),
        runs_upto(p, n) == Seq::<Seq<char>>::empty(),
        n > 0 ==> owner(p, n - 1) is None,
    decreases n,
{
    if n > 0 {
        lemma_no_headers(p, n - 1);
        assert(line_top(p[n - 1]) is None);
        assert(p.take(n) =~= p.take(n - 1).push(p[n - 1]));
        if n >= 2 {
            assert(owner(p, n - 2) is None);
        }
        assert(owner(p, n - 1) is None);
        assert forall|k: Seq<char>| #[trigger] group_upto(p, Some(k), n) == Seq::<Seq<char>>::empty() by {
            assert(group_upto(p, Some(k), n) == group_upto(p, Some(k), n - 1));
        }
    } else {
        assert(p.take(0) =~= Seq::<Seq<char>>::empty());
    }
}

/// The facts about a regrouped text after its first `j` sections.
pub open spec fn joined_inv(
    ls: Seq<Seq<char>>,
    e: Seq<Seq<char>>,
    blocks: Seq<Seq<Seq<char>>>,
    jn: Seq<Seq<char>>,
    j: int,
) -> bool {
    &&& section_keys(jn) == e.take(j)
    &&& section_runs(jn) == e.take(j)
    &&& trim_end(group(jn, None)) == blocks[0]
    &&& forall|x: int| 0 <= x < j ==> trim_end(group(jn, Some(#[trigger] e[x]))) == blocks[x + 1]
    &&& forall|k: Seq<char>| !e.take(j).contains(k) ==> #[trigger] group(jn, Some(k)) == Seq::<Seq<char>>::empty()
    &&& jn.len() > 0 ==> owner(jn, jn.len() - 1) == if j == 0 { None } else { Some(e[j - 1]) }
    &&& jn.len() == 0 ==> j == 0
}

proof fn lemma_block_facts(ls: Seq<Seq<char>>, k: Seq<char>)
    requires
        section_keys(ls).contains(k),
    ensures
        trim_end(group(ls, Some(k))).len() > 0,
        line_top(trim_end(group(ls, Some(k)))[0]) == Some(k),
        headers_of(trim_end(group(ls, Some(k))), k),
        trim_end(trim_end(group(ls, Some(k)))) == trim_end(group(ls, Some(k))),
{
    let n = ls.len() as int;
    let g = group(ls, Some(k));
    lemma_key_has_group(ls, k, n);
    lemma_group_start(ls, k, n);
    lemma_group_headers(ls, k, n);
    lemma_header_not_blank(g[0]);
    lemma_trim_end(g);
    let t = trim_end(g);
    assert(t[0] == g[0]);
    assert forall|j: int| 0 <= j < t.len() && (#[trigger] line_top(t[j])) is Some implies line_top(t[j]) == Some(k) by {
        assert(t[j] == g[j]);
    }
}

proof fn lemma_join_step(
    ls: Seq<Seq<char>>,
    e: Seq<Seq<char>>,
    blocks: Seq<Seq<Seq<char>>>,
    jn: Seq<Seq<char>>,
    j: int,
)
    requires
        0 <= j < e.len(),
        e.no_duplicates(),
        blocks.len() == e.len() + 1,
        blocks[j + 1] == trim_end(group(ls, Some(e[j]))),
        section_keys(ls).contains(e[j]),
        joined_inv(ls, e, blocks, jn, j),
    ensures
        joined_inv(
            ls,
            e,
            blocks,
            if jn.len() == 0 {
                blocks[j + 1]
            } else {
                jn + seq![Seq::<char>::empty()] + blocks[j + 1]
            },
            j + 1,
        ),
{
    let b = blocks[j + 1];
    let k = e[j];
    lemma_block_facts(ls, k);
    let a = if jn.len() == 0 {
        Seq::<Seq<char>>::empty()
    } else {
        jn + seq![Seq::<char>::empty()]
    };
    let nj = a + b;
    if jn.len() == 0 {
        assert(nj =~= b);
    }
    assert(!e.take(j).contains(k)) by {
        if e.take(j).contains(k) {
            let y = choose|y: int| 0 <= y < e.take(j).len() && e.take(j)[y] == k;
            assert(e[y] == e[j]);
        }
    }
    assert(e.take(j + 1) =~= e.take(j).push(k));
    if jn.len() > 0 {
        lemma_group_sep(jn, None);
    }
    // keys
    lemma_keys_block(a, b, k, b.len() as int);
    if jn.len() == 0 {
        assert(keys_upto(a, 0) =~= Seq::<Seq<char>>::empty());
    }
    assert(section_keys(nj) == e.take(j + 1));
    lemma_runs_block(a, b, k, b.len() as int);
    if jn.len() == 0 {
        assert(runs_upto(a, 0) =~= Seq::<Seq<char>>::empty());
    } else {
        if j > 0 {
            assert(e[j - 1] != e[j]);
        }
    }
    assert(section_runs(nj) == e.take(j + 1));
    // groups
    assert forall|kk: Option<Seq<char>>| #[trigger] group(nj, kk) == group(a, kk) + if kk == Some(k) {
        b
    } else {
        Seq::<Seq<char>>::empty()
    } by {
        lemma_group_block(a, b, k, kk, b.len() as int);
        assert(b.take(b.len() as int) =~= b);
    }
    assert forall|kk: Option<Seq<char>>| kk != Some(k) implies #[trigger] trim_end(group(nj, kk)) == trim_end(group(jn, kk)) by {
        assert(group(a, kk) + Seq::<Seq<char>>::empty() =~= group(a, kk));
        if jn.len() == 0 {
            assert(group_upto(a, kk, 0) =~= Seq::<Seq<char>>::empty());
            assert(group(jn, kk) =~= Seq::<Seq<char>>::empty());
        } else {
            lemma_group_sep(jn, kk);
            if owner(jn, jn.len() - 1) == kk {
                assert(group(jn, kk) + seq![Seq::<char>::empty()] =~= group(jn, kk).push(Seq::<char>::empty()));
                lemma_trim_end(group(jn, kk));
            } else {
                assert(group(jn, kk) + Seq::<Seq<char>>::empty() =~= group(jn, kk));
            }
        }
    }
    // the new key
    assert(group(nj, Some(k)) == b) by {
        if jn.len() == 0 {
            assert(group_upto(a, Some(k), 0) =~= Seq::<Seq<char>>::empty());
            assert(group(a, Some(k)) + b =~= b);
        } else {
            lemma_group_sep(jn, Some(k));
            assert(group(jn, Some(k)) == Seq::<Seq<char>>::empty());
            if j > 0 {
                assert(e[j - 1] != e[j]);
            }
            assert(owner(jn, jn.len() - 1) != Some(k));
            assert(group(a, Some(k)) =~= Seq::<Seq<char>>::empty());
            assert(group(a, Some(k)) + b =~= b);
        }
    }
    assert forall|x: int| 0 <= x < j + 1 implies trim_end(group(nj, Some(#[trigger] e[x]))) == blocks[x + 1] by {
        if x < j {
            assert(e[x] != e[j]);
        }
    }
    assert forall|kk: Seq<char>| !e.take(j + 1).contains(kk) implies #[trigger] group(nj, Some(kk)) == Seq::<Seq<char>>::empty() by {
        assert(kk != k) by {
            assert(e.take(j + 1)[j] == k);
        }
        assert(!e.take(j).contains(kk)) by {
            if e.take(j).contains(kk) {
                let y = choose|y: int| 0 <= y < e.take(j).len() && e.take(j)[y] == kk;
                assert(e.take(j + 1)[y] == kk);
            }
        }
        if jn.len() == 0 {
            assert(group_upto(a, Some(kk), 0) =~= Seq::<Seq<char>>::empty());
        } else {
            lemma_group_sep(jn, Some(kk));
            if j > 0 {
                assert(e.take(j + 1)[j - 1] == e[j - 1]);
            }
            assert(group(a, Some(kk)) =~= Seq::<Seq<char>>::empty());
        }
        assert(group(a, Some(kk)) + Seq::<Seq<char>>::empty() =~= group(a, Some(kk)));
    }
    lemma_owner_in_block(a, b, k, b.len() - 1);
    assert(nj.len() > 0);
}

proof fn lemma_join_upto(ls: Seq<Seq<char>>, order: Seq<Seq<char>>, j: int)
    requires
        order.no_duplicates(),
        0 <= j <= canonical_order(section_keys(ls), order).len(),
    ensures
        ({
            let e = canonical_order(section_keys(ls), order);
            let blocks = section_blocks(ls, e);
            joined_inv(ls, e, blocks, join_blocks(blocks.take(j + 1)), j)
        }),
    decreases j,
{
    let keys = section_keys(ls);
    let e = canonical_order(keys, order);
    let blocks = section_blocks(ls, e);
    lemma_keys_no_dup(ls, ls.len() as int);
    lemma_canonical_order_no_dup(keys, order);
    assert(blocks.len() == e.len() + 1);
    if j == 0 {
        let p = blocks[0];
        let g = group(ls, None);
        lemma_preamble_headers(ls, ls.len() as int);
        lemma_trim_end(g);
        assert forall|x: int| 0 <= x < p.len() implies (#[trigger] line_top(p[x])) is None by {
            assert(p[x] == g[x]);
        }
        lemma_no_headers(p, p.len() as int);
        assert(p.take(p.len() as int) =~= p);
        assert(blocks.take(1).drop_last() =~= Seq::<Seq<Seq<char>>>::empty());
        assert(join_blocks(Seq::<Seq<Seq<char>>>::empty()) == Seq::<Seq<char>>::empty());
        assert(join_blocks(blocks.take(1)) == p);
        assert(e.take(0) =~= Seq::<Seq<char>>::empty());
        assert forall|k: Seq<char>| !e.take(0).contains(k) implies #[trigger] group(p, Some(k)) == Seq::<Seq<char>>::empty() by {
        }
    } else {
        lemma_join_upto(ls, order, j - 1);
        lemma_canonical_order_contains(keys, order, e[j - 1]);
        assert(blocks[j] == trim_end(group(ls, Some(e[j - 1]))));
        lemma_join_step(ls, e, blocks, join_blocks(blocks.take(j)), j - 1);
        lemma_block_facts(ls, e[j - 1]);
        assert(blocks.take(j + 1).drop_last() =~= blocks.take(j));
        assert(blocks.take(j + 1).last() == blocks[j]);
    }
}

/// Grouping: when regrouping changes a manifest, the result names each
/// top-level key once, in canonical order, and the lines before the first
/// header as well as the lines of every top-level key (its header, its
/// dotted sub-sections wherever they stood, and their contents) come out in
/// their group, in their order, up to trailing blank lines.
pub proof fn lemma_regroup_groups(ls: Seq<Seq<char>>, order: Seq<Seq<char>>)
    requires
        order.no_duplicates(),
    ensures
        regrouped(ls, order) matches Some(out) ==> {
            &&& section_keys(out) == canonical_order(section_keys(ls), order)
            &&& section_runs(out) == canonical_order(section_keys(ls), order)
            &&& trim_end(group(out, None)) == trim_end(group(ls, None))
            &&& forall|k: Seq<char>| #[trigger] section_keys(ls).contains(k) ==> trim_end(group(out, Some(k)))
                == trim_end(group(ls, Some(k)))
        },
{
    let keys = section_keys(ls);
    let e = canonical_order(keys, order);
    let blocks = section_blocks(ls, e);
    if e != section_runs(ls) {
        lemma_join_upto(ls, order, e.len() as int);
        assert(blocks.take(e.len() as int + 1) =~= blocks);
        assert(e.take(e.len() as int) =~= e);
        let out = join_blocks(blocks);
        assert forall|k: Seq<char>| #[trigger] keys.contains(k) implies trim_end(group(out, Some(k)))
            == trim_end(group(ls, Some(k))) by {
            lemma_canonical_order_contains(keys, order, k);
            let x = choose|x: int| 0 <= x < e.len() && e[x] == k;
            assert(blocks[x + 1] == trim_end(group(ls, Some(e[x]))));
            lemma_trim_end(group(ls, Some(k)));
        }
        lemma_trim_end(group(ls, None));
    }
}

/// Regrouping is idempotent: regrouping what a regrouping produced finds
/// the sections already in canonical order and changes nothing.
pub proof fn lemma_regroup_idempotent(ls: Seq<Seq<char>>, order: Seq<Seq<char>>)
    requires
        order.no_duplicates(),
    ensures
        regrouped(ls, order) matches Some(out) ==> regrouped(out, order) is None,
{
    lemma_regroup_groups(ls, order);
    lemma_canonical_order_idempotent(section_keys(ls), order);
}

proof fn lemma_line_in_group(ls: Seq<Seq<char>>, i: int, n: int)
    requires
        0 <= i < n <= ls.len(),
    ensures
        exists|p: int| 0 <= p < group_upto(ls, owner(ls, i), n).len() && #[trigger] group_upto(ls, owner(ls, i), n)[p] == ls[i],
    decreases n,
{
    if i < n - 1 {
        lemma_line_in_group(ls, i, n - 1);
        let g = group_upto(ls, owner(ls, i), n - 1);
        let p = choose|p: int| 0 <= p < g.len() && #[trigger] g[p] == ls[i];
        assert(group_upto(ls, owner(ls, i), n)[p] == ls[i]);
    } else {
        let g = group_upto(ls, owner(ls, i), n);
        assert(g[g.len() - 1] == ls[i]);
    }
}

proof fn lemma_owner_key(ls: Seq<Seq<char>>, i: int, n: int)
    requires
        0 <= i < n <= ls.len(),
        owner(ls, i) is Some,
    ensures
        keys_upto(ls, n).contains(owner(ls, i)->0),
    decreases n,
{
    let k = owner(ls, i)->0;
    if i < n - 1 {
        lemma_owner_key(ls, i, n - 1);
        let ks = keys_upto(ls, n - 1);
        let x = choose|x: int| 0 <= x < ks.len() && ks[x] == k;
        if keys_upto(ls, n) != ks {
            assert(keys_upto(ls, n)[x] == k);
        }
    } else {
        if line_top(ls[i]) is Some {
            let ks = keys_upto(ls, i);
            if !ks.contains(k) {
                assert(ks.push(k)[ks.len() as int] == k);
            }
        } else {
            lemma_owner_key(ls, i - 1, i);
            let ks = keys_upto(ls, i);
            assert(keys_upto(ls, n) == ks);
        }
    }
}

proof fn lemma_group_in(s: Seq<Seq<char>>, kk: Option<Seq<char>>, n: int, p: int)
    requires
        0 <= p < group_upto(s, kk, n).len(),
    ensures
        s.contains(group_upto(s, kk, n)[p]),
    decreases n,
{
    if n > 0 && n <= s.len() {
        if p < group_upto(s, kk, n - 1).len() {
            lemma_group_in(s, kk, n - 1, p);
        } else {
            assert(group_upto(s, kk, n)[p] == s[n - 1]);
        }
    }
}

proof fn lemma_trim_keeps(g: Seq<Seq<char>>, p: int)
    requires
        0 <= p < g.len(),
        !is_blank(g[p]),
    ensures
        p < trim_end(g).len(),
    decreases g.len(),
{
    if is_blank(g.last()) {
        lemma_trim_keeps(g.drop_last(), p);
    }
}

/// No line is lost: every line of the manifest that is not blank (every
/// header, entry and comment, standalone or after a value) is in the
/// regrouped text, as it was.
pub proof fn lemma_regroup_keeps_lines(ls: Seq<Seq<char>>, order: Seq<Seq<char>>, i: int)
    requires
        order.no_duplicates(),
        0 <= i < ls.len(),
        !is_blank(ls[i]),
    ensures
        regrouped(ls, order) matches Some(out) ==> out.contains(ls[i]),
{
    lemma_regroup_groups(ls, order);
    if regrouped(ls, order) is Some {
        let out = regrouped(ls, order)->0;
        let kk = owner(ls, i);
        let n = ls.len() as int;
        lemma_line_in_group(ls, i, n);
        let g = group(ls, kk);
        let p = choose|p: int| 0 <= p < g.len() && #[trigger] g[p] == ls[i];
        lemma_trim_keeps(g, p);
        lemma_trim_end(g);
        if kk is Some {
            lemma_owner_key(ls, i, n);
        }
        let go = group(out, kk);
        lemma_trim_end(go);
        assert(trim_end(go) == trim_end(g));
        assert(trim_end(g)[p] == g[p]);
        assert(go[p] == trim_end(go)[p]);
        lemma_group_in(out, kk, out.len() as int, p);
    }
}

/// A line without a line feed.
pub open spec fn single_line(l: Seq<char>) -> bool {
    forall|j: int| 0 <= j < l.len() ==> l[j] != '\n'
}

proof fn lemma_text_of_front(ls: Seq<Seq<char>>)
    requires
        ls.len() > 0,
    ensures
        text_of(ls) == ls[0] + seq!['\n'] + text_of(ls.drop_first()),
    decreases ls.len(),
{
    if ls.len() == 1 {
        assert(ls.drop_last() =~= Seq::<Seq<char>>::empty());
        assert(ls.drop_first() =~= Seq::<Seq<char>>::empty());
        assert(text_of(ls.drop_last()) =~= Seq::<char>::empty());
        assert(text_of(ls.drop_first()) =~= Seq::<char>::empty());
        assert(ls.last() == ls[0]);
        assert(Seq::<char>::empty() + ls[0] =~= ls[0]);
        assert(text_of(ls) =~= ls[0] + seq!['\n']);
        assert(ls[0] + seq!['\n'] + Seq::<char>::empty() =~= ls[0] + seq!['\n']);
    } else {
        lemma_text_of_front(ls.drop_last());
        assert(ls.drop_last().drop_first() =~= ls.drop_first().drop_last());
        assert(ls.drop_last()[0] == ls[0]);
        assert(ls.drop_first().last() == ls.last());
        assert(text_of(ls) =~= ls[0] + seq!['\n'] + text_of(ls.drop_first()));
    }
}

/// Joining lines that hold no line feed and splitting the text again gives
/// the same lines.
pub proof fn lemma_lines_of_text(ls: Seq<Seq<char>>)
    requires
        forall|i: int| 0 <= i < ls.len() ==> single_line(#[trigger] ls[i]),
    ensures
        lines_of(text_of(ls)) == ls,
    decreases ls.len(),
{
    if ls.len() == 0 {
        assert(lines_of(text_of(ls)) =~= ls);
    } else {
        lemma_text_of_front(ls);
        let l = ls[0];
        let r = ls.drop_first();
        let t = text_of(ls);
        assert(single_line(l));
        lemma_lines_of_text(r);
        lemma_find_char(t, '\n', 0);
        assert(t[l.len() as int] == '\n');
        assert forall|j: int| 0 <= j < l.len() implies t[j] != '\n' by {
            assert(t[j] == l[j]);
        }
        assert(find_char(t, '\n', 0) == l.len());
        assert(t.subrange(0, l.len() as int) =~= l);
        assert(t.subrange(l.len() as int + 1, t.len() as int) =~= text_of(r));
        assert(lines_of(t) =~= seq![l] + r);
        assert(seq![l] + r =~= ls);
    }
}

proof fn lemma_lines_single(s: Seq<char>)
    ensures
        forall|i: int| 0 <= i < lines_of(s).len() ==> single_line(#[trigger] lines_of(s)[i]),
    decreases s.len(),
{
    if s.len() > 0 {
        let e = find_char(s, '\n', 0);
        lemma_find_char(s, '\n', 0);
        if e < s.len() {
            lemma_lines_single(s.subrange(e + 1, s.len() as int));
            assert forall|i: int| 0 <= i < lines_of(s).len() implies single_line(#[trigger] lines_of(s)[i]) by {
                if i > 0 {
                    assert(lines_of(s)[i] == lines_of(s.subrange(e + 1, s.len() as int))[i - 1]);
                }
            }
        }
    }
}

proof fn lemma_join_single(bs: Seq<Seq<Seq<char>>>)
    requires
        forall|b: int, i: int| 0 <= b < bs.len() && 0 <= i < bs[b].len() ==> single_line(#[trigger] bs[b][i]),
    ensures
        forall|i: int| 0 <= i < join_blocks(bs).len() ==> single_line(#[trigger] join_blocks(bs)[i]),
    decreases bs.len(),
{
    if bs.len() > 0 {
        let d = bs.drop_last();
        assert forall|b: int, i: int| 0 <= b < d.len() && 0 <= i < d[b].len() implies single_line(#[trigger] d[b][i]) by {
            assert(d[b] == bs[b]);
        }
        lemma_join_single(d);
        let acc = join_blocks(d);
        let last = bs.last();
        assert forall|i: int| 0 <= i < join_blocks(bs).len() implies single_line(#[trigger] join_blocks(bs)[i]) by {
            if last.len() > 0 && acc.len() > 0 {
                let jn = acc + seq![Seq::<char>::empty()] + last;
                if i < acc.len() {
                    assert(jn[i] == acc[i]);
                } else if i == acc.len() {
                    assert(jn[i] == Seq::<char>::empty());
                } else {
                    assert(jn[i] == last[i - acc.len() - 1]);
                    assert(single_line(bs[bs.len() - 1][i - acc.len() - 1]));
                }
            } else if last.len() > 0 {
                assert(single_line(bs[bs.len() - 1][i]));
            }
        }
    }
}

/// The lines of a regrouped text split back into the same lines.
proof fn lemma_regrouped_text_lines(text: Seq<char>, order: Seq<Seq<char>>)
    ensures
        regrouped(lines_of(text), order) matches Some(out) ==> lines_of(text_of(out)) == out,
{
    let ls = lines_of(text);
    if regrouped(ls, order) is Some {
        let keys = section_keys(ls);
        let e = canonical_order(keys, order);
        let blocks = section_blocks(ls, e);
        lemma_lines_single(text);
        assert forall|b: int, i: int| 0 <= b < blocks.len() && 0 <= i < blocks[b].len() implies single_line(#[trigger] blocks[b][i]) by {
            let kk = if b == 0 { None } else { Some(e[b - 1]) };
            let g = group(ls, kk);
            assert(blocks[b] == trim_end(g));
            lemma_trim_end(g);
            assert(blocks[b][i] == g[i]);
            lemma_group_in(ls, kk, ls.len() as int, i);
        }
        lemma_join_single(blocks);
        lemma_lines_of_text(join_blocks(blocks));
    }
}

/// Regrouping a text is idempotent: the text that a regrouping produced is
/// already in canonical order, so regrouping it again changes nothing.
pub proof fn lemma_regroup_text_idempotent(text: Seq<char>, order: Seq<Seq<char>>)
    requires
        order.no_duplicates(),
    ensures
        regrouped(lines_of(text), order) matches Some(out) ==> regrouped(lines_of(text_of(out)), order) is None,
{
    lemma_regroup_idempotent(lines_of(text), order);
    lemma_regrouped_text_lines(text, order);
}

/// No line of a text is lost: every line that is not blank (every header,
/// entry and comment, standalone or after a value) is a line of the
/// regrouped text, as it was.
pub proof fn lemma_regroup_text_keeps_lines(text: Seq<char>, order: Seq<Seq<char>>, i: int)
    requires
        order.no_duplicates(),
        0 <= i < lines_of(text).len(),
        !is_blank(lines_of(text)[i]),
    ensures
        regrouped(lines_of(text), order) matches Some(out) ==> lines_of(text_of(out)).contains(lines_of(text)[i]),
{
    lemma_regroup_keeps_lines(lines_of(text), order, i);
    lemma_regrouped_text_lines(text, order);
}

} // verus!
